use louds::{BitIndex, Louds, NodeId};

// Scenario: literal "10_0" — the virtual root with one leaf child.
#[test]
fn scenario_single_node() {
    let l = Louds::from_str("10_0");
    assert!(l.well_formed());
    assert_eq!(l.bfs_select(NodeId(1)), Some(BitIndex(0)));
    assert_eq!(l.first_child_select(NodeId(1)), Some(BitIndex(2)));
    assert!(l.is_leaf(BitIndex(2)));
}

// Scenario: an 11-node tree.
//   1 -> 2, 3, 4;  2 -> 5;  4 -> 6, 7, 8;  7 -> 9;  8 -> 10, 11
const ELEVEN: &str = "10_1110_10_0_1110_0_0_10_110_0_0_0";

#[test]
fn scenario_eleven_degree() {
    let l = Louds::from_str(ELEVEN);
    assert!(l.well_formed());
    assert_eq!(l.degree(BitIndex(4)), 3);
    assert_eq!(l.first_child(BitIndex(4)), Some(BitIndex(9)));
    assert_eq!(l.last_child(BitIndex(4)), Some(BitIndex(11)));
}

#[test]
fn scenario_eleven_siblings() {
    let l = Louds::from_str(ELEVEN);
    assert_eq!(l.sibling(BitIndex(2)), Some(BitIndex(3)));
    assert_eq!(l.sibling(BitIndex(3)), Some(BitIndex(4)));
    assert_eq!(l.sibling(BitIndex(4)), None);
}

#[test]
fn scenario_eleven_navigation() {
    let l = Louds::from_str(ELEVEN);
    // Entry positions of nodes 1..=11 in breadth-first order.
    let entries = [0u64, 2, 3, 4, 6, 9, 10, 11, 15, 17, 18];
    for (k, &e) in entries.iter().enumerate() {
        assert_eq!(l.bfs_rank(BitIndex(e)), NodeId(k as u64 + 1));
        assert_eq!(l.bfs_select(NodeId(k as u64 + 1)), Some(BitIndex(e)));
    }
    // Children of node 1.
    assert_eq!(l.child(BitIndex(0), 0), Some(BitIndex(2)));
    assert_eq!(l.child(BitIndex(0), 1), Some(BitIndex(3)));
    assert_eq!(l.child(BitIndex(0), 2), Some(BitIndex(4)));
    assert_eq!(l.child(BitIndex(0), 3), None);
    // Parent steps.
    assert_eq!(l.parent(BitIndex(9)), Some(BitIndex(4)));
    assert_eq!(l.parent(BitIndex(4)), Some(BitIndex(0)));
    assert_eq!(l.parent_rank(BitIndex(9)), NodeId(4));
    // Child ranks of node 4's children (nodes 6, 7, 8).
    assert_eq!(l.child_rank(BitIndex(9)), Some(1));
    assert_eq!(l.child_rank(BitIndex(10)), Some(2));
    assert_eq!(l.child_rank(BitIndex(11)), Some(3));
}

// Boundary behaviour: absences are results, not failures.
#[test]
fn boundary_absences() {
    let l = Louds::from_str(ELEVEN);
    // first_child on a leaf (node 3, entry at position 3) is absent.
    assert_eq!(l.first_child(BitIndex(3)), None);
    assert_eq!(l.last_child(BitIndex(3)), None);
    // sibling on the last child in a block is absent.
    assert_eq!(l.sibling(BitIndex(11)), None);
    // parent on the root is absent.
    assert_eq!(l.parent(BitIndex(0)), None);
    assert_eq!(l.child_rank(BitIndex(0)), None);
    // bfs_select beyond the node count is absent.
    assert_eq!(l.bfs_select(NodeId(12)), None);
    assert_eq!(l.bfs_select(NodeId(0)), None);
    assert_eq!(l.first_child_select(NodeId(0)), None);
    assert_eq!(l.first_child_select(NodeId(13)), None);
}

#[test]
fn from_str_discards_separators() {
    let plain = Louds::from_str("10111010011100010110000");
    let spaced = Louds::from_str("1_0_1110_10_0_1110_0_0_10_110_0_0_0_");
    // Same sequence: same navigation everywhere it is defined.
    assert_eq!(plain.bfs_select(NodeId(5)), spaced.bfs_select(NodeId(5)));
    assert_eq!(plain.degree(BitIndex(4)), spaced.degree(BitIndex(4)));
}
