use louds::{BitIndex, Louds, NodeId};

const ELEVEN: &str = "10_1110_10_0_1110_0_0_10_110_0_0_0";

// The checked variants agree with the unchecked operations on valid inputs.
#[test]
fn checked_agrees_with_unchecked() {
    let l = Louds::from_str(ELEVEN);
    let entries = [0u64, 2, 3, 4, 6, 9, 10, 11, 15, 17, 18];
    for &e in entries.iter() {
        let x = BitIndex(e);
        assert_eq!(l.checked_is_leaf(x), Ok(l.is_leaf(x)));
        assert_eq!(l.checked_parent(x), Ok(l.parent(x)));
        assert_eq!(l.checked_first_child(x), Ok(l.first_child(x)));
        assert_eq!(l.checked_last_child(x), Ok(l.last_child(x)));
        assert_eq!(l.checked_sibling(x), Ok(l.sibling(x)));
        assert_eq!(l.checked_degree(x), Ok(l.degree(x)));
        assert_eq!(l.checked_child(x, 0), Ok(l.child(x, 0)));
        assert_eq!(l.checked_child(x, 5), Ok(l.child(x, 5)));
        assert_eq!(l.checked_child_rank(x), Ok(l.child_rank(x)));
    }
    for i in 1u64..=11 {
        assert_eq!(l.checked_depth(NodeId(i)), Ok(l.depth(NodeId(i))));
        for j in 1u64..=11 {
            assert_eq!(l.checked_lca(NodeId(i), NodeId(j)), Ok(l.lca(NodeId(i), NodeId(j))));
        }
    }
}

// The checked variants report misuse instead of leaving it undefined: a
// position that is no entry bit, a rank past the node count, and a sequence
// that is no LOUDS encoding are all rejected.
#[test]
fn checked_rejects_misuse() {
    let l = Louds::from_str(ELEVEN);
    // Position 1 is the virtual root's terminator, position 5 a block
    // terminator, position 23 past the end: none is an entry bit.
    for bad in [1u64, 5, 23, 1000] {
        let x = BitIndex(bad);
        assert!(l.checked_is_leaf(x).is_err());
        assert!(l.checked_parent(x).is_err());
        assert!(l.checked_first_child(x).is_err());
        assert!(l.checked_last_child(x).is_err());
        assert!(l.checked_sibling(x).is_err());
        assert!(l.checked_degree(x).is_err());
        assert!(l.checked_child(x, 0).is_err());
        assert!(l.checked_child_rank(x).is_err());
    }
    assert!(l.checked_depth(NodeId(0)).is_err());
    assert!(l.checked_depth(NodeId(12)).is_err());
    assert!(l.checked_lca(NodeId(1), NodeId(12)).is_err());
    assert!(l.checked_lca(NodeId(0), NodeId(3)).is_err());
}

#[test]
fn checked_rejects_malformed_sequence() {
    // Two roots: not a LOUDS encoding of a single tree.
    let l = Louds::from_str("110_0_0_0");
    assert!(l.checked_is_leaf(BitIndex(0)).is_err());
    assert!(l.checked_degree(BitIndex(0)).is_err());
    assert!(l.checked_depth(NodeId(1)).is_err());
    assert!(l.checked_lca(NodeId(1), NodeId(2)).is_err());
}

#[test]
fn validity_queries() {
    let l = Louds::from_str(ELEVEN);
    assert!(l.is_entry_at(BitIndex(0)));
    assert!(l.is_entry_at(BitIndex(9)));
    assert!(!l.is_entry_at(BitIndex(1)));
    assert!(!l.is_entry_at(BitIndex(23)));
    assert!(l.is_node_rank(NodeId(1)));
    assert!(l.is_node_rank(NodeId(11)));
    assert!(!l.is_node_rank(NodeId(0)));
    assert!(!l.is_node_rank(NodeId(12)));
}
