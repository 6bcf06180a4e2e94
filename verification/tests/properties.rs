use louds::{BitIndex, Louds, NodeId, TreeNode};

const ELEVEN: &str = "10_1110_10_0_1110_0_0_10_110_0_0_0";
const ENTRIES: [u64; 11] = [0, 2, 3, 4, 6, 9, 10, 11, 15, 17, 18];

// Round trip: bfs_rank after bfs_select is the identity on node ranks, and
// bfs_select after bfs_rank is the identity on entry positions.
#[test]
fn round_trip_rank_select() {
    let l = Louds::from_str(ELEVEN);
    for i in 1u64..=11 {
        let x = l.bfs_select(NodeId(i)).unwrap();
        assert_eq!(l.bfs_rank(x), NodeId(i));
    }
    for &e in ENTRIES.iter() {
        let i = l.bfs_rank(BitIndex(e));
        assert_eq!(l.bfs_select(i), Some(BitIndex(e)));
    }
}

// Edge count: a tree with n nodes encodes to n zero-bits and n - 1 one-bits.
#[test]
fn edge_counts() {
    // Depth-3 tree with 6 nodes: root -> (a -> (c, d), b -> (e)).
    let c = TreeNode { children: vec![] };
    let d = TreeNode { children: vec![] };
    let e = TreeNode { children: vec![] };
    let a = TreeNode { children: vec![c, d] };
    let b = TreeNode { children: vec![e] };
    let root = TreeNode { children: vec![a, b] };
    let bits = root.encode();
    let zeros = bits.iter().filter(|&&v| !v).count();
    let ones = bits.iter().filter(|&&v| v).count();
    assert_eq!(zeros, 6);
    assert_eq!(ones, 5);
}

// A tree with only a root encodes to the single block "0".
#[test]
fn edge_counts_single() {
    let root = TreeNode { children: vec![] };
    let bits = root.encode();
    assert_eq!(bits, vec![false]);
}

// Degree/child-list consistency: degree equals the length of the sibling
// chain starting from the first child.
#[test]
fn degree_matches_sibling_chain() {
    let l = Louds::from_str(ELEVEN);
    for &e in ENTRIES.iter() {
        let mut chain = 0u64;
        let mut cursor = l.first_child(BitIndex(e));
        while let Some(c) = cursor {
            chain += 1;
            cursor = l.sibling(c);
        }
        assert_eq!(l.degree(BitIndex(e)), chain);
    }
}

// Leaf equivalence: is_leaf, an absent first child, and degree zero coincide.
#[test]
fn leaf_equivalence() {
    let l = Louds::from_str(ELEVEN);
    for &e in ENTRIES.iter() {
        let leaf = l.is_leaf(BitIndex(e));
        assert_eq!(leaf, l.first_child(BitIndex(e)).is_none());
        assert_eq!(leaf, l.last_child(BitIndex(e)).is_none());
        assert_eq!(leaf, l.degree(BitIndex(e)) == 0);
    }
}

// Parent/child duality: child(parent(x), child_rank(x) - 1) == x.
#[test]
fn parent_child_duality() {
    let l = Louds::from_str(ELEVEN);
    for &e in ENTRIES.iter() {
        match l.parent(BitIndex(e)) {
            Some(p) => {
                let k = l.child_rank(BitIndex(e)).unwrap();
                assert!(k >= 1);
                assert_eq!(l.child(p, k - 1), Some(BitIndex(e)));
            }
            None => assert_eq!(e, 0),
        }
    }
}
