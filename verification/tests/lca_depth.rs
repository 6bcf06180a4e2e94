use louds::{BitIndex, Louds, NodeId, TreeNode};

// A hand-built tree of depth 4 with branching factor 2, as both an explicit
// parent table and a LOUDS literal.
//
//   1 -> 2, 3;  2 -> 4, 5;  3 -> 6;  4 -> 7, 8;  7 -> 9
const DEEP: &str = "10_110_110_10_110_0_0_10_0_0";

// parent[i] is the parent of node i; entry 0 is unused and the root maps to 0.
const PARENT: [u64; 10] = [0, 0, 1, 1, 2, 2, 3, 4, 4, 7];

const DEPTH: [usize; 10] = [0, 0, 1, 1, 2, 2, 2, 3, 3, 4];

fn reference_lca(mut i: u64, mut j: u64) -> u64 {
    let mut ancestors_of_i = vec![];
    loop {
        ancestors_of_i.push(i);
        if i == 1 {
            break;
        }
        i = PARENT[i as usize];
    }
    loop {
        if ancestors_of_i.contains(&j) {
            return j;
        }
        j = PARENT[j as usize];
    }
}

#[test]
fn lca_matches_reference_for_every_pair() {
    let l = Louds::from_str(DEEP);
    assert!(l.well_formed());
    for i in 1u64..=9 {
        for j in 1u64..=9 {
            assert_eq!(l.lca(NodeId(i), NodeId(j)), NodeId(reference_lca(i, j)));
        }
    }
}

#[test]
fn depth_matches_reference() {
    let l = Louds::from_str(DEEP);
    for i in 1u64..=9 {
        assert_eq!(l.depth(NodeId(i)), DEPTH[i as usize]);
    }
}

#[test]
fn lca_of_node_with_itself() {
    let l = Louds::from_str(DEEP);
    assert_eq!(l.lca(NodeId(7), NodeId(7)), NodeId(7));
    assert_eq!(l.lca(NodeId(1), NodeId(1)), NodeId(1));
}

#[test]
fn encoded_tree_navigates_like_the_literal() {
    // The same tree built from explicit nodes; its encoder output is read
    // with the first block as the virtual root's, so the navigable tree is
    // the one under the outermost node.
    let n9 = TreeNode { children: vec![] };
    let n7 = TreeNode { children: vec![n9] };
    let n8 = TreeNode { children: vec![] };
    let n4 = TreeNode { children: vec![n7, n8] };
    let n5 = TreeNode { children: vec![] };
    let n6 = TreeNode { children: vec![] };
    let n2 = TreeNode { children: vec![n4, n5] };
    let n3 = TreeNode { children: vec![n6] };
    let n1 = TreeNode { children: vec![n2, n3] };
    let wrapper = TreeNode { children: vec![n1] };
    let enc = Louds::from_tree(wrapper);
    assert!(enc.well_formed());
    let lit = Louds::from_str(DEEP);
    for i in 1u64..=9 {
        assert_eq!(enc.bfs_select(NodeId(i)), lit.bfs_select(NodeId(i)));
        assert_eq!(enc.depth(NodeId(i)), lit.depth(NodeId(i)));
        let e = enc.bfs_select(NodeId(i)).unwrap();
        assert_eq!(enc.degree(e), lit.degree(e));
        assert_eq!(enc.parent(e), lit.parent(e));
    }
    for i in 1u64..=9 {
        for j in 1u64..=9 {
            assert_eq!(enc.lca(NodeId(i), NodeId(j)), NodeId(reference_lca(i, j)));
        }
    }
}
