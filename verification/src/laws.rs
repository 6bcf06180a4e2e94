//! The navigation algebra's laws, stated over the spec functions that the
//! executable operations' contracts use and proved once and for all.

use crate::bits::sel;
use crate::louds::{
    block_start, degree_of, entry_pos, is_entry, leaf_at, lemma_block_facts, lemma_entry_facts,
    lemma_entry_in_parent_block, lemma_node_facts, n_nodes, node_of, parent_id, wf,
};
use vstd::prelude::*;

verus! {

/// Round trip, first direction: taking the entry position of a valid node
/// rank and ranking it again gives the rank back — `bfs_rank` after
/// `bfs_select` is the identity on node ranks `1..=n`.
pub proof fn lemma_rank_after_select(s: Seq<bool>, i: int)
    requires
        wf(s),
        1 <= i <= n_nodes(s),
    ensures
        is_entry(s, entry_pos(s, i)),
        node_of(s, entry_pos(s, i)) == i,
{
    lemma_node_facts(s, i);
}

/// Round trip, second direction: ranking a valid entry position and selecting
/// that rank gives the position back — `bfs_select` after `bfs_rank` is the
/// identity on entry positions.
pub proof fn lemma_select_after_rank(s: Seq<bool>, x: int)
    requires
        wf(s),
        is_entry(s, x),
    ensures
        1 <= node_of(s, x) <= n_nodes(s),
        entry_pos(s, node_of(s, x)) == x,
{
    lemma_entry_facts(s, x);
}

/// Length of the run of consecutive one-bits starting at `x`.  Starting from
/// a node's first child, each step of the run is one `sibling` move, so this
/// is the length of the sibling chain that begins there.
pub open spec fn ones_run(s: Seq<bool>, x: int) -> nat
    decreases s.len() - x,
{
    if 0 <= x < s.len() && s[x] {
        1 + ones_run(s, x + 1)
    } else {
        0
    }
}

proof fn lemma_run_to_block_end(s: Seq<bool>, i: int, y: int)
    requires
        wf(s),
        1 <= i <= n_nodes(s),
        block_start(s, i) <= y <= block_start(s, i) + degree_of(s, i),
    ensures
        ones_run(s, y) == block_start(s, i) + degree_of(s, i) - y,
    decreases block_start(s, i) + degree_of(s, i) - y,
{
    lemma_block_facts(s, i);
    if y < block_start(s, i) + degree_of(s, i) {
        lemma_run_to_block_end(s, i, y + 1);
    }
}

/// Degree/child-list consistency: a node's degree equals the length of the
/// sibling chain that starts at its first child — the run of one-bits
/// opening its own block.  For a leaf both sides are zero.
pub proof fn lemma_degree_counts_siblings(s: Seq<bool>, x: int)
    requires
        wf(s),
        is_entry(s, x),
    ensures
        ones_run(s, block_start(s, node_of(s, x))) == degree_of(s, node_of(s, x)),
{
    lemma_entry_facts(s, x);
    lemma_block_facts(s, node_of(s, x));
    lemma_run_to_block_end(s, node_of(s, x), block_start(s, node_of(s, x)));
}

/// Leaf equivalence: a node is a leaf exactly when its first child is absent
/// (its own block opens with its terminator) and exactly when its degree is
/// zero.
pub proof fn lemma_leaf_equivalence(s: Seq<bool>, x: int)
    requires
        wf(s),
        is_entry(s, x),
    ensures
        leaf_at(s, x) <==> !s[block_start(s, node_of(s, x))],
        leaf_at(s, x) <==> degree_of(s, node_of(s, x)) == 0,
{
    crate::louds::lemma_leaf_iff_degree_zero(s, x);
}

/// Parent/child duality: a non-root node with entry position `x` and child
/// rank `k` (1-indexed, as `child_rank` returns it) is found again as the
/// `(k - 1)`-th (0-indexed) child of its parent: `k - 1` lies below the
/// parent's degree, and the parent's block start plus `k - 1` is `x` — which
/// is exactly what `child(parent(x), k - 1)` returns.
pub proof fn lemma_parent_child_duality(s: Seq<bool>, x: int)
    requires
        wf(s),
        is_entry(s, x),
        x >= 1,
    ensures
        ({
            let p = parent_id(s, x);
            let e = entry_pos(s, p);
            let k = x - sel(s, false, p);
            &&& 1 <= p <= n_nodes(s)
            &&& is_entry(s, e)
            &&& node_of(s, e) == p
            &&& 1 <= k
            &&& k - 1 < degree_of(s, p)
            &&& block_start(s, p) + (k - 1) == x
        }),
{
    lemma_entry_in_parent_block(s, x);
    lemma_node_facts(s, parent_id(s, x));
    lemma_block_facts(s, parent_id(s, x));
}

} // verus!
