//! Ordered trees held as explicit nodes, and their LOUDS encoding.
//!
//! `encode_forest` is the mathematical encoder: it consumes a queue of trees
//! breadth-first, emitting one unary degree block per node — the block of the
//! queue's first tree, then the blocks of the remaining trees and of that
//! first tree's children.  The executable encoder mirrors it with a worklist.

use crate::bits::{count, lemma_count_concat, lemma_count_le, lemma_count_prefix};
use crate::louds::wf;
use vstd::prelude::*;

verus! {

/// A node of an ordered tree: it holds nothing but its ordered children.
pub struct TreeNode {
    pub children: Vec<TreeNode>,
}

/// Number of nodes of the tree rooted at `t`.
pub open spec fn tree_size(t: TreeNode) -> nat
    decreases t,
{
    1 + forest_size(t.children@)
}

/// Total number of nodes of the trees of `q`.
pub open spec fn forest_size(q: Seq<TreeNode>) -> nat
    decreases q,
{
    if q.len() == 0 {
        0
    } else {
        tree_size(q[0]) + forest_size(q.subrange(1, q.len() as int))
    }
}

/// Unary degree block of a node with `d` children: `d` one-bits followed by
/// one zero-bit.
pub open spec fn block_bits(d: nat) -> Seq<bool> {
    Seq::new(d + 1, |j: int| j < d)
}

proof fn lemma_forest_size_concat(a: Seq<TreeNode>, b: Seq<TreeNode>)
    ensures
        forest_size(a + b) == forest_size(a) + forest_size(b),
    decreases a.len(),
{
    if a.len() == 0 {
        assert(a + b =~= b);
    } else {
        assert((a + b)[0] == a[0]);
        assert((a + b).subrange(1, (a + b).len() as int) =~= a.subrange(1, a.len() as int) + b);
        lemma_forest_size_concat(a.subrange(1, a.len() as int), b);
    }
}

/// Bits of the LOUDS encoding of the forest `q`, blocks in breadth-first
/// order.
pub open spec fn encode_forest(q: Seq<TreeNode>) -> Seq<bool>
    decreases forest_size(q),
    via encode_forest_decreases
{
    if q.len() == 0 {
        Seq::empty()
    } else {
        block_bits(q[0].children@.len()) + encode_forest(
            q.subrange(1, q.len() as int) + q[0].children@,
        )
    }
}

#[via_fn]
proof fn encode_forest_decreases(q: Seq<TreeNode>) {
    if q.len() != 0 {
        let sub = q.subrange(1, q.len() as int);
        let cs = q[0].children@;
        lemma_forest_size_concat(sub, cs);
        assert(forest_size(q) == tree_size(q[0]) + forest_size(sub));
        assert(tree_size(q[0]) == 1 + forest_size(cs));
        assert(forest_size(sub + cs) < forest_size(q));
    }
}

proof fn lemma_block_bits_counts(d: nat, i: int)
    requires
        0 <= i <= d + 1,
    ensures
        count(block_bits(d), true, i) == if i <= d {
            i
        } else {
            d as int
        },
        count(block_bits(d), false, i) == if i <= d {
            0int
        } else {
            1int
        },
    decreases i,
{
    if i > 0 {
        lemma_block_bits_counts(d, i - 1);
    }
}

/// Edge count of an encoded forest: one zero-bit per node (each node's block
/// terminator) and one one-bit per parent-to-child edge, that is one per node
/// that is not a root of the forest.  For a single tree with `n` nodes the
/// encoding thus holds exactly `n` zero-bits and `n - 1` one-bits.
pub proof fn lemma_encode_counts(q: Seq<TreeNode>)
    ensures
        count(encode_forest(q), false, encode_forest(q).len() as int) == forest_size(q),
        count(encode_forest(q), true, encode_forest(q).len() as int) + q.len() == forest_size(q),
        forest_size(q) >= q.len(),
    decreases forest_size(q),
{
    if q.len() != 0 {
        let d = q[0].children@.len();
        let blk = block_bits(d);
        let sub = q.subrange(1, q.len() as int);
        let q2 = sub + q[0].children@;
        lemma_forest_size_concat(sub, q[0].children@);
        assert(forest_size(q) == tree_size(q[0]) + forest_size(sub));
        assert(tree_size(q[0]) == 1 + forest_size(q[0].children@));
        assert(forest_size(q2) < forest_size(q));
        lemma_encode_counts(q2);
        lemma_block_bits_counts(d, d as int + 1);
        let e2 = encode_forest(q2);
        lemma_count_concat(blk, e2, true, e2.len() as int);
        lemma_count_concat(blk, e2, false, e2.len() as int);
        assert((blk + e2).len() == blk.len() + e2.len());
    }
}

proof fn lemma_encode_prefix(q: Seq<TreeNode>, i: int)
    requires
        q.len() >= 1,
        0 <= i < encode_forest(q).len(),
    ensures
        count(encode_forest(q), false, i) <= count(encode_forest(q), true, i) + q.len() - 1,
    decreases forest_size(q),
{
    let d = q[0].children@.len();
    let blk = block_bits(d);
    let sub = q.subrange(1, q.len() as int);
    let q2 = sub + q[0].children@;
    lemma_forest_size_concat(sub, q[0].children@);
    assert(forest_size(q) == tree_size(q[0]) + forest_size(sub));
    assert(tree_size(q[0]) == 1 + forest_size(q[0].children@));
    assert(encode_forest(q) == blk + encode_forest(q2));
    if i <= d {
        lemma_count_prefix(blk, encode_forest(q2), false, i);
        lemma_count_prefix(blk, encode_forest(q2), true, i);
        lemma_block_bits_counts(d, i);
    } else {
        let i2 = i - (d + 1);
        lemma_block_bits_counts(d, d as int + 1);
        lemma_count_concat(blk, encode_forest(q2), false, i2);
        lemma_count_concat(blk, encode_forest(q2), true, i2);
        assert(q2.len() >= 1);
        lemma_encode_prefix(q2, i2);
    }
}

/// The encoding of a tree whose outermost node has at most one child is a
/// well-formed LOUDS sequence: navigation may be applied to it.  (With two or
/// more children the outermost block would announce several roots.)
pub proof fn lemma_encode_wf(t: TreeNode)
    requires
        t.children@.len() <= 1,
    ensures
        wf(encode_forest(seq![t])),
{
    let q = seq![t];
    let s = encode_forest(q);
    let d = t.children@.len();
    let blk = block_bits(d);
    let sub = q.subrange(1, q.len() as int);
    let q2 = sub + t.children@;
    lemma_encode_counts(q);
    lemma_count_le(s, false, s.len() as int);
    assert(s.len() >= 1);
    assert forall|i: int| 0 <= i < s.len() implies #[trigger] count(s, false, i) <= count(
        s,
        true,
        i,
    ) by {
        lemma_encode_prefix(q, i);
    }
    assert(q[0] == t);
    assert(s == blk + encode_forest(q2));
    if d == 1 {
        assert(s[1] == blk[1]);
        assert(!blk[1]);
    } else {
        assert(q2 =~= Seq::<TreeNode>::empty());
        assert(s =~= blk);
        assert(s.len() == 1);
    }
}

impl TreeNode {
    /// LOUDS bits of the tree rooted at `self`: one unary degree block per
    /// node, in breadth-first order, this node's block first.
    pub fn encode(self) -> (bits: Vec<bool>)
        ensures
            bits@ == encode_forest(seq![self]),
    {
        let mut bits: Vec<bool> = Vec::new();
        let mut queue: Vec<TreeNode> = Vec::new();
        let ghost whole = seq![self];
        queue.push(self);
        proof {
            assert(queue@ =~= whole);
            assert(bits@ + encode_forest(queue@) =~= encode_forest(whole));
        }
        while queue.len() > 0
            invariant
                bits@ + encode_forest(queue@) == encode_forest(whole),
            decreases forest_size(queue@),
        {
            let ghost qpre = queue@;
            let ghost bpre = bits@;
            let node = queue.remove(0);
            proof {
                assert(queue@ =~= qpre.subrange(1, qpre.len() as int));
            }
            let TreeNode { children: mut cs } = node;
            let ghost cs0 = cs@;
            let d = cs.len();
            let mut j: usize = 0;
            while j < d
                invariant
                    j <= d,
                    bits@.len() == bpre.len() + j,
                    bpre =~= bits@.subrange(0, bpre.len() as int),
                    forall|k: int| bpre.len() <= k < bits@.len() ==> bits@[k],
                decreases d - j,
            {
                bits.push(true);
                j = j + 1;
            }
            bits.push(false);
            proof {
                assert(bits@ =~= bpre + block_bits(d as nat));
            }
            let ghost qmid = queue@;
            while cs.len() > 0
                invariant
                    queue@ + cs@ == qmid + cs0,
                decreases cs@.len(),
            {
                let ghost cspre = cs@;
                let c = cs.remove(0);
                queue.push(c);
                proof {
                    assert(queue@ + cs@ =~= qmid + cs0);
                }
            }
            proof {
                assert(queue@ =~= qmid + cs0);
                assert(queue@ =~= qpre.subrange(1, qpre.len() as int) + cs0);
                assert(encode_forest(qpre) == block_bits(d as nat) + encode_forest(queue@));
                assert(bits@ + encode_forest(queue@) =~= (bpre + block_bits(d as nat))
                    + encode_forest(queue@));
                assert((bpre + block_bits(d as nat)) + encode_forest(queue@) =~= bpre + (block_bits(
                    d as nat,
                ) + encode_forest(queue@)));
                lemma_forest_size_concat(qpre.subrange(1, qpre.len() as int), cs0);
                assert(cs0 == qpre[0].children@);
                assert(forest_size(qpre) == tree_size(qpre[0]) + forest_size(
                    qpre.subrange(1, qpre.len() as int),
                ));
                assert(tree_size(qpre[0]) == 1 + forest_size(cs0));
                assert(forest_size(queue@) < forest_size(qpre));
            }
        }
        proof {
            assert(bits@ + encode_forest(queue@) =~= bits@);
        }
        bits
    }
}

} // verus!
