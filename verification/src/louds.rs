//! LOUDS tree navigation over an indexed bit sequence.
//!
//! The sequence holds one unary degree block per node in breadth-first order:
//! a node with `d` children contributes `d` one-bits followed by one zero-bit.
//! The first block belongs to a virtual root, so that every navigable node is
//! some block's one-bit.  Node `i` (1-based, breadth-first) is identified with
//! the `i`-th one-bit — its entry bit inside its parent's block — and its own
//! block is the `(i + 1)`-th block.  Every navigation operation below reduces
//! to rank and select queries on that sequence.

use crate::bits::{
    count, is_occurrence, lemma_count_le, lemma_count_mono, lemma_occurrence_unique,
    lemma_sel_at_least, lemma_sel_before, lemma_sel_is_occurrence, lemma_sel_mono, sel,
};
use crate::fid::Fid;
use crate::tree::{encode_forest, TreeNode};
use vstd::prelude::*;

verus! {

/// 1-based breadth-first rank of a tree node; the root is node 1.
#[derive(Clone, Copy, PartialEq, Eq, Structural, Debug)]
pub struct NodeId(pub u64);

/// 0-based offset into the bit sequence identifying a node's entry bit.
#[derive(Clone, Copy, PartialEq, Eq, Structural, Debug)]
pub struct BitIndex(pub u64);

/// Number of navigable nodes: one per one-bit.
pub open spec fn n_nodes(s: Seq<bool>) -> nat {
    count(s, true, s.len() as int)
}

/// Number of blocks: one per zero-bit (the virtual root's block included).
pub open spec fn n_blocks(s: Seq<bool>) -> nat {
    count(s, false, s.len() as int)
}

/// `x` is the entry bit of some node.
pub open spec fn is_entry(s: Seq<bool>, x: int) -> bool {
    0 <= x < s.len() && s[x]
}

/// Breadth-first rank of the node whose entry bit is at position `x`.
pub open spec fn node_of(s: Seq<bool>, x: int) -> int {
    count(s, true, x + 1) as int
}

/// Entry-bit position of node `i`: the `i`-th one-bit.
pub open spec fn entry_pos(s: Seq<bool>, i: int) -> int {
    sel(s, true, i)
}

/// First position of node `i`'s own block, which starts right after the
/// `i`-th zero-bit.
pub open spec fn block_start(s: Seq<bool>, i: int) -> int {
    sel(s, false, i) + 1
}

/// Position of the zero-bit terminating node `i`'s own block.
pub open spec fn block_end(s: Seq<bool>, i: int) -> int {
    sel(s, false, i + 1)
}

/// Breadth-first rank of the parent of the node whose entry bit is at `x`:
/// the number of complete blocks before `x`.
pub open spec fn parent_id(s: Seq<bool>, x: int) -> int {
    count(s, false, x) as int
}

/// Number of children of node `i`: the one-bits of its own block.
pub open spec fn degree_of(s: Seq<bool>, i: int) -> int {
    block_end(s, i) - block_start(s, i)
}

/// The node whose entry bit is at `x` has no children: its own block opens
/// with its terminating zero-bit.
pub open spec fn leaf_at(s: Seq<bool>, x: int) -> bool {
    !s[block_start(s, node_of(s, x))]
}

/// The sequence is a well-formed LOUDS encoding of a single tree: it is
/// non-empty, the virtual root has exactly one child (the real root), there
/// is exactly one more block than there are nodes, and no prefix closes more
/// blocks than it has opened entries for — which places every node's entry
/// bit before its own block.
pub open spec fn wf(s: Seq<bool>) -> bool {
    &&& s.len() >= 1
    &&& s.len() >= 2 ==> !s[1]
    &&& n_blocks(s) == n_nodes(s) + 1
    &&& forall|i: int| 0 <= i < s.len() ==> #[trigger] count(s, false, i) <= count(s, true, i)
}

/// Depth of node `i`: 0 for the root, one more than its parent's otherwise.
pub open spec fn depth_of(s: Seq<bool>, i: int) -> nat
    decreases i,
{
    if i <= 1 {
        0
    } else {
        let p = parent_id(s, entry_pos(s, i));
        if 1 <= p < i {
            1 + depth_of(s, p)
        } else {
            0
        }
    }
}

/// Lowest common ancestor of nodes `a` and `b`: repeatedly replace the larger
/// of the two by its parent (breadth-first ranks place every ancestor below
/// its descendants) until the two meet.
pub open spec fn lca_of(s: Seq<bool>, a: int, b: int) -> int
    decreases a + b,
{
    if a < 1 || b < 1 {
        0
    } else if a == b {
        a
    } else if a < b {
        let p = parent_id(s, entry_pos(s, b));
        if 1 <= p < b {
            lca_of(s, a, p)
        } else {
            a
        }
    } else {
        let p = parent_id(s, entry_pos(s, a));
        if 1 <= p < a {
            lca_of(s, b, p)
        } else {
            b
        }
    }
}

/// A well-formed sequence ends with a zero-bit and (from length 2 on) opens
/// with a one-bit.
pub proof fn lemma_wf_ends(s: Seq<bool>)
    requires
        wf(s),
    ensures
        !s[s.len() - 1],
        s.len() >= 2 ==> s[0],
        s.len() >= 2 ==> count(s, false, 2) == 1,
{
    let n = s.len() as int;
    assert(count(s, true, 0) == 0 && count(s, false, 0) == 0);
    if s.len() >= 2 {
        assert(count(s, false, 1) <= count(s, true, 1));
        assert(count(s, true, 1) == (if s[0] {
            1nat
        } else {
            0nat
        }));
        assert(count(s, false, 2) == count(s, false, 1) + 1);
    }
    if s[n - 1] {
        assert(count(s, false, n - 1) <= count(s, true, n - 1));
    }
}

/// An entry bit belongs to a node with a valid breadth-first rank, and is
/// recovered from that rank: select after rank is the identity on entries.
pub proof fn lemma_entry_facts(s: Seq<bool>, x: int)
    requires
        wf(s),
        is_entry(s, x),
    ensures
        1 <= node_of(s, x) <= n_nodes(s),
        entry_pos(s, node_of(s, x)) == x,
        count(s, true, x) == node_of(s, x) - 1,
        x <= s.len() - 2,
{
    lemma_count_mono(s, true, x + 1, s.len() as int);
    assert(is_occurrence(s, true, node_of(s, x), x));
    lemma_sel_is_occurrence(s, true, node_of(s, x));
    lemma_occurrence_unique(s, true, node_of(s, x), x, entry_pos(s, node_of(s, x)));
    lemma_wf_ends(s);
}

/// A valid breadth-first rank has an entry bit, and rank after select is the
/// identity on node ranks.
pub proof fn lemma_node_facts(s: Seq<bool>, i: int)
    requires
        wf(s),
        1 <= i <= n_nodes(s),
    ensures
        is_entry(s, entry_pos(s, i)),
        node_of(s, entry_pos(s, i)) == i,
        count(s, true, entry_pos(s, i)) == i - 1,
{
    lemma_sel_is_occurrence(s, true, i);
}

/// Node `i`'s own block exists: it runs from `block_start(s, i)` up to its
/// terminating zero-bit at `block_end(s, i)`, with one-bits and nothing else
/// in between.
pub proof fn lemma_block_facts(s: Seq<bool>, i: int)
    requires
        wf(s),
        1 <= i <= n_nodes(s),
    ensures
        1 <= block_start(s, i) <= block_end(s, i) < s.len(),
        !s[block_end(s, i)],
        !s[block_start(s, i) - 1],
        forall|y: int| block_start(s, i) <= y < block_end(s, i) ==> s[y],
        0 <= degree_of(s, i),
{
    lemma_sel_is_occurrence(s, false, i);
    lemma_sel_is_occurrence(s, false, i + 1);
    lemma_sel_mono(s, false, i, i + 1);
    assert forall|y: int| block_start(s, i) <= y < block_end(s, i) implies s[y] by {
        if !s[y] {
            // y would be a zero-bit strictly between the i-th and (i+1)-th:
            // the prefix past y holds at least i + 1 zero-bits, forcing the
            // (i+1)-th zero before y + 1.
            lemma_count_mono(s, false, sel(s, false, i) + 1, y);
            lemma_sel_before(s, false, i + 1, y + 1);
        }
    }
}

/// Node `i` is a leaf exactly when its own block has no one-bits.
pub proof fn lemma_leaf_iff_degree_zero(s: Seq<bool>, x: int)
    requires
        wf(s),
        is_entry(s, x),
    ensures
        leaf_at(s, x) <==> degree_of(s, node_of(s, x)) == 0,
        leaf_at(s, x) ==> block_end(s, node_of(s, x)) == block_start(s, node_of(s, x)),
{
    let i = node_of(s, x);
    lemma_entry_facts(s, x);
    lemma_block_facts(s, i);
    if degree_of(s, i) == 0 {
        assert(block_start(s, i) == block_end(s, i));
    } else {
        assert(s[block_start(s, i)]);
    }
}

/// A non-root entry bit lies strictly inside its parent's block; the parent's
/// breadth-first rank is valid and strictly below the child's.
pub proof fn lemma_entry_in_parent_block(s: Seq<bool>, x: int)
    requires
        wf(s),
        is_entry(s, x),
        x >= 1,
    ensures
        1 <= parent_id(s, x) <= n_nodes(s),
        parent_id(s, x) < node_of(s, x),
        block_start(s, parent_id(s, x)) <= x < block_end(s, parent_id(s, x)),
        s[block_start(s, parent_id(s, x))],
{
    let p = parent_id(s, x);
    lemma_wf_ends(s);
    // x = 1 is impossible (the bit there is zero), so x >= 2 and the zero at
    // position 1 precedes x.
    lemma_count_mono(s, false, 2, x);
    // The prefix before x closes at most as many blocks as it opened entries.
    assert(count(s, false, x) <= count(s, true, x));
    lemma_count_mono(s, true, x + 1, s.len() as int);
    lemma_entry_facts(s, x);
    // The p-th zero lies before x.
    lemma_sel_before(s, false, p, x);
    // The (p+1)-th zero lies past x, since x itself holds a one.
    lemma_count_mono(s, false, p as int, n_nodes(s) as int);
    lemma_sel_at_least(s, false, p + 1, x + 1);
    lemma_block_facts(s, p);
    assert(s[block_start(s, p)]);
}

/// A navigation call was given a position or rank that this structure never
/// produced: reported by the checked operation variants, which validate their
/// inputs instead of assuming them.
#[derive(Clone, Copy, PartialEq, Eq, Structural, Debug)]
pub struct Misuse;

/// A LOUDS-encoded ordered tree: a bit sequence holding one unary degree
/// block per node in breadth-first order, wrapped in a rank/select index.
pub struct Louds {
    lbs: Fid,
}

impl View for Louds {
    type V = Seq<bool>;

    closed spec fn view(&self) -> Seq<bool> {
        self.lbs@
    }
}

/// Bits denoted by a textual literal: separators (`_`) are discarded, every
/// other character is read as the bit `1` or not-`1`.
pub open spec fn literal_bits(cs: Seq<char>) -> Seq<bool>
    decreases cs.len(),
{
    if cs.len() == 0 {
        Seq::empty()
    } else {
        let rest = literal_bits(cs.drop_first());
        if cs[0] == '_' {
            rest
        } else {
            seq![cs[0] == '1'] + rest
        }
    }
}

proof fn lemma_literal_snoc(cs: Seq<char>, c: char)
    ensures
        literal_bits(cs.push(c)) == if c == '_' {
            literal_bits(cs)
        } else {
            literal_bits(cs).push(c == '1')
        },
    decreases cs.len(),
{
    let whole = cs.push(c);
    if cs.len() == 0 {
        assert(whole.drop_first() =~= Seq::<char>::empty());
        if c == '_' {
        } else {
            assert(seq![c == '1'] + literal_bits(whole.drop_first()) =~= literal_bits(
                cs,
            ).push(c == '1'));
        }
    } else {
        assert(whole.drop_first() =~= cs.drop_first().push(c));
        lemma_literal_snoc(cs.drop_first(), c);
        assert(whole[0] == cs[0]);
        if c == '_' {
        } else {
            if cs[0] != '_' {
                assert(seq![cs[0] == '1'] + literal_bits(cs.drop_first()).push(c == '1')
                    =~= (seq![cs[0] == '1'] + literal_bits(cs.drop_first())).push(c == '1'));
            }
        }
    }
}

impl Louds {
    /// Build from a textual bit literal; `_` separators are cosmetic and
    /// discarded, the remaining characters are read left to right.
    pub fn from_str(s: &str) -> (r: Self)
        ensures
            r@ == literal_bits(s@),
    {
        let len = s.unicode_len();
        let mut bits: Vec<bool> = Vec::new();
        let mut i: usize = 0;
        while i < len
            invariant
                i <= len,
                len == s@.len(),
                bits@ == literal_bits(s@.subrange(0, i as int)),
            decreases len - i,
        {
            let c = s.get_char(i);
            proof {
                lemma_literal_snoc(s@.subrange(0, i as int), s@[i as int]);
                assert(s@.subrange(0, i as int).push(s@[i as int]) =~= s@.subrange(
                    0,
                    i as int + 1,
                ));
            }
            if c != '_' {
                bits.push(c == '1');
            }
            i = i + 1;
        }
        proof {
            assert(s@.subrange(0, len as int) =~= s@);
        }
        Louds { lbs: Fid::new(bits) }
    }

    /// Build from an ordered tree, via the breadth-first encoder.  When the
    /// outermost node has at most one child — it plays the virtual root, its
    /// child being the navigable root — the result is well formed.
    pub fn from_tree(t: TreeNode) -> (r: Self)
        ensures
            r@ == encode_forest(seq![t]),
            t.children@.len() <= 1 ==> wf(r@),
    {
        proof {
            if t.children@.len() <= 1 {
                crate::tree::lemma_encode_wf(t);
            }
        }
        let bits = t.encode();
        Louds::from_bit_vec(bits.as_slice())
    }

    /// Build from a sequence of bits supplied directly.
    pub fn from_bit_vec(s: &[bool]) -> (r: Self)
        ensures
            r@ == s@,
    {
        let mut bits: Vec<bool> = Vec::new();
        let mut i: usize = 0;
        while i < s.len()
            invariant
                i <= s@.len(),
                bits@ == s@.subrange(0, i as int),
            decreases s@.len() - i,
        {
            bits.push(s[i]);
            i = i + 1;
        }
        proof {
            assert(bits@ =~= s@);
        }
        Louds { lbs: Fid::new(bits) }
    }

    /// Whether the held sequence is a well-formed LOUDS encoding of a single
    /// tree; the navigation operations assume sequences for which this holds.
    pub fn well_formed(&self) -> (r: bool)
        ensures
            r == wf(self@),
    {
        let n = self.lbs.num_bits();
        if n == 0 {
            return false;
        }
        if n >= 2 && self.lbs.get_at(1) {
            return false;
        }
        let mut ones: usize = 0;
        let mut zeros: usize = 0;
        let mut i: usize = 0;
        let mut ok = true;
        while i < n
            invariant
                i <= n,
                n == self@.len(),
                ones == count(self@, true, i as int),
                zeros == count(self@, false, i as int),
                ok == forall|j: int|
                    0 <= j < i ==> #[trigger] count(self@, false, j) <= count(self@, true, j),
            decreases n - i,
        {
            proof {
                lemma_count_le(self@, true, i as int);
                lemma_count_le(self@, false, i as int);
            }
            let still = ok && zeros <= ones;
            proof {
                if still {
                    assert forall|j: int| 0 <= j < i + 1 implies #[trigger] count(self@, false, j)
                        <= count(self@, true, j) by {
                        if j < i as int {
                        } else {
                            assert(count(self@, false, i as int) <= count(self@, true, i as int));
                        }
                    }
                }
            }
            ok = still;
            if self.lbs.get_at(i) {
                ones = ones + 1;
            } else {
                zeros = zeros + 1;
            }
            i = i + 1;
        }
        ok && zeros > 0 && zeros - 1 == ones
    }

    /// Breadth-first rank of the node whose entry bit is at position `x`:
    /// the count of one-bits up to and including `x`.  Dual to `bfs_select`.
    pub fn bfs_rank(&self, x: BitIndex) -> (r: NodeId)
        requires
            x.0 < self@.len(),
        ensures
            r.0 == node_of(self@, x.0 as int),
    {
        let n = self.lbs.num_bits();
        NodeId(self.lbs.rank1_at(x.0 as usize + 1) as u64)
    }

    /// Entry-bit position of node `i`: the `i`-th one-bit.  Dual to
    /// `bfs_rank`; absent when `i` is zero or beyond the node count.
    pub fn bfs_select(&self, i: NodeId) -> (r: Option<BitIndex>)
        ensures
            1 <= i.0 <= n_nodes(self@) ==> (r matches Some(x) && x.0 == entry_pos(
                self@,
                i.0 as int,
            )),
            (i.0 == 0 || i.0 > n_nodes(self@)) ==> r is None,
    {
        match self.lbs.select1(i.0) {
            Ok(p) => Some(BitIndex(p)),
            Err(_) => None,
        }
    }

    /// Breadth-first rank of the parent of the node whose entry bit is at
    /// `x`: the count of complete blocks before `x`.  Meaningful for
    /// non-root entries.
    pub fn parent_rank(&self, x: BitIndex) -> (r: NodeId)
        requires
            1 <= x.0 <= self@.len(),
        ensures
            r.0 == parent_id(self@, x.0 as int),
    {
        let n = self.lbs.num_bits();
        NodeId(self.lbs.rank_at(false, x.0 as usize) as u64)
    }

    /// First position of node `i`'s own block: one past the `i`-th zero-bit.
    /// Absent when `i` is out of range or the block would begin past the end.
    pub fn first_child_select(&self, i: NodeId) -> (r: Option<BitIndex>)
        ensures
            (1 <= i.0 <= n_blocks(self@) && sel(self@, false, i.0 as int) + 1 < self@.len()) ==> (
            r matches Some(x) && x.0 == block_start(self@, i.0 as int)),
            (i.0 == 0 || i.0 > n_blocks(self@) || sel(self@, false, i.0 as int) + 1
                >= self@.len()) ==> r is None,
    {
        let n = self.lbs.num_bits();
        match self.lbs.select0(i.0) {
            Ok(p) => {
                proof {
                    if 1 <= i.0 <= n_blocks(self@) {
                        lemma_sel_is_occurrence(self@, false, i.0 as int);
                    }
                }
                if p + 1 < n as u64 {
                    Some(BitIndex(p + 1))
                } else {
                    None
                }
            },
            Err(_) => None,
        }
    }

    /// Whether the node whose entry bit is at `x` is a leaf: its own block
    /// opens with its terminating zero-bit.
    pub fn is_leaf(&self, x: BitIndex) -> (r: bool)
        requires
            wf(self@),
            is_entry(self@, x.0 as int),
        ensures
            r == leaf_at(self@, x.0 as int),
    {
        let n = self.lbs.num_bits();
        let i = self.lbs.rank1_at(x.0 as usize + 1);
        proof {
            lemma_entry_facts(self@, x.0 as int);
            lemma_block_facts(self@, i as int);
        }
        let p = self.lbs.select_at(false, i);
        !self.lbs.get_at(p + 1)
    }

    /// Entry-bit position of the parent of the node whose entry bit is at
    /// `x`; absent exactly when `x` is the root.
    pub fn parent(&self, x: BitIndex) -> (r: Option<BitIndex>)
        requires
            wf(self@),
            is_entry(self@, x.0 as int),
        ensures
            x.0 == 0 ==> r is None,
            x.0 >= 1 ==> (r matches Some(p) && p.0 == entry_pos(
                self@,
                parent_id(self@, x.0 as int),
            )),
    {
        if x.0 == 0 {
            None
        } else {
            proof {
                lemma_entry_in_parent_block(self@, x.0 as int);
            }
            let pr = self.parent_rank(x);
            self.bfs_select(pr)
        }
    }

    /// Entry-bit position of the first child of the node whose entry bit is
    /// at `x`; absent exactly when that node is a leaf.
    pub fn first_child(&self, x: BitIndex) -> (r: Option<BitIndex>)
        requires
            wf(self@),
            is_entry(self@, x.0 as int),
        ensures
            leaf_at(self@, x.0 as int) ==> r is None,
            !leaf_at(self@, x.0 as int) ==> (r matches Some(c) && c.0 == block_start(
                self@,
                node_of(self@, x.0 as int),
            )),
    {
        let n = self.lbs.num_bits();
        let i = self.bfs_rank(x);
        proof {
            lemma_entry_facts(self@, x.0 as int);
            lemma_block_facts(self@, i.0 as int);
        }
        match self.first_child_select(i) {
            Some(c) => {
                if self.lbs.get_at(c.0 as usize) {
                    Some(c)
                } else {
                    None
                }
            },
            None => None,
        }
    }

    /// Entry-bit position of the last child of the node whose entry bit is
    /// at `x`: the position right before the zero-bit terminating that
    /// node's own block.  Absent exactly when that node is a leaf.
    pub fn last_child(&self, x: BitIndex) -> (r: Option<BitIndex>)
        requires
            wf(self@),
            is_entry(self@, x.0 as int),
        ensures
            leaf_at(self@, x.0 as int) ==> r is None,
            !leaf_at(self@, x.0 as int) ==> (r matches Some(c) && c.0 == block_end(
                self@,
                node_of(self@, x.0 as int),
            ) - 1),
    {
        let n = self.lbs.num_bits();
        let i = self.lbs.rank1_at(x.0 as usize + 1);
        proof {
            lemma_entry_facts(self@, x.0 as int);
            lemma_block_facts(self@, i as int);
            lemma_leaf_iff_degree_zero(self@, x.0 as int);
            lemma_count_le(self@, false, self@.len() as int);
            assert(i < n);
        }
        let q = self.lbs.select_at(false, i + 1);
        let y = q - 1;
        proof {
            if leaf_at(self@, x.0 as int) {
                assert(y == block_start(self@, i as int) - 1);
            }
        }
        if self.lbs.get_at(y) {
            Some(BitIndex(y as u64))
        } else {
            None
        }
    }

    /// Entry-bit position of the next sibling of the node whose entry bit is
    /// at `x`: the next position, kept only while still inside the parent's
    /// block.  Absent exactly when `x` is the last child of its parent.
    pub fn sibling(&self, x: BitIndex) -> (r: Option<BitIndex>)
        requires
            wf(self@),
            is_entry(self@, x.0 as int),
        ensures
            self@[x.0 as int + 1] ==> (r matches Some(y) && y.0 == x.0 + 1),
            !self@[x.0 as int + 1] ==> r is None,
    {
        let n = self.lbs.num_bits();
        proof {
            lemma_entry_facts(self@, x.0 as int);
        }
        let y = x.0 as usize + 1;
        if self.lbs.get_at(y) {
            Some(BitIndex(y as u64))
        } else {
            None
        }
    }

    /// Number of children of the node whose entry bit is at `x`.
    pub fn degree(&self, x: BitIndex) -> (r: u64)
        requires
            wf(self@),
            is_entry(self@, x.0 as int),
        ensures
            r == degree_of(self@, node_of(self@, x.0 as int)),
    {
        proof {
            lemma_entry_facts(self@, x.0 as int);
            lemma_block_facts(self@, node_of(self@, x.0 as int));
            lemma_leaf_iff_degree_zero(self@, x.0 as int);
        }
        if self.is_leaf(x) {
            0
        } else {
            let f = self.first_child(x).unwrap();
            let l = self.last_child(x).unwrap();
            l.0 - f.0 + 1
        }
    }

    /// Entry-bit position of the `i`-th (0-indexed) child of the node whose
    /// entry bit is at `x`; absent exactly when `i` is not below that node's
    /// degree.  Dual to `child_rank`.
    pub fn child(&self, x: BitIndex, i: usize) -> (r: Option<BitIndex>)
        requires
            wf(self@),
            is_entry(self@, x.0 as int),
        ensures
            i < degree_of(self@, node_of(self@, x.0 as int)) ==> (r matches Some(c) && c.0
                == block_start(self@, node_of(self@, x.0 as int)) + i),
            i >= degree_of(self@, node_of(self@, x.0 as int)) ==> r is None,
    {
        let n = self.lbs.num_bits();
        proof {
            lemma_entry_facts(self@, x.0 as int);
            lemma_block_facts(self@, node_of(self@, x.0 as int));
            lemma_leaf_iff_degree_zero(self@, x.0 as int);
        }
        let d = self.degree(x);
        if i as u64 >= d {
            None
        } else {
            let f = self.first_child(x).unwrap();
            Some(BitIndex(f.0 + i as u64))
        }
    }

    /// 1-indexed offset of the entry bit at `x` within its parent's block;
    /// absent exactly when `x` is the root.  Dual to `child`.
    pub fn child_rank(&self, x: BitIndex) -> (r: Option<usize>)
        requires
            wf(self@),
            is_entry(self@, x.0 as int),
        ensures
            x.0 == 0 ==> r is None,
            x.0 >= 1 ==> (r matches Some(k) && k == x.0 - sel(
                self@,
                false,
                parent_id(self@, x.0 as int),
            )),
    {
        if x.0 == 0 {
            return None;
        }
        let n = self.lbs.num_bits();
        proof {
            lemma_entry_in_parent_block(self@, x.0 as int);
            lemma_node_facts(self@, parent_id(self@, x.0 as int));
        }
        let p = self.parent(x).unwrap();
        let f = self.first_child(p).unwrap();
        Some((x.0 - f.0) as usize + 1)
    }

    /// Depth of node `i`: the number of parent steps from it to the root.
    pub fn depth(&self, i: NodeId) -> (r: usize)
        requires
            wf(self@),
            1 <= i.0 <= n_nodes(self@),
        ensures
            r == depth_of(self@, i.0 as int),
    {
        let nb = self.lbs.num_bits();
        proof {
            lemma_count_le(self@, true, self@.len() as int);
        }
        let mut cur = i.0;
        let mut d: usize = 0;
        while cur != 1
            invariant
                wf(self@),
                1 <= cur <= n_nodes(self@),
                i.0 <= n_nodes(self@),
                n_nodes(self@) <= nb == self@.len(),
                d + depth_of(self@, cur as int) == depth_of(self@, i.0 as int),
                d <= i.0 - cur,
            decreases cur,
        {
            proof {
                lemma_node_facts(self@, cur as int);
                lemma_entry_in_parent_block(self@, entry_pos(self@, cur as int));
            }
            let e = self.bfs_select(NodeId(cur)).unwrap();
            let pr = self.parent_rank(e);
            proof {
                assert(depth_of(self@, cur as int) == 1 + depth_of(self@, pr.0 as int));
                assert(d < nb);
            }
            cur = pr.0;
            d = d + 1;
        }
        d
    }

    /// Lowest common ancestor of nodes `x` and `y`: the larger breadth-first
    /// rank is repeatedly replaced by its parent's until the two meet.
    pub fn lca(&self, x: NodeId, y: NodeId) -> (r: NodeId)
        requires
            wf(self@),
            1 <= x.0 <= n_nodes(self@),
            1 <= y.0 <= n_nodes(self@),
        ensures
            r.0 == lca_of(self@, x.0 as int, y.0 as int),
    {
        let nb = self.lbs.num_bits();
        proof {
            lemma_count_le(self@, true, self@.len() as int);
        }
        let mut a = x.0;
        let mut b = y.0;
        while a != b
            invariant
                wf(self@),
                1 <= a <= n_nodes(self@),
                1 <= b <= n_nodes(self@),
                n_nodes(self@) <= nb == self@.len(),
                lca_of(self@, a as int, b as int) == lca_of(self@, x.0 as int, y.0 as int),
            decreases a + b,
        {
            if a > b {
                proof {
                    lemma_node_facts(self@, a as int);
                    lemma_entry_in_parent_block(self@, entry_pos(self@, a as int));
                }
                let e = self.bfs_select(NodeId(a)).unwrap();
                let pr = self.parent_rank(e);
                proof {
                    assert(lca_of(self@, a as int, b as int) == lca_of(
                        self@,
                        b as int,
                        pr.0 as int,
                    ));
                    assert(lca_of(self@, b as int, pr.0 as int) == lca_of(
                        self@,
                        pr.0 as int,
                        b as int,
                    ));
                }
                a = pr.0;
            } else {
                proof {
                    lemma_node_facts(self@, b as int);
                    lemma_entry_in_parent_block(self@, entry_pos(self@, b as int));
                }
                let e = self.bfs_select(NodeId(b)).unwrap();
                let pr = self.parent_rank(e);
                b = pr.0;
            }
        }
        NodeId(a)
    }

    /// Whether `x` is the entry bit of some node of the held sequence.
    pub fn is_entry_at(&self, x: BitIndex) -> (r: bool)
        ensures
            r == is_entry(self@, x.0 as int),
    {
        let n = self.lbs.num_bits();
        x.0 < n as u64 && self.lbs.get_at(x.0 as usize)
    }

    /// Whether `i` is the breadth-first rank of some node of the held
    /// sequence.
    pub fn is_node_rank(&self, i: NodeId) -> (r: bool)
        ensures
            r == (1 <= i.0 <= n_nodes(self@)),
    {
        let n = self.lbs.num_bits();
        let total = self.lbs.rank1_at(n);
        1 <= i.0 && i.0 <= total as u64
    }

    /// `is_leaf`, validating its input: misuse is reported instead of
    /// assumed away.
    pub fn checked_is_leaf(&self, x: BitIndex) -> (r: Result<bool, Misuse>)
        ensures
            wf(self@) && is_entry(self@, x.0 as int) ==> (r matches Ok(v) && v == leaf_at(
                self@,
                x.0 as int,
            )),
            !(wf(self@) && is_entry(self@, x.0 as int)) ==> r is Err,
    {
        if self.well_formed() && self.is_entry_at(x) {
            Ok(self.is_leaf(x))
        } else {
            Err(Misuse)
        }
    }

    /// `parent`, validating its input.
    pub fn checked_parent(&self, x: BitIndex) -> (r: Result<Option<BitIndex>, Misuse>)
        ensures
            wf(self@) && is_entry(self@, x.0 as int) && x.0 == 0 ==> (r matches Ok(v) && v is None),
            wf(self@) && is_entry(self@, x.0 as int) && x.0 >= 1 ==> (r matches Ok(v) && (v
                matches Some(p) && p.0 == entry_pos(self@, parent_id(self@, x.0 as int)))),
            !(wf(self@) && is_entry(self@, x.0 as int)) ==> r is Err,
    {
        if self.well_formed() && self.is_entry_at(x) {
            Ok(self.parent(x))
        } else {
            Err(Misuse)
        }
    }

    /// `first_child`, validating its input.
    pub fn checked_first_child(&self, x: BitIndex) -> (r: Result<Option<BitIndex>, Misuse>)
        ensures
            wf(self@) && is_entry(self@, x.0 as int) ==> (r matches Ok(v) && v == (if leaf_at(
                self@,
                x.0 as int,
            ) {
                Option::<BitIndex>::None
            } else {
                Option::Some(BitIndex(block_start(self@, node_of(self@, x.0 as int)) as u64))
            })),
            !(wf(self@) && is_entry(self@, x.0 as int)) ==> r is Err,
    {
        if self.well_formed() && self.is_entry_at(x) {
            proof {
                if !leaf_at(self@, x.0 as int) {
                    lemma_entry_facts(self@, x.0 as int);
                    lemma_block_facts(self@, node_of(self@, x.0 as int));
                }
            }
            Ok(self.first_child(x))
        } else {
            Err(Misuse)
        }
    }

    /// `last_child`, validating its input.
    pub fn checked_last_child(&self, x: BitIndex) -> (r: Result<Option<BitIndex>, Misuse>)
        ensures
            wf(self@) && is_entry(self@, x.0 as int) ==> (r matches Ok(v) && v == (if leaf_at(
                self@,
                x.0 as int,
            ) {
                Option::<BitIndex>::None
            } else {
                Option::Some(BitIndex((block_end(self@, node_of(self@, x.0 as int)) - 1) as u64))
            })),
            !(wf(self@) && is_entry(self@, x.0 as int)) ==> r is Err,
    {
        if self.well_formed() && self.is_entry_at(x) {
            proof {
                if !leaf_at(self@, x.0 as int) {
                    lemma_entry_facts(self@, x.0 as int);
                    lemma_block_facts(self@, node_of(self@, x.0 as int));
                }
            }
            Ok(self.last_child(x))
        } else {
            Err(Misuse)
        }
    }

    /// `sibling`, validating its input.
    pub fn checked_sibling(&self, x: BitIndex) -> (r: Result<Option<BitIndex>, Misuse>)
        ensures
            wf(self@) && is_entry(self@, x.0 as int) ==> (r matches Ok(v) && v == (if self@[x.0
                as int + 1] {
                Option::Some(BitIndex((x.0 + 1) as u64))
            } else {
                Option::<BitIndex>::None
            })),
            !(wf(self@) && is_entry(self@, x.0 as int)) ==> r is Err,
    {
        if self.well_formed() && self.is_entry_at(x) {
            Ok(self.sibling(x))
        } else {
            Err(Misuse)
        }
    }

    /// `degree`, validating its input.
    pub fn checked_degree(&self, x: BitIndex) -> (r: Result<u64, Misuse>)
        ensures
            wf(self@) && is_entry(self@, x.0 as int) ==> (r matches Ok(d) && d == degree_of(
                self@,
                node_of(self@, x.0 as int),
            )),
            !(wf(self@) && is_entry(self@, x.0 as int)) ==> r is Err,
    {
        if self.well_formed() && self.is_entry_at(x) {
            Ok(self.degree(x))
        } else {
            Err(Misuse)
        }
    }

    /// `child`, validating its input.
    pub fn checked_child(&self, x: BitIndex, i: usize) -> (r: Result<Option<BitIndex>, Misuse>)
        ensures
            wf(self@) && is_entry(self@, x.0 as int) ==> (r matches Ok(v) && v == (if i < degree_of(
                self@,
                node_of(self@, x.0 as int),
            ) {
                Option::Some(BitIndex((block_start(self@, node_of(self@, x.0 as int)) + i) as u64))
            } else {
                Option::<BitIndex>::None
            })),
            !(wf(self@) && is_entry(self@, x.0 as int)) ==> r is Err,
    {
        if self.well_formed() && self.is_entry_at(x) {
            proof {
                if i < degree_of(self@, node_of(self@, x.0 as int)) {
                    lemma_entry_facts(self@, x.0 as int);
                    lemma_block_facts(self@, node_of(self@, x.0 as int));
                }
            }
            Ok(self.child(x, i))
        } else {
            Err(Misuse)
        }
    }

    /// `child_rank`, validating its input.
    pub fn checked_child_rank(&self, x: BitIndex) -> (r: Result<Option<usize>, Misuse>)
        ensures
            wf(self@) && is_entry(self@, x.0 as int) && x.0 == 0 ==> (r matches Ok(v) && v is None),
            wf(self@) && is_entry(self@, x.0 as int) && x.0 >= 1 ==> (r matches Ok(v) && (v
                matches Some(k) && k == x.0 - sel(self@, false, parent_id(self@, x.0 as int)))),
            !(wf(self@) && is_entry(self@, x.0 as int)) ==> r is Err,
    {
        if self.well_formed() && self.is_entry_at(x) {
            Ok(self.child_rank(x))
        } else {
            Err(Misuse)
        }
    }

    /// `depth`, validating its input.
    pub fn checked_depth(&self, i: NodeId) -> (r: Result<usize, Misuse>)
        ensures
            wf(self@) && 1 <= i.0 <= n_nodes(self@) ==> (r matches Ok(d) && d == depth_of(
                self@,
                i.0 as int,
            )),
            !(wf(self@) && 1 <= i.0 <= n_nodes(self@)) ==> r is Err,
    {
        if self.well_formed() && self.is_node_rank(i) {
            Ok(self.depth(i))
        } else {
            Err(Misuse)
        }
    }

    /// `lca`, validating its inputs.
    pub fn checked_lca(&self, x: NodeId, y: NodeId) -> (r: Result<NodeId, Misuse>)
        ensures
            wf(self@) && 1 <= x.0 <= n_nodes(self@) && 1 <= y.0 <= n_nodes(self@) ==> (r matches Ok(
                v,
            ) && v.0 == lca_of(self@, x.0 as int, y.0 as int)),
            !(wf(self@) && 1 <= x.0 <= n_nodes(self@) && 1 <= y.0 <= n_nodes(self@)) ==> r is Err,
    {
        if self.well_formed() && self.is_node_rank(x) && self.is_node_rank(y) {
            Ok(self.lca(x, y))
        } else {
            Err(Misuse)
        }
    }
}

} // verus!
