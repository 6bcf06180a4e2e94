//! Prefix occurrence counts (rank) and occurrence positions (select) over a
//! mathematical sequence of bits, together with the lemmas relating the two.
//!
//! `count` and `sel` are the model behind every executable rank/select query:
//! `rank_b(i)` is `count(s, b, i)` and `select_b(k)` is `sel(s, b, k)`.

use vstd::prelude::*;

verus! {

/// Number of positions `p` with `0 <= p < i` at which `s` holds the bit
/// value `b`.
pub open spec fn count(s: Seq<bool>, b: bool, i: int) -> nat
    decreases i,
{
    if i <= 0 {
        0
    } else {
        count(s, b, i - 1) + (if s[i - 1] == b {
            1nat
        } else {
            0nat
        })
    }
}

/// `x` is the position of the `k`-th (1-indexed) occurrence of the bit value
/// `b` in `s`: the bit there is `b`, and exactly `k - 1` occurrences precede it.
pub open spec fn is_occurrence(s: Seq<bool>, b: bool, k: int, x: int) -> bool {
    0 <= x < s.len() && s[x] == b && count(s, b, x) == k - 1
}

/// Position of the `k`-th (1-indexed) occurrence of the bit value `b` in `s`;
/// meaningful only when `1 <= k <= count(s, b, s.len() as int)`.
pub open spec fn sel(s: Seq<bool>, b: bool, k: int) -> int {
    choose|x: int| is_occurrence(s, b, k, x)
}

/// A prefix of length `i` holds at most `i` occurrences.
pub proof fn lemma_count_le(s: Seq<bool>, b: bool, i: int)
    requires
        0 <= i,
    ensures
        count(s, b, i) <= i,
    decreases i,
{
    if i > 0 {
        lemma_count_le(s, b, i - 1);
    }
}

/// Occurrence counts grow with the prefix.
pub proof fn lemma_count_mono(s: Seq<bool>, b: bool, i: int, j: int)
    requires
        0 <= i <= j,
    ensures
        count(s, b, i) <= count(s, b, j),
    decreases j,
{
    if i < j {
        lemma_count_mono(s, b, i, j - 1);
    }
}

/// Every position holds either a one or a zero, so the two counts of a prefix
/// sum to its length.
pub proof fn lemma_count_complement(s: Seq<bool>, i: int)
    requires
        0 <= i,
    ensures
        count(s, true, i) + count(s, false, i) == i,
    decreases i,
{
    if i > 0 {
        lemma_count_complement(s, i - 1);
    }
}

/// If a prefix of length `i` holds at least `k` occurrences, the `k`-th
/// occurrence lies inside that prefix.
proof fn lemma_occurrence_exists(s: Seq<bool>, b: bool, k: int, i: int)
    requires
        0 <= i <= s.len(),
        1 <= k <= count(s, b, i),
    ensures
        exists|x: int| #[trigger] is_occurrence(s, b, k, x) && x < i,
    decreases i,
{
    if count(s, b, i - 1) >= k {
        lemma_occurrence_exists(s, b, k, i - 1);
    } else {
        assert(is_occurrence(s, b, k, i - 1));
    }
}

/// The `k`-th occurrence position is unique.
pub proof fn lemma_occurrence_unique(s: Seq<bool>, b: bool, k: int, x: int, y: int)
    requires
        is_occurrence(s, b, k, x),
        is_occurrence(s, b, k, y),
    ensures
        x == y,
{
    if x < y {
        lemma_count_mono(s, b, x + 1, y);
    }
    if y < x {
        lemma_count_mono(s, b, y + 1, x);
    }
}

/// When `k` occurrences exist, `sel(s, b, k)` really is the `k`-th occurrence:
/// the bit there is `b`, `k - 1` occurrences precede it, and the prefix that
/// ends just past it holds exactly `k`.
pub proof fn lemma_sel_is_occurrence(s: Seq<bool>, b: bool, k: int)
    requires
        1 <= k <= count(s, b, s.len() as int),
    ensures
        is_occurrence(s, b, k, sel(s, b, k)),
        count(s, b, sel(s, b, k) + 1) == k,
{
    lemma_occurrence_exists(s, b, k, s.len() as int);
    assert(exists|x: int| is_occurrence(s, b, k, x));
}

/// A prefix holding at least `k` occurrences lies beyond the `k`-th one.
pub proof fn lemma_sel_before(s: Seq<bool>, b: bool, k: int, x: int)
    requires
        1 <= k,
        0 <= x <= s.len(),
        count(s, b, x) >= k,
    ensures
        is_occurrence(s, b, k, sel(s, b, k)),
        sel(s, b, k) < x,
{
    lemma_count_mono(s, b, x, s.len() as int);
    lemma_sel_is_occurrence(s, b, k);
    if sel(s, b, k) >= x {
        lemma_count_mono(s, b, x, sel(s, b, k));
    }
}

/// A prefix holding fewer than `k` occurrences ends at or before the `k`-th one.
pub proof fn lemma_sel_at_least(s: Seq<bool>, b: bool, k: int, x: int)
    requires
        1 <= k <= count(s, b, s.len() as int),
        0 <= x,
        count(s, b, x) < k,
    ensures
        sel(s, b, k) >= x,
{
    lemma_sel_is_occurrence(s, b, k);
    if sel(s, b, k) < x {
        lemma_count_mono(s, b, sel(s, b, k) + 1, x);
    }
}

/// Occurrence positions grow with `k`.
pub proof fn lemma_sel_mono(s: Seq<bool>, b: bool, k: int, l: int)
    requires
        1 <= k < l <= count(s, b, s.len() as int),
    ensures
        sel(s, b, k) < sel(s, b, l),
{
    lemma_sel_is_occurrence(s, b, l);
    lemma_sel_before(s, b, k, sel(s, b, l));
}

/// Counting within the left part of a concatenation ignores the right part.
pub proof fn lemma_count_prefix(a: Seq<bool>, c: Seq<bool>, b: bool, i: int)
    requires
        0 <= i <= a.len(),
    ensures
        count(a + c, b, i) == count(a, b, i),
    decreases i,
{
    if i > 0 {
        lemma_count_prefix(a, c, b, i - 1);
        assert((a + c)[i - 1] == a[i - 1]);
    }
}

/// Counting past the left part of a concatenation adds the two parts' counts.
pub proof fn lemma_count_concat(a: Seq<bool>, c: Seq<bool>, b: bool, j: int)
    requires
        0 <= j <= c.len(),
    ensures
        count(a + c, b, a.len() + j) == count(a, b, a.len() as int) + count(c, b, j),
    decreases j,
{
    if j == 0 {
        lemma_count_prefix(a, c, b, a.len() as int);
    } else {
        lemma_count_concat(a, c, b, j - 1);
        assert((a + c)[a.len() + j - 1] == c[j - 1]);
    }
}

} // verus!
