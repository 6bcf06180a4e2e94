//! A fully indexable bit sequence: an immutable sequence of bits, built once,
//! answering rank and select queries sublinearly.  Rank reads one cumulative
//! block counter and scans at most one block; select binary-searches rank.

use crate::bits::{
    count, is_occurrence, lemma_count_complement, lemma_count_le, lemma_count_mono,
    lemma_occurrence_unique, lemma_sel_is_occurrence, sel,
};
use vstd::prelude::*;

verus! {

/// Bits per cumulative rank counter.
const BLOCK: usize = 64;

/// A query lay outside the sequence: `get` or `rank` past the length, or
/// `select` past the total count of the requested bit value.
#[derive(Clone, Copy, PartialEq, Eq, Structural, Debug)]
pub struct OutOfRange;

/// An immutable bit sequence carrying a cumulative block index: entry `j` of
/// `ranks` counts the one-bits among the first `BLOCK * j` positions.
pub struct Fid {
    bits: Vec<bool>,
    ranks: Vec<usize>,
}

impl View for Fid {
    type V = Seq<bool>;

    closed spec fn view(&self) -> Seq<bool> {
        self.bits@
    }
}

impl Fid {
    #[verifier::type_invariant]
    spec fn inv(&self) -> bool {
        &&& self.ranks@.len() == self.bits@.len() as int / BLOCK as int + 1
        &&& forall|j: int|
            0 <= j < self.ranks@.len() ==> self.ranks@[j] == count(
                self.bits@,
                true,
                BLOCK as int * j,
            )
    }

    /// Build the index over the given bits in one pass.
    pub fn new(bits: Vec<bool>) -> (r: Fid)
        ensures
            r@ == bits@,
    {
        let n = bits.len();
        let mut ranks: Vec<usize> = Vec::new();
        ranks.push(0);
        let mut acc: usize = 0;
        let mut i: usize = 0;
        while i < n
            invariant
                i <= n,
                n == bits@.len(),
                acc == count(bits@, true, i as int),
                ranks@.len() >= 1,
                (ranks@.len() - 1) * BLOCK <= i < ranks@.len() * BLOCK,
                forall|j: int|
                    0 <= j < ranks@.len() ==> ranks@[j] == count(bits@, true, BLOCK as int * j),
            decreases n - i,
        {
            proof {
                lemma_count_le(bits@, true, i as int);
            }
            if bits[i] {
                acc = acc + 1;
            }
            i = i + 1;
            if i % BLOCK == 0 {
                proof {
                    assert(i == ranks@.len() * BLOCK);
                }
                ranks.push(acc);
            }
        }
        Fid { bits, ranks }
    }

    /// Total number of bits.
    pub fn len(&self) -> (n: u64)
        ensures
            n == self@.len(),
    {
        self.bits.len() as u64
    }

    pub(crate) fn num_bits(&self) -> (n: usize)
        ensures
            n == self@.len(),
    {
        self.bits.len()
    }

    pub(crate) fn get_at(&self, i: usize) -> (r: bool)
        requires
            i < self@.len(),
        ensures
            r == self@[i as int],
    {
        self.bits[i]
    }

    /// Count of one-bits among the first `i` positions, via the block index.
    pub(crate) fn rank1_at(&self, i: usize) -> (r: usize)
        requires
            i <= self@.len(),
        ensures
            r == count(self@, true, i as int),
    {
        proof {
            use_type_invariant(self);
        }
        let j = i / BLOCK;
        assert(j * BLOCK <= i && j < self.ranks@.len());
        let mut p = j * BLOCK;
        let mut r = self.ranks[j];
        while p < i
            invariant
                p <= i <= self@.len(),
                r == count(self@, true, p as int),
                self@ == self.bits@,
            decreases i - p,
        {
            proof {
                lemma_count_le(self@, true, p as int);
            }
            if self.bits[p] {
                r = r + 1;
            }
            p = p + 1;
        }
        r
    }

    /// Count of occurrences of the bit value `b` among the first `i` positions.
    pub(crate) fn rank_at(&self, b: bool, i: usize) -> (r: usize)
        requires
            i <= self@.len(),
        ensures
            r == count(self@, b, i as int),
    {
        let r1 = self.rank1_at(i);
        if b {
            r1
        } else {
            proof {
                lemma_count_complement(self@, i as int);
            }
            i - r1
        }
    }

    /// Position of the `k`-th (1-indexed) occurrence of the bit value `b`,
    /// found by binary search over rank.
    pub(crate) fn select_at(&self, b: bool, k: usize) -> (r: usize)
        requires
            1 <= k <= count(self@, b, self@.len() as int),
        ensures
            is_occurrence(self@, b, k as int, r as int),
            r as int == sel(self@, b, k as int),
    {
        let n = self.bits.len();
        proof {
            lemma_count_le(self@, b, n as int);
        }
        let mut lo: usize = 0;
        let mut hi: usize = n;
        while lo + 1 < hi
            invariant
                lo < hi <= n,
                n == self@.len(),
                1 <= k,
                count(self@, b, lo as int) < k,
                count(self@, b, hi as int) >= k,
            decreases hi - lo,
        {
            let mid = lo + (hi - lo) / 2;
            let c = self.rank_at(b, mid);
            if c >= k {
                hi = mid;
            } else {
                lo = mid;
            }
        }
        proof {
            assert(is_occurrence(self@, b, k as int, lo as int));
            lemma_sel_is_occurrence(self@, b, k as int);
            lemma_occurrence_unique(self@, b, k as int, lo as int, sel(self@, b, k as int));
        }
        lo
    }

    /// Count of one-bits in positions `[0, i)`; `OutOfRange` exactly when
    /// `i` exceeds the length.
    pub fn rank1(&self, i: u64) -> (r: Result<u64, OutOfRange>)
        ensures
            i <= self@.len() ==> (r matches Ok(c) && c == count(self@, true, i as int)),
            i > self@.len() ==> (r is Err),
    {
        let n = self.bits.len();
        if i <= n as u64 {
            proof {
                lemma_count_le(self@, true, i as int);
            }
            Ok(self.rank1_at(i as usize) as u64)
        } else {
            Err(OutOfRange)
        }
    }

    /// Count of zero-bits in positions `[0, i)`; `OutOfRange` exactly when
    /// `i` exceeds the length.
    pub fn rank0(&self, i: u64) -> (r: Result<u64, OutOfRange>)
        ensures
            i <= self@.len() ==> (r matches Ok(c) && c == count(self@, false, i as int)),
            i > self@.len() ==> (r is Err),
    {
        let n = self.bits.len();
        if i <= n as u64 {
            proof {
                lemma_count_le(self@, false, i as int);
            }
            Ok(self.rank_at(false, i as usize) as u64)
        } else {
            Err(OutOfRange)
        }
    }

    /// Bit at position `i`; `OutOfRange` exactly when `i` is past the end.
    pub fn get(&self, i: u64) -> (r: Result<bool, OutOfRange>)
        ensures
            i < self@.len() ==> (r matches Ok(v) && v == self@[i as int]),
            i >= self@.len() ==> (r is Err),
    {
        let n = self.bits.len();
        if i < n as u64 {
            Ok(self.bits[i as usize])
        } else {
            Err(OutOfRange)
        }
    }

    /// 0-based position of the `k`-th (1-indexed) one-bit; `OutOfRange`
    /// exactly when fewer than `k` one-bits exist (in particular when `k == 0`).
    pub fn select1(&self, k: u64) -> (r: Result<u64, OutOfRange>)
        ensures
            1 <= k <= count(self@, true, self@.len() as int) ==> (r matches Ok(p) && p == sel(
                self@,
                true,
                k as int,
            )),
            (k == 0 || k > count(self@, true, self@.len() as int)) ==> (r is Err),
    {
        let n = self.bits.len();
        let total = self.rank1_at(n);
        if k == 0 || k > total as u64 {
            Err(OutOfRange)
        } else {
            proof {
                lemma_sel_is_occurrence(self@, true, k as int);
            }
            Ok(self.select_at(true, k as usize) as u64)
        }
    }

    /// 0-based position of the `k`-th (1-indexed) zero-bit; `OutOfRange`
    /// exactly when fewer than `k` zero-bits exist (in particular when `k == 0`).
    pub fn select0(&self, k: u64) -> (r: Result<u64, OutOfRange>)
        ensures
            1 <= k <= count(self@, false, self@.len() as int) ==> (r matches Ok(p) && p == sel(
                self@,
                false,
                k as int,
            )),
            (k == 0 || k > count(self@, false, self@.len() as int)) ==> (r is Err),
    {
        let n = self.bits.len();
        let total = self.rank_at(false, n);
        if k == 0 || k > total as u64 {
            Err(OutOfRange)
        } else {
            proof {
                lemma_sel_is_occurrence(self@, false, k as int);
            }
            Ok(self.select_at(false, k as usize) as u64)
        }
    }
}

} // verus!
