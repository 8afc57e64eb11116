//! Similarity scores as exact rationals.
//!
//! A [`Score`] records the Levenshtein distance `dist` between two words and
//! the length `len` of the longer word. The similarity it stands for is the
//! rational `(len - dist) / len`, read as `1` when both words are empty
//! (`len == 0`). All comparisons cross-multiply the exact integer values, so
//! no precision is ever lost.

use vstd::prelude::*;

verus! {

/// The similarity of one pair of words: `dist` edit steps out of a longest
/// length of `len` characters. Well-formed when `dist <= len`.
#[derive(Clone, Copy, PartialEq, Eq, Structural, Debug)]
pub struct Score {
    pub dist: usize,
    pub len: usize,
}

impl Score {
    /// A score is well formed when the distance does not exceed the longer
    /// length, which keeps the similarity inside `[0, 1]`.
    pub open spec fn wf(self) -> bool {
        self.dist <= self.len
    }

    /// Numerator of the exact similarity `(len - dist) / len`, with the
    /// empty-against-empty case read as `1 / 1`.
    pub open spec fn num(self) -> int {
        if self.len == 0 {
            1
        } else {
            self.len - self.dist
        }
    }

    /// Denominator of the exact similarity; always positive.
    pub open spec fn den(self) -> int {
        if self.len == 0 {
            1
        } else {
            self.len as int
        }
    }

    /// The similarity equals exactly `1`.
    pub open spec fn is_one(self) -> bool {
        self.num() == self.den()
    }

    /// `self >= other` on the exact rational values.
    pub open spec fn ge(self, other: Score) -> bool {
        self.num() * other.den() >= other.num() * self.den()
    }

    /// `self > other` on the exact rational values.
    pub open spec fn gt(self, other: Score) -> bool {
        self.num() * other.den() > other.num() * self.den()
    }

    /// `self == other` on the exact rational values.
    pub open spec fn same_sim(self, other: Score) -> bool {
        self.num() * other.den() == other.num() * self.den()
    }

    /// Exact comparison of two scores, by cross-multiplication.
    pub fn ge_exec(&self, other: &Score) -> (r: bool)
        requires
            self.wf(),
            other.wf(),
        ensures
            r == self.ge(*other),
    {
        let n1 = self.num_exec() as u128;
        let d1 = self.den_exec() as u128;
        let n2 = other.num_exec() as u128;
        let d2 = other.den_exec() as u128;
        proof {
            lemma_cross_products_fit(n1 as int, d1 as int, n2 as int, d2 as int);
        }
        n1 * d2 >= n2 * d1
    }

    /// Exact strict comparison of two scores, by cross-multiplication.
    pub fn gt_exec(&self, other: &Score) -> (r: bool)
        requires
            self.wf(),
            other.wf(),
        ensures
            r == self.gt(*other),
    {
        let n1 = self.num_exec() as u128;
        let d1 = self.den_exec() as u128;
        let n2 = other.num_exec() as u128;
        let d2 = other.den_exec() as u128;
        proof {
            lemma_cross_products_fit(n1 as int, d1 as int, n2 as int, d2 as int);
        }
        n1 * d2 > n2 * d1
    }

    /// Numerator of the exact similarity, as a machine integer.
    pub fn num_exec(&self) -> (r: usize)
        requires
            self.wf(),
        ensures
            r == self.num(),
    {
        if self.len == 0 {
            1
        } else {
            self.len - self.dist
        }
    }

    /// Denominator of the exact similarity, as a machine integer.
    pub fn den_exec(&self) -> (r: usize)
        ensures
            r == self.den(),
    {
        if self.len == 0 {
            1
        } else {
            self.len
        }
    }
}

/// The cross products of two similarity fractions fit in 128 bits, because
/// each factor fits in 64 bits.
proof fn lemma_cross_products_fit(n1: int, d1: int, n2: int, d2: int)
    requires
        0 <= n1 < 0x1_0000_0000_0000_0000,
        0 <= d1 < 0x1_0000_0000_0000_0000,
        0 <= n2 < 0x1_0000_0000_0000_0000,
        0 <= d2 < 0x1_0000_0000_0000_0000,
    ensures
        n1 * d2 <= u128::MAX,
        n2 * d1 <= u128::MAX,
{
    assert(n1 * d2 < 0x1_0000_0000_0000_0000 * 0x1_0000_0000_0000_0000) by (nonlinear_arith)
        requires
            0 <= n1 < 0x1_0000_0000_0000_0000,
            0 <= d2 < 0x1_0000_0000_0000_0000,
    ;
    assert(n2 * d1 < 0x1_0000_0000_0000_0000 * 0x1_0000_0000_0000_0000) by (nonlinear_arith)
        requires
            0 <= n2 < 0x1_0000_0000_0000_0000,
            0 <= d1 < 0x1_0000_0000_0000_0000,
    ;
}

/// Every well-formed score lies between `0` and `1`: its numerator is at
/// least `0` and at most its (positive) denominator.
pub proof fn lemma_score_in_range(s: Score)
    requires
        s.wf(),
    ensures
        0 <= s.num(),
        s.num() <= s.den(),
        0 < s.den(),
{
}

} // verus!
