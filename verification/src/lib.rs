//! Approximate quantiles over streams of ordered values.
//!
//! A [`Summary`] keeps a small, mergeable set of samples of a stream and answers quantile
//! queries within a relative rank error that is chosen when it is created: among `n`
//! values, the rank of the answer is no further than the error times `n` from the rank
//! asked for.
//!
//! Quantiles and error bounds are exact fractions, [`Ratio`].
//!
//! ```
//! use fast_quantiles::{Ratio, Summary};
//!
//! let mut summary = Summary::new(Ratio::new(1, 100)).unwrap();
//! for value in 0..1000u64 {
//!     summary.insert_one(value);
//! }
//! let median = summary.query(Ratio::new(1, 2)).unwrap().unwrap();
//! assert!(490 <= median && median <= 510);
//! ```
//!
//! Every function of the library is verified: it meets its contract for every input
//! that the contract admits, and it does not panic. The contracts speak of what a
//! summary holds as sequences of samples, and of the stream as the sequence of the values
//! seen; see [`algorithm::stream`] and [`algorithm::ranks`].

pub mod algorithm;
pub mod order;

pub use algorithm::summary::Summary;

use vstd::prelude::*;

verus! {

/// What a caller can get wrong.
#[derive(Debug, Clone, Copy, PartialEq, Eq, Structural)]
pub enum Error {
    /// A quantile is not in the range from 0 to 1.
    InvalidQuantile,
    /// A rank is not in the range from 1 to the number of values.
    InvalidRank,
    /// A summary cannot take in one that was built for a greater error.
    MergeErrorTolerance,
    /// An error bound is not strictly between 0 and one half.
    InvalidEpsilon,
}

/// A fraction of two 64-bit numbers. It stands for a quantile or for a relative error.
#[derive(Debug, Clone, Copy, PartialEq, Eq, Structural)]
pub struct Ratio {
    /// The numerator.
    pub num: u64,
    /// The denominator, which is not zero in a fraction that stands for a number.
    pub den: u64,
}

impl Ratio {
    /// The fraction stands for a number in the range from 0 to 1.
    pub open spec fn is_quantile(self) -> bool {
        self.den > 0 && self.num <= self.den
    }

    /// The fraction stands for a number strictly between 0 and one half.
    pub open spec fn is_epsilon(self) -> bool {
        0 < self.num && 2 * self.num < self.den
    }

    /// The number that `self` stands for is not above the one that `other` stands for.
    pub open spec fn at_most(self, other: Ratio) -> bool {
        self.num * other.den <= other.num * self.den
    }

    /// Returns the fraction of `num` over `den`.
    pub fn new(num: u64, den: u64) -> (r: Self)
        ensures
            r == (Ratio { num, den }),
    {
        Ratio { num, den }
    }

    /// Returns whether the number that `self` stands for is not above the one that
    /// `other` stands for.
    pub fn is_at_most(&self, other: &Ratio) -> (b: bool)
        ensures
            b == self.at_most(*other),
    {
        assert(self.num * other.den <= u64::MAX * u64::MAX) by (nonlinear_arith)
            requires
                self.num <= u64::MAX,
                other.den <= u64::MAX,
        ;
        assert(other.num * self.den <= u64::MAX * u64::MAX) by (nonlinear_arith)
            requires
                other.num <= u64::MAX,
                self.den <= u64::MAX,
        ;
        (self.num as u128) * (other.den as u128) <= (other.num as u128) * (self.den as u128)
    }
}

/// The rank that the quantile `q` has among `n` values: `q * n`, rounded up, and 1 at the
/// least.
pub open spec fn rank_of(q: Ratio, n: int) -> int {
    let up = (q.num * n + q.den - 1) / (q.den as int);
    if up < 1 {
        1
    } else {
        up
    }
}

/// Converts a quantile to the rank among `num` values, where the quantile is in the range
/// from 0 to 1, and the rank in the range from 1 to `num`.
///
/// For `num = 4`:
///
/// quantile   | rank
/// -----------|---
/// [0, 1/4]   | 1
/// (1/4, 2/4] | 2
/// (2/4, 3/4] | 3
/// (3/4, 1]   | 4
pub fn quantile_to_rank(quantile: Ratio, num: u64) -> (r: Result<u64, Error>)
    ensures
        quantile.is_quantile() ==> r == Ok::<u64, Error>(rank_of(quantile, num as int) as u64),
        quantile.is_quantile() ==> 1 <= rank_of(quantile, num as int) && (num >= 1 ==> rank_of(
            quantile,
            num as int,
        ) <= num),
        !quantile.is_quantile() ==> r == Err::<u64, Error>(Error::InvalidQuantile),
{
    if quantile.den == 0 || quantile.num > quantile.den {
        return Err(Error::InvalidQuantile);
    }
    let ghost n = num as int;
    let ghost a = quantile.num as int;
    let ghost d = quantile.den as int;
    assert(0 <= a * n <= d * n && d * n <= u64::MAX * u64::MAX) by (nonlinear_arith)
        requires
            0 <= a <= d <= u64::MAX,
            0 <= n <= u64::MAX,
    ;
    assert((a * n + d - 1) / d <= n) by (nonlinear_arith)
        requires
            0 <= a * n <= d * n,
            d > 0,
            n >= 0,
    ;
    assert((a * n + d - 1) / d >= 0) by (nonlinear_arith)
        requires
            0 <= a * n,
            d > 0,
    ;
    let up = ((quantile.num as u128) * (num as u128) + (quantile.den as u128 - 1)) / (
    quantile.den as u128);
    if up < 1 {
        Ok(1)
    } else {
        Ok(up as u64)
    }
}

/// Converts a rank among `num` values to a quantile: the quantile of the first rank is 0,
/// and that of any other rank is the rank over `num`.
pub fn rank_to_quantile(rank: u64, num: u64) -> (r: Result<Ratio, Error>)
    ensures
        1 <= rank <= num ==> r == Ok::<Ratio, Error>(
            if rank == 1 {
                Ratio { num: 0, den: num }
            } else {
                Ratio { num: rank, den: num }
            },
        ),
        1 <= rank <= num ==> r->Ok_0.is_quantile(),
        !(1 <= rank <= num) ==> r == Err::<Ratio, Error>(Error::InvalidRank),
{
    if rank == 0 || rank > num {
        return Err(Error::InvalidRank);
    }
    if rank == 1 {
        Ok(Ratio { num: 0, den: num })
    } else {
        Ok(Ratio { num: rank, den: num })
    }
}

/// A rank that was made from a quantile gives the quantile's rank back: the quantile of a
/// rank stands for that rank.
pub proof fn lemma_rank_roundtrip(rank: u64, num: u64)
    requires
        1 <= rank <= num,
    ensures
        rank_of(
            if rank == 1 {
                Ratio { num: 0, den: num }
            } else {
                Ratio { num: rank, den: num }
            },
            num as int,
        ) == rank,
{
    let n = num as int;
    let r = rank as int;
    if rank == 1 {
        assert((0 * n + n - 1) / n == 0) by (nonlinear_arith)
            requires
                n >= 1,
        ;
    } else {
        assert((r * n + n - 1) / n == r) by (nonlinear_arith)
            requires
                n >= 1,
                r >= 0,
        ;
    }
}

/// The greatest `g + delta` that a sample may have in a summary of `len` values that was
/// built for the relative error `epsilon`: twice the error times the number of values,
/// rounded down.
pub open spec fn budget(epsilon: Ratio, len: int) -> int {
    (2 * epsilon.num * len) / (epsilon.den as int)
}

/// The number of checkpoints above which a summary for the relative error `epsilon` is
/// compressed: five over the error, rounded up.
pub open spec fn samples_limit(epsilon: Ratio) -> int {
    (5 * epsilon.den + epsilon.num - 1) / (epsilon.num as int)
}

/// The budget grows with the number of values, and stays below it.
pub proof fn lemma_budget_grows(epsilon: Ratio, n: int, m: int)
    requires
        epsilon.is_epsilon(),
        0 <= n <= m,
    ensures
        0 <= budget(epsilon, n) <= budget(epsilon, m),
        budget(epsilon, m) <= m,
{
    let a = 2 * epsilon.num as int;
    let d = epsilon.den as int;
    assert(0 <= a * n <= a * m && a * m <= d * m) by (nonlinear_arith)
        requires
            0 <= a < d,
            0 <= n <= m,
    ;
    assert((a * n) / d <= (a * m) / d && 0 <= (a * n) / d) by (nonlinear_arith)
        requires
            0 <= a * n <= a * m,
            d > 0,
    ;
    assert((a * m) / d <= m) by (nonlinear_arith)
        requires
            0 <= a * m <= d * m,
            d > 0,
    ;
    assert(2 * epsilon.num * n == a * n && 2 * epsilon.num * m == a * m) by (nonlinear_arith)
        requires
            a == 2 * epsilon.num,
    ;
}

/// The budgets of two summaries are together within the budget of the merged summary,
/// where that one has the greater error of the two.
pub proof fn lemma_budget_adds(epsilon: Ratio, other: Ratio, n: int, m: int)
    requires
        epsilon.is_epsilon(),
        other.is_epsilon(),
        other.at_most(epsilon),
        0 <= n,
        0 <= m,
    ensures
        budget(epsilon, n) + budget(other, m) <= budget(epsilon, n + m),
{
    let a = 2 * epsilon.num as int;
    let d = epsilon.den as int;
    let b = 2 * other.num as int;
    let e = other.den as int;
    let q1 = (a * n) / d;
    let q2 = (b * m) / e;
    assert(2 * epsilon.num * n == a * n && 2 * epsilon.num * (n + m) == a * (n + m)) by (
    nonlinear_arith)
        requires
            a == 2 * epsilon.num,
    ;
    assert(2 * other.num * m == b * m) by (nonlinear_arith)
        requires
            b == 2 * other.num,
    ;
    assert(b * d <= a * e) by (nonlinear_arith)
        requires
            other.num * epsilon.den <= epsilon.num * other.den,
            a == 2 * epsilon.num,
            b == 2 * other.num,
            d == epsilon.den,
            e == other.den,
    ;
    assert(q1 * d <= a * n) by (nonlinear_arith)
        requires
            q1 == (a * n) / d,
            d > 0,
    ;
    assert(q2 * e <= b * m) by (nonlinear_arith)
        requires
            q2 == (b * m) / e,
            e > 0,
    ;
    assert(q2 * e * d <= a * e * m) by (nonlinear_arith)
        requires
            q2 * e <= b * m,
            b * d <= a * e,
            d > 0,
            m >= 0,
    ;
    assert(q2 * d <= a * m) by (nonlinear_arith)
        requires
            q2 * e * d <= a * e * m,
            e > 0,
    ;
    assert((q1 + q2) * d <= a * (n + m)) by (nonlinear_arith)
        requires
            q1 * d <= a * n,
            q2 * d <= a * m,
    ;
    assert(q1 + q2 <= (a * (n + m)) / d) by (nonlinear_arith)
        requires
            (q1 + q2) * d <= a * (n + m),
            d > 0,
    ;
}

/// The greatest rank error of an answer of a summary of `len` values that was built for
/// the relative error `epsilon`: the error times the number of values, rounded down.
pub open spec fn error_bound(epsilon: Ratio, len: int) -> int {
    (epsilon.num * len) / (epsilon.den as int)
}

/// Half the budget, rounded down, is within the error bound.
pub proof fn lemma_half_budget(epsilon: Ratio, len: int)
    requires
        epsilon.is_epsilon(),
        0 <= len,
    ensures
        0 <= budget(epsilon, len) / 2 <= error_bound(epsilon, len),
{
    let a = epsilon.num as int;
    let d = epsilon.den as int;
    let q = (2 * a * len) / d;
    let h = q / 2;
    assert(0 <= 2 * a * len) by (nonlinear_arith)
        requires
            0 <= a,
            0 <= len,
    ;
    assert(q * d <= 2 * a * len && 0 <= q) by (nonlinear_arith)
        requires
            q == (2 * a * len) / d,
            d > 0,
            0 <= 2 * a * len,
    ;
    assert(h * d <= a * len) by (nonlinear_arith)
        requires
            q * d <= 2 * a * len,
            2 * h <= q,
            d > 0,
    ;
    assert(h <= (a * len) / d) by (nonlinear_arith)
        requires
            h * d <= a * len,
            d > 0,
    ;
    assert(2 * epsilon.num * len == 2 * a * len);
}

/// The rank of a quantile among `n` values is one of their ranks.
pub proof fn lemma_rank_of_bounds(q: Ratio, n: int)
    requires
        q.is_quantile(),
        n >= 1,
    ensures
        1 <= rank_of(q, n) <= n,
{
    let a = q.num as int;
    let d = q.den as int;
    assert(0 <= a * n <= d * n) by (nonlinear_arith)
        requires
            0 <= a <= d,
            0 <= n,
    ;
    assert((a * n + d - 1) / d <= n) by (nonlinear_arith)
        requires
            0 <= a * n <= d * n,
            d > 0,
            n >= 0,
    ;
}

/// The quantile 0 has the first rank, and the quantile 1 the last one.
pub proof fn lemma_rank_of_ends(den: u64, n: int)
    requires
        den > 0,
        n >= 1,
    ensures
        rank_of(Ratio { num: 0, den }, n) == 1,
        rank_of(Ratio { num: den, den }, n) == n,
{
    let d = den as int;
    assert((0 * n + d - 1) / d == 0) by (nonlinear_arith)
        requires
            d >= 1,
    ;
    assert((d * n + d - 1) / d == n) by (nonlinear_arith)
        requires
            d >= 1,
            n >= 0,
    ;
}

} // verus!
