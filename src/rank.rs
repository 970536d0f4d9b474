//! Nearest-rank selection over a table of bucket counters.
use vstd::arithmetic::div_mod::{lemma_fundamental_div_mod, lemma_fundamental_div_mod_converse};
use vstd::prelude::*;

use crate::error::QuantileError;

verus! {

/// Bucket counters seen as mathematical integers.
pub open spec fn as_ints(s: Seq<u64>) -> Seq<int> {
    s.map_values(|x: u64| x as int)
}

/// No counter is negative.
pub open spec fn nonneg(c: Seq<int>) -> bool {
    forall|i: int| 0 <= i < c.len() ==> c[i] >= 0
}

/// Sum of the first `n` counters.
pub open spec fn prefix_sum(c: Seq<int>, n: int) -> int
    decreases n,
{
    if n <= 0 {
        0
    } else {
        prefix_sum(c, n - 1) + c[n - 1]
    }
}

/// Sum of all counters.
pub open spec fn total_of(c: Seq<int>) -> int {
    prefix_sum(c, c.len() as int)
}

/// The first bucket at or after `i` whose cumulative count exceeds `rank`
/// (`c.len()` when there is none).
pub open spec fn first_above(c: Seq<int>, rank: int, i: int) -> int
    decreases c.len() - i,
{
    if i >= c.len() {
        c.len() as int
    } else if prefix_sum(c, i + 1) > rank {
        i
    } else {
        first_above(c, rank, i + 1)
    }
}

/// The bucket that holds the observation of zero-based rank `rank` when all
/// observations are sorted.
pub open spec fn rank_index(c: Seq<int>, rank: int) -> int {
    first_above(c, rank, 0)
}

/// `n / d` rounded to the nearest integer, halves away from zero (`d > 0`).
pub open spec fn round_half_away(n: int, d: int) -> int {
    if n >= 0 {
        (2 * n + d) / (2 * d)
    } else {
        -((-2 * n + d) / (2 * d))
    }
}

/// `x` limited to `[lo, hi]`.
pub open spec fn clamp(x: int, lo: int, hi: int) -> int {
    if x < lo {
        lo
    } else if x > hi {
        hi
    } else {
        x
    }
}

/// `num / den` is a fraction in `[0, 1]`.
pub open spec fn valid_fraction(num: int, den: int) -> bool {
    den > 0 && 0 <= num <= den
}

/// The nearest rank for the fraction `f = num / den` among `total`
/// observations: `round(f * total - 1)`, clamped into `[0, total - 1]`.
pub open spec fn nearest_rank(num: int, den: int, total: int) -> int {
    clamp(round_half_away(num * total - den, den), 0, total - 1)
}

/// The quantile `num / den` of the observations that the counters `c` hold,
/// the first counter standing for the value `start`.
pub open spec fn quantile_of(c: Seq<int>, start: int, num: int, den: int) -> Result<
    u64,
    QuantileError,
> {
    if !valid_fraction(num, den) {
        Err(QuantileError::InvalidFraction)
    } else if total_of(c) == 0 {
        Err(QuantileError::NoData)
    } else {
        Ok((start + rank_index(c, nearest_rank(num, den, total_of(c)))) as u64)
    }
}

/// Cumulative sums grow with the number of counters summed.
pub proof fn lemma_prefix_mono(c: Seq<int>, i: int, j: int)
    requires
        nonneg(c),
        0 <= i <= j <= c.len(),
    ensures
        prefix_sum(c, i) <= prefix_sum(c, j),
    decreases j - i,
{
    if i < j {
        lemma_prefix_mono(c, i, j - 1);
    }
}

/// The scan never moves backwards.
pub proof fn lemma_first_above_lower(c: Seq<int>, rank: int, i: int)
    requires
        0 <= i <= c.len(),
    ensures
        i <= first_above(c, rank, i) <= c.len(),
    decreases c.len() - i,
{
    if i < c.len() && prefix_sum(c, i + 1) <= rank {
        lemma_first_above_lower(c, rank, i + 1);
    }
}

/// A bucket is found for every rank below the total.
pub proof fn lemma_first_above_found(c: Seq<int>, rank: int, i: int)
    requires
        nonneg(c),
        0 <= i <= c.len(),
        prefix_sum(c, i) <= rank < total_of(c),
    ensures
        first_above(c, rank, i) < c.len(),
        prefix_sum(c, first_above(c, rank, i)) <= rank < prefix_sum(
            c,
            first_above(c, rank, i) + 1,
        ),
    decreases c.len() - i,
{
    if i < c.len() {
        if prefix_sum(c, i + 1) <= rank {
            lemma_first_above_found(c, rank, i + 1);
        }
    }
}

/// A higher rank never selects a lower bucket.
pub proof fn lemma_first_above_mono(c: Seq<int>, r1: int, r2: int, i: int)
    requires
        0 <= i <= c.len(),
        r1 <= r2,
    ensures
        first_above(c, r1, i) <= first_above(c, r2, i),
    decreases c.len() - i,
{
    if i < c.len() {
        if prefix_sum(c, i + 1) > r1 {
            lemma_first_above_lower(c, r2, i);
        } else {
            lemma_first_above_mono(c, r1, r2, i + 1);
        }
    }
}

/// Integer division is monotone in the rational it truncates:
/// `a1 / b1 <= a2 / b2` as rationals gives the same of the quotients.
pub proof fn lemma_div_rational_mono(a1: int, b1: int, a2: int, b2: int)
    requires
        b1 > 0,
        b2 > 0,
        a1 * b2 <= a2 * b1,
    ensures
        a1 / b1 <= a2 / b2,
{
    let k = a1 / b1;
    let q2 = a2 / b2;
    lemma_fundamental_div_mod(a1, b1);
    lemma_fundamental_div_mod(a2, b2);
    assert(b1 * k <= a1);
    assert(b1 * b2 * k <= a1 * b2) by (nonlinear_arith)
        requires
            b1 * k <= a1,
            b2 > 0,
    ;
    assert(b2 * k <= a2) by (nonlinear_arith)
        requires
            b1 * b2 * k <= a1 * b2,
            a1 * b2 <= a2 * b1,
            b1 > 0,
    ;
    assert(k <= q2) by (nonlinear_arith)
        requires
            b2 * k <= a2,
            a2 == b2 * q2 + a2 % b2,
            a2 % b2 < b2,
            b2 > 0,
    ;
}

/// The nearest rank grows with the fraction.
pub proof fn lemma_nearest_rank_mono(n1: int, d1: int, n2: int, d2: int, total: int)
    requires
        valid_fraction(n1, d1),
        valid_fraction(n2, d2),
        n1 * d2 <= n2 * d1,
        total > 0,
    ensures
        nearest_rank(n1, d1, total) <= nearest_rank(n2, d2, total),
{
    let p1 = n1 * total - d1;
    let p2 = n2 * total - d2;
    if p1 < 0 {
        assert((-2 * p1 + d1) / (2 * d1) >= 0) by (nonlinear_arith)
            requires
                -2 * p1 + d1 >= 0,
                d1 > 0,
        ;
        if p2 < 0 {
            assert((-2 * p2 + d2) / (2 * d2) >= 0) by (nonlinear_arith)
                requires
                    -2 * p2 + d2 >= 0,
                    d2 > 0,
            ;
        } else {
            assert((2 * p2 + d2) / (2 * d2) >= 0) by (nonlinear_arith)
                requires
                    2 * p2 + d2 >= 0,
                    d2 > 0,
            ;
        }
    } else {
        assert(p1 * d2 <= p2 * d1) by (nonlinear_arith)
            requires
                p1 == n1 * total - d1,
                p2 == n2 * total - d2,
                n1 * d2 <= n2 * d1,
                total > 0,
        ;
        assert(p2 >= 0) by (nonlinear_arith)
            requires
                p1 * d2 <= p2 * d1,
                p1 >= 0,
                d1 > 0,
                d2 > 0,
        ;
        assert((2 * p1 + d1) * (2 * d2) <= (2 * p2 + d2) * (2 * d1)) by (nonlinear_arith)
            requires
                p1 * d2 <= p2 * d1,
        ;
        lemma_div_rational_mono(2 * p1 + d1, 2 * d1, 2 * p2 + d2, 2 * d2);
    }
}

/// Over any counter table, a larger fraction never gives a smaller
/// quantile, and both queries succeed or fail alike.
pub proof fn lemma_quantile_of_mono(c: Seq<int>, start: int, n1: int, d1: int, n2: int, d2: int)
    requires
        nonneg(c),
        0 <= start,
        start + c.len() <= u64::MAX + 1,
        valid_fraction(n1, d1),
        valid_fraction(n2, d2),
        n1 * d2 <= n2 * d1,
    ensures
        total_of(c) == 0 ==> quantile_of(c, start, n1, d1) == Err::<u64, QuantileError>(
            QuantileError::NoData,
        ) && quantile_of(c, start, n2, d2) == Err::<u64, QuantileError>(QuantileError::NoData),
        total_of(c) > 0 ==> quantile_of(c, start, n1, d1) is Ok && quantile_of(c, start, n2, d2) is Ok
            && quantile_of(c, start, n1, d1)->Ok_0 <= quantile_of(c, start, n2, d2)->Ok_0,
{
    let t = total_of(c);
    lemma_prefix_mono(c, 0, c.len() as int);
    if t > 0 {
        let k1 = nearest_rank(n1, d1, t);
        let k2 = nearest_rank(n2, d2, t);
        lemma_nearest_rank_mono(n1, d1, n2, d2, t);
        lemma_first_above_mono(c, k1, k2, 0);
        lemma_first_above_found(c, k2, 0);
        lemma_first_above_lower(c, k1, 0);
    }
}

/// Counters before a cumulative sum of zero are all zero.
pub proof fn lemma_zero_prefix(c: Seq<int>, i: int)
    requires
        nonneg(c),
        0 <= i <= c.len(),
        prefix_sum(c, i) == 0,
    ensures
        forall|j: int| 0 <= j < i ==> c[j] == 0,
    decreases i,
{
    if i > 0 {
        lemma_prefix_mono(c, 0, i - 1);
        lemma_zero_prefix(c, i - 1);
    }
}

/// Counters after a cumulative sum that reaches the total are all zero.
pub proof fn lemma_full_prefix(c: Seq<int>, i: int)
    requires
        nonneg(c),
        0 <= i <= c.len(),
        prefix_sum(c, i) == total_of(c),
    ensures
        forall|j: int| i <= j < c.len() ==> c[j] == 0,
{
    assert forall|j: int| i <= j < c.len() implies c[j] == 0 by {
        lemma_prefix_mono(c, i, j);
        lemma_prefix_mono(c, j + 1, c.len() as int);
    }
}

/// The fraction `0` selects the lowest non-empty bucket and the fraction
/// `1` the highest.
pub proof fn lemma_quantile_of_extremes(c: Seq<int>, start: int, d: int)
    requires
        nonneg(c),
        0 <= start,
        start + c.len() <= u64::MAX + 1,
        d > 0,
        total_of(c) > 0,
    ensures
        quantile_of(c, start, 0, d) is Ok,
        quantile_of(c, start, d, d) is Ok,
        ({
            let lo = quantile_of(c, start, 0, d)->Ok_0 - start;
            &&& 0 <= lo < c.len()
            &&& c[lo] > 0
            &&& forall|j: int| 0 <= j < lo ==> c[j] == 0
        }),
        ({
            let hi = quantile_of(c, start, d, d)->Ok_0 - start;
            &&& 0 <= hi < c.len()
            &&& c[hi] > 0
            &&& forall|j: int| hi < j < c.len() ==> c[j] == 0
        }),
{
    let t = total_of(c);
    lemma_fundamental_div_mod_converse(3 * d, 2 * d, 1, d);
    assert(nearest_rank(0, d, t) == 0);
    assert(d * t - d >= 0) by (nonlinear_arith)
        requires
            t >= 1,
            d > 0,
    ;
    assert(2 * (d * t - d) + d == (2 * d) * (t - 1) + d) by (nonlinear_arith);
    lemma_fundamental_div_mod_converse(2 * (d * t - d) + d, 2 * d, t - 1, d);
    assert(nearest_rank(d, d, t) == t - 1);
    lemma_prefix_mono(c, 0, c.len() as int);
    lemma_first_above_found(c, 0, 0);
    lemma_first_above_found(c, t - 1, 0);
    let lo = rank_index(c, 0);
    let hi = rank_index(c, t - 1);
    lemma_prefix_mono(c, 0, lo);
    lemma_zero_prefix(c, lo);
    lemma_prefix_mono(c, hi + 1, c.len() as int);
    lemma_full_prefix(c, hi + 1);
}

/// Computes `nearest_rank(num, den, total)` without leaving 128-bit integers.
pub fn compute_nearest_rank(num: u64, den: u64, total: u64) -> (r: u64)
    requires
        valid_fraction(num as int, den as int),
        total > 0,
    ensures
        r == nearest_rank(num as int, den as int, total as int),
        r < total,
{
    proof {
        assert(num as int * total as int <= u64::MAX as int * u64::MAX as int) by (nonlinear_arith)
            requires
                0 <= num <= u64::MAX,
                0 <= total <= u64::MAX,
        ;
    }
    let a: u128 = num as u128 * total as u128;
    let d: u128 = den as u128;
    let ghost p = a - d;
    if a < d {
        proof {
            assert((-2 * p + d) / (2 * d) >= 0) by (nonlinear_arith)
                requires
                    -2 * p + d >= 0,
                    d > 0,
            ;
        }
        return 0;
    }
    let q: u128 = a / d;
    let m: u128 = a % d;
    proof {
        lemma_fundamental_div_mod(a as int, d as int);
        assert(q <= total) by (nonlinear_arith)
            requires
                a == d * q + m,
                m >= 0,
                a == num * total,
                num <= d,
                d > 0,
        ;
        assert(q >= 1) by (nonlinear_arith)
            requires
                a == d * q + m,
                m < d,
                a >= d,
        ;
    }
    let up: u128 = if 2 * m >= d {
        1
    } else {
        0
    };
    let rounded: u128 = q - 1 + up;
    proof {
        if 2 * m >= d {
            assert(2 * a - d == (2 * d) * q + (2 * m - d)) by (nonlinear_arith)
                requires
                    a == d * q + m,
            ;
            lemma_fundamental_div_mod_converse(2 * a - d, 2 * d, q as int, 2 * m - d);
        } else {
            assert(2 * a - d == (2 * d) * (q - 1) + (2 * m + d)) by (nonlinear_arith)
                requires
                    a == d * q + m,
            ;
            lemma_fundamental_div_mod_converse(2 * a - d, 2 * d, q - 1, 2 * m + d);
        }
        assert(2 * p + d == 2 * a - d);
    }
    if rounded >= total as u128 {
        total - 1
    } else {
        rounded as u64
    }
}

/// Finds the bucket that holds the observation of zero-based rank `rank`.
pub fn select_by_rank(counts: &Vec<u64>, rank: u64) -> (i: usize)
    requires
        rank < total_of(as_ints(counts@)),
        total_of(as_ints(counts@)) <= u64::MAX,
    ensures
        i == rank_index(as_ints(counts@), rank as int),
        i < counts.len(),
{
    let ghost c = as_ints(counts@);
    let mut i: usize = 0;
    let mut cumulative: u64 = 0;
    proof {
        lemma_first_above_found(c, rank as int, 0);
        lemma_first_above_lower(c, rank as int, 0);
    }
    loop
        invariant
            c == as_ints(counts@),
            nonneg(c),
            i < counts.len(),
            cumulative == prefix_sum(c, i as int),
            cumulative <= rank,
            rank < total_of(c),
            total_of(c) <= u64::MAX,
            rank_index(c, rank as int) == first_above(c, rank as int, i as int),
        decreases counts.len() - i,
    {
        proof {
            lemma_prefix_mono(c, i + 1, c.len() as int);
        }
        let next: u64 = cumulative + counts[i];
        if next > rank {
            return i;
        }
        i = i + 1;
        cumulative = next;
        proof {
            if i == counts.len() {
                assert(false);
            }
        }
    }
}

} // verus!
