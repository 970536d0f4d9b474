//! An exact counting histogram over a closed integer domain.
use vstd::prelude::*;

use crate::error::QuantileError;
use crate::rank::{
    as_ints, compute_nearest_rank, lemma_prefix_mono, lemma_quantile_of_extremes,
    lemma_quantile_of_mono, nonneg, prefix_sum, quantile_of, valid_fraction,
    select_by_rank, total_of,
};

verus! {

/// Largest number of buckets that a value domain may hold.
pub const MAX_BUCKETS: u64 = 1048576;

/// The abstract state of a histogram: a counter per value of `[start, end]`
/// and the number of observations.
pub struct HistogramView {
    pub start: int,
    pub end: int,
    pub counts: Seq<int>,
    pub total: int,
}

/// `count` zero counters.
pub open spec fn zeros(count: int) -> Seq<int> {
    Seq::new(count as nat, |i: int| 0int)
}

/// `[start, end]` is a domain that a histogram accepts.
pub open spec fn valid_domain(start: int, end: int) -> bool {
    start <= end && end - start < MAX_BUCKETS
}

impl HistogramView {
    /// The counters match the domain, none is negative, and the total is
    /// their sum.
    pub open spec fn wf(self) -> bool {
        &&& valid_domain(self.start, self.end)
        &&& 0 <= self.start && self.end <= u64::MAX
        &&& self.counts.len() == self.end - self.start + 1
        &&& nonneg(self.counts)
        &&& self.total >= 0
        &&& self.total == total_of(self.counts)
    }

    /// The histogram over `[start, end]` with no observation.
    pub open spec fn empty(start: int, end: int) -> HistogramView {
        HistogramView { start, end, counts: zeros(end - start + 1), total: 0 }
    }

    /// `value` lies in the domain.
    pub open spec fn contains(self, value: int) -> bool {
        self.start <= value <= self.end
    }

    /// The histogram after one more observation of `value`.
    pub open spec fn add(self, value: int) -> HistogramView {
        let k = value - self.start;
        HistogramView {
            counts: self.counts.update(k, self.counts[k] + 1),
            total: self.total + 1,
            ..self
        }
    }

    /// The histogram after `value` was offered: recorded when the domain
    /// holds it, refused otherwise.
    pub open spec fn record(self, value: int) -> HistogramView {
        if self.contains(value) {
            self.add(value)
        } else {
            self
        }
    }

    /// The quantile `num / den` of the recorded observations.
    pub open spec fn quantile(self, num: int, den: int) -> Result<u64, QuantileError> {
        quantile_of(self.counts, self.start, num, den)
    }
}

/// Adding to one counter adds as much to every cumulative sum that covers it.
pub proof fn lemma_prefix_update(c: Seq<int>, k: int, x: int, n: int)
    requires
        0 <= k < c.len(),
        0 <= n <= c.len(),
    ensures
        prefix_sum(c.update(k, c[k] + x), n) == prefix_sum(c, n) + if k < n {
            x
        } else {
            0
        },
    decreases n,
{
    if n > 0 {
        lemma_prefix_update(c, k, x, n - 1);
    }
}

/// No counter exceeds the total.
pub proof fn lemma_count_le_total(c: Seq<int>, k: int)
    requires
        nonneg(c),
        0 <= k < c.len(),
    ensures
        0 <= c[k] <= total_of(c),
{
    lemma_prefix_mono(c, 0, k);
    lemma_prefix_mono(c, k + 1, c.len() as int);
}

/// The histogram after each value of `s` was offered in order.
pub open spec fn record_all(h: HistogramView, s: Seq<int>) -> HistogramView
    decreases s.len(),
{
    if s.len() == 0 {
        h
    } else {
        record_all(h, s.drop_last()).record(s.last())
    }
}

/// An empty histogram over a valid domain is well formed.
pub proof fn lemma_empty_wf(start: int, end: int)
    requires
        valid_domain(start, end),
        0 <= start,
        end <= u64::MAX,
    ensures
        HistogramView::empty(start, end).wf(),
{
    lemma_prefix_zeros(end - start + 1, end - start + 1);
}

/// Counters that are all zero sum to zero.
pub proof fn lemma_prefix_zeros(count: int, n: int)
    requires
        0 <= n <= count,
    ensures
        prefix_sum(zeros(count), n) == 0,
    decreases n,
{
    if n > 0 {
        lemma_prefix_zeros(count, n - 1);
    }
}

/// For a fixed histogram the quantile never decreases as the fraction
/// grows: `num1 / den1 <= num2 / den2` gives a quantile no larger; with no
/// observation both queries report that there is no data.
pub proof fn lemma_quantile_monotone(h: HistogramView, num1: int, den1: int, num2: int, den2: int)
    requires
        h.wf(),
        valid_fraction(num1, den1),
        valid_fraction(num2, den2),
        num1 * den2 <= num2 * den1,
    ensures
        h.total == 0 ==> h.quantile(num1, den1) == Err::<u64, QuantileError>(QuantileError::NoData)
            && h.quantile(num2, den2) == Err::<u64, QuantileError>(QuantileError::NoData),
        h.total > 0 ==> h.quantile(num1, den1) is Ok && h.quantile(num2, den2) is Ok && h.quantile(
            num1,
            den1,
        )->Ok_0 <= h.quantile(num2, den2)->Ok_0,
{
    lemma_quantile_of_mono(h.counts, h.start, num1, den1, num2, den2);
}

/// The fraction `0` gives the smallest recorded value and the fraction `1`
/// the largest, whatever the denominator that writes them.
pub proof fn lemma_quantile_extremes(h: HistogramView, den: int)
    requires
        h.wf(),
        h.total > 0,
        den > 0,
    ensures
        h.quantile(0, den) is Ok,
        h.quantile(den, den) is Ok,
        ({
            let lo = h.quantile(0, den)->Ok_0 as int;
            &&& h.contains(lo)
            &&& h.counts[lo - h.start] > 0
            &&& forall|j: int| 0 <= j < lo - h.start ==> h.counts[j] == 0
        }),
        ({
            let hi = h.quantile(den, den)->Ok_0 as int;
            &&& h.contains(hi)
            &&& h.counts[hi - h.start] > 0
            &&& forall|j: int| hi - h.start < j < h.counts.len() ==> h.counts[j] == 0
        }),
{
    lemma_quantile_of_extremes(h.counts, h.start, den);
}

/// Counts how often each value of a closed integer domain has been observed,
/// and answers nearest-rank quantile queries over those counts.
pub struct QuantileEstimator {
    val_count: u64,
    start: u64,
    end: u64,
    quantiles: Vec<u64>,
}

impl View for QuantileEstimator {
    type V = HistogramView;

    closed spec fn view(&self) -> HistogramView {
        HistogramView {
            start: self.start as int,
            end: self.end as int,
            counts: as_ints(self.quantiles@),
            total: self.val_count as int,
        }
    }
}

impl QuantileEstimator {
    /// The histogram is well formed.
    pub open spec fn wf(&self) -> bool {
        self@.wf()
    }

    /// An empty histogram over a domain already known to be valid.
    pub(crate) fn empty(start: u64, end: u64) -> (h: Self)
        requires
            valid_domain(start as int, end as int),
        ensures
            h.wf(),
            h@ == HistogramView::empty(start as int, end as int),
    {
        let len: usize = (end - start + 1) as usize;
        let quantiles: Vec<u64> = vec![0u64; len];
        let h = QuantileEstimator { val_count: 0, start, end, quantiles };
        proof {
            assert(h@.counts =~= zeros(len as int));
            lemma_prefix_zeros(len as int, len as int);
        }
        h
    }

    /// Creates an empty histogram over `[start, end]`.
    pub fn new(start: u64, end: u64) -> (r: Result<Self, QuantileError>)
        ensures
            end < start ==> r == Err::<Self, QuantileError>(QuantileError::InvalidRange),
            start <= end && end - start >= MAX_BUCKETS ==> r == Err::<Self, QuantileError>(
                QuantileError::RangeTooLarge,
            ),
            valid_domain(start as int, end as int) ==> r is Ok,
            r matches Ok(h) ==> h.wf() && h@ == HistogramView::empty(start as int, end as int),
    {
        if end < start {
            return Err(QuantileError::InvalidRange);
        }
        if end - start >= MAX_BUCKETS {
            return Err(QuantileError::RangeTooLarge);
        }
        Ok(Self::empty(start, end))
    }

    /// Records one observation of `value`; a value outside the domain is
    /// refused and nothing changes.
    pub fn add_value(&mut self, value: u64) -> (r: Result<(), QuantileError>)
        requires
            old(self).wf(),
            old(self)@.total < u64::MAX,
        ensures
            final(self).wf(),
            old(self)@.contains(value as int) ==> r == Ok::<(), QuantileError>(()) && final(self)@
                == old(self)@.add(value as int),
            !old(self)@.contains(value as int) ==> r == Err::<(), QuantileError>(
                QuantileError::ValueOutOfRange,
            ) && final(self)@ == old(self)@,
    {
        if value < self.start || value > self.end {
            return Err(QuantileError::ValueOutOfRange);
        }
        let k: usize = (value - self.start) as usize;
        let ghost c = as_ints(self.quantiles@);
        proof {
            lemma_count_le_total(c, k as int);
            lemma_prefix_update(c, k as int, 1, c.len() as int);
        }
        self.val_count = self.val_count + 1;
        let bumped: u64 = self.quantiles[k] + 1;
        self.quantiles.set(k, bumped);
        proof {
            assert(as_ints(self.quantiles@) =~= c.update(k as int, c[k as int] + 1));
        }
        Ok(())
    }

    /// The quantile `numerator / denominator` of the recorded values, by
    /// the nearest-rank method.
    pub fn estimate_quantile(&self, numerator: i64, denominator: u64) -> (r: Result<
        u64,
        QuantileError,
    >)
        requires
            self.wf(),
        ensures
            r == self@.quantile(numerator as int, denominator as int),
            !valid_fraction(numerator as int, denominator as int) ==> r == Err::<u64, QuantileError>(
                QuantileError::InvalidFraction,
            ),
            valid_fraction(numerator as int, denominator as int) && self@.total == 0 ==> r
                == Err::<u64, QuantileError>(QuantileError::NoData),
            valid_fraction(numerator as int, denominator as int) && self@.total > 0 ==> r is Ok
                && self@.start <= r->Ok_0 <= self@.end,
    {
        if denominator == 0 || numerator < 0 || numerator as u64 > denominator {
            return Err(QuantileError::InvalidFraction);
        }
        if self.val_count == 0 {
            return Err(QuantileError::NoData);
        }
        let rank: u64 = compute_nearest_rank(numerator as u64, denominator, self.val_count);
        let i: usize = select_by_rank(&self.quantiles, rank);
        Ok(self.start + i as u64)
    }

    /// The counter table, one entry per value of the domain.
    pub fn counts(&self) -> (r: &Vec<u64>)
        ensures
            as_ints(r@) == self@.counts,
    {
        &self.quantiles
    }

    /// Number of values recorded.
    pub fn total(&self) -> (r: u64)
        ensures
            r == self@.total,
    {
        self.val_count
    }

    /// Lowest value of the domain.
    pub fn start(&self) -> (r: u64)
        ensures
            r == self@.start,
    {
        self.start
    }

    /// Highest value of the domain.
    pub fn end(&self) -> (r: u64)
        ensures
            r == self@.end,
    {
        self.end
    }
}

} // verus!
