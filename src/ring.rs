//! A fixed ring of histograms, one per time window, answering quantile
//! queries over every retained window at once.
use vstd::arithmetic::div_mod::{
    lemma_add_mod_noop, lemma_fundamental_div_mod, lemma_fundamental_div_mod_converse,
    lemma_mod_decreases, lemma_small_mod,
};
use vstd::prelude::*;

use crate::error::QuantileError;
use crate::histogram::{
    lemma_count_le_total, lemma_empty_wf, lemma_prefix_zeros, record_all, valid_domain, zeros,
    HistogramView, QuantileEstimator, MAX_BUCKETS,
};
use crate::rank::{
    as_ints, compute_nearest_rank, lemma_prefix_mono, lemma_quantile_of_mono, nonneg, prefix_sum,
    quantile_of, select_by_rank, total_of, valid_fraction,
};

verus! {

/// Pointwise sum of two counter tables.
pub open spec fn add_seqs(a: Seq<int>, b: Seq<int>) -> Seq<int> {
    Seq::new(a.len(), |i: int| a[i] + b[i])
}

/// The counters of the first `n` windows, added bucket by bucket.
pub open spec fn merged(ws: Seq<HistogramView>, n: int, len: int) -> Seq<int>
    decreases n,
{
    if n <= 0 {
        zeros(len)
    } else {
        add_seqs(merged(ws, n - 1, len), ws[n - 1].counts)
    }
}

/// Sum of the totals of the first `n` windows.
pub open spec fn totals_sum(ws: Seq<HistogramView>, n: int) -> int
    decreases n,
{
    if n <= 0 {
        0
    } else {
        totals_sum(ws, n - 1) + ws[n - 1].total
    }
}

/// The ring after each `(value, timestamp)` of `s` was inserted in order.
pub open spec fn insert_all(r: RingView, s: Seq<(int, int)>) -> RingView
    decreases s.len(),
{
    if s.len() == 0 {
        r
    } else {
        insert_all(r, s.drop_last()).insert(s.last().0, s.last().1)
    }
}

/// The values of a sequence of inserts.
pub open spec fn values_of(s: Seq<(int, int)>) -> Seq<int> {
    s.map_values(|p: (int, int)| p.0)
}

/// Whether slot `j` is overwritten when the active slot `cur` of a ring of
/// `cap` slots advances `k` times.
pub open spec fn is_reset(cur: int, cap: int, k: int, j: int) -> bool {
    k >= cap || (1 <= (j - cur) % cap && (j - cur) % cap <= k)
}

/// The abstract state of a ring buffer.
pub struct RingView {
    pub capacity: int,
    pub duration: int,
    pub start: int,
    pub end: int,
    pub windows: Seq<HistogramView>,
    pub current: int,
    pub window_start: int,
    pub initialized: bool,
}

impl RingView {
    /// Number of buckets of the value domain.
    pub open spec fn buckets(self) -> int {
        self.end - self.start + 1
    }

    /// The ring's shape holds and every window is a histogram over the
    /// ring's domain; all observations together fit in a `u64`.
    pub open spec fn wf(self) -> bool {
        &&& self.capacity >= 1
        &&& self.duration >= 1
        &&& valid_domain(self.start, self.end)
        &&& self.windows.len() == self.capacity
        &&& 0 <= self.current < self.capacity
        &&& forall|j: int|
            0 <= j < self.capacity ==> (#[trigger] self.windows[j]).wf() && self.windows[j].start
                == self.start && self.windows[j].end == self.end
        &&& self.total() <= u64::MAX
    }

    /// A ring of `capacity` empty windows that has seen no insert.
    pub open spec fn empty(capacity: int, duration: int, start: int, end: int) -> RingView {
        RingView {
            capacity,
            duration,
            start,
            end,
            windows: Seq::new(capacity as nat, |j: int| HistogramView::empty(start, end)),
            current: 0,
            window_start: 0,
            initialized: false,
        }
    }

    /// How many windows ago the window in slot `j` was the active one.
    pub open spec fn age(self, j: int) -> int {
        (self.current - j) % self.capacity
    }

    /// Number of observations over all windows.
    pub open spec fn total(self) -> int {
        totals_sum(self.windows, self.capacity)
    }

    /// Counters of all windows, added bucket by bucket.
    pub open spec fn merged(self) -> Seq<int> {
        merged(self.windows, self.capacity, self.buckets())
    }

    /// The quantile `num / den` over all retained windows.
    pub open spec fn quantile(self, num: int, den: int) -> Result<u64, QuantileError> {
        quantile_of(self.merged(), self.start, num, den)
    }

    /// Start of the active window once `timestamp` has been seen: the first
    /// timestamp anchors the grid at a multiple of `duration`.
    pub open spec fn anchor(self, timestamp: int) -> int {
        if self.initialized {
            self.window_start
        } else {
            timestamp - timestamp % self.duration
        }
    }

    /// How many windows end at or before `timestamp`, counted from the
    /// active one.
    pub open spec fn advances(self, timestamp: int) -> int {
        let ws = self.anchor(timestamp);
        if timestamp >= ws {
            (timestamp - ws) / self.duration
        } else {
            0
        }
    }

    /// The ring after time has moved on to `timestamp`: each window that
    /// ended is replaced by the next slot, which starts empty.
    pub open spec fn advance(self, timestamp: int) -> RingView {
        let k = self.advances(timestamp);
        RingView {
            windows: Seq::new(
                self.capacity as nat,
                |j: int|
                    if is_reset(self.current, self.capacity, k, j) {
                        HistogramView::empty(self.start, self.end)
                    } else {
                        self.windows[j]
                    },
            ),
            current: (self.current + k) % self.capacity,
            window_start: self.anchor(timestamp) + k * self.duration,
            initialized: true,
            ..self
        }
    }

    /// The ring after `value` was inserted at `timestamp`: time advances,
    /// then the active window records the value if the domain holds it.
    pub open spec fn insert(self, value: int, timestamp: int) -> RingView {
        let a = self.advance(timestamp);
        if a.start <= value <= a.end {
            RingView { windows: a.windows.update(a.current, a.windows[a.current].add(value)), ..a }
        } else {
            a
        }
    }
}

/// Pointwise addition adds the sums.
pub proof fn lemma_prefix_add(a: Seq<int>, b: Seq<int>, n: int)
    requires
        a.len() == b.len(),
        0 <= n <= a.len(),
    ensures
        prefix_sum(add_seqs(a, b), n) == prefix_sum(a, n) + prefix_sum(b, n),
    decreases n,
{
    if n > 0 {
        lemma_prefix_add(a, b, n - 1);
    }
}

/// The merged table has one non-negative counter per bucket and sums to the
/// windows' totals.
pub proof fn lemma_merged(ws: Seq<HistogramView>, n: int, len: int)
    requires
        0 <= n <= ws.len(),
        len >= 0,
        forall|j: int| 0 <= j < n ==> (#[trigger] ws[j]).wf() && ws[j].counts.len() == len,
    ensures
        merged(ws, n, len).len() == len,
        nonneg(merged(ws, n, len)),
        total_of(merged(ws, n, len)) == totals_sum(ws, n),
        totals_sum(ws, n) >= 0,
    decreases n,
{
    if n <= 0 {
        lemma_prefix_zeros(len, len);
    } else {
        lemma_merged(ws, n - 1, len);
        lemma_prefix_add(merged(ws, n - 1, len), ws[n - 1].counts, len);
        assert(ws[n - 1].wf());
        lemma_prefix_mono(ws[n - 1].counts, 0, len);
    }
}

/// Partial sums of totals grow with the number of windows.
pub proof fn lemma_totals_mono(ws: Seq<HistogramView>, i: int, n: int)
    requires
        0 <= i <= n <= ws.len(),
        forall|j: int| 0 <= j < n ==> (#[trigger] ws[j]).total >= 0,
    ensures
        0 <= totals_sum(ws, i) <= totals_sum(ws, n),
        i < n ==> ws[i].total <= totals_sum(ws, n),
    decreases n,
{
    if n > 0 {
        lemma_totals_mono(ws, if i < n { i } else { n - 1 }, n - 1);
    }
}

/// Totals that are pointwise no larger sum to no more.
pub proof fn lemma_totals_le(a: Seq<HistogramView>, b: Seq<HistogramView>, n: int)
    requires
        0 <= n <= a.len(),
        n <= b.len(),
        forall|j: int| 0 <= j < n ==> (#[trigger] a[j]).total <= b[j].total,
    ensures
        totals_sum(a, n) <= totals_sum(b, n),
    decreases n,
{
    if n > 0 {
        lemma_totals_le(a, b, n - 1);
    }
}

/// Replacing one window changes the sum of totals by the difference.
pub proof fn lemma_totals_update(ws: Seq<HistogramView>, j: int, w: HistogramView, n: int)
    requires
        0 <= j < ws.len(),
        0 <= n <= ws.len(),
    ensures
        totals_sum(ws.update(j, w), n) == totals_sum(ws, n) + if j < n {
            w.total - ws[j].total
        } else {
            0
        },
    decreases n,
{
    if n > 0 {
        lemma_totals_update(ws, j, w, n - 1);
    }
}

/// Windows that all have a zero total sum to zero.
pub proof fn lemma_zero_totals(ws: Seq<HistogramView>, n: int)
    requires
        0 <= n <= ws.len(),
        forall|j: int| 0 <= j < n ==> (#[trigger] ws[j]).total == 0,
    ensures
        totals_sum(ws, n) == 0,
    decreases n,
{
    if n > 0 {
        lemma_zero_totals(ws, n - 1);
    }
}

/// Distance of slot `j` ahead of slot `cur` on the ring.
pub proof fn lemma_distance(cur: int, cap: int, j: int)
    requires
        0 <= cur < cap,
        0 <= j < cap,
    ensures
        (j - cur) % cap == if j >= cur {
            j - cur
        } else {
            j - cur + cap
        },
{
    if j >= cur {
        lemma_fundamental_div_mod_converse(j - cur, cap, 0, j - cur);
    } else {
        lemma_fundamental_div_mod_converse(j - cur, cap, -1, j - cur + cap);
    }
}

/// The slot `s` steps ahead of `cur`, for `1 <= s <= cap`.
pub proof fn lemma_step_slot(cur: int, cap: int, s: int)
    requires
        0 <= cur < cap,
        1 <= s <= cap,
    ensures
        (cur + s) % cap == if cur + s < cap {
            cur + s
        } else {
            cur + s - cap
        },
{
    if cur + s < cap {
        lemma_small_mod((cur + s) as nat, cap as nat);
    } else {
        lemma_fundamental_div_mod_converse(cur + s, cap, 1, cur + s - cap);
    }
}

/// The merged table has one counter per bucket.
pub proof fn lemma_merged_len(ws: Seq<HistogramView>, n: int, len: int)
    requires
        len >= 0,
    ensures
        merged(ws, n, len).len() == len,
    decreases n,
{
    if n > 0 {
        lemma_merged_len(ws, n - 1, len);
    }
}

/// Windows that are all empty merge to zero counters.
pub proof fn lemma_merged_empty(ws: Seq<HistogramView>, n: int, len: int)
    requires
        len >= 0,
        0 <= n <= ws.len(),
        forall|j: int| 0 <= j < n ==> (#[trigger] ws[j]).counts == zeros(len),
    ensures
        merged(ws, n, len) == zeros(len),
    decreases n,
{
    if n > 0 {
        lemma_merged_empty(ws, n - 1, len);
        assert(merged(ws, n, len) =~= zeros(len));
    }
}

/// One more observation in one window is one more in the merged bucket.
pub proof fn lemma_merged_bump(
    ws: Seq<HistogramView>,
    c: int,
    w: HistogramView,
    n: int,
    len: int,
    b: int,
)
    requires
        0 <= c < ws.len(),
        0 <= n <= ws.len(),
        0 <= b < len,
        ws[c].counts.len() == len,
        w.counts == ws[c].counts.update(b, ws[c].counts[b] + 1),
    ensures
        merged(ws.update(c, w), n, len) == if c < n {
            merged(ws, n, len).update(b, merged(ws, n, len)[b] + 1)
        } else {
            merged(ws, n, len)
        },
    decreases n,
{
    lemma_merged_len(ws, n, len);
    if n > 0 {
        lemma_merged_bump(ws, c, w, n - 1, len, b);
        lemma_merged_len(ws, n - 1, len);
        assert(merged(ws.update(c, w), n, len) =~= if c < n {
            merged(ws, n, len).update(b, merged(ws, n, len)[b] + 1)
        } else {
            merged(ws, n, len)
        });
    }
}

/// Inserts whose timestamps stay before the end of the `cap`-th window of
/// the grid anchored by `t0` fill the slots in order and never wrap: the
/// slots after the active one are still empty, and the merged counters are
/// those of one histogram fed the same values.
proof fn lemma_grid_inserts(cap: int, dur: int, start: int, end: int, t0: int, s: Seq<(int, int)>)
    requires
        cap >= 1,
        dur >= 1,
        valid_domain(start, end),
        0 <= t0,
        s.len() > 0 ==> s[0].1 == t0,
        forall|i: int| 0 <= i < s.len() ==> 0 <= (#[trigger] s[i]).1 < (t0 - t0 % dur) + cap * dur,
    ensures
        ({
            let r = insert_all(RingView::empty(cap, dur, start, end), s);
            let h = record_all(HistogramView::empty(start, end), values_of(s));
            &&& r.capacity == cap && r.duration == dur && r.start == start && r.end == end
            &&& r.windows.len() == cap
            &&& 0 <= r.current < cap
            &&& h.start == start && h.end == end
            &&& s.len() > 0 ==> r.initialized && r.window_start == (t0 - t0 % dur) + r.current * dur
            &&& s.len() == 0 ==> !r.initialized && r.current == 0
            &&& forall|j: int|
                r.current < j < cap ==> r.windows[j] == HistogramView::empty(start, end)
            &&& forall|j: int| 0 <= j < cap ==> (#[trigger] r.windows[j]).start == start
                && r.windows[j].end == end && r.windows[j].counts.len() == end - start + 1
            &&& r.merged() == h.counts
        }),
    decreases s.len(),
{
    let r0 = RingView::empty(cap, dur, start, end);
    let h0 = HistogramView::empty(start, end);
    let len = end - start + 1;
    let base = t0 - t0 % dur;
    if s.len() == 0 {
        lemma_merged_empty(r0.windows, cap, len);
    } else {
        let p = s.drop_last();
        lemma_grid_inserts(cap, dur, start, end, t0, p);
        let rp = insert_all(r0, p);
        let hp = record_all(h0, values_of(p));
        assert(values_of(s).drop_last() =~= values_of(p));
        let v = s.last().0;
        let t = s.last().1;
        assert(t == s[s.len() - 1].1);
        let cur = rp.current;
        let k = rp.advances(t);
        lemma_fundamental_div_mod(t0, dur);
        if p.len() == 0 {
            assert(t == t0);
            lemma_fundamental_div_mod_converse(t0 % dur, dur, 0, t0 % dur);
            assert(k == 0);
        } else if t >= rp.window_start {
            let ws = rp.window_start;
            lemma_fundamental_div_mod(t - ws, dur);
            assert(k * dur <= t - ws) by (nonlinear_arith)
                requires
                    t - ws == dur * k + (t - ws) % dur,
                    (t - ws) % dur >= 0,
            ;
            assert(ws + (cap - cur) * dur == base + cap * dur) by (nonlinear_arith)
                requires
                    ws == base + cur * dur,
            ;
            assert(k < cap - cur) by (nonlinear_arith)
                requires
                    k * dur < (cap - cur) * dur,
                    dur > 0,
            ;
        } else {
            assert(k == 0);
        }
        assert(0 <= k < cap - cur);
        lemma_small_mod((cur + k) as nat, cap as nat);
        let a = rp.advance(t);
        assert(a.windows =~= rp.windows) by {
            assert forall|j: int| 0 <= j < cap implies a.windows[j] == rp.windows[j] by {
                lemma_distance(cur, cap, j);
            }
        }
        assert(a.current == cur + k);
        if p.len() > 0 {
            assert(a.window_start == base + (cur + k) * dur) by (nonlinear_arith)
                requires
                    a.window_start == rp.window_start + k * dur,
                    rp.window_start == base + cur * dur,
            ;
        } else {
            assert(a.window_start == base + (cur + k) * dur);
        }
        if start <= v <= end {
            let c = cur + k;
            lemma_merged_bump(a.windows, c, a.windows[c].add(v), cap, len, v - start);
        }
    }
}

/// While every timestamp falls before the end of the `capacity`-th window of
/// the grid that the first timestamp anchors, no window is ever overwritten:
/// the ring answers every query as one histogram fed the same values would.
pub proof fn lemma_merge_matches_single(
    capacity: int,
    duration: int,
    start: int,
    end: int,
    s: Seq<(int, int)>,
    num: int,
    den: int,
)
    requires
        capacity >= 1,
        duration >= 1,
        valid_domain(start, end),
        forall|i: int|
            0 <= i < s.len() ==> 0 <= (#[trigger] s[i]).1 < (s[0].1 - s[0].1 % duration) + capacity
                * duration,
    ensures
        insert_all(RingView::empty(capacity, duration, start, end), s).merged() == record_all(
            HistogramView::empty(start, end),
            values_of(s),
        ).counts,
        insert_all(RingView::empty(capacity, duration, start, end), s).quantile(num, den)
            == record_all(HistogramView::empty(start, end), values_of(s)).quantile(num, den),
{
    let t0 = if s.len() > 0 {
        s[0].1
    } else {
        0
    };
    lemma_grid_inserts(capacity, duration, start, end, t0, s);
}

/// Over all retained windows too, the quantile never decreases as the
/// fraction grows.
pub proof fn lemma_ring_quantile_monotone(r: RingView, num1: int, den1: int, num2: int, den2: int)
    requires
        r.wf(),
        valid_fraction(num1, den1),
        valid_fraction(num2, den2),
        num1 * den2 <= num2 * den1,
    ensures
        r.total() == 0 ==> r.quantile(num1, den1) == Err::<u64, QuantileError>(QuantileError::NoData)
            && r.quantile(num2, den2) == Err::<u64, QuantileError>(QuantileError::NoData),
        r.total() > 0 ==> r.quantile(num1, den1) is Ok && r.quantile(num2, den2) is Ok && r.quantile(
            num1,
            den1,
        )->Ok_0 <= r.quantile(num2, den2)->Ok_0,
{
    lemma_merged(r.windows, r.capacity, r.buckets());
    lemma_quantile_of_mono(r.merged(), r.start, num1, den1, num2, den2);
}

/// A window that an insert makes `capacity` windows old or older is gone:
/// its slot holds nothing recorded before the insert (only the inserted
/// value, when the slot becomes the active one).
pub proof fn lemma_old_window_evicted(r: RingView, value: int, timestamp: int, j: int)
    requires
        r.wf(),
        0 <= j < r.capacity,
        r.age(j) + r.advances(timestamp) >= r.capacity,
    ensures
        r.insert(value, timestamp).windows[j] == if j == r.insert(value, timestamp).current {
            HistogramView::empty(r.start, r.end).record(value)
        } else {
            HistogramView::empty(r.start, r.end)
        },
{
    lemma_distance(j, r.capacity, r.current);
    lemma_distance(r.current, r.capacity, j);
    assert(is_reset(r.current, r.capacity, r.advances(timestamp), j));
}

/// Once an insert moves time on by `capacity` windows or more, nothing
/// recorded before it counts any longer: the ring holds the inserted value
/// alone, when the domain holds it, and nothing otherwise.
pub proof fn lemma_full_eviction(r: RingView, value: int, timestamp: int)
    requires
        r.wf(),
        r.advances(timestamp) >= r.capacity,
    ensures
        r.insert(value, timestamp).merged() == HistogramView::empty(r.start, r.end).record(
            value,
        ).counts,
{
    let a = r.advance(timestamp);
    let len = r.buckets();
    lemma_merged_empty(a.windows, r.capacity, len);
    lemma_small_mod(0, r.capacity as nat);
    lemma_fundamental_div_mod(r.current + r.advances(timestamp), r.capacity);
    if r.start <= value <= r.end {
        let b = value - r.start;
        let w = a.windows[a.current].add(value);
        lemma_merged_bump(a.windows, a.current, w, r.capacity, len, b);
        assert(zeros(len).update(b, zeros(len)[b] + 1) =~= HistogramView::empty(
            r.start,
            r.end,
        ).record(value).counts);
    }
}

/// A fixed number of histograms, each covering one time window of equal
/// length; inserts go to the window of their timestamp and queries merge
/// every retained window.
pub struct TimeBasedRingBuffer {
    capacity: usize,
    duration: u64,
    windows: Vec<QuantileEstimator>,
    current: usize,
    start: u64,
    end: u64,
    current_window_start: u64,
    current_window_initialized: bool,
}

impl View for TimeBasedRingBuffer {
    type V = RingView;

    closed spec fn view(&self) -> RingView {
        RingView {
            capacity: self.capacity as int,
            duration: self.duration as int,
            start: self.start as int,
            end: self.end as int,
            windows: self.windows@.map_values(|w: QuantileEstimator| w@),
            current: self.current as int,
            window_start: self.current_window_start as int,
            initialized: self.current_window_initialized,
        }
    }
}

impl TimeBasedRingBuffer {
    /// The ring buffer is well formed.
    pub open spec fn wf(&self) -> bool {
        self@.wf()
    }

    /// Creates a ring of `capacity` empty windows of length `duration` over
    /// the value domain `[start, end]`.
    pub fn new(capacity: usize, duration: u64, start: u64, end: u64) -> (r: Result<
        Self,
        QuantileError,
    >)
        ensures
            capacity == 0 ==> r == Err::<Self, QuantileError>(QuantileError::InvalidCapacity),
            capacity > 0 && duration == 0 ==> r == Err::<Self, QuantileError>(
                QuantileError::InvalidDuration,
            ),
            capacity > 0 && duration > 0 && end < start ==> r == Err::<Self, QuantileError>(
                QuantileError::InvalidRange,
            ),
            capacity > 0 && duration > 0 && start <= end && end - start >= MAX_BUCKETS ==> r
                == Err::<Self, QuantileError>(QuantileError::RangeTooLarge),
            capacity > 0 && duration > 0 && valid_domain(start as int, end as int) ==> r is Ok,
            r matches Ok(b) ==> b.wf() && b@ == RingView::empty(
                capacity as int,
                duration as int,
                start as int,
                end as int,
            ),
    {
        if capacity == 0 {
            return Err(QuantileError::InvalidCapacity);
        }
        if duration == 0 {
            return Err(QuantileError::InvalidDuration);
        }
        if end < start {
            return Err(QuantileError::InvalidRange);
        }
        if end - start >= MAX_BUCKETS {
            return Err(QuantileError::RangeTooLarge);
        }
        let mut windows: Vec<QuantileEstimator> = Vec::with_capacity(capacity);
        let mut i: usize = 0;
        while i < capacity
            invariant
                i <= capacity,
                valid_domain(start as int, end as int),
                windows.len() == i,
                forall|j: int|
                    0 <= j < i ==> (#[trigger] windows@[j])@ == HistogramView::empty(
                        start as int,
                        end as int,
                    ),
            decreases capacity - i,
        {
            windows.push(QuantileEstimator::empty(start, end));
            i = i + 1;
        }
        let b = TimeBasedRingBuffer {
            capacity,
            duration,
            windows,
            current: 0,
            start,
            end,
            current_window_start: 0,
            current_window_initialized: false,
        };
        proof {
            let e = RingView::empty(capacity as int, duration as int, start as int, end as int);
            assert(b@.windows =~= e.windows);
            lemma_prefix_zeros(end - start + 1, end - start + 1);
            lemma_zero_totals(e.windows, capacity as int);
        }
        Ok(b)
    }

    /// Moves time on to `timestamp`: anchors the grid on the first call,
    /// then overwrites with empty histograms the slots of the windows that
    /// end at or before `timestamp`.
    fn advance_to(&mut self, timestamp: u64)
        requires
            old(self).wf(),
        ensures
            final(self).wf(),
            final(self)@ == old(self)@.advance(timestamp as int),
            final(self)@.total() <= old(self)@.total(),
    {
        let ghost before = self@;
        if !self.current_window_initialized {
            proof {
                lemma_mod_decreases(timestamp as nat, self.duration as nat);
            }
            self.current_window_start = timestamp - timestamp % self.duration;
            self.current_window_initialized = true;
        }
        let cap: usize = self.capacity;
        let cur: usize = self.current;
        proof {
            lemma_small_mod(cur as nat, cap as nat);
        }
        if timestamp < self.current_window_start {
            proof {
                let after = before.advance(timestamp as int);
                assert(before.advances(timestamp as int) == 0);
                assert(before.advances(timestamp as int) * before.duration == 0) by (nonlinear_arith)
                    requires
                        before.advances(timestamp as int) == 0,
                ;
                assert(self@.windows =~= after.windows);
                assert(self@.current == after.current);
                assert(self@.window_start == after.window_start);
                assert(self@ == after);
            }
            return;
        }
        let k: u64 = (timestamp - self.current_window_start) / self.duration;
        proof {
            lemma_fundamental_div_mod(
                (timestamp - self.current_window_start) as int,
                self.duration as int,
            );
            assert(k * self.duration <= timestamp - self.current_window_start) by (nonlinear_arith)
                requires
                    timestamp - self.current_window_start == self.duration * k + (timestamp
                        - self.current_window_start) % self.duration as int,
                    (timestamp - self.current_window_start) % self.duration as int >= 0,
            ;
            lemma_empty_wf(self.start as int, self.end as int);
        }
        let resets: usize = if k >= cap as u64 {
            cap
        } else {
            k as usize
        };
        let mut s: usize = 0;
        while s < resets
            invariant
                0 <= s <= resets,
                resets <= cap,
                resets == if k >= cap { cap as int } else { k as int },
                self.capacity == cap,
                self.current == cur,
                cur < cap,
                self.duration == before.duration,
                self.start == before.start,
                self.end == before.end,
                self.current_window_start == before.anchor(timestamp as int),
                self.current_window_initialized,
                self.windows.len() == cap,
                before.wf(),
                before.capacity == cap,
                before.current == cur,
                HistogramView::empty(before.start, before.end).wf(),
                forall|j: int|
                    0 <= j < cap ==> (#[trigger] self.windows@[j])@ == if is_reset(
                        cur as int,
                        cap as int,
                        s as int,
                        j,
                    ) {
                        HistogramView::empty(before.start, before.end)
                    } else {
                        before.windows[j]
                    },
            decreases resets - s,
        {
            let step: usize = s + 1;
            let slot: usize = if step < cap - cur {
                cur + step
            } else {
                step - (cap - cur)
            };
            proof {
                lemma_step_slot(cur as int, cap as int, step as int);
                lemma_distance(cur as int, cap as int, slot as int);
                assert forall|j: int| 0 <= j < cap && j != slot implies is_reset(
                    cur as int,
                    cap as int,
                    step as int,
                    j,
                ) == is_reset(cur as int, cap as int, s as int, j) by {
                    lemma_distance(cur as int, cap as int, j);
                }
            }
            self.windows.set(slot, QuantileEstimator::empty(self.start, self.end));
            s = step;
        }
        let m: usize = (k % (cap as u64)) as usize;
        let next: usize = if m < cap - cur {
            cur + m
        } else {
            m - (cap - cur)
        };
        proof {
            lemma_add_mod_noop(cur as int, k as int, cap as int);
            if m == 0 {
                lemma_small_mod(cur as nat, cap as nat);
            } else {
                lemma_step_slot(cur as int, cap as int, m as int);
            }
        }
        self.current = next;
        self.current_window_start = self.current_window_start + k * self.duration;
        proof {
            let after = before.advance(timestamp as int);
            assert(self@.windows =~= after.windows);
            assert forall|j: int| 0 <= j < cap implies (#[trigger] after.windows[j]).total
                <= before.windows[j].total by {
                assert(before.windows[j].wf());
            }
            lemma_totals_le(after.windows, before.windows, cap as int);
        }
    }

    /// Inserts `value` observed at `timestamp`. Time first moves on to the
    /// window of `timestamp`, evicting the windows that it passes; then the
    /// active window records the value, or refuses it when it lies outside
    /// the domain.
    pub fn insert(&mut self, value: u64, timestamp: u64) -> (r: Result<(), QuantileError>)
        requires
            old(self).wf(),
            old(self)@.total() < u64::MAX,
        ensures
            final(self).wf(),
            final(self)@ == old(self)@.insert(value as int, timestamp as int),
            old(self)@.start <= value <= old(self)@.end ==> r == Ok::<(), QuantileError>(()),
            !(old(self)@.start <= value <= old(self)@.end) ==> r == Err::<(), QuantileError>(
                QuantileError::ValueOutOfRange,
            ),
    {
        self.advance_to(timestamp);
        let ghost a = self@;
        let cur: usize = self.current;
        proof {
            lemma_totals_mono(a.windows, cur as int, a.capacity);
            assert(a.windows[cur as int].wf());
        }
        let r = self.windows[cur].add_value(value);
        proof {
            let w = self.windows@[cur as int]@;
            assert(self@.windows =~= a.windows.update(cur as int, w));
            lemma_totals_update(a.windows, cur as int, w, a.capacity);
            let goal = old(self)@.insert(value as int, timestamp as int);
            if a.start <= value <= a.end {
                assert(self@.windows == goal.windows);
            } else {
                assert(self@.windows =~= goal.windows);
            }
            assert(self@ == goal);
        }
        r
    }

    /// Number of observations over all windows.
    pub fn total_count(&self) -> (r: u64)
        requires
            self.wf(),
        ensures
            r == self@.total(),
    {
        let ghost ws = self@.windows;
        let mut sum: u64 = 0;
        let mut w: usize = 0;
        while w < self.capacity
            invariant
                self.wf(),
                ws == self@.windows,
                w <= self.capacity,
                sum == totals_sum(ws, w as int),
            decreases self.capacity - w,
        {
            proof {
                assert forall|j: int| 0 <= j < self.capacity implies (#[trigger] ws[j]).total
                    >= 0 by {
                    assert(ws[j].wf());
                }
                lemma_totals_mono(ws, w as int + 1, self.capacity as int);
            }
            sum = sum + self.windows[w].total();
            w = w + 1;
        }
        sum
    }

    /// The counters of all windows, added bucket by bucket.
    fn merge_counts(&self) -> (c: Vec<u64>)
        requires
            self.wf(),
        ensures
            as_ints(c@) == self@.merged(),
    {
        let ghost ws = self@.windows;
        let ghost cap = self.capacity as int;
        let len: usize = (self.end - self.start + 1) as usize;
        let mut combined: Vec<u64> = vec![0u64; len];
        proof {
            assert(as_ints(combined@) =~= merged(ws, 0, len as int));
            assert forall|j: int| 0 <= j < cap implies (#[trigger] ws[j]).total >= 0 by {
                assert(ws[j].wf());
            }
        }
        let mut w: usize = 0;
        while w < self.capacity
            invariant
                self.wf(),
                ws == self@.windows,
                cap == self.capacity,
                len == self@.buckets(),
                w <= cap,
                combined.len() == len,
                as_ints(combined@) == merged(ws, w as int, len as int),
                forall|j: int| 0 <= j < cap ==> (#[trigger] ws[j]).total >= 0,
            decreases cap - w,
        {
            let counts: &Vec<u64> = self.windows[w].counts();
            let ghost next = merged(ws, w + 1, len as int);
            proof {
                lemma_merged(ws, w + 1, len as int);
                lemma_merged(ws, w as int, len as int);
                lemma_totals_mono(ws, w + 1, cap);
                assert(ws[w as int].wf());
            }
            let mut b: usize = 0;
            while b < len
                invariant
                    b <= len,
                    combined.len() == len,
                    as_ints(counts@) == ws[w as int].counts,
                    counts.len() == len,
                    next == merged(ws, w + 1, len as int),
                    next.len() == len,
                    nonneg(next),
                    total_of(next) <= u64::MAX,
                    merged(ws, w as int, len as int).len() == len,
                    forall|i: int|
                        0 <= i < len ==> #[trigger] combined@[i] == if i < b {
                            next[i]
                        } else {
                            merged(ws, w as int, len as int)[i]
                        },
                decreases len - b,
            {
                proof {
                    lemma_count_le_total(next, b as int);
                }
                let v: u64 = combined[b] + counts[b];
                combined.set(b, v);
                b = b + 1;
            }
            proof {
                assert(as_ints(combined@) =~= next);
            }
            w = w + 1;
        }
        combined
    }

    /// The quantile `numerator / denominator` over the observations of all
    /// retained windows, by the nearest-rank method.
    pub fn estimate_quantile(&self, numerator: i64, denominator: u64) -> (r: Result<
        u64,
        QuantileError,
    >)
        requires
            self.wf(),
        ensures
            r == self@.quantile(numerator as int, denominator as int),
            !valid_fraction(numerator as int, denominator as int) ==> r == Err::<u64, QuantileError>(
                QuantileError::InvalidFraction,
            ),
            valid_fraction(numerator as int, denominator as int) && self@.total() == 0 ==> r
                == Err::<u64, QuantileError>(QuantileError::NoData),
            valid_fraction(numerator as int, denominator as int) && self@.total() > 0 ==> r is Ok
                && self@.start <= r->Ok_0 <= self@.end,
    {
        if denominator == 0 || numerator < 0 || numerator as u64 > denominator {
            return Err(QuantileError::InvalidFraction);
        }
        let total: u64 = self.total_count();
        proof {
            lemma_merged(self@.windows, self@.capacity, self@.buckets());
        }
        if total == 0 {
            return Err(QuantileError::NoData);
        }
        let combined: Vec<u64> = self.merge_counts();
        let rank: u64 = compute_nearest_rank(numerator as u64, denominator, total);
        let i: usize = select_by_rank(&combined, rank);
        Ok(self.start + i as u64)
    }

    /// Slot of the active window.
    pub fn current(&self) -> (r: usize)
        ensures
            r == self@.current,
    {
        self.current
    }
}

} // verus!
