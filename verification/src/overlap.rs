//! Overlap detection and dynamic adjustment.
//!
//! Tracks the jitter offsets observed between consecutive reads and adapts
//! the overlap and search window to them; finds where a new block overlaps
//! an indexed earlier one.

use vstd::prelude::*;
use crate::constants::{CD_FRAMEWORDS, MAX_SECTOR_OVERLAP, MIN_WORDS_OVERLAP, MIN_WORDS_SEARCH};
use crate::gap::in_seq;
use crate::isort::{SortInfo, MatchIterator};
use crate::seqs::{copy_range, filled};

verus! {

/// The largest overlap, in samples, that recalibration chooses.
pub const MAX_OVERLAP_WORDS: i64 = 37632;

/// Number of measurements between recalibrations.
pub const RECALIBRATE_INTERVAL: usize = 10;

/// Sum of a sequence of offsets.
pub open spec fn seq_sum(s: Seq<i64>) -> int
    decreases s.len(),
{
    if s.len() == 0 {
        0
    } else {
        seq_sum(s.drop_last()) + s.last()
    }
}

/// Every running sum over the first `n` offsets is an `i64`.
pub open spec fn prefix_sums_fit(s: Seq<i64>, n: int) -> bool {
    forall|k: int| 0 <= k <= n ==> i64::MIN <= #[trigger] seq_sum(s.take(k)) <= i64::MAX
}

/// Rust's `/` on integers: the quotient rounded towards zero (`b > 0`).
pub open spec fn trunc_div(a: int, b: int) -> int {
    if a >= 0 {
        a / b
    } else {
        -((-a) / b)
    }
}

/// Absolute value of an offset.
pub open spec fn abs64(x: i64) -> int {
    if x < 0 { -x } else { x as int }
}

/// Largest absolute value in a sequence (0 when empty).
pub open spec fn seq_max_abs(s: Seq<i64>) -> int
    decreases s.len(),
{
    if s.len() == 0 {
        0
    } else {
        let m = seq_max_abs(s.drop_last());
        if abs64(s.last()) > m { abs64(s.last()) } else { m }
    }
}

/// Sum of squared deviations of the offsets from `m`.
pub open spec fn sq_dev_sum(s: Seq<i64>, m: int) -> int
    decreases s.len(),
{
    if s.len() == 0 {
        0
    } else {
        sq_dev_sum(s.drop_last(), m) + (s.last() - m) * (s.last() - m)
    }
}

/// The least `r >= from` (at most `bound`) with `(r + 1)^2 > q`: the integer
/// square root of `q`, capped at `bound`.
pub open spec fn isqrt_upto(q: int, from: int, bound: int) -> int
    decreases bound - from,
{
    if from >= bound || (from + 1) * (from + 1) > q {
        from
    } else {
        isqrt_upto(q, from + 1, bound)
    }
}

/// The midpoint of two offsets, rounded towards zero.
pub open spec fn midpoint(a: i64, b: i64) -> int {
    trunc_div(a + b, 2)
}

/// The abstract state of an `OffsetStats`: its slots, capacity, the slot
/// the next offset goes to, and how many offsets it has collected.
pub struct OffsetStatsView {
    /// The buffer slots
    pub slots: Seq<i64>,
    /// The capacity of the buffer
    pub capacity: nat,
    /// The slot the next offset goes to
    pub next: nat,
    /// Number of offsets collected (at most the capacity)
    pub count: nat,
}

impl OffsetStatsView {
    /// The offsets that the statistics cover: the first `count` slots.
    pub open spec fn window(self) -> Seq<i64> {
        self.slots.take(self.count as int)
    }

    /// Internal consistency of the buffer.
    pub open spec fn wf(self) -> bool {
        &&& self.slots.len() == self.capacity
        &&& self.count <= self.capacity
        &&& (self.capacity == 0 ==> self.next == 0)
        &&& (self.capacity > 0 ==> self.next < self.capacity)
        &&& self.capacity <= i64::MAX
    }

    /// The state after adding `offset`.
    pub open spec fn added(self, offset: i64) -> OffsetStatsView {
        OffsetStatsView {
            slots: self.slots.update(self.next as int, offset),
            capacity: self.capacity,
            next: (self.next + 1) % self.capacity,
            count: if self.count < self.capacity { self.count + 1 } else { self.count },
        }
    }

    /// The mean is computable: no running sum overflows.
    pub open spec fn mean_defined(self) -> bool {
        prefix_sums_fit(self.slots, self.count as int)
    }

    /// The mean of the window, rounded towards zero (0 when empty).
    pub open spec fn mean(self) -> int {
        if self.count == 0 {
            0
        } else {
            trunc_div(seq_sum(self.window()), self.count as int)
        }
    }

    /// No offset in the window is `i64::MIN`, whose absolute value `i64::abs`
    /// cannot represent.
    pub open spec fn abs_defined(self) -> bool {
        forall|k: int| 0 <= k < self.count ==> #[trigger] self.slots[k] != i64::MIN
    }

    /// The largest absolute offset in the window (0 when empty).
    pub open spec fn max_abs(self) -> int {
        seq_max_abs(self.window())
    }

    /// Four times the sample variance (around the integer mean), floored; 0
    /// for fewer than two offsets.
    pub open spec fn spread(self) -> int {
        if self.count < 2 {
            0
        } else {
            (4 * sq_dev_sum(self.window(), self.mean())) / (self.count - 1)
        }
    }

    /// Twice the standard deviation, floored and capped at `MAX_OVERLAP_WORDS`.
    pub open spec fn margin(self) -> int {
        isqrt_upto(self.spread(), 0, MAX_OVERLAP_WORDS as int)
    }
}

/// Statistics for jitter offset tracking: a circular buffer of the last
/// `max_samples` offsets.
#[derive(Debug, Clone)]
pub struct OffsetStats {
    offsets: Vec<i64>,
    max_samples: usize,
    index: usize,
    count: usize,
}

impl View for OffsetStats {
    type V = OffsetStatsView;

    closed spec fn view(&self) -> OffsetStatsView {
        OffsetStatsView {
            slots: self.offsets@,
            capacity: self.max_samples as nat,
            next: self.index as nat,
            count: self.count as nat,
        }
    }
}

impl OffsetStats {
    /// Create a new offset statistics tracker.
    pub fn new(max_samples: usize) -> (r: Self)
        requires
            max_samples <= i64::MAX,
        ensures
            r@.wf(),
            r@.capacity == max_samples,
            r@.slots == Seq::new(max_samples as nat, |_i: int| 0i64),
            r@.next == 0,
            r@.count == 0,
    {
        OffsetStats { offsets: filled(0i64, max_samples), max_samples, index: 0, count: 0 }
    }

    /// The offsets the statistics cover, oldest slot first.
    pub fn window_values(&self) -> (r: Vec<i64>)
        ensures
            self@.wf() ==> r@ == self@.window(),
    {
        let n = if self.count <= self.offsets.len() { self.count } else { self.offsets.len() };
        copy_range(self.offsets.as_slice(), 0, n)
    }

    /// Add a new offset measurement.
    pub fn add(&mut self, offset: i64)
        requires
            old(self)@.wf(),
            old(self)@.capacity > 0,
        ensures
            final(self)@ == old(self)@.added(offset),
            final(self)@.wf(),
    {
        self.offsets.set(self.index, offset);
        self.index = (self.index + 1) % self.max_samples;
        if self.count < self.max_samples {
            self.count = self.count + 1;
        }
    }

    /// The mean offset, rounded towards zero (0 when no offsets are collected).
    pub fn mean(&self) -> (r: i64)
        requires
            self@.wf(),
            self@.mean_defined(),
        ensures
            r == self@.mean(),
    {
        if self.count == 0 {
            return 0;
        }
        let mut sum: i64 = 0;
        let mut i: usize = 0;
        while i < self.count
            invariant
                self@.wf(),
                self@.mean_defined(),
                i <= self.count,
                sum == seq_sum(self@.slots.take(i as int)),
            decreases self.count - i,
        {
            proof {
                assert(self@.slots.take(i + 1).drop_last() =~= self@.slots.take(i as int));
                assert(i64::MIN <= seq_sum(self@.slots.take(i + 1)) <= i64::MAX);
            }
            sum = sum + self.offsets[i];
            i = i + 1;
        }
        trunc_div_i64(sum, self.count as i64)
    }

    /// The largest absolute offset (0 when no offsets are collected).
    pub fn max_abs(&self) -> (r: i64)
        requires
            self@.wf(),
            self@.abs_defined(),
        ensures
            r == self@.max_abs(),
    {
        let mut best: i64 = 0;
        let mut i: usize = 0;
        while i < self.count
            invariant
                self@.wf(),
                self@.abs_defined(),
                i <= self.count,
                best == seq_max_abs(self@.slots.take(i as int)),
                best >= 0,
            decreases self.count - i,
        {
            proof {
                assert(self@.slots.take(i + 1).drop_last() =~= self@.slots.take(i as int));
            }
            let x = self.offsets[i];
            assert(x != i64::MIN);
            let a = if x < 0 { -x } else { x };
            if a > best {
                best = a;
            }
            i = i + 1;
        }
        best
    }

    /// Twice the standard deviation of the window, floored and capped at
    /// `MAX_OVERLAP_WORDS`.
    pub fn margin(&self) -> (r: i64)
        requires
            self@.wf(),
            self@.mean_defined(),
        ensures
            r == self@.margin(),
            0 <= r <= MAX_OVERLAP_WORDS,
    {
        if self.count < 2 {
            proof {
                lemma_isqrt_zero(MAX_OVERLAP_WORDS as int);
            }
            return 0;
        }
        let m = self.mean();
        let mut s: u128 = 0;
        let mut i: usize = 0;
        while i < self.count
            invariant
                self@.wf(),
                i <= self.count,
                m == self@.mean(),
                s == if sq_dev_sum(self@.slots.take(i as int), m as int) < u128::MAX {
                    sq_dev_sum(self@.slots.take(i as int), m as int)
                } else {
                    u128::MAX as int
                },
                sq_dev_sum(self@.slots.take(i as int), m as int) >= 0,
            decreases self.count - i,
        {
            proof {
                assert(self@.slots.take(i + 1).drop_last() =~= self@.slots.take(i as int));
            }
            let x = self.offsets[i];
            let d: i128 = x as i128 - m as i128;
            let a: u128 = if d < 0 { (-d) as u128 } else { d as u128 };
            proof {
                assert(a * a == (x - m) * (x - m)) by (nonlinear_arith)
                    requires
                        a == if d < 0 { -d } else { d as int },
                        d == x - m,
                ;
                assert(a * a <= 0xffff_ffff_ffff_ffffu128 * 0xffff_ffff_ffff_ffffu128) by (nonlinear_arith)
                    requires
                        a <= 0xffff_ffff_ffff_ffffu128,
                ;
                assert(0 <= a * a) by (nonlinear_arith);
            }
            let sq: u128 = a * a;
            if s > u128::MAX - sq {
                s = u128::MAX;
            } else {
                s = s + sq;
            }
            i = i + 1;
        }
        proof {
            assert(self@.slots.take(self.count as int) =~= self@.window());
        }
        let n1: u128 = (self.count - 1) as u128;
        let cap: u128 = MAX_OVERLAP_WORDS as u128;
        assert(cap * cap * n1 <= 37632u128 * 37632u128 * 0x7fff_ffff_ffff_ffffu128) by (nonlinear_arith)
            requires
                cap == 37632,
                n1 <= 0x7fff_ffff_ffff_ffffu128,
        ;
        let k: u128 = cap * cap * n1;
        assert(k == 37632 * 37632 * n1);
        if s >= (k + 3) / 4 {
            proof {
                let big_s = sq_dev_sum(self@.window(), m as int);
                assert(big_s >= s);
                assert((4 * big_s) / (n1 as int) >= 37632 * 37632) by (nonlinear_arith)
                    requires
                        big_s >= (k + 3) / 4,
                        k == 37632 * 37632 * n1,
                        n1 > 0,
                ;
                lemma_isqrt_capped(self@.spread(), MAX_OVERLAP_WORDS as int);
            }
            return MAX_OVERLAP_WORDS;
        }
        let q: u128 = (4 * s) / n1;
        let mut r: u128 = 0;
        while r < cap && (r + 1) * (r + 1) <= q
            invariant
                (r + 1) * (r + 1) <= 37633 * 37633,
                r <= cap,
                cap == MAX_OVERLAP_WORDS,
                q == self@.spread(),
                isqrt_upto(q as int, r as int, cap as int) == isqrt_upto(q as int, 0, cap as int),
            decreases cap - r,
        {
            r = r + 1;
            assert((r + 1) * (r + 1) <= 37633 * 37633) by (nonlinear_arith)
                requires
                    r <= cap,
                    cap == 37632,
            ;
        }
        r as i64
    }

    /// Clear all statistics.
    pub fn clear(&mut self)
        requires
            old(self)@.wf(),
        ensures
            final(self)@.wf(),
            final(self)@.capacity == old(self)@.capacity,
            final(self)@.slots == Seq::new(old(self)@.capacity, |_i: int| 0i64),
            final(self)@.next == 0,
            final(self)@.count == 0,
    {
        self.index = 0;
        self.count = 0;
        self.offsets = filled(0i64, self.max_samples);
    }
}

proof fn lemma_isqrt_zero(bound: int)
    requires
        bound >= 0,
    ensures
        isqrt_upto(0, 0, bound) == 0,
{
}

proof fn lemma_isqrt_capped_from(q: int, from: int, bound: int)
    requires
        0 <= from <= bound,
        q >= bound * bound,
    ensures
        isqrt_upto(q, from, bound) == bound,
    decreases bound - from,
{
    if from < bound {
        assert((from + 1) * (from + 1) <= bound * bound) by (nonlinear_arith)
            requires
                0 <= from < bound,
        ;
        lemma_isqrt_capped_from(q, from + 1, bound);
    }
}

proof fn lemma_isqrt_capped(q: int, bound: int)
    requires
        0 <= bound,
        q >= bound * bound,
    ensures
        isqrt_upto(q, 0, bound) == bound,
{
    lemma_isqrt_capped_from(q, 0, bound);
}

/// `a / b` rounded towards zero, as Rust's `/` computes it.
pub fn trunc_div_i64(a: i64, b: i64) -> (r: i64)
    requires
        b > 0,
    ensures
        r == trunc_div(a as int, b as int),
{
    if a >= 0 {
        a / b
    } else {
        let na: u64 = (-(a as i128)) as u64;
        let q: u64 = na / (b as u64);
        assert(q <= na);
        -(q as i128) as i64
    }
}

/// The offsets and bounds that recalibration computes with stay inside
/// `i64`: both means and absolute values are defined, and the worst jitter
/// plus twice the larger standard deviation plus `MIN_WORDS_OVERLAP` fits.
pub open spec fn recalibration_defined(s1: OffsetStatsView, s2: OffsetStatsView) -> bool {
    let mj = if s1.max_abs() > s2.max_abs() { s1.max_abs() } else { s2.max_abs() };
    let q = if s1.spread() > s2.spread() { s1.spread() } else { s2.spread() };
    let room = i64::MAX - MIN_WORDS_OVERLAP - mj;
    &&& s1.wf() && s2.wf()
    &&& s1.mean_defined() && s2.mean_defined()
    &&& s1.abs_defined() && s2.abs_defined()
    &&& room >= 0
    &&& q < (room + 1) * (room + 1)
}

/// The overlap that recalibration chooses for the given statistics.
pub open spec fn recalibrated_overlap(s1: OffsetStatsView, s2: OffsetStatsView) -> int {
    let mj = if s1.max_abs() > s2.max_abs() { s1.max_abs() } else { s2.max_abs() };
    let m = if s1.margin() > s2.margin() { s1.margin() } else { s2.margin() };
    let wanted = mj + m + MIN_WORDS_OVERLAP;
    let capped = if wanted < MAX_OVERLAP_WORDS { wanted } else { MAX_OVERLAP_WORDS as int };
    if capped < MIN_WORDS_OVERLAP { MIN_WORDS_OVERLAP as int } else { capped }
}

/// A bound on jitter offsets: every offset a reader records lies within it.
pub const JITTER_BOUND: i64 = 0x4000_0000_0000;

/// Every slot of the statistics lies within `JITTER_BOUND`.
pub open spec fn slots_bounded(s: OffsetStatsView) -> bool {
    forall|k: int| 0 <= k < s.slots.len() ==> -JITTER_BOUND <= #[trigger] s.slots[k] <= JITTER_BOUND
}

/// Every element lies within `JITTER_BOUND`.
pub open spec fn seq_bounded(s: Seq<i64>) -> bool {
    forall|k: int| 0 <= k < s.len() ==> -JITTER_BOUND <= #[trigger] s[k] <= JITTER_BOUND
}

proof fn lemma_sum_bounded(s: Seq<i64>)
    requires
        seq_bounded(s),
    ensures
        -(s.len() * JITTER_BOUND) <= seq_sum(s) <= s.len() * JITTER_BOUND,
    decreases s.len(),
{
    if s.len() > 0 {
        assert(seq_bounded(s.drop_last())) by {
            assert forall|k: int| 0 <= k < s.drop_last().len() implies -JITTER_BOUND <= #[trigger] s.drop_last()[k]
                <= JITTER_BOUND by {
                assert(s.drop_last()[k] == s[k]);
            }
        }
        lemma_sum_bounded(s.drop_last());
        assert(-JITTER_BOUND <= s[s.len() - 1] <= JITTER_BOUND);
    }
}

proof fn lemma_max_abs_bounded(s: Seq<i64>)
    requires
        seq_bounded(s),
    ensures
        0 <= seq_max_abs(s) <= JITTER_BOUND,
    decreases s.len(),
{
    if s.len() > 0 {
        assert(seq_bounded(s.drop_last())) by {
            assert forall|k: int| 0 <= k < s.drop_last().len() implies -JITTER_BOUND <= #[trigger] s.drop_last()[k]
                <= JITTER_BOUND by {
                assert(s.drop_last()[k] == s[k]);
            }
        }
        lemma_max_abs_bounded(s.drop_last());
        assert(-JITTER_BOUND <= s[s.len() - 1] <= JITTER_BOUND);
    }
}

proof fn lemma_square_bounded(d: int)
    requires
        -2 * JITTER_BOUND <= d <= 2 * JITTER_BOUND,
    ensures
        0 <= d * d <= 4 * JITTER_BOUND * JITTER_BOUND,
{
    assert(0 <= d * d <= 4 * JITTER_BOUND * JITTER_BOUND) by (nonlinear_arith)
        requires
            -2 * JITTER_BOUND <= d <= 2 * JITTER_BOUND,
    ;
}

proof fn lemma_sq_dev_bounded(s: Seq<i64>, m: int)
    requires
        seq_bounded(s),
        -JITTER_BOUND <= m <= JITTER_BOUND,
    ensures
        0 <= sq_dev_sum(s, m) <= s.len() * (4 * JITTER_BOUND * JITTER_BOUND),
    decreases s.len(),
{
    if s.len() > 0 {
        assert(seq_bounded(s.drop_last())) by {
            assert forall|k: int| 0 <= k < s.drop_last().len() implies -JITTER_BOUND <= #[trigger] s.drop_last()[k]
                <= JITTER_BOUND by {
                assert(s.drop_last()[k] == s[k]);
            }
        }
        lemma_sq_dev_bounded(s.drop_last(), m);
        assert(-JITTER_BOUND <= s[s.len() - 1] <= JITTER_BOUND);
        lemma_square_bounded(s.last() - m);
    }
}

proof fn lemma_trunc_div_bounded(a: int, c: int)
    requires
        1 <= c,
        -(c * JITTER_BOUND) <= a <= c * JITTER_BOUND,
    ensures
        -JITTER_BOUND <= trunc_div(a, c) <= JITTER_BOUND,
{
    if a >= 0 {
        assert(a / c <= JITTER_BOUND) by (nonlinear_arith)
            requires
                1 <= c,
                0 <= a <= c * JITTER_BOUND,
        ;
        assert(a / c >= 0) by (nonlinear_arith)
            requires
                1 <= c,
                0 <= a,
        ;
    } else {
        let b = -a;
        assert(b / c <= JITTER_BOUND) by (nonlinear_arith)
            requires
                1 <= c,
                0 <= b <= c * JITTER_BOUND,
        ;
        assert(b / c >= 0) by (nonlinear_arith)
            requires
                1 <= c,
                0 <= b,
        ;
    }
}

proof fn lemma_stats_bounded(s: OffsetStatsView)
    requires
        s.wf(),
        s.capacity <= RECALIBRATE_INTERVAL,
        slots_bounded(s),
    ensures
        s.mean_defined(),
        s.abs_defined(),
        0 <= s.max_abs() <= JITTER_BOUND,
        0 <= s.spread() <= 160 * JITTER_BOUND * JITTER_BOUND,
{
    let w = s.window();
    assert(seq_bounded(w)) by {
        assert forall|k: int| 0 <= k < w.len() implies -JITTER_BOUND <= #[trigger] w[k] <= JITTER_BOUND by {
            assert(w[k] == s.slots[k]);
        }
    }
    assert forall|k: int| 0 <= k <= s.count implies i64::MIN <= #[trigger] seq_sum(s.slots.take(k)) <= i64::MAX by {
        let t = s.slots.take(k);
        assert(seq_bounded(t)) by {
            assert forall|j: int| 0 <= j < t.len() implies -JITTER_BOUND <= #[trigger] t[j] <= JITTER_BOUND by {
                assert(t[j] == s.slots[j]);
            }
        }
        lemma_sum_bounded(t);
    }
    assert forall|k: int| 0 <= k < s.count implies #[trigger] s.slots[k] != i64::MIN by {
        assert(-JITTER_BOUND <= s.slots[k]);
    }
    lemma_max_abs_bounded(w);
    lemma_sum_bounded(w);
    let m = s.mean();
    if s.count > 0 {
        lemma_trunc_div_bounded(seq_sum(w), s.count as int);
    }
    assert(-JITTER_BOUND <= m <= JITTER_BOUND);
    lemma_sq_dev_bounded(w, m);
    if s.count >= 2 {
        let sq = sq_dev_sum(w, m);
        let c = s.count - 1;
        assert(sq <= 10 * (4 * JITTER_BOUND * JITTER_BOUND)) by (nonlinear_arith)
            requires
                sq <= w.len() * (4 * JITTER_BOUND * JITTER_BOUND),
                w.len() <= 10,
        ;
        assert((4 * sq) / c <= 4 * sq) by (nonlinear_arith)
            requires
                c >= 1,
                sq >= 0,
        ;
        assert((4 * sq) / c >= 0) by (nonlinear_arith)
            requires
                c >= 1,
                sq >= 0,
        ;
    }
}

/// Recalibration is defined whenever every recorded offset lies within
/// `JITTER_BOUND`.
pub proof fn lemma_bounded_recalibration(s1: OffsetStatsView, s2: OffsetStatsView)
    requires
        s1.wf(),
        s2.wf(),
        s1.capacity <= RECALIBRATE_INTERVAL,
        s2.capacity <= RECALIBRATE_INTERVAL,
        slots_bounded(s1),
        slots_bounded(s2),
    ensures
        recalibration_defined(s1, s2),
{
    lemma_stats_bounded(s1);
    lemma_stats_bounded(s2);
    let mj = if s1.max_abs() > s2.max_abs() { s1.max_abs() } else { s2.max_abs() };
    let q = if s1.spread() > s2.spread() { s1.spread() } else { s2.spread() };
    let room = i64::MAX - MIN_WORDS_OVERLAP - mj;
    let r0: int = i64::MAX - MIN_WORDS_OVERLAP - JITTER_BOUND;
    assert(room >= r0);
    assert(r0 * r0 > 160 * JITTER_BOUND * JITTER_BOUND) by (nonlinear_arith)
        requires
            r0 == i64::MAX - MIN_WORDS_OVERLAP - JITTER_BOUND,
    ;
    assert((room + 1) * (room + 1) > q) by (nonlinear_arith)
        requires
            room >= r0,
            r0 > 0,
            r0 * r0 > 160 * JITTER_BOUND * JITTER_BOUND,
            q <= 160 * JITTER_BOUND * JITTER_BOUND,
    ;
}

/// Recalibration always chooses an overlap between `MIN_WORDS_OVERLAP` and
/// `MAX_OVERLAP_WORDS`.
pub proof fn lemma_recalibrated_overlap_bounds(s1: OffsetStatsView, s2: OffsetStatsView)
    ensures
        MIN_WORDS_OVERLAP <= recalibrated_overlap(s1, s2) <= MAX_OVERLAP_WORDS,
{
}

proof fn lemma_isqrt_upto_root(q: int, from: int, bound: int)
    requires
        0 <= from <= bound,
        from * from <= q,
    ensures
        from <= isqrt_upto(q, from, bound) <= bound,
        isqrt_upto(q, from, bound) * isqrt_upto(q, from, bound) <= q,
        isqrt_upto(q, from, bound) == bound || q < (isqrt_upto(q, from, bound) + 1) * (isqrt_upto(q, from, bound)
            + 1),
    decreases bound - from,
{
    if !(from >= bound || (from + 1) * (from + 1) > q) {
        lemma_isqrt_upto_root(q, from + 1, bound);
    }
}

proof fn lemma_sq_dev_nonneg(s: Seq<i64>, m: int)
    ensures
        sq_dev_sum(s, m) >= 0,
    decreases s.len(),
{
    if s.len() > 0 {
        lemma_sq_dev_nonneg(s.drop_last(), m);
        assert((s.last() - m) * (s.last() - m) >= 0) by (nonlinear_arith);
    }
}

/// The margin is twice the standard deviation of the offsets: the largest
/// `m` (at most `MAX_OVERLAP_WORDS`) whose square is at most four times
/// their sample variance.
pub proof fn lemma_margin_is_twice_std_dev(s: OffsetStatsView)
    ensures
        s.spread() >= 0,
        0 <= s.margin() <= MAX_OVERLAP_WORDS,
        s.margin() * s.margin() <= s.spread(),
        s.margin() == MAX_OVERLAP_WORDS || s.spread() < (s.margin() + 1) * (s.margin() + 1),
        s.count >= 2 ==> s.spread() == (4 * sq_dev_sum(s.window(), s.mean())) / (s.count - 1),
{
    lemma_sq_dev_nonneg(s.window(), s.mean());
    if s.count >= 2 {
        let sq = sq_dev_sum(s.window(), s.mean());
        assert((4 * sq) / (s.count - 1) >= 0) by (nonlinear_arith)
            requires
                sq >= 0,
                s.count - 1 >= 1,
        ;
    }
    lemma_isqrt_upto_root(s.spread(), 0, MAX_OVERLAP_WORDS as int);
}

/// The worst offset is the largest absolute offset: none exceeds it, and
/// (with any offset) one reaches it.
pub proof fn lemma_max_abs_is_largest(s: Seq<i64>)
    ensures
        seq_max_abs(s) >= 0,
        forall|k: int| 0 <= k < s.len() ==> abs64(#[trigger] s[k]) <= seq_max_abs(s),
        s.len() > 0 ==> exists|k: int| 0 <= k < s.len() && abs64(#[trigger] s[k]) == seq_max_abs(s),
    decreases s.len(),
{
    if s.len() > 0 {
        let init = s.drop_last();
        lemma_max_abs_is_largest(init);
        assert forall|k: int| 0 <= k < s.len() implies abs64(#[trigger] s[k]) <= seq_max_abs(s) by {
            if k < s.len() - 1 {
                assert(s[k] == init[k]);
            }
        }
        if abs64(s.last()) > seq_max_abs(init) {
            assert(abs64(s[s.len() - 1]) == seq_max_abs(s));
        } else if init.len() > 0 {
            let k = choose|k: int| 0 <= k < init.len() && abs64(#[trigger] init[k]) == seq_max_abs(init);
            assert(s[k] == init[k]);
        } else {
            assert(abs64(s[0]) >= 0);
        }
    }
}

/// Recalibration covers the jitter of both stages: the overlap is at least
/// either stage's worst offset plus that stage's margin (twice its standard
/// deviation) plus `MIN_WORDS_OVERLAP`, up to `MAX_OVERLAP_WORDS`; and it is
/// never more than the worst offset of the two stages plus the larger
/// margin plus `MIN_WORDS_OVERLAP`.
pub proof fn lemma_recalibration_covers_stages(s1: OffsetStatsView, s2: OffsetStatsView)
    ensures
        ({
            let o = recalibrated_overlap(s1, s2);
            let w1 = s1.max_abs() + s1.margin() + MIN_WORDS_OVERLAP;
            let w2 = s2.max_abs() + s2.margin() + MIN_WORDS_OVERLAP;
            &&& o >= if w1 < MAX_OVERLAP_WORDS { w1 } else { MAX_OVERLAP_WORDS as int }
            &&& o >= if w2 < MAX_OVERLAP_WORDS { w2 } else { MAX_OVERLAP_WORDS as int }
            &&& o <= (if s1.max_abs() > s2.max_abs() { s1.max_abs() } else { s2.max_abs() }) + (if s1.margin()
                > s2.margin() { s1.margin() } else { s2.margin() }) + MIN_WORDS_OVERLAP
        }),
{
    lemma_margin_is_twice_std_dev(s1);
    lemma_margin_is_twice_std_dev(s2);
    lemma_max_abs_is_largest(s1.window());
    lemma_max_abs_is_largest(s2.window());
}

/// Dynamic overlap settings that adapt to drive behavior.
#[derive(Debug, Clone)]
pub struct DynamicOverlap {
    /// Current overlap size in samples
    pub overlap: i64,
    /// Current search window size
    pub search: i64,
    /// Cumulative drift compensation
    pub drift: i64,
    /// Stage 1 offset statistics (overlap matching)
    pub stage1_stats: OffsetStats,
    /// Stage 2 offset statistics (root merging)
    pub stage2_stats: OffsetStats,
    recalibrate_interval: usize,
    measurements: usize,
}

impl DynamicOverlap {
    /// Current overlap size in samples.
    pub closed spec fn spec_overlap(&self) -> i64 {
        self.overlap
    }

    /// Current search window size.
    pub closed spec fn spec_search(&self) -> i64 {
        self.search
    }

    /// Cumulative drift compensation.
    pub closed spec fn spec_drift(&self) -> i64 {
        self.drift
    }

    /// Stage 1 statistics.
    pub closed spec fn stats1(&self) -> OffsetStatsView {
        self.stage1_stats@
    }

    /// Stage 2 statistics.
    pub closed spec fn stats2(&self) -> OffsetStatsView {
        self.stage2_stats@
    }

    /// Measurements since the last recalibration.
    pub closed spec fn spec_measurements(&self) -> nat {
        self.measurements as nat
    }

    /// Internal consistency.
    pub closed spec fn wf(&self) -> bool {
        &&& self.stage1_stats@.wf()
        &&& self.stage2_stats@.wf()
        &&& self.stage1_stats@.capacity == RECALIBRATE_INTERVAL
        &&& self.stage2_stats@.capacity == RECALIBRATE_INTERVAL
        &&& self.recalibrate_interval == RECALIBRATE_INTERVAL
        &&& self.measurements < RECALIBRATE_INTERVAL
    }

    /// The statistics of a consistent tracker are consistent buffers of
    /// `RECALIBRATE_INTERVAL` slots.
    pub proof fn lemma_stats_wf(&self)
        requires
            self.wf(),
        ensures
            self.stats1().wf(),
            self.stats2().wf(),
            self.stats1().capacity == RECALIBRATE_INTERVAL,
            self.stats2().capacity == RECALIBRATE_INTERVAL,
    {
    }

    /// Create a new dynamic overlap tracker with default settings.
    pub fn new() -> (r: Self)
        ensures
            r.wf(),
            r.spec_overlap() == MIN_WORDS_OVERLAP,
            r.spec_search() == MIN_WORDS_SEARCH,
            r.spec_drift() == 0,
            r.stats1().count == 0,
            r.stats2().count == 0,
            r.stats1().next == 0,
            r.stats2().next == 0,
            r.stats1().slots == Seq::new(RECALIBRATE_INTERVAL as nat, |_i: int| 0i64),
            r.stats2().slots == Seq::new(RECALIBRATE_INTERVAL as nat, |_i: int| 0i64),
            r.spec_measurements() == 0,
    {
        DynamicOverlap {
            overlap: MIN_WORDS_OVERLAP,
            search: MIN_WORDS_SEARCH,
            drift: 0,
            stage1_stats: OffsetStats::new(RECALIBRATE_INTERVAL),
            stage2_stats: OffsetStats::new(RECALIBRATE_INTERVAL),
            recalibrate_interval: RECALIBRATE_INTERVAL,
            measurements: 0,
        }
    }

    /// The statistics after recording `offset` for `stage`.
    pub open spec fn stats_after(&self, offset: i64, stage: u8) -> (OffsetStatsView, OffsetStatsView) {
        if stage == 1 {
            (self.stats1().added(offset), self.stats2())
        } else if stage == 2 {
            (self.stats1(), self.stats2().added(offset))
        } else {
            (self.stats1(), self.stats2())
        }
    }

    /// Whether recording one more measurement triggers recalibration.
    pub open spec fn recalibrates_next(&self) -> bool {
        self.spec_measurements() + 1 >= RECALIBRATE_INTERVAL
    }

    /// Record a jitter measurement for stage 1 or 2 (other stages only
    /// count), and recalibrate every `RECALIBRATE_INTERVAL` measurements.
    pub fn record_jitter(&mut self, offset: i64, stage: u8)
        requires
            old(self).wf(),
            old(self).recalibrates_next() ==> recalibration_defined(
                old(self).stats_after(offset, stage).0,
                old(self).stats_after(offset, stage).1,
            ),
        ensures
            final(self).wf(),
            (final(self).stats1(), final(self).stats2()) == old(self).stats_after(offset, stage),
            old(self).recalibrates_next() ==> {
                let (s1, s2) = old(self).stats_after(offset, stage);
                &&& final(self).spec_measurements() == 0
                &&& final(self).spec_overlap() == recalibrated_overlap(s1, s2)
                &&& final(self).spec_search() == final(self).spec_overlap()
                &&& final(self).spec_drift() == midpoint(old(self).spec_drift(), s1.mean() as i64)
            },
            !old(self).recalibrates_next() ==> {
                &&& final(self).spec_measurements() == old(self).spec_measurements() + 1
                &&& final(self).spec_overlap() == old(self).spec_overlap()
                &&& final(self).spec_search() == old(self).spec_search()
                &&& final(self).spec_drift() == old(self).spec_drift()
            },
    {
        if stage == 1 {
            self.stage1_stats.add(offset);
        } else if stage == 2 {
            self.stage2_stats.add(offset);
        }
        self.measurements = self.measurements + 1;
        if self.measurements >= self.recalibrate_interval {
            self.recalibrate();
            self.measurements = 0;
        }
    }

    /// Recalibrate overlap and search parameters from the statistics.
    fn recalibrate(&mut self)
        requires
            recalibration_defined(old(self).stage1_stats@, old(self).stage2_stats@),
        ensures
            final(self).stage1_stats@ == old(self).stage1_stats@,
            final(self).stage2_stats@ == old(self).stage2_stats@,
            final(self).recalibrate_interval == old(self).recalibrate_interval,
            final(self).measurements == old(self).measurements,
            final(self).overlap == recalibrated_overlap(old(self).stage1_stats@, old(self).stage2_stats@),
            final(self).search == final(self).overlap,
            final(self).drift == midpoint(old(self).drift, old(self).stage1_stats@.mean() as i64),
    {
        let a1 = self.stage1_stats.max_abs();
        let a2 = self.stage2_stats.max_abs();
        let max_jitter = if a1 > a2 { a1 } else { a2 };
        let m1 = self.stage1_stats.margin();
        let m2 = self.stage2_stats.margin();
        let margin = if m1 > m2 { m1 } else { m2 };
        let new_overlap = if max_jitter >= MAX_OVERLAP_WORDS {
            MAX_OVERLAP_WORDS
        } else {
            let wanted = max_jitter + margin + MIN_WORDS_OVERLAP;
            if wanted < MAX_OVERLAP_WORDS { wanted } else { MAX_OVERLAP_WORDS }
        };
        self.overlap = if new_overlap < MIN_WORDS_OVERLAP { MIN_WORDS_OVERLAP } else { new_overlap };
        self.search = if self.overlap < MIN_WORDS_SEARCH { MIN_WORDS_SEARCH } else { self.overlap };
        let mean_drift = self.stage1_stats.mean();
        self.drift = midpoint_i64(self.drift, mean_drift);
    }

    /// The current overlap size in samples.
    pub fn overlap(&self) -> (r: i64)
        ensures
            r == self.spec_overlap(),
    {
        self.overlap
    }

    /// The current search window size.
    pub fn search(&self) -> (r: i64)
        ensures
            r == self.spec_search(),
    {
        self.search
    }

    /// The cumulative drift compensation.
    pub fn drift(&self) -> (r: i64)
        ensures
            r == self.spec_drift(),
    {
        self.drift
    }

    /// The current overlap in whole sectors, rounded up.
    pub fn overlap_sectors(&self) -> (r: i64)
        requires
            self.spec_overlap() + CD_FRAMEWORDS - 1 <= i64::MAX,
        ensures
            r == trunc_div(self.spec_overlap() + CD_FRAMEWORDS - 1, CD_FRAMEWORDS as int),
    {
        trunc_div_i64(self.overlap + (CD_FRAMEWORDS as i64 - 1), CD_FRAMEWORDS as i64)
    }

    /// Set the overlap directly (at least `MIN_WORDS_OVERLAP`).
    pub fn set_overlap(&mut self, overlap: i64)
        requires
            old(self).wf(),
        ensures
            final(self).wf(),
            final(self).spec_overlap() == if overlap < MIN_WORDS_OVERLAP { MIN_WORDS_OVERLAP } else { overlap },
            final(self).spec_search() == old(self).spec_search(),
            final(self).spec_drift() == old(self).spec_drift(),
            final(self).stats1() == old(self).stats1(),
            final(self).stats2() == old(self).stats2(),
            final(self).spec_measurements() == old(self).spec_measurements(),
    {
        self.overlap = if overlap < MIN_WORDS_OVERLAP { MIN_WORDS_OVERLAP } else { overlap };
    }

    /// Reset to default values.
    pub fn reset(&mut self)
        requires
            old(self).wf(),
        ensures
            final(self).wf(),
            final(self).spec_overlap() == MIN_WORDS_OVERLAP,
            final(self).spec_search() == MIN_WORDS_SEARCH,
            final(self).spec_drift() == 0,
            final(self).stats1().count == 0,
            final(self).stats2().count == 0,
            final(self).stats1().next == 0,
            final(self).stats2().next == 0,
            final(self).stats1().slots == Seq::new(RECALIBRATE_INTERVAL as nat, |_i: int| 0i64),
            final(self).stats2().slots == Seq::new(RECALIBRATE_INTERVAL as nat, |_i: int| 0i64),
            final(self).spec_measurements() == 0,
    {
        self.overlap = MIN_WORDS_OVERLAP;
        self.search = MIN_WORDS_SEARCH;
        self.drift = 0;
        self.stage1_stats.clear();
        self.stage2_stats.clear();
        self.measurements = 0;
    }
}

impl Default for DynamicOverlap {
    fn default() -> (r: Self)
        ensures
            r.wf(),
            r.spec_overlap() == MIN_WORDS_OVERLAP,
            r.spec_search() == MIN_WORDS_SEARCH,
            r.spec_drift() == 0,
            r.stats1().count == 0,
            r.stats2().count == 0,
            r.spec_measurements() == 0,
    {
        DynamicOverlap::new()
    }
}

/// The midpoint of two `i64` values, rounded towards zero.
fn midpoint_i64(a: i64, b: i64) -> (r: i64)
    ensures
        r == midpoint(a, b),
{
    let s: i128 = a as i128 + b as i128;
    if s >= 0 {
        (s / 2) as i64
    } else {
        let ns: u128 = (-s) as u128;
        -((ns / 2) as i128) as i64
    }
}

/// Every position and position difference that overlap search computes
/// for `block_new` (placed at `new_offset`) against `sort` is an `i64`.
pub open spec fn overlap_positions_fit(block_new: Seq<i16>, new_offset: i64, sort: &SortInfo) -> bool {
    let ln = block_new.len();
    let so = sort.spec_abs_offset();
    let ls = sort.samples().len();
    &&& new_offset + ln <= i64::MAX
    &&& ln <= i64::MAX
    &&& i64::MIN <= so - new_offset - ln
    &&& so + ls - new_offset <= i64::MAX
    &&& i64::MIN <= so - ln
    &&& so + ls + ln <= i64::MAX
    &&& ls + ln <= i64::MAX
}

/// Scanning `block_new` from index `i` with `count` agreeing samples so far:
/// whether `n` samples in a row agree with `sort` shifted by `offset`.
/// Samples that `sort` does not cover leave the count as it is.
pub open spec fn verify_run(
    block_new: Seq<i16>,
    new_offset: i64,
    sort: &SortInfo,
    offset: i64,
    n: int,
    i: int,
    count: int,
) -> bool
    decreases block_new.len() - i,
{
    if i < 0 || i >= block_new.len() {
        false
    } else {
        match sort.spec_get(new_offset + i + offset) {
            Some(e) => {
                if e == block_new[i] {
                    if count + 1 >= n {
                        true
                    } else {
                        verify_run(block_new, new_offset, sort, offset, n, i + 1, count + 1)
                    }
                } else {
                    verify_run(block_new, new_offset, sort, offset, n, i + 1, 0)
                }
            },
            None => verify_run(block_new, new_offset, sort, offset, n, i + 1, count),
        }
    }
}

/// The first candidate position `p` of `cands` for which the shift
/// `p - abs_pos` verifies.
pub open spec fn first_verified_shift(
    cands: Seq<i64>,
    abs_pos: int,
    block_new: Seq<i16>,
    new_offset: i64,
    sort: &SortInfo,
    n: int,
) -> Option<i64>
    decreases cands.len(),
{
    if cands.len() == 0 {
        None
    } else if verify_run(block_new, new_offset, sort, (cands[0] - abs_pos) as i64, n, 0, 0) {
        Some((cands[0] - abs_pos) as i64)
    } else {
        first_verified_shift(cands.drop_first(), abs_pos, block_new, new_offset, sort, n)
    }
}

/// The shift found from the sample at index `rel_pos` of the new block.
pub open spec fn shift_from(block_new: Seq<i16>, new_offset: i64, sort: &SortInfo, n: int, rel_pos: int) -> Option<i64> {
    if rel_pos >= block_new.len() {
        None
    } else {
        first_verified_shift(
            sort.spec_find_all(block_new[rel_pos]),
            new_offset + rel_pos,
            block_new,
            new_offset,
            sort,
            n,
        )
    }
}

/// The shift that `find_overlap` reports: tried from the samples at the
/// start, a quarter and half way into the new block, in that order.
pub open spec fn spec_find_overlap(block_new: Seq<i16>, new_offset: i64, sort: &SortInfo, n: int) -> Option<i64> {
    let l = block_new.len() as int;
    match shift_from(block_new, new_offset, sort, n, 0) {
        Some(o) => Some(o),
        None => match shift_from(block_new, new_offset, sort, n, l / 4) {
            Some(o) => Some(o),
            None => shift_from(block_new, new_offset, sort, n, l / 2),
        },
    }
}

proof fn lemma_first_verified_shift_member(
    cands: Seq<i64>,
    abs_pos: int,
    block_new: Seq<i16>,
    new_offset: i64,
    sort: &SortInfo,
    n: int,
)
    ensures
        first_verified_shift(cands, abs_pos, block_new, new_offset, sort, n) matches Some(o) ==> exists|k: int|
            0 <= k < cands.len() && o == #[trigger] ((cands[k] - abs_pos) as i64),
    decreases cands.len(),
{
    if cands.len() > 0 && !verify_run(block_new, new_offset, sort, (cands[0] - abs_pos) as i64, n, 0, 0) {
        lemma_first_verified_shift_member(cands.drop_first(), abs_pos, block_new, new_offset, sort, n);
        match first_verified_shift(cands, abs_pos, block_new, new_offset, sort, n) {
            Some(o) => {
                let k = choose|k: int|
                    0 <= k < cands.drop_first().len() && o == #[trigger] ((cands.drop_first()[k] - abs_pos) as i64);
                assert(cands.drop_first()[k] == cands[k + 1]);
                assert(o == ((cands[k + 1] - abs_pos) as i64));
            },
            None => {},
        }
    } else if cands.len() > 0 {
        assert(first_verified_shift(cands, abs_pos, block_new, new_offset, sort, n) == Some(
            (cands[0] - abs_pos) as i64,
        ));
    }
}

proof fn lemma_shift_from_range(block_new: Seq<i16>, new_offset: i64, sort: &SortInfo, n: int, rel_pos: int)
    requires
        0 <= rel_pos,
        overlap_positions_fit(block_new, new_offset, sort),
    ensures
        shift_from(block_new, new_offset, sort, n, rel_pos) matches Some(o) ==> sort.spec_abs_offset() - new_offset
            - block_new.len() < o < sort.spec_abs_offset() + sort.samples().len() - new_offset,
{
    if rel_pos < block_new.len() {
        let cands = sort.spec_find_all(block_new[rel_pos]);
        let abs_pos = new_offset + rel_pos;
        lemma_first_verified_shift_member(cands, abs_pos, block_new, new_offset, sort, n);
        crate::isort::lemma_find_all_in_block(sort, block_new[rel_pos]);
        match shift_from(block_new, new_offset, sort, n, rel_pos) {
            Some(o) => {
                let k = choose|k: int| 0 <= k < cands.len() && o == #[trigger] ((cands[k] - abs_pos) as i64);
                assert(sort.spec_abs_offset() <= cands[k] < sort.spec_abs_offset() + sort.samples().len());
            },
            None => {},
        }
    }
}

/// The shift that `find_overlap` reports places some sample of the new
/// block on some indexed sample.
pub proof fn lemma_find_overlap_range(block_new: Seq<i16>, new_offset: i64, sort: &SortInfo, n: int)
    requires
        overlap_positions_fit(block_new, new_offset, sort),
    ensures
        spec_find_overlap(block_new, new_offset, sort, n) matches Some(o) ==> sort.spec_abs_offset() - new_offset
            - block_new.len() < o < sort.spec_abs_offset() + sort.samples().len() - new_offset,
{
    let l = block_new.len() as int;
    lemma_shift_from_range(block_new, new_offset, sort, n, 0);
    lemma_shift_from_range(block_new, new_offset, sort, n, l / 4);
    lemma_shift_from_range(block_new, new_offset, sort, n, l / 2);
}

/// Sample `i + k` of the new block (placed at `new_offset`) lies, shifted
/// by `offset`, on an indexed sample equal to it.
pub open spec fn agrees_shifted_at(
    block_new: Seq<i16>,
    new_offset: i64,
    sort: &SortInfo,
    offset: i64,
    i: int,
    k: int,
) -> bool {
    &&& 0 <= i + k < block_new.len()
    &&& sort.spec_get(new_offset + i + k + offset) == Some(block_new[i + k])
}

/// `n` consecutive samples of the new block from index `i`, shifted by
/// `offset`, lie on indexed samples equal to them.
pub open spec fn run_agrees(block_new: Seq<i16>, new_offset: i64, sort: &SortInfo, offset: i64, i: int, n: int) -> bool {
    &&& 0 <= i
    &&& i + n <= block_new.len()
    &&& forall|k: int| 0 <= k < n ==> #[trigger] agrees_shifted_at(block_new, new_offset, sort, offset, i, k)
}

/// Past the end of the indexed samples nothing more agrees.
proof fn lemma_verify_run_beyond(
    block_new: Seq<i16>,
    new_offset: i64,
    sort: &SortInfo,
    offset: i64,
    n: int,
    i: int,
    count: int,
)
    requires
        new_offset + i + offset - sort.spec_abs_offset() >= sort.samples().len(),
    ensures
        !verify_run(block_new, new_offset, sort, offset, n, i, count),
    decreases block_new.len() - i,
{
    if 0 <= i < block_new.len() {
        assert(sort.spec_get(new_offset + i + offset) is None);
        lemma_verify_run_beyond(block_new, new_offset, sort, offset, n, i + 1, count);
    }
}

/// A run that verifies is `n` consecutive agreeing samples, the `count`
/// already counted ending just before index `i`.
proof fn lemma_verify_run_agrees(
    block_new: Seq<i16>,
    new_offset: i64,
    sort: &SortInfo,
    offset: i64,
    n: int,
    i: int,
    count: int,
)
    requires
        n >= 0,
        0 <= count <= i,
        forall|k: int| 0 <= k < count ==> #[trigger] agrees_shifted_at(block_new, new_offset, sort, offset, i - count, k),
    ensures
        verify_run(block_new, new_offset, sort, offset, n, i, count) ==> exists|j: int|
            #[trigger] run_agrees(block_new, new_offset, sort, offset, j, n),
    decreases block_new.len() - i,
{
    if 0 <= i < block_new.len() {
        let p = new_offset + i + offset;
        match sort.spec_get(p) {
            Some(e) => {
                if e == block_new[i] {
                    let j = i - count;
                    assert forall|k: int| 0 <= k < count + 1 implies #[trigger] agrees_shifted_at(
                        block_new,
                        new_offset,
                        sort,
                        offset,
                        j,
                        k,
                    ) by {
                        if k == count {
                            assert(j + k == i);
                        }
                    }
                    if count + 1 >= n {
                        assert(run_agrees(block_new, new_offset, sort, offset, j, n));
                    } else {
                        assert forall|k: int| 0 <= k < count + 1 implies #[trigger] agrees_shifted_at(
                            block_new,
                            new_offset,
                            sort,
                            offset,
                            (i + 1) - (count + 1),
                            k,
                        ) by {
                            assert(agrees_shifted_at(block_new, new_offset, sort, offset, j, k));
                        }
                        lemma_verify_run_agrees(block_new, new_offset, sort, offset, n, i + 1, count + 1);
                    }
                } else {
                    lemma_verify_run_agrees(block_new, new_offset, sort, offset, n, i + 1, 0);
                }
            },
            None => {
                if count > 0 {
                    assert(agrees_shifted_at(block_new, new_offset, sort, offset, i - count, count - 1));
                    assert(sort.spec_get(new_offset + (i - 1) + offset) is Some);
                    lemma_verify_run_beyond(block_new, new_offset, sort, offset, n, i + 1, count);
                } else {
                    lemma_verify_run_agrees(block_new, new_offset, sort, offset, n, i + 1, 0);
                }
            },
        }
    }
}

proof fn lemma_first_verified_shift_verifies(
    cands: Seq<i64>,
    abs_pos: int,
    block_new: Seq<i16>,
    new_offset: i64,
    sort: &SortInfo,
    n: int,
)
    ensures
        first_verified_shift(cands, abs_pos, block_new, new_offset, sort, n) matches Some(o) ==> verify_run(
            block_new,
            new_offset,
            sort,
            o,
            n,
            0,
            0,
        ),
    decreases cands.len(),
{
    if cands.len() > 0 && !verify_run(block_new, new_offset, sort, (cands[0] - abs_pos) as i64, n, 0, 0) {
        lemma_first_verified_shift_verifies(cands.drop_first(), abs_pos, block_new, new_offset, sort, n);
    }
}

proof fn lemma_shift_from_agrees(block_new: Seq<i16>, new_offset: i64, sort: &SortInfo, n: int, rel: int)
    requires
        n >= 0,
    ensures
        shift_from(block_new, new_offset, sort, n, rel) matches Some(o) ==> exists|i: int|
            #[trigger] run_agrees(block_new, new_offset, sort, o, i, n),
{
    if rel < block_new.len() {
        lemma_first_verified_shift_verifies(
            sort.spec_find_all(block_new[rel]),
            new_offset + rel,
            block_new,
            new_offset,
            sort,
            n,
        );
        match shift_from(block_new, new_offset, sort, n, rel) {
            Some(o) => {
                lemma_verify_run_agrees(block_new, new_offset, sort, o, n, 0, 0);
            },
            None => {},
        }
    }
}

/// The shift that overlap search reports is a real overlap: at least
/// `min_match` consecutive samples of the new block, shifted by it, lie on
/// indexed samples equal to them (with no mismatch between).
pub proof fn lemma_found_overlap_agrees(block_new: Seq<i16>, new_offset: i64, sort: &SortInfo, min_match: int)
    requires
        min_match >= 0,
    ensures
        spec_find_overlap(block_new, new_offset, sort, min_match) matches Some(o) ==> exists|i: int|
            #[trigger] run_agrees(block_new, new_offset, sort, o, i, min_match),
{
    let l = block_new.len() as int;
    lemma_shift_from_agrees(block_new, new_offset, sort, min_match, 0);
    lemma_shift_from_agrees(block_new, new_offset, sort, min_match, l / 4);
    lemma_shift_from_agrees(block_new, new_offset, sort, min_match, l / 2);
}

/// Find the overlapping region between a new block and an indexed one.
///
/// Returns the shift `existing_pos - new_pos` at which at least `min_match`
/// samples in a row agree, or `None`.
pub fn find_overlap(
    block_new: &[i16],
    new_offset: i64,
    sort_existing: &SortInfo,
    min_match: usize,
    _search_range: i64,
) -> (r: Option<i64>)
    requires
        sort_existing.wf(),
        sort_existing.offset_ok(),
        overlap_positions_fit(block_new@, new_offset, sort_existing),
    ensures
        r == spec_find_overlap(block_new@, new_offset, sort_existing, min_match as int),
{
    let len = block_new.len();
    let r0 = overlap_from(block_new, new_offset, sort_existing, min_match, 0);
    if r0.is_some() {
        return r0;
    }
    let r1 = overlap_from(block_new, new_offset, sort_existing, min_match, len / 4);
    if r1.is_some() {
        return r1;
    }
    overlap_from(block_new, new_offset, sort_existing, min_match, len / 2)
}

/// The shift found from one starting sample of the new block.
fn overlap_from(
    block_new: &[i16],
    new_offset: i64,
    sort_existing: &SortInfo,
    min_match: usize,
    rel_pos: usize,
) -> (r: Option<i64>)
    requires
        sort_existing.wf(),
        sort_existing.offset_ok(),
        overlap_positions_fit(block_new@, new_offset, sort_existing),
    ensures
        r == shift_from(block_new@, new_offset, sort_existing, min_match as int, rel_pos as int),
{
    if rel_pos >= block_new.len() {
        return None;
    }
    let abs_pos = new_offset + rel_pos as i64;
    let value = block_new[rel_pos];
    let mut it: MatchIterator = sort_existing.iter_matches(value);
    loop
        invariant
            it.wf(),
            it.info() == sort_existing,
            rel_pos < block_new@.len(),
            abs_pos == new_offset + rel_pos,
            value == block_new@[rel_pos as int],
            overlap_positions_fit(block_new@, new_offset, sort_existing),
            first_verified_shift(
                it.remaining(),
                abs_pos as int,
                block_new@,
                new_offset,
                sort_existing,
                min_match as int,
            ) == shift_from(block_new@, new_offset, sort_existing, min_match as int, rel_pos as int),
        decreases it.remaining().len(),
    {
        let ghost rem = it.remaining();
        match it.next() {
            None => {
                return None;
            },
            Some(existing_pos) => {
                let offset = existing_pos - abs_pos;
                if verify_overlap(block_new, new_offset, sort_existing, offset, min_match) {
                    return Some(offset);
                }
                assert(rem.drop_first() == it.remaining());
            },
        }
    }
}

/// Whether `min_match` samples in a row of the new block agree with the
/// indexed block shifted by `offset`.
fn verify_overlap(
    block_new: &[i16],
    new_offset: i64,
    sort_existing: &SortInfo,
    offset: i64,
    min_match: usize,
) -> (r: bool)
    requires
        overlap_positions_fit(block_new@, new_offset, sort_existing),
        sort_existing.spec_abs_offset() - new_offset - block_new@.len() < offset,
        offset < sort_existing.spec_abs_offset() + sort_existing.samples().len() - new_offset,
    ensures
        r == verify_run(block_new@, new_offset, sort_existing, offset, min_match as int, 0, 0),
{
    let mut match_count: usize = 0;
    let mut i: usize = 0;
    while i < block_new.len()
        invariant
            i <= block_new@.len(),
            match_count <= i,
            overlap_positions_fit(block_new@, new_offset, sort_existing),
            sort_existing.spec_abs_offset() - new_offset - block_new@.len() < offset,
            offset < sort_existing.spec_abs_offset() + sort_existing.samples().len() - new_offset,
            verify_run(block_new@, new_offset, sort_existing, offset, min_match as int, 0, 0)
                == verify_run(
                block_new@,
                new_offset,
                sort_existing,
                offset,
                min_match as int,
                i as int,
                match_count as int,
            ),
        decreases block_new@.len() - i,
    {
        let sample = block_new[i];
        let existing_pos = new_offset + i as i64 + offset;
        match sort_existing.get(existing_pos) {
            Some(existing_sample) => {
                if existing_sample == sample {
                    match_count = match_count + 1;
                    if match_count >= min_match {
                        return true;
                    }
                } else {
                    match_count = 0;
                }
            },
            None => {},
        }
        i = i + 1;
    }
    false
}

} // verus!
