//! Backoff policy for persistent read errors.
//!
//! When a drive keeps failing at one place, seeking away and waiting before
//! the next attempt can help. The strategy counts errors per position,
//! says when to back off, and doubles the backoff distance and delay each
//! time, up to fixed maxima.

use vstd::prelude::*;
use std::time::{Duration, Instant};

verus! {

/// Default number of errors before triggering backoff.
pub const DEFAULT_ERROR_THRESHOLD: u32 = 3;

/// Default backoff distance in sectors.
pub const DEFAULT_BACKOFF_SECTORS: i32 = 16;

/// Maximum backoff distance in sectors.
pub const MAX_BACKOFF_SECTORS: i32 = 128;

/// Default delay after backoff seek (milliseconds).
pub const DEFAULT_BACKOFF_DELAY_MS: u64 = 50;

/// Maximum delay after backoff (milliseconds).
pub const MAX_BACKOFF_DELAY_MS: u64 = 500;

#[verifier::external_type_specification]
#[verifier::external_body]
pub struct ExInstant(Instant);

/// The duration that `Duration::from_millis` makes of a number of milliseconds.
pub uninterp spec fn millis_duration(ms: u64) -> Duration;

/// Calls `Duration::from_millis`; the result is the duration of `ms`
/// milliseconds, named by `millis_duration`.
#[verifier::external_body]
fn duration_from_millis(ms: u64) -> (d: Duration)
    ensures
        d == millis_duration(ms),
{
    Duration::from_millis(ms)
}

/// Calls `Instant::now`; nothing is stated of the instant it returns.
#[verifier::external_body]
fn instant_now() -> Instant {
    Instant::now()
}

/// Calls `Instant::elapsed`; nothing is stated of the duration it returns,
/// which depends on the clock.
#[verifier::external_body]
fn instant_elapsed(t: &Instant) -> Duration {
    t.elapsed()
}

/// The abstract state of a backoff strategy.
pub struct BackoffView {
    /// Consecutive errors at the current position
    pub error_count: u32,
    /// Number of errors before triggering backoff
    pub error_threshold: u32,
    /// Current backoff distance in sectors
    pub backoff_sectors: i32,
    /// Base backoff distance
    pub base_backoff_sectors: i32,
    /// Current delay after backoff, in milliseconds
    pub delay_ms: u64,
    /// Base delay after backoff, in milliseconds
    pub base_delay_ms: u64,
    /// Backoffs performed at the current position
    pub backoff_count: u32,
    /// Last position where an error occurred
    pub last_error_sector: Option<i32>,
    /// Whether a backoff time was recorded
    pub has_backoff_time: bool,
    /// Total errors encountered
    pub total_errors: u64,
    /// Total backoffs performed
    pub total_backoffs: u64,
}

impl BackoffView {
    /// The error state reset to the base parameters.
    pub open spec fn reset(self) -> BackoffView {
        BackoffView {
            error_count: 0,
            backoff_count: 0,
            backoff_sectors: self.base_backoff_sectors,
            delay_ms: self.base_delay_ms,
            last_error_sector: None,
            ..self
        }
    }

    /// `record_error(sector)` can run without overflow.
    pub open spec fn can_record_error(self) -> bool {
        self.total_errors < u64::MAX && self.error_count < u32::MAX
    }

    /// The state after `record_error(sector)`.
    pub open spec fn after_error(self, sector: i32) -> BackoffView {
        if self.last_error_sector != Some(sector) {
            BackoffView {
                total_errors: (self.total_errors + 1) as u64,
                error_count: 1,
                backoff_count: 0,
                backoff_sectors: self.base_backoff_sectors,
                delay_ms: self.base_delay_ms,
                last_error_sector: Some(sector),
                ..self
            }
        } else {
            BackoffView {
                total_errors: (self.total_errors + 1) as u64,
                error_count: (self.error_count + 1) as u32,
                ..self
            }
        }
    }

    /// What `record_error(sector)` answers: whether to back off now.
    pub open spec fn error_triggers(self, sector: i32) -> bool {
        self.last_error_sector == Some(sector) && self.error_count + 1 >= self.error_threshold
    }

    /// `record_backoff()` can run without overflow.
    pub open spec fn can_record_backoff(self) -> bool {
        &&& self.total_backoffs < u64::MAX
        &&& self.backoff_count < u32::MAX
        &&& i32::MIN <= 2 * self.backoff_sectors <= i32::MAX
        &&& 2 * self.delay_ms <= u64::MAX
    }

    /// The state after `record_backoff()`, apart from the recorded time.
    pub open spec fn after_backoff(self) -> BackoffView {
        BackoffView {
            total_backoffs: (self.total_backoffs + 1) as u64,
            backoff_count: (self.backoff_count + 1) as u32,
            error_count: 0,
            has_backoff_time: true,
            backoff_sectors: if 2 * self.backoff_sectors < MAX_BACKOFF_SECTORS {
                (2 * self.backoff_sectors) as i32
            } else {
                MAX_BACKOFF_SECTORS
            },
            delay_ms: if 2 * self.delay_ms < MAX_BACKOFF_DELAY_MS {
                (2 * self.delay_ms) as u64
            } else {
                MAX_BACKOFF_DELAY_MS
            },
            ..self
        }
    }
}

/// Backoff strategy for handling persistent errors.
#[derive(Debug, Clone)]
pub struct BackoffStrategy {
    error_count: u32,
    error_threshold: u32,
    backoff_sectors: i32,
    base_backoff_sectors: i32,
    backoff_delay_ms: u64,
    base_backoff_delay_ms: u64,
    backoff_count: u32,
    last_error_sector: Option<i32>,
    last_backoff_time: Option<Instant>,
    total_errors: u64,
    total_backoffs: u64,
}

impl View for BackoffStrategy {
    type V = BackoffView;

    closed spec fn view(&self) -> BackoffView {
        BackoffView {
            error_count: self.error_count,
            error_threshold: self.error_threshold,
            backoff_sectors: self.backoff_sectors,
            base_backoff_sectors: self.base_backoff_sectors,
            delay_ms: self.backoff_delay_ms,
            base_delay_ms: self.base_backoff_delay_ms,
            backoff_count: self.backoff_count,
            last_error_sector: self.last_error_sector,
            has_backoff_time: self.last_backoff_time.is_some(),
            total_errors: self.total_errors,
            total_backoffs: self.total_backoffs,
        }
    }
}

/// The state of a strategy created with the given settings.
pub open spec fn fresh_view(error_threshold: u32, backoff_sectors: i32, delay_ms: u64) -> BackoffView {
    BackoffView {
        error_count: 0,
        error_threshold,
        backoff_sectors,
        base_backoff_sectors: backoff_sectors,
        delay_ms,
        base_delay_ms: delay_ms,
        backoff_count: 0,
        last_error_sector: None,
        has_backoff_time: false,
        total_errors: 0,
        total_backoffs: 0,
    }
}

impl Default for BackoffStrategy {
    fn default() -> (r: Self)
        ensures
            r@ == fresh_view(DEFAULT_ERROR_THRESHOLD, DEFAULT_BACKOFF_SECTORS, DEFAULT_BACKOFF_DELAY_MS),
    {
        Self::new()
    }
}

impl BackoffStrategy {
    /// Create a new backoff strategy with default settings.
    pub fn new() -> (r: Self)
        ensures
            r@ == fresh_view(DEFAULT_ERROR_THRESHOLD, DEFAULT_BACKOFF_SECTORS, DEFAULT_BACKOFF_DELAY_MS),
    {
        Self::with_settings(DEFAULT_ERROR_THRESHOLD, DEFAULT_BACKOFF_SECTORS, DEFAULT_BACKOFF_DELAY_MS)
    }

    /// Create a backoff strategy with custom settings.
    pub fn with_settings(error_threshold: u32, backoff_sectors: i32, backoff_delay_ms: u64) -> (r: Self)
        ensures
            r@ == fresh_view(error_threshold, backoff_sectors, backoff_delay_ms),
    {
        BackoffStrategy {
            error_count: 0,
            error_threshold,
            backoff_sectors,
            base_backoff_sectors: backoff_sectors,
            backoff_delay_ms,
            base_backoff_delay_ms: backoff_delay_ms,
            backoff_count: 0,
            last_error_sector: None,
            last_backoff_time: None,
            total_errors: 0,
            total_backoffs: 0,
        }
    }

    /// Record an error at the given sector. Returns true if backoff should
    /// be triggered: the error repeats the last error's sector and the
    /// consecutive count reaches the threshold. An error at a new sector
    /// starts counting afresh with the base parameters.
    pub fn record_error(&mut self, sector: i32) -> (r: bool)
        requires
            old(self)@.can_record_error(),
        ensures
            final(self)@ == old(self)@.after_error(sector),
            final(self)@ == old(self)@.step(BackoffOp::Error(sector)),
            r == old(self)@.error_triggers(sector),
    {
        self.total_errors = self.total_errors + 1;
        let same = match self.last_error_sector {
            Some(s) => s == sector,
            None => false,
        };
        if !same {
            self.error_count = 1;
            self.backoff_count = 0;
            self.backoff_sectors = self.base_backoff_sectors;
            self.backoff_delay_ms = self.base_backoff_delay_ms;
            self.last_error_sector = Some(sector);
            return false;
        }
        self.error_count = self.error_count + 1;
        self.error_count >= self.error_threshold
    }

    /// Record a successful read: reading past the last error position
    /// resets the error state.
    pub fn record_success(&mut self, sector: i32)
        ensures
            final(self)@ == match old(self)@.last_error_sector {
                Some(e) => if sector > e { old(self)@.reset() } else { old(self)@ },
                None => old(self)@,
            },
            final(self)@ == old(self)@.step(BackoffOp::Success(sector)),
    {
        match self.last_error_sector {
            Some(error_sector) => {
                if sector > error_sector {
                    self.reset_error_state();
                }
            },
            None => {},
        }
    }

    /// Reset the error state (after recovery or moving past the error).
    pub fn reset_error_state(&mut self)
        ensures
            final(self)@ == old(self)@.reset(),
            final(self)@ == old(self)@.step(BackoffOp::Reset),
    {
        self.error_count = 0;
        self.backoff_count = 0;
        self.backoff_sectors = self.base_backoff_sectors;
        self.backoff_delay_ms = self.base_backoff_delay_ms;
        self.last_error_sector = None;
    }

    /// The backoff parameters for the current error state: how far to seek
    /// (negative: backward) and how long to wait.
    pub fn get_backoff_params(&self) -> (r: (i32, Duration))
        requires
            self@.backoff_sectors != i32::MIN,
        ensures
            r.0 == -self@.backoff_sectors,
            r.1 == millis_duration(self@.delay_ms),
    {
        (-self.backoff_sectors, duration_from_millis(self.backoff_delay_ms))
    }

    /// Record that a backoff was performed: the error count restarts and
    /// distance and delay double, up to `MAX_BACKOFF_SECTORS` and
    /// `MAX_BACKOFF_DELAY_MS`.
    pub fn record_backoff(&mut self)
        requires
            old(self)@.can_record_backoff(),
        ensures
            final(self)@ == old(self)@.after_backoff(),
            final(self)@ == old(self)@.step(BackoffOp::Backoff),
    {
        self.total_backoffs = self.total_backoffs + 1;
        self.backoff_count = self.backoff_count + 1;
        self.error_count = 0;
        self.last_backoff_time = Some(instant_now());
        let doubled = self.backoff_sectors * 2;
        self.backoff_sectors = if doubled < MAX_BACKOFF_SECTORS { doubled } else { MAX_BACKOFF_SECTORS };
        let delay = self.backoff_delay_ms * 2;
        self.backoff_delay_ms = if delay < MAX_BACKOFF_DELAY_MS { delay } else { MAX_BACKOFF_DELAY_MS };
    }

    /// Whether to give up: at least `max_backoffs` backoffs at this position.
    pub fn should_give_up(&self, max_backoffs: u32) -> (r: bool)
        ensures
            r == (self@.backoff_count >= max_backoffs),
    {
        self.backoff_count >= max_backoffs
    }

    /// The current error count.
    pub fn error_count(&self) -> (r: u32)
        ensures
            r == self@.error_count,
    {
        self.error_count
    }

    /// The number of backoffs at the current position.
    pub fn backoff_count(&self) -> (r: u32)
        ensures
            r == self@.backoff_count,
    {
        self.backoff_count
    }

    /// Total errors encountered.
    pub fn total_errors(&self) -> (r: u64)
        ensures
            r == self@.total_errors,
    {
        self.total_errors
    }

    /// Total backoffs performed.
    pub fn total_backoffs(&self) -> (r: u64)
        ensures
            r == self@.total_backoffs,
    {
        self.total_backoffs
    }

    /// The last error sector.
    pub fn last_error_sector(&self) -> (r: Option<i32>)
        ensures
            r == self@.last_error_sector,
    {
        self.last_error_sector
    }

    /// Time since the last backoff, if one was performed.
    pub fn time_since_backoff(&self) -> (r: Option<Duration>)
        ensures
            r.is_some() == self@.has_backoff_time,
    {
        match &self.last_backoff_time {
            Some(t) => Some(instant_elapsed(t)),
            None => None,
        }
    }

    /// Set the error threshold (at least 1).
    pub fn set_error_threshold(&mut self, threshold: u32)
        ensures
            final(self)@ == (BackoffView {
                error_threshold: if threshold < 1 { 1 } else { threshold },
                ..old(self)@
            }),
            final(self)@ == old(self)@.step(BackoffOp::SetThreshold(threshold)),
    {
        self.error_threshold = if threshold < 1 { 1 } else { threshold };
    }

    /// Set the base backoff distance (at least 1); the current distance
    /// becomes the base.
    pub fn set_backoff_sectors(&mut self, sectors: i32)
        ensures
            final(self)@ == (BackoffView {
                base_backoff_sectors: if sectors < 1 { 1 } else { sectors },
                backoff_sectors: if sectors < 1 { 1 } else { sectors },
                ..old(self)@
            }),
            final(self)@ == old(self)@.step(BackoffOp::SetSectors(sectors)),
    {
        self.base_backoff_sectors = if sectors < 1 { 1 } else { sectors };
        self.backoff_sectors = self.base_backoff_sectors;
    }

    /// Set the base backoff delay in milliseconds; the current delay
    /// becomes the base.
    pub fn set_backoff_delay(&mut self, delay_ms: u64)
        ensures
            final(self)@ == (BackoffView { base_delay_ms: delay_ms, delay_ms: delay_ms, ..old(self)@ }),
            final(self)@ == old(self)@.step(BackoffOp::SetDelay(delay_ms)),
    {
        self.base_backoff_delay_ms = delay_ms;
        self.backoff_delay_ms = delay_ms;
    }
}

/// Result of checking backoff state.
#[derive(Debug, Clone, Copy, PartialEq, Eq)]
pub enum BackoffAction {
    /// Continue normally, no backoff needed.
    Continue,
    /// Perform backoff: seek by the given number of sectors, wait the given duration.
    Backoff { sectors: i32, delay: Duration },
    /// Give up: too many backoffs, skip this sector.
    GiveUp,
}

/// Decide the backoff action: nothing unless backoff is needed, give up
/// after `max_backoffs` backoffs, else back off by the current distance
/// (as a positive number of sectors) and delay.
pub fn determine_backoff_action(strategy: &BackoffStrategy, needs_backoff: bool, max_backoffs: u32) -> (r: BackoffAction)
    requires
        needs_backoff ==> strategy@.backoff_sectors != i32::MIN,
    ensures
        r == if !needs_backoff {
            BackoffAction::Continue
        } else if strategy@.backoff_count >= max_backoffs {
            BackoffAction::GiveUp
        } else {
            BackoffAction::Backoff {
                sectors: if strategy@.backoff_sectors < 0 {
                    (-strategy@.backoff_sectors) as i32
                } else {
                    strategy@.backoff_sectors
                },
                delay: millis_duration(strategy@.delay_ms),
            }
        },
{
    if !needs_backoff {
        return BackoffAction::Continue;
    }
    if strategy.should_give_up(max_backoffs) {
        return BackoffAction::GiveUp;
    }
    let (sectors, delay) = strategy.get_backoff_params();
    let sectors_abs = if sectors < 0 { -sectors } else { sectors };
    BackoffAction::Backoff { sectors: sectors_abs, delay }
}

/// The state after `n` consecutive `record_error(sector)` calls.
pub open spec fn errors_at(v: BackoffView, sector: i32, n: nat) -> BackoffView
    decreases n,
{
    if n == 0 {
        v
    } else {
        errors_at(v, sector, (n - 1) as nat).after_error(sector)
    }
}

/// The state after `n` consecutive `record_backoff()` calls.
pub open spec fn backoffs(v: BackoffView, n: nat) -> BackoffView
    decreases n,
{
    if n == 0 {
        v
    } else {
        backoffs(v, (n - 1) as nat).after_backoff()
    }
}

/// Repeated errors at one sector: starting where the last error was
/// elsewhere, the `n`-th consecutive error at `sector` leaves an error count
/// of `n`, and it asks for backoff exactly when `n >= 2` and `n` reaches the
/// threshold. Each of these calls can run without overflow.
pub proof fn lemma_errors_reach_threshold(v: BackoffView, sector: i32, n: nat)
    requires
        v.last_error_sector != Some(sector),
        v.error_count < u32::MAX,
        1 <= n < u32::MAX,
        v.total_errors + n <= u64::MAX,
    ensures
        errors_at(v, sector, n).error_count == n,
        errors_at(v, sector, n).last_error_sector == Some(sector),
        errors_at(v, sector, n).error_threshold == v.error_threshold,
        errors_at(v, sector, n).total_errors == v.total_errors + n,
        errors_at(v, sector, (n - 1) as nat).can_record_error(),
        errors_at(v, sector, (n - 1) as nat).error_triggers(sector) == (n >= 2 && n >= v.error_threshold),
    decreases n,
{
    if n > 1 {
        lemma_errors_reach_threshold(v, sector, (n - 1) as nat);
    }
}

/// Escalation stays bounded: from a distance in `1..=MAX_BACKOFF_SECTORS`
/// and a delay of at most `MAX_BACKOFF_DELAY_MS`, any number `n` of backoffs
/// keeps both within those bounds, never doubles past them, and counts `n`
/// backoffs. Each of these calls can run without overflow.
pub proof fn lemma_backoff_escalation_bounded(v: BackoffView, n: nat)
    requires
        1 <= v.backoff_sectors <= MAX_BACKOFF_SECTORS,
        v.delay_ms <= MAX_BACKOFF_DELAY_MS,
        v.total_backoffs + n <= u64::MAX,
        v.backoff_count + n <= u32::MAX,
    ensures
        1 <= backoffs(v, n).backoff_sectors <= MAX_BACKOFF_SECTORS,
        backoffs(v, n).delay_ms <= MAX_BACKOFF_DELAY_MS,
        backoffs(v, n).backoff_count == v.backoff_count + n,
        backoffs(v, n).total_backoffs == v.total_backoffs + n,
        backoffs(v, n).last_error_sector == v.last_error_sector,
        n > 0 ==> backoffs(v, (n - 1) as nat).can_record_backoff(),
    decreases n,
{
    if n > 0 {
        lemma_backoff_escalation_bounded(v, (n - 1) as nat);
    }
}

/// Escalation doubles: one backoff from a distance `d` and delay `t` gives
/// `min(2d, MAX_BACKOFF_SECTORS)` and `min(2t, MAX_BACKOFF_DELAY_MS)`; from
/// the defaults, a first backoff doubles both exactly.
pub proof fn lemma_backoff_doubles(v: BackoffView)
    requires
        v.can_record_backoff(),
    ensures
        v.after_backoff().backoff_sectors == if 2 * v.backoff_sectors < MAX_BACKOFF_SECTORS {
            2 * v.backoff_sectors
        } else {
            MAX_BACKOFF_SECTORS as int
        },
        v.after_backoff().delay_ms == if 2 * v.delay_ms < MAX_BACKOFF_DELAY_MS {
            2 * v.delay_ms
        } else {
            MAX_BACKOFF_DELAY_MS as int
        },
        v == fresh_view(DEFAULT_ERROR_THRESHOLD, DEFAULT_BACKOFF_SECTORS, DEFAULT_BACKOFF_DELAY_MS)
            ==> v.after_backoff().backoff_sectors == 2 * DEFAULT_BACKOFF_SECTORS
            && v.after_backoff().delay_ms == 2 * DEFAULT_BACKOFF_DELAY_MS,
{
}


/// One operation on a backoff strategy: the record and reset calls and the
/// setters, with their arguments.
pub enum BackoffOp {
    /// `record_error(sector)`
    Error(i32),
    /// `record_success(sector)`
    Success(i32),
    /// `record_backoff()`
    Backoff,
    /// `reset_error_state()`
    Reset,
    /// `set_error_threshold(threshold)`
    SetThreshold(u32),
    /// `set_backoff_sectors(sectors)`
    SetSectors(i32),
    /// `set_backoff_delay(delay_ms)`
    SetDelay(u64),
}

impl BackoffView {
    /// The state after `record_success(sector)`.
    pub open spec fn after_success(self, sector: i32) -> BackoffView {
        match self.last_error_sector {
            Some(e) => if sector > e { self.reset() } else { self },
            None => self,
        }
    }

    /// The state after one operation.
    pub open spec fn step(self, op: BackoffOp) -> BackoffView {
        match op {
            BackoffOp::Error(sector) => self.after_error(sector),
            BackoffOp::Success(sector) => self.after_success(sector),
            BackoffOp::Backoff => self.after_backoff(),
            BackoffOp::Reset => self.reset(),
            BackoffOp::SetThreshold(t) => BackoffView { error_threshold: if t < 1 { 1 } else { t }, ..self },
            BackoffOp::SetSectors(n) => BackoffView {
                base_backoff_sectors: if n < 1 { 1 } else { n },
                backoff_sectors: if n < 1 { 1 } else { n },
                ..self
            },
            BackoffOp::SetDelay(d) => BackoffView { base_delay_ms: d, delay_ms: d, ..self },
        }
    }

    /// The operation can run from this state without overflow.
    pub open spec fn can_step(self, op: BackoffOp) -> bool {
        match op {
            BackoffOp::Error(_) => self.can_record_error(),
            BackoffOp::Backoff => self.can_record_backoff(),
            _ => true,
        }
    }

    /// Distance and delay, current and base, lie within their bounds: the
    /// distance in `1..=MAX_BACKOFF_SECTORS`, the delay at most
    /// `MAX_BACKOFF_DELAY_MS`.
    pub open spec fn params_bounded(self) -> bool {
        &&& 1 <= self.backoff_sectors <= MAX_BACKOFF_SECTORS
        &&& 1 <= self.base_backoff_sectors <= MAX_BACKOFF_SECTORS
        &&& self.delay_ms <= MAX_BACKOFF_DELAY_MS
        &&& self.base_delay_ms <= MAX_BACKOFF_DELAY_MS
    }
}

/// The state after a sequence of operations, in order.
pub open spec fn run_ops(v: BackoffView, ops: Seq<BackoffOp>) -> BackoffView
    decreases ops.len(),
{
    if ops.len() == 0 {
        v
    } else {
        run_ops(v, ops.drop_last()).step(ops.last())
    }
}

/// Every operation of the sequence can run where it comes.
pub open spec fn ops_ok(v: BackoffView, ops: Seq<BackoffOp>) -> bool
    decreases ops.len(),
{
    ops.len() == 0 || (ops_ok(v, ops.drop_last()) && run_ops(v, ops.drop_last()).can_step(ops.last()))
}

/// The number of `record_error` calls in a sequence.
pub open spec fn count_errors(ops: Seq<BackoffOp>) -> nat
    decreases ops.len(),
{
    if ops.len() == 0 {
        0
    } else {
        count_errors(ops.drop_last()) + if ops.last() is Error { 1nat } else { 0nat }
    }
}

/// The setters of a sequence keep distance and delay within their bounds.
pub open spec fn setters_bounded(ops: Seq<BackoffOp>) -> bool {
    forall|i: int|
        0 <= i < ops.len() ==> match #[trigger] ops[i] {
            BackoffOp::SetSectors(n) => n <= MAX_BACKOFF_SECTORS,
            BackoffOp::SetDelay(d) => d <= MAX_BACKOFF_DELAY_MS,
            _ => true,
        }
}

/// The total error count counts every `record_error` call of any sequence
/// of operations, and the consecutive error count never exceeds it.
pub proof fn lemma_total_errors_counted(v: BackoffView, ops: Seq<BackoffOp>)
    requires
        ops_ok(v, ops),
    ensures
        run_ops(v, ops).total_errors == v.total_errors + count_errors(ops),
        run_ops(v, ops).error_count <= v.error_count + count_errors(ops),
    decreases ops.len(),
{
    if ops.len() > 0 {
        lemma_total_errors_counted(v, ops.drop_last());
    }
}

/// Backoff distance and delay stay bounded over any sequence of operations
/// whose setters keep within the bounds: the seek of `get_backoff_params`
/// stays between `-MAX_BACKOFF_SECTORS` and -1 (backward), and its delay
/// at most `MAX_BACKOFF_DELAY_MS`.
pub proof fn lemma_backoff_params_stay_bounded(v: BackoffView, ops: Seq<BackoffOp>)
    requires
        v.params_bounded(),
        setters_bounded(ops),
    ensures
        run_ops(v, ops).params_bounded(),
        -MAX_BACKOFF_SECTORS <= -run_ops(v, ops).backoff_sectors <= -1,
        run_ops(v, ops).delay_ms <= MAX_BACKOFF_DELAY_MS,
    decreases ops.len(),
{
    if ops.len() > 0 {
        let init = ops.drop_last();
        assert forall|i: int| 0 <= i < init.len() implies match #[trigger] init[i] {
            BackoffOp::SetSectors(n) => n <= MAX_BACKOFF_SECTORS,
            BackoffOp::SetDelay(d) => d <= MAX_BACKOFF_DELAY_MS,
            _ => true,
        } by {
            assert(init[i] == ops[i]);
        }
        lemma_backoff_params_stay_bounded(v, init);
        let last = ops.last();
        assert(match ops[ops.len() - 1] {
            BackoffOp::SetSectors(n) => n <= MAX_BACKOFF_SECTORS,
            BackoffOp::SetDelay(d) => d <= MAX_BACKOFF_DELAY_MS,
            _ => true,
        });
    }
}

/// A new strategy with the default settings has its distance and delay
/// within their bounds.
pub proof fn lemma_defaults_bounded()
    ensures
        fresh_view(DEFAULT_ERROR_THRESHOLD, DEFAULT_BACKOFF_SECTORS, DEFAULT_BACKOFF_DELAY_MS).params_bounded(),
{
}

} // verus!
