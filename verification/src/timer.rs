//! The arithmetic of the collection timer.
//!
//! Ticks fall on the multiples of the interval on a monotonic clock, so that they do not drift.

use vstd::prelude::*;

use crate::error::{QosError, QosErrorView};

verus! {

/// The nanoseconds of a second.
pub const NANOS_PER_SEC: u64 = 1_000_000_000;

/// A span of time: whole seconds and nanoseconds.
#[derive(Clone, Copy, Debug, PartialEq, Eq, Structural)]
pub struct Interval {
    pub secs: u64,
    pub nanos: u32,
}

impl Interval {
    /// The length in nanoseconds.
    pub open spec fn ns(self) -> int {
        self.secs * NANOS_PER_SEC + self.nanos
    }

    /// An interval of `millis` milliseconds.
    pub fn from_millis(millis: u64) -> (r: Interval)
        ensures
            r.ns() == millis * 1_000_000,
            r.nanos < NANOS_PER_SEC,
    {
        Interval { secs: millis / 1000, nanos: (millis % 1000) as u32 * 1_000_000 }
    }

    /// Whether the length is zero.
    pub fn is_zero(&self) -> (r: bool)
        ensures
            r == (self.ns() == 0),
    {
        self.secs == 0 && self.nanos == 0
    }
}

/// The length of an interval in nanoseconds, if it fits.
pub fn duration_to_ns(duration: Interval) -> (r: Result<u64, QosError>)
    ensures
        match r {
            Ok(ns) => ns == duration.ns(),
            Err(e) => e@ == QosErrorView::IntervalTooLarge && duration.ns() > u64::MAX,
        },
{
    match duration.secs.checked_mul(NANOS_PER_SEC) {
        Some(ns) => match ns.checked_add(duration.nanos as u64) {
            Some(total) => Ok(total),
            None => Err(QosError::IntervalTooLarge),
        },
        None => Err(QosError::IntervalTooLarge),
    }
}

/// A point in time as the kernel takes and gives it.
#[derive(Clone, Copy, Debug, PartialEq, Eq, Structural)]
pub struct TimeSpec {
    pub tv_sec: i64,
    pub tv_nsec: i64,
}

impl TimeSpec {
    /// The time in nanoseconds.
    pub open spec fn ns(self) -> int {
        self.tv_sec * NANOS_PER_SEC + self.tv_nsec
    }

    /// Whether the time is one that the kernel takes: not negative, and with less than a second
    /// of nanoseconds.
    pub open spec fn is_normal(self) -> bool {
        0 <= self.tv_sec && 0 <= self.tv_nsec < NANOS_PER_SEC
    }
}

/// A number of nanoseconds as the kernel takes it.
pub fn ns_to_timespec(ns: u64) -> (r: TimeSpec)
    ensures
        r.ns() == ns,
        r.is_normal(),
{
    TimeSpec { tv_sec: (ns / NANOS_PER_SEC) as i64, tv_nsec: (ns % NANOS_PER_SEC) as i64 }
}

/// A clock reading in nanoseconds.
pub fn monotonic_ns(clock: TimeSpec) -> (r: u64)
    requires
        clock.is_normal(),
        clock.ns() <= u64::MAX,
    ensures
        r == clock.ns(),
{
    clock.tv_sec as u64 * NANOS_PER_SEC + clock.tv_nsec as u64
}

/// A clock reading in whole microseconds.
pub fn monotonic_us(clock: TimeSpec) -> (r: u64)
    requires
        clock.is_normal(),
        clock.ns() <= u64::MAX,
    ensures
        r == clock.ns() / 1000,
{
    monotonic_ns(clock) / 1000
}

/// The first multiple of the interval after `now_ns`, or the last time that can be represented
/// if that comes first.
pub open spec fn aligned(now_ns: int, interval_ns: int) -> int {
    let next = (now_ns / interval_ns + 1) * interval_ns;
    if next > u64::MAX {
        u64::MAX as int
    } else {
        next
    }
}

/// The first multiple of the interval after `now_ns`.
pub fn align_next_deadline(now_ns: u64, interval_ns: u64) -> (r: u64)
    requires
        interval_ns > 0,
    ensures
        r == aligned(now_ns as int, interval_ns as int),
{
    let now: u128 = now_ns as u128;
    let interval: u128 = interval_ns as u128;
    proof {
        lemma_aligned(now_ns as int, interval_ns as int);
    }
    let next: u128 = (now / interval + 1) * interval;
    if next > u64::MAX as u128 {
        u64::MAX
    } else {
        next as u64
    }
}

/// The first multiple of the interval after a time is less than an interval away.
proof fn lemma_aligned(now: int, interval: int)
    requires
        0 <= now,
        0 < interval,
    ensures
        now < (now / interval + 1) * interval <= now + interval,
        (now / interval + 1) * interval % interval == 0,
        now / interval <= now,
{
    vstd::arithmetic::div_mod::lemma_fundamental_div_mod(now, interval);
    vstd::arithmetic::div_mod::lemma_mod_bound(now, interval);
    let q = now / interval;
    assert((q + 1) * interval == interval * q + interval) by (nonlinear_arith);
    vstd::arithmetic::div_mod::lemma_mod_multiples_basic(q + 1, interval);
    vstd::arithmetic::div_mod::lemma_div_nonincreasing(now, interval);
}

/// How many deadlines, an interval apart, have come by `now` if the first is `next`.
pub open spec fn elapsed(next: int, interval: int, now: int) -> int {
    if next > now {
        0
    } else {
        (now - next) / interval + 1
    }
}

/// What is armed to fire a timer: no repetition, and the time at which it fires.
#[derive(Clone, Copy, Debug, PartialEq, Eq, Structural)]
pub struct TimerSpec {
    pub it_interval: TimeSpec,
    pub it_value: TimeSpec,
}

/// The deadlines of the collection timer.
#[derive(Clone, Copy, Debug, PartialEq, Eq, Structural)]
pub struct DeadlineTimer {
    interval_ns: u64,
    next_deadline_ns: u64,
}

/// What a `DeadlineTimer` holds.
pub struct DeadlineTimerView {
    pub interval_ns: int,
    pub next_deadline_ns: int,
}

impl View for DeadlineTimer {
    type V = DeadlineTimerView;

    closed spec fn view(&self) -> DeadlineTimerView {
        DeadlineTimerView {
            interval_ns: self.interval_ns as int,
            next_deadline_ns: self.next_deadline_ns as int,
        }
    }
}

impl DeadlineTimerView {
    /// Whether the next deadline is a multiple of the interval, or the last time that can be
    /// represented.
    pub open spec fn wf(self) -> bool {
        &&& 0 < self.interval_ns <= u64::MAX
        &&& 0 < self.next_deadline_ns <= u64::MAX
        &&& self.next_deadline_ns % self.interval_ns == 0 || self.next_deadline_ns == u64::MAX
    }
}

impl DeadlineTimer {
    /// A timer whose first deadline is the first multiple of the interval after `now_ns`.
    pub fn new(interval: Interval, now_ns: u64) -> (r: Result<DeadlineTimer, QosError>)
        ensures
            match r {
                Ok(timer) => {
                    &&& timer@.wf()
                    &&& timer@.interval_ns == interval.ns()
                    &&& timer@.next_deadline_ns == aligned(now_ns as int, interval.ns())
                },
                Err(e) => {
                    ||| interval.ns() == 0 && e@ == QosErrorView::ZeroInterval
                    ||| interval.ns() > u64::MAX && e@ == QosErrorView::IntervalTooLarge
                },
            },
    {
        if interval.is_zero() {
            return Err(QosError::ZeroInterval);
        }
        let interval_ns: u64 = match duration_to_ns(interval) {
            Ok(ns) => ns,
            Err(e) => return Err(e),
        };
        proof {
            lemma_aligned(now_ns as int, interval_ns as int);
        }
        let next_deadline_ns: u64 = align_next_deadline(now_ns, interval_ns);
        Ok(DeadlineTimer { interval_ns, next_deadline_ns })
    }

    /// What to arm for the next deadline. The time is never zero, which would disarm the timer.
    pub fn armed(&self) -> (r: TimerSpec)
        requires
            self@.wf(),
        ensures
            r.it_value.ns() == self@.next_deadline_ns,
            r.it_value.is_normal(),
            r.it_value.ns() > 0,
            r.it_interval.tv_sec == 0,
            r.it_interval.tv_nsec == 0,
    {
        TimerSpec {
            it_interval: TimeSpec { tv_sec: 0, tv_nsec: 0 },
            it_value: ns_to_timespec(self.next_deadline_ns),
        }
    }

    /// Moves past the deadlines that have come by `now_ns`, and returns how many ticks are due:
    /// that many, or as many as the kernel has counted if it has counted more.
    pub fn advance(&mut self, now_ns: u64, expirations: u64) -> (r: u64)
        requires
            old(self)@.wf(),
            now_ns < u64::MAX,
        ensures
            final(self)@.wf(),
            final(self)@.interval_ns == old(self)@.interval_ns,
            final(self)@.next_deadline_ns > now_ns,
            final(self)@.next_deadline_ns >= old(self)@.next_deadline_ns,
            final(self)@.next_deadline_ns - final(self)@.interval_ns <= now_ns
                || final(self)@.next_deadline_ns == old(self)@.next_deadline_ns,
            r >= expirations,
            old(self)@.next_deadline_ns > now_ns ==> r == expirations,
            ({
                let (next, interval) = (old(self)@.next_deadline_ns, old(self)@.interval_ns);
                let missed = elapsed(next, interval, now_ns as int);
                let after = next + missed * interval;
                &&& r == if missed > expirations {
                    missed
                } else {
                    expirations as int
                }
                &&& final(self)@.next_deadline_ns == if after > u64::MAX {
                    u64::MAX as int
                } else {
                    after
                }
            }),
    {
        let ghost first = self.next_deadline_ns as int;
        let ghost interval = self.interval_ns as int;
        let mut missed: u64 = 0;
        while self.next_deadline_ns <= now_ns
            invariant
                0 < first <= u64::MAX,
                interval > 0,
                self.interval_ns == interval,
                first == old(self)@.next_deadline_ns,
                interval == old(self)@.interval_ns,
                now_ns < u64::MAX,
                first % interval == 0 || first == u64::MAX,
                missed > 0 ==> first + (missed - 1) * interval <= now_ns,
                self.next_deadline_ns == if first + missed * interval > u64::MAX {
                    u64::MAX as int
                } else {
                    first + missed * interval
                },
            decreases u64::MAX - self.next_deadline_ns,
        {
            proof {
                let m = missed as int;
                assert((m + 1) * interval == m * interval + interval) by (nonlinear_arith);
                assert(m <= m * interval) by (nonlinear_arith)
                    requires
                        m >= 0,
                        interval > 0,
                ;
            }
            self.next_deadline_ns = self.next_deadline_ns.saturating_add(self.interval_ns);
            missed = missed.saturating_add(1);
        }
        proof {
            let m = missed as int;
            lemma_elapsed(first, interval, now_ns as int, m);
            lemma_stays_on_grid(first, interval, m);
            assert(m * interval == (m - 1) * interval + interval) by (nonlinear_arith);
        }
        if missed > expirations {
            missed
        } else {
            expirations
        }
    }
}

/// The deadlines that have come are those up to the first that has not.
proof fn lemma_elapsed(next: int, interval: int, now: int, m: int)
    requires
        interval > 0,
        m >= 0,
        next + m * interval > now,
        m > 0 ==> next + (m - 1) * interval <= now,
    ensures
        elapsed(next, interval, now) == m,
{
    if m > 0 {
        assert((m - 1) * interval >= 0) by (nonlinear_arith)
            requires
                m >= 1,
                interval > 0,
        ;
        assert(m * interval == (m - 1) * interval + interval) by (nonlinear_arith);
        let d = now - next;
        vstd::arithmetic::div_mod::lemma_fundamental_div_mod_converse(
            d,
            interval,
            m - 1,
            d - (m - 1) * interval,
        );
    }
}

/// Steps of the interval from a multiple of it lead to multiples of it.
proof fn lemma_stays_on_grid(first: int, interval: int, m: int)
    requires
        interval > 0,
    ensures
        first % interval == 0 ==> (first + m * interval) % interval == 0,
{
    assert(m * interval == interval * m) by (nonlinear_arith);
    vstd::arithmetic::div_mod::lemma_mod_multiples_vanish(m, first, interval);
}

/// However late a timer is, the deadline it moves on to is the one that a timer started at that
/// time would have.
pub proof fn law_late_timer_realigns(timer: DeadlineTimerView, now_ns: u64)
    requires
        timer.wf(),
        timer.next_deadline_ns <= now_ns < u64::MAX,
    ensures
        ({
            let missed = elapsed(timer.next_deadline_ns, timer.interval_ns, now_ns as int);
            let after = timer.next_deadline_ns + missed * timer.interval_ns;
            aligned(now_ns as int, timer.interval_ns) == if after > u64::MAX {
                u64::MAX as int
            } else {
                after
            }
        }),
{
    let (next, interval, now) = (timer.next_deadline_ns, timer.interval_ns, now_ns as int);
    let k = next / interval;
    vstd::arithmetic::div_mod::lemma_fundamental_div_mod(next, interval);
    let d = now - next;
    let q = d / interval;
    vstd::arithmetic::div_mod::lemma_fundamental_div_mod(d, interval);
    vstd::arithmetic::div_mod::lemma_mod_bound(d, interval);
    assert((k + q) * interval == interval * k + interval * q) by (nonlinear_arith);
    vstd::arithmetic::div_mod::lemma_fundamental_div_mod_converse(
        now,
        interval,
        k + q,
        d % interval,
    );
    assert((k + q + 1) * interval == interval * k + (q + 1) * interval) by (nonlinear_arith);
}

/// A time has one form that the kernel takes, so that taking a number of nanoseconds apart and
/// putting it together again leads back to it, from either side.
pub proof fn law_time_form_unique(a: TimeSpec, b: TimeSpec)
    requires
        a.is_normal(),
        b.is_normal(),
        a.ns() == b.ns(),
    ensures
        a == b,
{
}

/// How far the read of a timer's expiration count, which is eight bytes long, has come.
#[derive(Clone, Copy, Debug, PartialEq, Eq, Structural)]
pub struct ExpirationRead {
    filled: usize,
}

/// What to do after a read.
#[derive(Clone, Copy, Debug, PartialEq, Eq, Structural)]
pub enum ReadStep {
    /// Read again.
    Again,
    /// The count is complete.
    Complete,
    /// Reading failed.
    Failed,
}

impl ExpirationRead {
    /// How many bytes have been read.
    pub closed spec fn spec_filled(self) -> int {
        self.filled as int
    }

    /// Whether there are bytes left to read.
    pub open spec fn wf(self) -> bool {
        0 <= self.spec_filled() < 8
    }

    /// A read that has not begun.
    pub fn new() -> (r: ExpirationRead)
        ensures
            r.wf(),
            r.spec_filled() == 0,
    {
        ExpirationRead { filled: 0 }
    }

    /// How many bytes have been read.
    pub fn filled(&self) -> (r: usize)
        ensures
            r == self.spec_filled(),
    {
        self.filled
    }

    /// Takes in what a read of the bytes that are left returned: how many it read, or a negative
    /// number if it failed. A read that was interrupted is tried again.
    pub fn record(&mut self, returned: i64, interrupted: bool) -> (r: ReadStep)
        requires
            old(self).wf(),
            returned <= 8 - old(self).spec_filled(),
        ensures
            r is Again ==> final(self).wf(),
            r is Failed <==> returned < 0 && !interrupted,
            r is Complete <==> returned == 8 - old(self).spec_filled(),
            final(self).spec_filled() == old(self).spec_filled() + if returned < 0 {
                0
            } else {
                returned as int
            },
    {
        if returned < 0 {
            if interrupted {
                ReadStep::Again
            } else {
                ReadStep::Failed
            }
        } else {
            self.filled = self.filled + returned as usize;
            if self.filled < 8 {
                ReadStep::Again
            } else {
                ReadStep::Complete
            }
        }
    }
}

/// A second more is a thousand million nanoseconds more, in an interval as in a time.
pub proof fn law_seconds(secs: u64, nanos: u32, tv_sec: i64, tv_nsec: i64)
    requires
        secs < u64::MAX,
        tv_sec < i64::MAX,
    ensures
        (Interval { secs: 0, nanos }).ns() == nanos,
        (Interval { secs: (secs + 1) as u64, nanos }).ns() == (Interval { secs, nanos }).ns()
            + 1_000_000_000,
        (TimeSpec { tv_sec: 0, tv_nsec }).ns() == tv_nsec,
        (TimeSpec { tv_sec: (tv_sec + 1) as i64, tv_nsec }).ns() == (TimeSpec {
            tv_sec,
            tv_nsec,
        }).ns() + 1_000_000_000,
        (TimeSpec { tv_sec, tv_nsec }).is_normal() <==> tv_sec >= 0 && 0 <= tv_nsec
            < 1_000_000_000,
{
}

/// The aligned deadline is the first multiple of the interval after the present time: no multiple
/// lies between. It is the last time that can be represented where there is no such multiple.
pub proof fn law_aligned_is_the_next_multiple(now_ns: u64, interval_ns: u64, k: int)
    requires
        interval_ns > 0,
    ensures
        ({
            let next = aligned(now_ns as int, interval_ns as int);
            &&& now_ns < next || next == u64::MAX
            &&& next <= now_ns + interval_ns
            &&& 0 < next <= u64::MAX
            &&& next % (interval_ns as int) == 0 || next == u64::MAX
            &&& k * interval_ns > now_ns ==> k * interval_ns >= next
        }),
{
    let (now, interval) = (now_ns as int, interval_ns as int);
    lemma_aligned(now, interval);
    let q = now / interval;
    vstd::arithmetic::div_mod::lemma_div_pos_is_pos(now, interval);
    if k * interval > now {
        vstd::arithmetic::div_mod::lemma_fundamental_div_mod(now, interval);
        vstd::arithmetic::div_mod::lemma_mod_bound(now, interval);
        assert(k > q) by (nonlinear_arith)
            requires
                k * interval > now,
                now >= interval * q,
                interval > 0,
        ;
        assert(k * interval >= (q + 1) * interval) by (nonlinear_arith)
            requires
                k >= q + 1,
                interval > 0,
        ;
    }
}

/// Of the deadlines from the next one on, those up to the present time have come, and the one
/// after them has not.
pub proof fn law_elapsed_deadlines_have_come(next: int, interval: int, now: int)
    requires
        interval > 0,
    ensures
        elapsed(next, interval, now) >= 0,
        now < next + elapsed(next, interval, now) * interval,
        elapsed(next, interval, now) > 0 ==> next + (elapsed(next, interval, now) - 1) * interval
            <= now,
{
    if next <= now {
        let d = now - next;
        let q = d / interval;
        vstd::arithmetic::div_mod::lemma_fundamental_div_mod(d, interval);
        vstd::arithmetic::div_mod::lemma_mod_bound(d, interval);
        vstd::arithmetic::div_mod::lemma_div_pos_is_pos(d, interval);
        assert((q + 1) * interval == interval * q + interval) by (nonlinear_arith);
        assert(q * interval == interval * q) by (nonlinear_arith);
    } else {
        assert(0 * interval == 0);
    }
}

} // verus!
