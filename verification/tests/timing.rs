use pvsched_qos::error::QosError;
use pvsched_qos::timer::{
    align_next_deadline, duration_to_ns, monotonic_ns, monotonic_us, ns_to_timespec, DeadlineTimer, ExpirationRead,
    Interval, ReadStep, TimeSpec,
};
use std::time::Duration;

#[test]
fn intervals_are_those_of_the_standard_library() {
    for ms in [0, 1, 999, 1000, 1001, 100, 123_456_789, u64::MAX] {
        let interval = Interval::from_millis(ms);
        let duration = Duration::from_millis(ms);
        assert_eq!(interval.secs, duration.as_secs());
        assert_eq!(interval.nanos, duration.subsec_nanos());
        assert_eq!(interval.is_zero(), duration.is_zero());
    }
}

#[test]
fn intervals_in_nanoseconds() {
    assert_eq!(duration_to_ns(Interval::from_millis(100)), Ok(100_000_000));
    assert_eq!(duration_to_ns(Interval { secs: 18_446_744_073, nanos: 709_551_615 }), Ok(u64::MAX));
    let err = duration_to_ns(Interval { secs: 18_446_744_073, nanos: 709_551_616 }).unwrap_err();
    assert_eq!(err, QosError::IntervalTooLarge);
    assert_eq!(err.message(), "interval too large to represent in ns");
    assert_eq!(duration_to_ns(Interval::from_millis(u64::MAX)), Err(QosError::IntervalTooLarge));
}

#[test]
fn times_for_the_kernel() {
    for ns in [0, 1, 999_999_999, 1_000_000_000, 1_234_567_890_123, u64::MAX] {
        let spec = ns_to_timespec(ns);
        assert!(0 <= spec.tv_nsec && spec.tv_nsec < 1_000_000_000);
        assert_eq!(monotonic_ns(spec), ns);
        assert_eq!(monotonic_us(spec), ns / 1000);
    }
    assert_eq!(ns_to_timespec(1_500_000_000), TimeSpec { tv_sec: 1, tv_nsec: 500_000_000 });
}

#[test]
fn deadlines_are_multiples_of_the_interval() {
    assert_eq!(align_next_deadline(0, 10), 10);
    assert_eq!(align_next_deadline(9, 10), 10);
    assert_eq!(align_next_deadline(10, 10), 20);
    assert_eq!(align_next_deadline(u64::MAX, 10), u64::MAX);
    assert_eq!(align_next_deadline(u64::MAX, 1), u64::MAX);
    assert_eq!(align_next_deadline(5, u64::MAX), u64::MAX);
}

#[test]
fn timer_needs_an_interval_that_fits() {
    let err = DeadlineTimer::new(Interval::from_millis(0), 5).unwrap_err();
    assert_eq!(err, QosError::ZeroInterval);
    assert_eq!(err.message(), "interval must be non-zero");
    assert_eq!(DeadlineTimer::new(Interval::from_millis(u64::MAX), 5), Err(QosError::IntervalTooLarge));
}

#[test]
fn timer_moves_past_missed_deadlines() {
    let interval = Interval { secs: 0, nanos: 100 };
    let mut timer = DeadlineTimer::new(interval, 250).unwrap();
    assert_eq!(timer.armed().it_value, ns_to_timespec(300));
    assert_eq!(timer.armed().it_interval, TimeSpec { tv_sec: 0, tv_nsec: 0 });
    assert_eq!(timer.advance(299, 1), 1);
    assert_eq!(timer.armed().it_value, ns_to_timespec(300));
    assert_eq!(timer.advance(300, 1), 1);
    assert_eq!(timer.armed().it_value, ns_to_timespec(400));
    assert_eq!(timer.advance(799, 1), 4);
    assert_eq!(timer.armed().it_value, ns_to_timespec(800));
    assert_eq!(timer.advance(800, 9), 9);
    assert_eq!(timer.advance(0, 0), 0);
    assert_eq!(timer, DeadlineTimer::new(interval, 800).unwrap());
}

#[test]
fn late_timer_is_as_good_as_a_new_one() {
    let interval = Interval { secs: 0, nanos: 7 };
    for now in 21..200 {
        let mut timer = DeadlineTimer::new(interval, 15).unwrap();
        timer.advance(now, 0);
        assert_eq!(timer, DeadlineTimer::new(interval, now).unwrap());
    }
    let long = Interval { secs: 9_000_000_000, nanos: 0 };
    let mut timer = DeadlineTimer::new(long, 0).unwrap();
    assert_eq!(timer.advance(u64::MAX - 1, 0), 2);
    assert_eq!(timer.armed().it_value, ns_to_timespec(u64::MAX));
}

#[test]
fn expiration_count_is_read_to_the_end() {
    let mut read = ExpirationRead::new();
    assert_eq!(read.record(3, false), ReadStep::Again);
    assert_eq!(read.filled(), 3);
    assert_eq!(read.record(-1, true), ReadStep::Again);
    assert_eq!(read.record(0, false), ReadStep::Again);
    assert_eq!(read.filled(), 3);
    assert_eq!(read.record(5, false), ReadStep::Complete);
    assert_eq!(read.filled(), 8);
    let mut read = ExpirationRead::new();
    assert_eq!(read.record(-1, false), ReadStep::Failed);
    assert_eq!(ExpirationRead::new().record(8, false), ReadStep::Complete);
}
