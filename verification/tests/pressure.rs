use pvsched_qos::pressure::{Pressure, ONE_BITS, PVSCHED_PRESSURE_SCALE};
use pvsched_qos::ratio::ratio;

fn of(x: f64) -> Pressure {
    Pressure { bits: x.to_bits() }
}

/// A sequence of numbers of many sizes.
fn numbers(n: usize) -> Vec<u64> {
    let mut state: u64 = 0x9e37_79b9_7f4a_7c15;
    let mut r = vec![0, 1, 2, 3, (1 << 53) - 1, 1 << 53, (1 << 53) + 1, (1 << 54) + 2, (1 << 63) + 1024, u64::MAX - 1, u64::MAX];
    for i in 0..n {
        state = state.wrapping_mul(6364136223846793005).wrapping_add(1442695040888963407);
        r.push((state ^ (state >> 29)) >> (i % 64));
    }
    r
}

fn doubles() -> Vec<f64> {
    let mut r = vec![
        0.0, -0.0, 1.0, -1.0, 0.5, 0.25, 0.999, 1.0 / 1024.0, 0.9999999999999999, 1.0000000000000002, 2.0, 1e300, 1e-300,
        5e-324, -5e-324, f64::MIN_POSITIVE, f64::INFINITY, f64::NEG_INFINITY, f64::MAX, 0.1, 0.3, 1023.9 / 1024.0,
    ];
    for n in numbers(400) {
        let x = f64::from_bits(n);
        if !x.is_nan() {
            r.push(x);
        }
        r.push(n as f64 / u64::MAX as f64);
    }
    r
}

#[test]
fn scaling_is_clamp_multiply_truncate() {
    for x in doubles() {
        let expected = (x.clamp(0.0, 1.0) * PVSCHED_PRESSURE_SCALE as f64) as u64;
        assert_eq!(of(x).scaled(), expected, "{x:e}");
    }
    assert_eq!(of(f64::NAN).scaled(), 0);
    assert_eq!(of(-f64::NAN).scaled(), 0);
    assert_eq!(of(0.5).scaled(), 512);
    assert_eq!(of(1.0).scaled(), 1024);
    assert_eq!(of(0.0).scaled(), 0);
    assert_eq!(of(0.1).scaled(), 102);
}

#[test]
fn scaling_keeps_order_and_range() {
    let mut all = doubles();
    all.sort_by(|a, b| a.partial_cmp(b).unwrap());
    for pair in all.windows(2) {
        assert!(of(pair[0]).scaled() <= of(pair[1]).scaled());
    }
    for x in all {
        assert!(of(x).scaled() <= PVSCHED_PRESSURE_SCALE);
    }
}

#[test]
fn max_is_that_of_doubles() {
    let some: Vec<f64> = doubles().into_iter().step_by(5).collect();
    for &a in &some {
        for &b in &some {
            assert!(f64::from_bits(of(a).max(of(b)).bits) == a.max(b), "{a:e} {b:e}");
        }
        assert_eq!(of(a).max(of(f64::NAN)), of(a));
        assert_eq!(of(f64::NAN).max(of(a)), of(a));
    }
}

#[test]
fn at_most_one_is_the_minimum_with_one() {
    for x in doubles() {
        assert_eq!(of(x).at_most_one(), of(x.min(1.0)));
    }
    assert_eq!(of(f64::NAN).at_most_one(), of(1.0));
    assert_eq!(ONE_BITS, 1.0f64.to_bits());
    assert_eq!(Pressure::zero(), of(0.0));
}

#[test]
fn ratio_is_the_quotient_of_doubles() {
    let all = numbers(500);
    for &a in &all {
        for &b in &all {
            if b > 0 {
                assert_eq!(ratio(a, b), of((a as f64 / b as f64).min(1.0)), "{a} / {b}");
            }
        }
    }
    assert_eq!(ratio(1, 4), of(0.25));
    assert_eq!(ratio(1, 3), of(1.0 / 3.0));
    assert_eq!(ratio(5, 4), of(1.0));
    assert_eq!(ratio(0, 9), of(0.0));
}

#[test]
fn ratio_grows_with_the_dividend() {
    let mut all = numbers(300);
    all.sort();
    for den in [1, 7, 1_000_000, (1 << 53) + 1, u64::MAX] {
        for pair in all.windows(2) {
            assert!(f64::from_bits(ratio(pair[0], den).bits) <= f64::from_bits(ratio(pair[1], den).bits));
        }
    }
}
