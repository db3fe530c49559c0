//! Pressure ratios and their fixed-point form.
//!
//! A ratio arrives as an IEEE 754 double. It is held by its bit pattern, and all that is done
//! with it is integer arithmetic on that pattern.

use vstd::arithmetic::power2::pow2;
use vstd::prelude::*;

verus! {

/// Scale factor that maps the ratios from 0.0 to 1.0 to the integers from 0 to itself.
pub const PVSCHED_PRESSURE_SCALE: u64 = 1024;

/// The bit that marks a double as negative.
pub const SIGN_BIT: u64 = 0x8000_0000_0000_0000;

/// The bits of positive infinity; a larger pattern without sign bit is no number.
pub const INFINITY_BITS: u64 = 0x7ff0_0000_0000_0000;

/// The bits of 1.0.
pub const ONE_BITS: u64 = 0x3ff0_0000_0000_0000;

/// The bits of 1/1024.
const STEP_BITS: u64 = 0x3f50_0000_0000_0000;

/// Two to the number of fraction bits of a double.
const FRACTION_SPAN: u64 = 0x10_0000_0000_0000;

/// A pressure ratio, by the bits of the double that gives it.
#[derive(Clone, Copy, Debug, PartialEq, Eq, Structural)]
pub struct Pressure {
    pub bits: u64,
}

/// What a bit pattern without sign bit denotes, as a multiple of two to the -1074, the smallest
/// positive double. Infinity counts as the double that would follow the largest finite one.
pub open spec fn magnitude(bits: int) -> int {
    let exponent = bits / 0x10_0000_0000_0000;
    let fraction = bits % 0x10_0000_0000_0000;
    if exponent == 0 {
        fraction
    } else {
        (0x10_0000_0000_0000 + fraction) * pow2((exponent - 1) as nat)
    }
}

impl Pressure {
    /// The bits without the sign bit.
    pub open spec fn unsigned_bits(self) -> int {
        if self.bits >= SIGN_BIT {
            self.bits - SIGN_BIT
        } else {
            self.bits as int
        }
    }

    /// Whether the double is not a number.
    pub open spec fn is_nan(self) -> bool {
        self.unsigned_bits() > INFINITY_BITS
    }

    /// The number that the double denotes, as a multiple of two to the -1074.
    pub open spec fn units(self) -> int {
        if self.bits >= SIGN_BIT {
            -magnitude(self.unsigned_bits())
        } else {
            magnitude(self.unsigned_bits())
        }
    }

    /// Whether this is a number from 0.0 to 1.0.
    pub open spec fn in_unit_interval(self) -> bool {
        !self.is_nan() && 0 <= self.units() <= pow2(1074)
    }

    /// The ratio in steps of 1/1024, rounded down and kept between 0 and 1024. What is not a
    /// number counts as 0.
    pub open spec fn spec_scaled(self) -> int {
        let steps = self.units() * 1024 / pow2(1074) as int;
        if self.is_nan() || steps < 0 {
            0
        } else if steps > 1024 {
            1024
        } else {
            steps
        }
    }

    /// The larger of two ratios. What is not a number gives way to the other.
    pub open spec fn spec_max(self, other: Pressure) -> Pressure {
        if self.is_nan() || (!other.is_nan() && self.units() < other.units()) {
            other
        } else {
            self
        }
    }

    /// The ratio itself, or 1.0 if it is larger or not a number.
    pub open spec fn spec_at_most_one(self) -> Pressure {
        if self.is_nan() || self.units() > pow2(1074) {
            Pressure { bits: ONE_BITS }
        } else {
            self
        }
    }

    /// The ratio 0.0.
    pub fn zero() -> (r: Pressure)
        ensures
            r.bits == 0,
            r.in_unit_interval(),
            r.units() == 0,
    {
        proof {
            lemma_pow2_1074();
        }
        Pressure { bits: 0 }
    }

    /// The ratio in steps of 1/1024, rounded down and kept between 0 and 1024.
    pub fn scaled(self) -> (r: u64)
        ensures
            r == self.spec_scaled(),
    {
        let bits: u64 = self.bits;
        proof {
            lemma_pow2_1074();
        }
        if bits >= SIGN_BIT {
            proof {
                lemma_magnitude_positive(self.unsigned_bits());
                lemma_steps_of_negative(magnitude(self.unsigned_bits()));
            }
            0
        } else if bits > INFINITY_BITS {
            0
        } else if bits >= ONE_BITS {
            proof {
                lemma_one();
                lemma_magnitude_ordered(ONE_BITS as int, bits as int);
                lemma_steps_of_large(magnitude(bits as int));
            }
            1024
        } else if bits < STEP_BITS {
            proof {
                lemma_magnitude_positive(bits as int);
                lemma_step();
                lemma_magnitude_ordered(bits as int, STEP_BITS as int);
                lemma_steps_of_small(magnitude(bits as int));
            }
            0
        } else {
            let exponent: u64 = bits / FRACTION_SPAN;
            let significand: u64 = FRACTION_SPAN + bits % FRACTION_SPAN;
            let shift: u64 = 1065 - exponent;
            proof {
                lemma_steps_of_normal(significand as int, exponent as int);
                vstd::bits::lemma_u64_shr_is_div(significand, shift);
                lemma_steps_within_scale(significand as int, shift as nat);
            }
            significand >> shift
        }
    }

    /// Whether the double is not a number.
    fn not_a_number(self) -> (r: bool)
        ensures
            r == self.is_nan(),
    {
        if self.bits >= SIGN_BIT {
            self.bits - SIGN_BIT > INFINITY_BITS
        } else {
            self.bits > INFINITY_BITS
        }
    }

    /// Whether this denotes a smaller number than `other`.
    fn below(self, other: Pressure) -> (r: bool)
        ensures
            r == (self.units() < other.units()),
    {
        proof {
            lemma_magnitude_positive(self.unsigned_bits());
            lemma_magnitude_positive(other.unsigned_bits());
            lemma_magnitude_ordered(self.unsigned_bits(), other.unsigned_bits());
            lemma_magnitude_ordered(other.unsigned_bits(), self.unsigned_bits());
        }
        if self.bits >= SIGN_BIT {
            if other.bits >= SIGN_BIT {
                self.bits > other.bits
            } else {
                self.bits > SIGN_BIT || other.bits > 0
            }
        } else {
            other.bits < SIGN_BIT && self.bits < other.bits
        }
    }

    /// The larger of two ratios.
    pub fn max(self, other: Pressure) -> (r: Pressure)
        ensures
            r == self.spec_max(other),
    {
        if self.not_a_number() || (!other.not_a_number() && self.below(other)) {
            other
        } else {
            self
        }
    }

    /// The ratio itself, or 1.0 if it is larger.
    pub fn at_most_one(self) -> (r: Pressure)
        ensures
            r == self.spec_at_most_one(),
    {
        let one = Pressure { bits: ONE_BITS };
        proof {
            lemma_one();
        }
        if self.not_a_number() || one.below(self) {
            one
        } else {
            self
        }
    }
}

proof fn lemma_pow2_1074()
    ensures
        pow2(1074) > 0,
{
    vstd::arithmetic::power2::lemma_pow2_pos(1074);
}

/// A magnitude is not negative, and is zero for the zero pattern alone.
proof fn lemma_magnitude_positive(bits: int)
    requires
        0 <= bits,
    ensures
        magnitude(bits) >= 0,
        magnitude(bits) == 0 <==> bits == 0,
{
    let exponent = bits / 0x10_0000_0000_0000;
    let fraction = bits % 0x10_0000_0000_0000;
    if exponent > 0 {
        let p = pow2((exponent - 1) as nat) as int;
        vstd::arithmetic::power2::lemma_pow2_pos((exponent - 1) as nat);
        assert((0x10_0000_0000_0000 + fraction) * p > 0) by (nonlinear_arith)
            requires
                p > 0,
                fraction >= 0,
        ;
    }
}

/// Patterns without sign bit are ordered as the numbers they denote.
pub proof fn lemma_magnitude_ordered(a: int, b: int)
    requires
        0 <= a,
        0 <= b,
    ensures
        a < b ==> magnitude(a) < magnitude(b),
        a == b ==> magnitude(a) == magnitude(b),
{
    if a < b {
        let span = 0x10_0000_0000_0000int;
        let (ea, fa) = (a / span, a % span);
        let (eb, fb) = (b / span, b % span);
        if ea == eb {
            assert(fa < fb);
            if ea > 0 {
                let p = pow2((ea - 1) as nat) as int;
                vstd::arithmetic::power2::lemma_pow2_pos((ea - 1) as nat);
                assert((span + fa) * p < (span + fb) * p) by (nonlinear_arith)
                    requires
                        p > 0,
                        fa < fb,
                ;
            }
        } else {
            assert(ea < eb);
            let top = pow2(ea as nat) as int;
            let q = pow2((eb - 1) as nat) as int;
            if ea < eb - 1 {
                vstd::arithmetic::power2::lemma_pow2_strictly_increases(ea as nat, (eb - 1) as nat);
            }
            assert(top <= q);
            assert((span + fb) * q >= span * top) by (nonlinear_arith)
                requires
                    q >= top,
                    top >= 0,
                    fb >= 0,
                    span > 0,
            ;
            if ea == 0 {
                vstd::arithmetic::power2::lemma2_to64();
            } else {
                let p = pow2((ea - 1) as nat) as int;
                vstd::arithmetic::power2::lemma_pow2_unfold(ea as nat);
                vstd::arithmetic::power2::lemma_pow2_pos((ea - 1) as nat);
                assert((span + fa) * p < span * top) by (nonlinear_arith)
                    requires
                        fa < span,
                        top == 2 * p,
                        p > 0,
                ;
            }
        }
    }
}

/// 1.0 is two to the 1074 times the smallest positive double.
pub proof fn lemma_one()
    ensures
        magnitude(ONE_BITS as int) == pow2(1074),
        (Pressure { bits: ONE_BITS }).units() == pow2(1074),
        (Pressure { bits: ONE_BITS }).in_unit_interval(),
{
    vstd::arithmetic::power2::lemma2_to64_rest();
    vstd::arithmetic::power2::lemma_pow2_adds(52, 1022);
    lemma_pow2_1074();
}

proof fn lemma_step()
    ensures
        magnitude(STEP_BITS as int) * 1024 == pow2(1074),
{
    vstd::arithmetic::power2::lemma2_to64();
    vstd::arithmetic::power2::lemma2_to64_rest();
    vstd::arithmetic::power2::lemma_pow2_adds(52, 1012);
    vstd::arithmetic::power2::lemma_pow2_adds(1064, 10);
}

proof fn lemma_steps_of_negative(m: int)
    requires
        m >= 0,
    ensures
        (-m) * 1024 / (pow2(1074) as int) <= 0,
{
    lemma_pow2_1074();
    let d = pow2(1074) as int;
    assert(((-m) * 1024) / d <= 0) by (nonlinear_arith)
        requires
            m >= 0,
            d > 0,
    ;
}

proof fn lemma_steps_of_large(m: int)
    requires
        m >= pow2(1074),
    ensures
        m * 1024 / (pow2(1074) as int) >= 1024,
{
    lemma_pow2_1074();
    let d = pow2(1074) as int;
    vstd::arithmetic::div_mod::lemma_div_is_ordered(1024 * d, m * 1024, d);
    vstd::arithmetic::div_mod::lemma_div_by_multiple(1024, d);
}

proof fn lemma_steps_of_small(m: int)
    requires
        0 <= m,
        m * 1024 < pow2(1074),
    ensures
        m * 1024 / (pow2(1074) as int) == 0,
{
    vstd::arithmetic::div_mod::lemma_basic_div(m * 1024, pow2(1074) as int);
}

/// Scaling a double between 1/1024 and 1.0 drops the bits of its significand that weigh less
/// than a step.
proof fn lemma_steps_of_normal(significand: int, exponent: int)
    requires
        1013 <= exponent <= 1022,
        0 <= significand,
    ensures
        significand * pow2((exponent - 1) as nat) * 1024 / (pow2(1074) as int) == significand
            / (pow2((1065 - exponent) as nat) as int),
{
    let low = (exponent - 1) as nat;
    let drop = (1065 - exponent) as nat;
    let k = pow2(low) as int * 1024;
    let d = pow2(drop) as int;
    vstd::arithmetic::power2::lemma2_to64();
    vstd::arithmetic::power2::lemma_pow2_adds(low, 10);
    vstd::arithmetic::power2::lemma_pow2_adds(low + 10, drop);
    vstd::arithmetic::power2::lemma_pow2_pos(low);
    vstd::arithmetic::power2::lemma_pow2_pos(drop);
    assert(k * d == pow2(1074));
    assert(significand * pow2(low) * 1024 == k * significand) by (nonlinear_arith)
        requires
            k == pow2(low) as int * 1024,
    ;
    vstd::arithmetic::div_mod::lemma_div_multiples_vanish_quotient(k, significand, d);
}

proof fn lemma_steps_within_scale(significand: int, drop: nat)
    requires
        0 <= significand < 0x20_0000_0000_0000,
        43 <= drop,
    ensures
        0 <= significand / (pow2(drop) as int) <= 1024,
{
    vstd::arithmetic::power2::lemma2_to64_rest();
    if drop > 43 {
        vstd::arithmetic::power2::lemma_pow2_strictly_increases(43, drop);
    }
    let d = pow2(drop) as int;
    vstd::arithmetic::div_mod::lemma_div_is_ordered_by_denominator(significand, 0x800_0000_0000, d);
    vstd::arithmetic::div_mod::lemma_div_pos_is_pos(significand, d);
}

/// Scaling keeps to the scale: 0.0 becomes 0, 1.0 becomes 1024, and nothing becomes more.
pub proof fn law_scale_range(p: Pressure)
    ensures
        0 <= p.spec_scaled() <= PVSCHED_PRESSURE_SCALE,
        p.units() == 0 ==> p.spec_scaled() == 0,
        !p.is_nan() && p.units() >= pow2(1074) ==> p.spec_scaled() == PVSCHED_PRESSURE_SCALE,
        !p.is_nan() && p.units() <= 0 ==> p.spec_scaled() == 0,
        p.is_nan() ==> p.spec_scaled() == 0,
{
    lemma_pow2_1074();
    if !p.is_nan() && p.units() >= pow2(1074) {
        lemma_steps_of_large(p.units());
    }
    if p.units() <= 0 {
        lemma_steps_of_negative(-p.units());
    }
    if p.units() == 0 {
        lemma_steps_of_small(0);
    }
}

/// A larger ratio never scales to a smaller number.
pub proof fn law_scale_monotonic(p: Pressure, q: Pressure)
    requires
        !p.is_nan(),
        !q.is_nan(),
        p.units() <= q.units(),
    ensures
        p.spec_scaled() <= q.spec_scaled(),
{
    lemma_pow2_1074();
    vstd::arithmetic::div_mod::lemma_div_is_ordered(
        p.units() * 1024,
        q.units() * 1024,
        pow2(1074) as int,
    );
}

/// Inside the unit interval scaling rounds down by less than one step.
pub proof fn law_scale_rounds_down(p: Pressure)
    requires
        p.in_unit_interval(),
    ensures
        p.spec_scaled() * pow2(1074) <= p.units() * 1024 < (p.spec_scaled() + 1) * pow2(1074),
{
    lemma_pow2_1074();
    let d = pow2(1074) as int;
    let n = p.units() * 1024;
    vstd::arithmetic::div_mod::lemma_fundamental_div_mod(n, d);
    vstd::arithmetic::div_mod::lemma_mod_bound(n, d);
    vstd::arithmetic::div_mod::lemma_div_pos_is_pos(n, d);
    vstd::arithmetic::div_mod::lemma_div_is_ordered(n, 1024 * d, d);
    vstd::arithmetic::div_mod::lemma_div_by_multiple(1024, d);
    let q = n / d;
    assert(d * q == q * d) by (nonlinear_arith);
    assert((q + 1) * d == q * d + d) by (nonlinear_arith);
}

/// How patterns are read: the small ones are multiples of the smallest positive double, and one
/// more in the exponent doubles the number.
pub proof fn law_magnitude(bits: int)
    ensures
        0 <= bits <= 0x20_0000_0000_0000 ==> magnitude(bits) == bits,
        bits >= 0x10_0000_0000_0000 ==> magnitude(bits + 0x10_0000_0000_0000) == 2 * magnitude(bits),
{
    let span = 0x10_0000_0000_0000int;
    vstd::arithmetic::power2::lemma2_to64();
    if bits == 2 * span {
        assert(bits / span == 2);
        assert(bits % span == 0);
        assert(span * pow2(1) == 2 * span);
    } else if span <= bits < 2 * span {
        assert(bits / span == 1);
        assert(bits % span == bits - span);
        assert(bits * pow2(0) == bits);
    }
    if bits >= span {
        let (e, f) = (bits / span, bits % span);
        assert((bits + span) / span == e + 1);
        assert((bits + span) % span == f);
        let p = pow2((e - 1) as nat) as int;
        vstd::arithmetic::power2::lemma_pow2_unfold(e as nat);
        assert((span + f) * (2 * p) == 2 * ((span + f) * p)) by (nonlinear_arith);
    }
}

/// The sign bit turns a number into its negative, and what is not a number stays so.
pub proof fn law_sign(bits: u64)
    requires
        bits < 0x8000_0000_0000_0000,
    ensures
        (Pressure { bits }).units() == magnitude(bits as int),
        (Pressure { bits: (bits + 0x8000_0000_0000_0000) as u64 }).units() == -magnitude(
            bits as int,
        ),
        (Pressure { bits }).is_nan() <==> bits > 0x7ff0_0000_0000_0000,
        (Pressure { bits: (bits + 0x8000_0000_0000_0000) as u64 }).is_nan() <==> bits
            > 0x7ff0_0000_0000_0000,
{
}

/// The unit interval is made of the patterns up to that of 1.0, and of that of minus zero.
pub proof fn law_unit_interval(p: Pressure)
    ensures
        p.in_unit_interval() <==> p.bits <= 0x3ff0_0000_0000_0000 || p.bits
            == 0x8000_0000_0000_0000,
{
    lemma_one();
    let bits = p.unsigned_bits();
    lemma_magnitude_positive(bits);
    lemma_magnitude_ordered(bits, ONE_BITS as int);
    lemma_magnitude_ordered(ONE_BITS as int, bits);
}

/// The larger of two numbers is one of them, and neither is above it. Whatever stands on either
/// side of what is not a number is kept.
pub proof fn law_larger_of_two(p: Pressure, q: Pressure)
    ensures
        p.spec_max(q) == p || p.spec_max(q) == q,
        !p.is_nan() && !q.is_nan() ==> p.spec_max(q).units() >= p.units() && p.spec_max(q).units()
            >= q.units(),
        p.is_nan() ==> p.spec_max(q) == q,
        q.is_nan() && !p.is_nan() ==> p.spec_max(q) == p,
{
}

/// Nothing is left above 1.0, and what is not above it stays as it is.
pub proof fn law_at_most_one(p: Pressure)
    ensures
        !p.is_nan() && p.units() <= pow2(1074) ==> p.spec_at_most_one() == p,
        p.is_nan() || p.units() > pow2(1074) ==> p.spec_at_most_one().units() == pow2(1074),
        !p.spec_at_most_one().is_nan(),
{
    lemma_one();
}

} // verus!
