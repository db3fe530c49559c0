//! The quotient of two counters as a double, computed with integers.

use vstd::arithmetic::power2::pow2;
use vstd::prelude::*;

use crate::pressure;
use crate::pressure::{Pressure, INFINITY_BITS, ONE_BITS};

verus! {

/// How far the double with these bits is from `num / den`, times `den`, in multiples of two to
/// the -1074.
pub open spec fn distance(bits: int, num: int, den: int) -> int {
    let off = pressure::magnitude(bits) * den - num * pow2(1074);
    if off < 0 {
        -off
    } else {
        off
    }
}

/// Whether these are the bits of the double that `num / den` rounds to: the finite double that
/// is nearest and, of two that are equally near, the one whose last bit is 0.
pub open spec fn nearest(bits: int, num: int, den: int) -> bool {
    &&& 0 <= bits < INFINITY_BITS
    &&& forall|other: int|
        #![trigger distance(other, num, den)]
        0 <= other < INFINITY_BITS ==> distance(bits, num, den) < distance(other, num, den) || (
        distance(bits, num, den) == distance(other, num, den) && (other == bits || bits % 2 == 0))
}

/// The bits of the double that the integer `n` converts to.
pub open spec fn double_of(n: int) -> int {
    choose|bits: int| nearest(bits, n, 1)
}

/// The bits of the quotient of two doubles.
pub open spec fn quotient(a: int, b: int) -> int {
    choose|bits: int| nearest(bits, pressure::magnitude(a), pressure::magnitude(b))
}

/// The quotient of two integers as doubles, but at most 1.0.
pub open spec fn spec_ratio(num: int, den: int) -> Pressure {
    (Pressure { bits: quotient(double_of(num), double_of(den)) as u64 }).spec_at_most_one()
}

/// No two doubles are both what a quotient rounds to.
pub proof fn lemma_nearest_unique(a: int, b: int, num: int, den: int)
    requires
        nearest(a, num, den),
        nearest(b, num, den),
        den > 0,
    ensures
        a == b,
{
    assert(distance(a, num, den) == distance(b, num, den));
    if a < b {
        lemma_nearest_not_below(a, b, num, den);
    } else if b < a {
        lemma_nearest_not_below(b, a, num, den);
    }
}

proof fn lemma_nearest_not_below(a: int, b: int, num: int, den: int)
    requires
        nearest(a, num, den),
        nearest(b, num, den),
        distance(a, num, den) == distance(b, num, den),
        den > 0,
    ensures
        !(a < b),
{
    if a < b {
        assert(distance(b, num, den) >= 0);
        assert(a % 2 == 0 && b % 2 == 0);
        let mid = a + 1;
        assert(mid < b);
        pressure::lemma_magnitude_ordered(a, mid);
        pressure::lemma_magnitude_ordered(mid, b);
        let (ma, mm, mb) = (
            pressure::magnitude(a),
            pressure::magnitude(mid),
            pressure::magnitude(b),
        );
        assert(ma * den < mm * den < mb * den) by (nonlinear_arith)
            requires
                ma < mm < mb,
                den > 0,
        ;
        assert(distance(mid, num, den) < distance(a, num, den));
    }
}

/// What a quotient rounds to does not change when both sides are scaled alike.
proof fn lemma_nearest_scaled(bits: int, num: int, den: int, k: int)
    requires
        nearest(bits, num, den),
        k > 0,
    ensures
        nearest(bits, num * k, den * k),
{
    assert forall|d: int| #[trigger] distance(d, num * k, den * k) == distance(d, num, den) * k by {
        let m = pressure::magnitude(d);
        let p = pow2(1074) as int;
        assert(m * (den * k) - (num * k) * p == (m * den - num * p) * k) by (nonlinear_arith);
        let off = m * den - num * p;
        assert((-off) * k == -(off * k)) by (nonlinear_arith);
        assert(off >= 0 ==> off * k >= 0) by (nonlinear_arith)
            requires
                k > 0,
        ;
        assert(off < 0 ==> off * k < 0) by (nonlinear_arith)
            requires
                k > 0,
        ;
    }
    assert forall|other: int|
        #![trigger distance(other, num * k, den * k)]
        0 <= other < INFINITY_BITS implies distance(bits, num * k, den * k) < distance(
        other,
        num * k,
        den * k,
    ) || (distance(bits, num * k, den * k) == distance(other, num * k, den * k) && (other == bits
        || bits % 2 == 0)) by {
        let (x, y) = (distance(bits, num, den), distance(other, num, den));
        assert(distance(other, num * k, den * k) == y * k);
        assert(distance(bits, num * k, den * k) == x * k);
        assert(x < y ==> x * k < y * k) by (nonlinear_arith)
            requires
                k > 0,
        ;
    }
}

/// A significand with its binary exponent: `sig` times two to the `down - up`.
struct Rounded {
    sig: u64,
    up: u32,
    down: u32,
}

impl Rounded {
    /// The bits of the double.
    spec fn spec_bits(self) -> int {
        (1075 + self.down - self.up) * 0x10_0000_0000_0000 + (self.sig - 0x10_0000_0000_0000)
    }

    spec fn wf(self) -> bool {
        &&& 0x10_0000_0000_0000 <= self.sig <= 0x20_0000_0000_0000
        &&& self.up <= 117
        &&& self.down <= 13
        &&& self.up == 0 || self.down == 0
    }

    fn bits(&self) -> (r: u64)
        requires
            self.wf(),
        ensures
            r == self.spec_bits(),
    {
        (1075 + self.down as u64 - self.up as u64) * 0x10_0000_0000_0000 + (self.sig
            - 0x10_0000_0000_0000)
    }
}

/// What the bits with this exponent and this significand denote.
proof fn lemma_magnitude_of(exponent: int, sig: int)
    requires
        1 <= exponent,
        0x10_0000_0000_0000 <= sig <= 0x20_0000_0000_0000,
    ensures
        pressure::magnitude(exponent * 0x10_0000_0000_0000 + (sig - 0x10_0000_0000_0000)) == sig
            * pow2((exponent - 1) as nat),
{
    let span = 0x10_0000_0000_0000int;
    let bits = exponent * span + (sig - span);
    if sig < 2 * span {
        assert(bits / span == exponent);
        assert(bits % span == sig - span);
    } else {
        assert(bits / span == exponent + 1);
        assert(bits % span == 0);
        vstd::arithmetic::power2::lemma_pow2_unfold(exponent as nat);
        let p = pow2((exponent - 1) as nat) as int;
        assert(span * (2 * p) == (2 * span) * p) by (nonlinear_arith);
    }
}

/// The nearest of the doubles around `x / y`, where `q` is that quotient rounded down.
proof fn lemma_nearest(
    num: int,
    den: int,
    exponent: int,
    x: int,
    y: int,
    c: int,
    q: int,
    sig: int,
)
    requires
        1 <= exponent <= 2000,
        den > 0,
        y > 0,
        c > 0,
        den * pow2((exponent - 1) as nat) == y * c,
        num * pow2(1074) == x * c,
        0x10_0000_0000_0000 <= q < 0x20_0000_0000_0000,
        q * y <= x < (q + 1) * y,
        sig == q || sig == q + 1,
        sig == q ==> 2 * (x - q * y) < y || (2 * (x - q * y) == y && q % 2 == 0),
        sig == q + 1 ==> 2 * (x - q * y) > y || (2 * (x - q * y) == y && q % 2 == 1),
    ensures
        nearest(exponent * 0x10_0000_0000_0000 + (sig - 0x10_0000_0000_0000), num, den),
{
    let span = 0x10_0000_0000_0000int;
    let k = pow2((exponent - 1) as nat) as int;
    let lo = exponent * span + (q - span);
    let hi = lo + 1;
    let r = x - q * y;
    lemma_magnitude_of(exponent, q);
    lemma_magnitude_of(exponent, q + 1);
    assert(pressure::magnitude(lo) * den == (q * y) * c) by (nonlinear_arith)
        requires
            pressure::magnitude(lo) == q * k,
            den * k == y * c,
    ;
    assert(pressure::magnitude(hi) * den == ((q + 1) * y) * c) by (nonlinear_arith)
        requires
            pressure::magnitude(hi) == (q + 1) * k,
            den * k == y * c,
    ;
    assert((q * y) * c - x * c == -(r * c)) by (nonlinear_arith)
        requires
            r == x - q * y,
    ;
    assert((q + 1) * y == q * y + y) by (nonlinear_arith);
    assert(((q + 1) * y) * c - x * c == (y - r) * c) by (nonlinear_arith)
        requires
            r == x - q * y,
            (q + 1) * y == q * y + y,
    ;
    assert(r * c >= 0) by (nonlinear_arith)
        requires
            r >= 0,
            c > 0,
    ;
    assert((y - r) * c > 0) by (nonlinear_arith)
        requires
            r < y,
            c > 0,
    ;
    assert(distance(lo, num, den) == r * c);
    assert(distance(hi, num, den) == (y - r) * c);
    assert(2 * r < y ==> r * c < (y - r) * c) by (nonlinear_arith)
        requires
            c > 0,
    ;
    assert(2 * r > y ==> (y - r) * c < r * c) by (nonlinear_arith)
        requires
            c > 0,
    ;
    assert(2 * r == y ==> r * c == (y - r) * c) by (nonlinear_arith);
    let bits = exponent * span + (sig - span);
    assert(bits % 2 == sig % 2);
    assert forall|other: int|
        #![trigger distance(other, num, den)]
        0 <= other < INFINITY_BITS implies distance(bits, num, den) < distance(other, num, den) || (
    distance(bits, num, den) == distance(other, num, den) && (other == bits || bits % 2 == 0)) by {
        let m = pressure::magnitude(other);
        if other < lo {
            pressure::lemma_magnitude_ordered(other, lo);
            let ml = pressure::magnitude(lo);
            assert(m * den < ml * den) by (nonlinear_arith)
                requires
                    m < ml,
                    den > 0,
            ;
            assert(distance(lo, num, den) < distance(other, num, den));
        } else if other > hi {
            pressure::lemma_magnitude_ordered(hi, other);
            let mh = pressure::magnitude(hi);
            assert(m * den > mh * den) by (nonlinear_arith)
                requires
                    m > mh,
                    den > 0,
            ;
            assert(distance(hi, num, den) < distance(other, num, den));
        }
    }
}

/// The double that `num / den` rounds to.
fn round_quotient(num: u128, den: u128) -> (r: Rounded)
    requires
        0 < num <= 0x2_0000_0000_0000_0000,
        0 < den <= 0x2_0000_0000_0000_0000,
    ensures
        r.wf(),
        nearest(r.spec_bits(), num as int, den as int),
        den == 1 && r.up > 0 ==> r.sig == num * pow2(r.up as nat),
        den == 1 && r.up == 0 ==> r.sig * pow2(r.down as nat) <= 2 * num,
{
    let mut x: u128 = num;
    let mut y: u128 = den;
    let mut up: u32 = 0;
    let mut down: u32 = 0;
    proof {
        vstd::arithmetic::power2::lemma2_to64();
        vstd::arithmetic::power2::lemma2_to64_rest();
    }
    while x >= y * 0x20_0000_0000_0000
        invariant
            x == num,
            0 < num <= 0x2_0000_0000_0000_0000,
            0 < den <= y <= 0x2_0000_0000_0000_0000,
            y == den * pow2(down as nat),
            down > 0 ==> x >= y * 0x10_0000_0000_0000,
            down <= 13,
        decreases x - y,
    {
        proof {
            vstd::arithmetic::power2::lemma2_to64();
            lemma_power_bound(den as int, down as nat, y as int, 12);
            vstd::arithmetic::power2::lemma_pow2_unfold((down + 1) as nat);
            let p = pow2(down as nat) as int;
            assert(den * (2 * p) == 2 * (den * p)) by (nonlinear_arith);
        }
        y = y * 2;
        down += 1;
    }
    while x < y * 0x10_0000_0000_0000
        invariant
            0 < num <= x,
            0 < y <= 0x2_0000_0000_0000_0000,
            x < y * 0x20_0000_0000_0000,
            x == num * pow2(up as nat),
            down > 0 ==> up == 0 && x >= y * 0x10_0000_0000_0000,
            up <= 117,
        decreases y * 0x20_0000_0000_0000 - x,
    {
        proof {
            vstd::arithmetic::power2::lemma2_to64();
            vstd::arithmetic::power2::lemma2_to64_rest();
            vstd::arithmetic::power2::lemma_pow2_adds(64, 53);
            lemma_power_bound(num as int, up as nat, x as int, 116);
            vstd::arithmetic::power2::lemma_pow2_unfold((up + 1) as nat);
            let p = pow2(up as nat) as int;
            assert(num * (2 * p) == 2 * (num * p)) by (nonlinear_arith);
        }
        x = x * 2;
        up += 1;
    }
    let q: u128 = x / y;
    let rest: u128 = x % y;
    proof {
        vstd::arithmetic::div_mod::lemma_fundamental_div_mod(x as int, y as int);
        assert(y * q == q * y) by (nonlinear_arith);
        assert((q + 1) * y == q * y + y) by (nonlinear_arith);
        assert(0x10_0000_0000_0000 <= q) by (nonlinear_arith)
            requires
                y > 0,
                x >= y * 0x10_0000_0000_0000,
                x < (q + 1) * y,
        ;
        assert(q < 0x20_0000_0000_0000) by (nonlinear_arith)
            requires
                y > 0,
                x < y * 0x20_0000_0000_0000,
                q * y <= x,
        ;
    }
    let round_up: bool = 2 * rest > y || (2 * rest == y && q % 2 == 1);
    let sig: u64 = if round_up {
        q as u64 + 1
    } else {
        q as u64
    };
    let r = Rounded { sig, up, down };
    proof {
        let exponent = 1075 + down - up;
        let c = pow2((1074 - up) as nat) as int;
        vstd::arithmetic::power2::lemma_pow2_pos((1074 - up) as nat);
        vstd::arithmetic::power2::lemma_pow2_adds((1074 - up) as nat, down as nat);
        vstd::arithmetic::power2::lemma_pow2_adds((1074 - up) as nat, up as nat);
        let (pu, pd) = (pow2(up as nat) as int, pow2(down as nat) as int);
        assert(den * (c * pd) == (den * pd) * c) by (nonlinear_arith);
        assert(num * (c * pu) == (num * pu) * c) by (nonlinear_arith);
        lemma_nearest(
            num as int,
            den as int,
            exponent as int,
            x as int,
            y as int,
            c,
            q as int,
            sig as int,
        );
        if den == 1 && up == 0 {
            assert(sig * y <= 2 * x) by (nonlinear_arith)
                requires
                    sig <= q + 1,
                    q >= 1,
                    q * y <= x,
                    y > 0,
            ;
        }
    }
    r
}

/// A power of two that divides a bounded product has a bounded exponent.
proof fn lemma_power_bound(n: int, e: nat, product: int, limit: nat)
    requires
        n > 0,
        product == n * pow2(e),
        product < pow2(limit + 1),
    ensures
        e <= limit,
{
    if e > limit {
        if e > limit + 1 {
            vstd::arithmetic::power2::lemma_pow2_strictly_increases(limit + 1, e);
        }
        let p = pow2(e) as int;
        assert(n * p >= p) by (nonlinear_arith)
            requires
                n > 0,
                p >= 0,
        ;
    }
}

/// Two to the `down` times `sig`.
fn shifted(sig: u64, down: u32) -> (r: u128)
    requires
        sig <= 0x20_0000_0000_0000,
        down <= 13,
    ensures
        r == sig * pow2(down as nat),
{
    let mut r: u128 = sig as u128;
    let mut i: u32 = 0;
    proof {
        vstd::arithmetic::power2::lemma2_to64();
    }
    while i < down
        invariant
            i <= down <= 13,
            sig <= 0x20_0000_0000_0000,
            r == sig * pow2(i as nat),
        decreases down - i,
    {
        proof {
            let p = pow2(i as nat) as int;
            vstd::arithmetic::power2::lemma2_to64();
            if i < 13 {
                vstd::arithmetic::power2::lemma_pow2_strictly_increases(i as nat, 13);
            }
            assert(sig * p <= 0x20_0000_0000_0000 * 0x2000) by (nonlinear_arith)
                requires
                    sig <= 0x20_0000_0000_0000,
                    0 <= p <= 0x2000,
            ;
            vstd::arithmetic::power2::lemma_pow2_unfold((i + 1) as nat);
            assert(sig * (2 * p) == 2 * (sig * p)) by (nonlinear_arith);
        }
        r = r * 2;
        i += 1;
    }
    r
}

/// The integer that `n` becomes when it is converted to a double.
fn rounded_integer(n: u64) -> (r: u128)
    requires
        n > 0,
    ensures
        0 < r <= 0x2_0000_0000_0000_0000,
        nearest(double_of(n as int), n as int, 1),
        pressure::magnitude(double_of(n as int)) == r * pow2(1074),
{
    let d: Rounded = round_quotient(n as u128, 1);
    let r: u128 = if d.up > 0 {
        n as u128
    } else {
        shifted(d.sig, d.down)
    };
    proof {
        let exponent = 1075 + d.down - d.up;
        lemma_magnitude_of(exponent as int, d.sig as int);
        lemma_nearest_unique(d.spec_bits(), double_of(n as int), n as int, 1);
        if d.up > 0 {
            let (p, q) = (pow2(d.up as nat) as int, pow2((1074 - d.up) as nat) as int);
            vstd::arithmetic::power2::lemma_pow2_adds(d.up as nat, (1074 - d.up) as nat);
            assert((n * p) * q == n * (p * q)) by (nonlinear_arith);
        } else {
            let (p, q) = (pow2(d.down as nat) as int, pow2(1074) as int);
            let sig = d.sig as int;
            vstd::arithmetic::power2::lemma_pow2_adds(d.down as nat, 1074);
            vstd::arithmetic::power2::lemma_pow2_pos(d.down as nat);
            assert(sig * (p * q) == (sig * p) * q) by (nonlinear_arith);
            assert(sig * p > 0) by (nonlinear_arith)
                requires
                    sig > 0,
                    p > 0,
            ;
        }
    }
    r
}

/// The quotient of two counters as a double, but at most 1.0. It is 0.0 exactly where nothing
/// is divided, and 1.0 wherever the divisor is reached.
pub fn ratio(num: u64, den: u64) -> (r: Pressure)
    requires
        den > 0,
    ensures
        r == spec_ratio(num as int, den as int),
        r.in_unit_interval(),
        num == 0 ==> r.bits == 0,
        num >= den ==> r.bits == ONE_BITS,
{
    let y: u128 = rounded_integer(den);
    let ghost p = pow2(1074) as int;
    let ghost (a, b) = (double_of(num as int), double_of(den as int));
    proof {
        vstd::arithmetic::power2::lemma_pow2_pos(1074);
        pressure::lemma_one();
        assert(y * p > 0) by (nonlinear_arith)
            requires
                y > 0,
                p > 0,
        ;
    }
    if num == 0 {
        proof {
            lemma_nearest_zero(1);
            lemma_nearest_unique(0, a, 0, 1);
            lemma_nearest_zero(y * p);
            lemma_nearest_unique(0, quotient(a, b), 0, y * p);
        }
        return Pressure::zero();
    }
    let x: u128 = rounded_integer(num);
    let d: Rounded = round_quotient(x, y);
    let q = Pressure { bits: d.bits() };
    proof {
        lemma_nearest_scaled(d.spec_bits(), x as int, y as int, p);
        lemma_nearest_unique(d.spec_bits(), quotient(a, b), x * p, y * p);
        if num >= den {
            lemma_nearest_monotonic(b, a, den as int, num as int, 1);
            pressure::lemma_magnitude_ordered(b, a);
            assert(y <= x) by (nonlinear_arith)
                requires
                    y * p <= x * p,
                    p > 0,
            ;
            lemma_nearest_one(y as int);
            lemma_nearest_monotonic(ONE_BITS as int, d.spec_bits(), y as int, x as int, y as int);
            pressure::lemma_magnitude_ordered(ONE_BITS as int, d.spec_bits());
        }
        pressure::lemma_magnitude_ordered(0, d.spec_bits());
    }
    q.at_most_one()
}

/// Zero is what zero divided by anything rounds to.
proof fn lemma_nearest_zero(den: int)
    requires
        den > 0,
    ensures
        nearest(0, 0, den),
{
    assert forall|other: int|
        #![trigger distance(other, 0, den)]
        0 <= other < INFINITY_BITS implies distance(0, 0, den) < distance(other, 0, den) || (
    distance(0, 0, den) == distance(other, 0, den) && (other == 0 || 0int % 2 == 0)) by {
        assert(pressure::magnitude(0) * den == 0) by (nonlinear_arith)
            requires
                pressure::magnitude(0) == 0,
        ;
        assert(0int * pow2(1074) == 0) by (nonlinear_arith);
        assert(distance(0, 0, den) == 0);
    }
}

/// 1.0 is what a number divided by itself rounds to.
proof fn lemma_nearest_one(n: int)
    requires
        n > 0,
    ensures
        nearest(ONE_BITS as int, n, n),
{
    pressure::lemma_one();
    let one = ONE_BITS as int;
    assert(pow2(1074) * n == n * pow2(1074)) by (nonlinear_arith);
    assert(distance(one, n, n) == 0);
    assert(one % 2 == 0);
}

/// A larger quotient does not round to a smaller double.
proof fn lemma_nearest_monotonic(a: int, b: int, m: int, n: int, den: int)
    requires
        nearest(a, m, den),
        nearest(b, n, den),
        m <= n,
        den > 0,
    ensures
        a <= b,
{
    if m == n {
        lemma_nearest_unique(a, b, m, den);
    } else if b < a {
        pressure::lemma_magnitude_ordered(b, a);
        let (ma, mb, p) = (pressure::magnitude(a), pressure::magnitude(b), pow2(1074) as int);
        vstd::arithmetic::power2::lemma_pow2_pos(1074);
        assert(mb * den < ma * den) by (nonlinear_arith)
            requires
                mb < ma,
                den > 0,
        ;
        assert(m * p < n * p) by (nonlinear_arith)
            requires
                m < n,
                p > 0,
        ;
        assert(distance(a, m, den) <= distance(b, m, den));
        assert(distance(b, n, den) <= distance(a, n, den));
    }
}

/// The best approximation of `num / den` among the patterns below `n`.
proof fn lemma_best_below(n: int, num: int, den: int) -> (best: int)
    requires
        0 < n,
        den > 0,
    ensures
        0 <= best < n,
        forall|other: int|
            #![trigger distance(other, num, den)]
            0 <= other < n ==> distance(best, num, den) < distance(other, num, den) || (distance(
                best,
                num,
                den,
            ) == distance(other, num, den) && (other == best || best % 2 == 0)),
    decreases n,
{
    if n == 1 {
        0
    } else {
        let b = lemma_best_below(n - 1, num, den);
        let last = n - 1;
        if distance(last, num, den) < distance(b, num, den) {
            last
        } else if distance(last, num, den) == distance(b, num, den) && b % 2 == 1 {
            if last != b + 1 {
                let mid = b + 1;
                pressure::lemma_magnitude_ordered(b, mid);
                pressure::lemma_magnitude_ordered(mid, last);
                let (x, y, z) = (
                    pressure::magnitude(b),
                    pressure::magnitude(mid),
                    pressure::magnitude(last),
                );
                assert(x * den < y * den < z * den) by (nonlinear_arith)
                    requires
                        x < y < z,
                        den > 0,
                ;
                assert(distance(mid, num, den) < distance(b, num, den));
            }
            last
        } else {
            b
        }
    }
}

/// Every quotient rounds to some double.
pub proof fn lemma_nearest_exists(num: int, den: int)
    requires
        den > 0,
    ensures
        exists|bits: int| nearest(bits, num, den),
{
    let best = lemma_best_below(INFINITY_BITS as int, num, den);
    assert(nearest(best, num, den));
}

/// Converting a positive integer to a double keeps it positive.
proof fn lemma_double_positive(n: int)
    requires
        n > 0,
    ensures
        nearest(double_of(n), n, 1),
        pressure::magnitude(double_of(n)) > 0,
{
    lemma_nearest_exists(n, 1);
    lemma_nearest_one(1);
    lemma_nearest_monotonic(ONE_BITS as int, double_of(n), 1, n, 1);
    pressure::lemma_magnitude_ordered(0, double_of(n));
}

/// A ratio lies between 0.0 and 1.0.
pub proof fn law_ratio_in_unit_interval(num: nat, den: nat)
    requires
        den > 0,
    ensures
        spec_ratio(num as int, den as int).in_unit_interval(),
{
    let (a, b) = (double_of(num as int), double_of(den as int));
    lemma_double_positive(den as int);
    lemma_nearest_exists(num as int, 1);
    lemma_nearest_exists(pressure::magnitude(a), pressure::magnitude(b));
    pressure::lemma_one();
    pressure::lemma_magnitude_ordered(0, quotient(a, b));
}

/// Nothing divided by anything is 0.0.
pub proof fn law_ratio_of_zero(den: nat)
    requires
        den > 0,
    ensures
        spec_ratio(0, den as int) == (Pressure { bits: 0 }),
        (Pressure { bits: 0 }).in_unit_interval(),
        (Pressure { bits: 0 }).units() == 0,
{
    lemma_double_positive(den as int);
    let z = pressure::magnitude(double_of(den as int));
    lemma_nearest_zero(1);
    lemma_nearest_unique(0, double_of(0), 0, 1);
    lemma_nearest_zero(z);
    lemma_nearest_unique(0, quotient(0, double_of(den as int)), 0, z);
    pressure::lemma_one();
}

/// For the same divisor a larger number never has the smaller ratio.
pub proof fn law_ratio_monotonic(m: nat, n: nat, den: nat)
    requires
        m <= n,
        den > 0,
    ensures
        spec_ratio(m as int, den as int).units() <= spec_ratio(n as int, den as int).units(),
{
    let (a, b, d) = (double_of(m as int), double_of(n as int), double_of(den as int));
    lemma_double_positive(den as int);
    lemma_nearest_exists(m as int, 1);
    lemma_nearest_exists(n as int, 1);
    lemma_nearest_monotonic(a, b, m as int, n as int, 1);
    pressure::lemma_magnitude_ordered(a, b);
    let (x, y, z) = (pressure::magnitude(a), pressure::magnitude(b), pressure::magnitude(d));
    lemma_nearest_exists(x, z);
    lemma_nearest_exists(y, z);
    lemma_nearest_monotonic(quotient(a, d), quotient(b, d), x, y, z);
    pressure::lemma_magnitude_ordered(quotient(a, d), quotient(b, d));
    pressure::lemma_one();
}

/// A rounded quotient has no nearer double, and of two that are equally near its last bit is 0.
pub proof fn law_nothing_is_nearer(bits: int, other: int, num: int, den: int)
    requires
        nearest(bits, num, den),
        0 <= other < 0x7ff0_0000_0000_0000,
    ensures
        ({
            let mine = pressure::magnitude(bits) * den - num * pow2(1074);
            let theirs = pressure::magnitude(other) * den - num * pow2(1074);
            let near = if mine < 0 {
                -mine
            } else {
                mine
            };
            let far = if theirs < 0 {
                -theirs
            } else {
                theirs
            };
            &&& near <= far
            &&& near == far && other != bits ==> bits % 2 == 0
        }),
{
    assert(distance(bits, num, den) <= distance(other, num, den));
}

/// A double that equals a quotient is what it rounds to.
proof fn lemma_exact_is_nearest(bits: int, num: int, den: int)
    requires
        0 <= bits < INFINITY_BITS,
        den > 0,
        pressure::magnitude(bits) * den == num * pow2(1074),
    ensures
        nearest(bits, num, den),
{
    assert(distance(bits, num, den) == 0);
    assert forall|other: int|
        #![trigger distance(other, num, den)]
        0 <= other < INFINITY_BITS implies distance(bits, num, den) < distance(other, num, den) || (
    distance(bits, num, den) == distance(other, num, den) && (other == bits || bits % 2 == 0)) by {
        if distance(other, num, den) == 0 && other != bits {
            pressure::lemma_magnitude_ordered(other, bits);
            pressure::lemma_magnitude_ordered(bits, other);
            let (a, b) = (pressure::magnitude(other), pressure::magnitude(bits));
            assert(a * den != b * den) by (nonlinear_arith)
                requires
                    a != b,
                    den > 0,
            ;
        }
    }
}

/// Every significand of up to 53 bits is that of a double.
proof fn lemma_exact_bits(sig: int, e: nat) -> (bits: int)
    requires
        1 <= sig < 0x20_0000_0000_0000,
        e <= 1074,
    ensures
        0 < bits < INFINITY_BITS,
        pressure::magnitude(bits) == sig * pow2(e),
    decreases e,
{
    let span = 0x10_0000_0000_0000int;
    if sig >= span {
        lemma_magnitude_of(e as int + 1, sig);
        (e as int + 1) * span + (sig - span)
    } else if e == 0 {
        vstd::arithmetic::power2::lemma2_to64();
        sig
    } else {
        let below = (e - 1) as nat;
        vstd::arithmetic::power2::lemma_pow2_unfold(e);
        let p = pow2(below) as int;
        assert((2 * sig) * p == sig * (2 * p)) by (nonlinear_arith);
        lemma_exact_bits(2 * sig, below)
    }
}

/// An integer below two to the 53 converts to a double without loss.
proof fn lemma_double_exact(n: int)
    requires
        0 <= n < 0x20_0000_0000_0000,
    ensures
        pressure::magnitude(double_of(n)) == n * pow2(1074),
{
    let bits = if n == 0 {
        0
    } else {
        lemma_exact_bits(n, 1074)
    };
    assert(0int * pow2(1074) == 0) by (nonlinear_arith);
    assert(pressure::magnitude(0) == 0);
    lemma_exact_is_nearest(bits, n, 1);
    lemma_nearest_unique(bits, double_of(n), n, 1);
}

/// A ratio is the quotient of both numbers as doubles, each step rounded to the nearest, but at
/// most 1.0.
pub proof fn law_ratio_is_nearest(num: nat, den: nat)
    requires
        den > 0,
    ensures
        exists|x: int, y: int, q: int|
            {
                &&& #[trigger] nearest(x, num as int, 1)
                &&& #[trigger] nearest(y, den as int, 1)
                &&& #[trigger] nearest(q, pressure::magnitude(x), pressure::magnitude(y))
                &&& spec_ratio(num as int, den as int).bits == if q > ONE_BITS {
                    ONE_BITS as int
                } else {
                    q
                }
            },
{
    let (x, y) = (double_of(num as int), double_of(den as int));
    lemma_double_positive(den as int);
    lemma_nearest_exists(num as int, 1);
    lemma_nearest_exists(pressure::magnitude(x), pressure::magnitude(y));
    let q = quotient(x, y);
    assert(nearest(x, num as int, 1));
    assert(nearest(y, den as int, 1));
    assert(nearest(q, pressure::magnitude(x), pressure::magnitude(y)));
    pressure::lemma_one();
    pressure::lemma_magnitude_ordered(ONE_BITS as int, q);
    pressure::lemma_magnitude_ordered(q, ONE_BITS as int);
}

/// A ratio is 0.0 exactly where nothing is divided, and 1.0 wherever the divisor is reached,
/// however large the numbers are.
pub proof fn law_ratio_ends(num: nat, den: nat)
    requires
        0 < den <= 0x1_0000_0000_0000_0000,
    ensures
        num > 0 <==> spec_ratio(num as int, den as int).units() > 0,
        num >= den ==> spec_ratio(num as int, den as int).bits == ONE_BITS,
{
    let (a, b) = (double_of(num as int), double_of(den as int));
    let q = quotient(a, b);
    let (x, y, p) = (pressure::magnitude(a), pressure::magnitude(b), pow2(1074) as int);
    lemma_double_positive(den as int);
    lemma_nearest_exists(num as int, 1);
    lemma_nearest_exists(x, y);
    pressure::lemma_one();
    pressure::lemma_magnitude_ordered(ONE_BITS as int, q);
    pressure::lemma_magnitude_ordered(q, ONE_BITS as int);
    pressure::lemma_magnitude_ordered(0, q);
    if num == 0 {
        law_ratio_of_zero(den);
    } else {
        lemma_nearest_one(1);
        lemma_nearest_monotonic(ONE_BITS as int, a, 1, num as int, 1);
        pressure::lemma_magnitude_ordered(ONE_BITS as int, a);
        assert(x >= p);
        vstd::arithmetic::power2::lemma2_to64_rest();
        vstd::arithmetic::power2::lemma2_to64();
        vstd::arithmetic::power2::lemma_pow2_adds(64, 1);
        vstd::arithmetic::power2::lemma_pow2_strictly_increases(65, 1074);
        law_nothing_is_nearer(b, 0, den as int, 1);
        assert(pressure::magnitude(0) == 0);
        assert(pressure::magnitude(1) == 1);
        assert(y <= 2 * (den * p));
        assert(2 * (den * p) <= x * p) by (nonlinear_arith)
            requires
                0 < den <= 0x1_0000_0000_0000_0000,
                p > 0x2_0000_0000_0000_0000,
                x >= p,
        ;
        if q == 0 {
            law_nothing_is_nearer(0, 1, x, y);
        }
    }
    if num >= den {
        lemma_nearest_monotonic(b, a, den as int, num as int, 1);
        pressure::lemma_magnitude_ordered(b, a);
        lemma_nearest_one(y);
        lemma_nearest_monotonic(ONE_BITS as int, q, y, x, y);
    }
}

/// Numbers below two to the 53 lose nothing on the way: their ratio is the double nearest to the
/// exact quotient.
pub proof fn law_small_ratio_is_nearest(num: nat, den: nat)
    requires
        num <= den,
        0 < den < 0x20_0000_0000_0000,
    ensures
        nearest(spec_ratio(num as int, den as int).bits as int, num as int, den as int),
{
    let (a, b) = (double_of(num as int), double_of(den as int));
    let q = quotient(a, b);
    let p = pow2(1074) as int;
    vstd::arithmetic::power2::lemma_pow2_pos(1074);
    lemma_double_exact(num as int);
    lemma_double_exact(den as int);
    lemma_nearest_exists(num as int, den as int);
    let exact = choose|bits: int| nearest(bits, num as int, den as int);
    assert(den * p > 0) by (nonlinear_arith)
        requires
            den > 0,
            p > 0,
    ;
    lemma_nearest_scaled(exact, num as int, den as int, p);
    lemma_nearest_unique(exact, q, num * p, den * p);
    lemma_nearest_one(den as int);
    lemma_nearest_monotonic(q, ONE_BITS as int, num as int, den as int, den as int);
    pressure::lemma_one();
    pressure::lemma_magnitude_ordered(q, ONE_BITS as int);
}

/// Up to 1.0, neighbouring doubles are at most two to the -53 apart.
proof fn lemma_gap(bits: int)
    requires
        0 < bits <= ONE_BITS,
    ensures
        0 < pressure::magnitude(bits) - pressure::magnitude(bits - 1) <= pow2(1021),
{
    let span = 0x10_0000_0000_0000int;
    let (e, f) = ((bits - 1) / span, (bits - 1) % span);
    vstd::arithmetic::power2::lemma2_to64();
    vstd::arithmetic::power2::lemma_pow2_strictly_increases(0, 1021);
    pressure::lemma_magnitude_ordered(bits - 1, bits);
    pressure::law_magnitude(bits);
    pressure::law_magnitude(bits - 1);
    if e > 0 {
        lemma_magnitude_of(e, span + f);
        lemma_magnitude_of(e, span + f + 1);
        let p = pow2((e - 1) as nat) as int;
        assert((span + f + 1) * p == (span + f) * p + p) by (nonlinear_arith);
        assert(e <= 1022);
        if e < 1022 {
            vstd::arithmetic::power2::lemma_pow2_strictly_increases((e - 1) as nat, 1021);
        }
    }
}

/// The bits of a number of steps of 1/1024.
proof fn lemma_steps_bits(k: int) -> (bits: int)
    requires
        0 <= k <= 1024,
    ensures
        0 <= bits <= ONE_BITS,
        k > 0 ==> bits > 0,
        pressure::magnitude(bits) == k * pow2(1064),
        nearest(bits, k, 1024),
{
    let r = pow2(1064) as int;
    vstd::arithmetic::power2::lemma2_to64();
    vstd::arithmetic::power2::lemma_pow2_adds(1064, 10);
    vstd::arithmetic::power2::lemma_pow2_pos(1064);
    let bits = if k == 0 {
        0
    } else {
        lemma_exact_bits(k, 1064)
    };
    assert(0int * r == 0) by (nonlinear_arith);
    assert(pressure::magnitude(0) == 0);
    assert((k * r) * 1024 == k * (r * 1024)) by (nonlinear_arith);
    lemma_exact_is_nearest(bits, k, 1024);
    pressure::lemma_one();
    pressure::lemma_magnitude_ordered(ONE_BITS as int, bits);
    assert(k * r <= 1024 * r) by (nonlinear_arith)
        requires
            k <= 1024,
            r > 0,
    ;
    bits
}

/// What a ratio says in steps of 1/1024 is the quotient of the two numbers in those steps,
/// rounded down: no step is lost or won by going through doubles.
pub proof fn law_ratio_in_steps(num: nat, den: nat)
    requires
        0 < den < 0x1000_0000_0000,
    ensures
        spec_ratio(num as int, den as int).spec_scaled() == if num >= den {
            1024
        } else {
            num * 1024 / den
        },
{
    let ratio = spec_ratio(num as int, den as int);
    if num >= den {
        law_ratio_ends(num, den);
        pressure::lemma_one();
        pressure::law_scale_range(ratio);
    } else {
        let q = ratio.bits as int;
        let k = (num * 1024 / den) as int;
        vstd::arithmetic::div_mod::lemma_fundamental_div_mod((num * 1024) as int, den as int);
        assert(den * k == k * den) by (nonlinear_arith);
        assert((k + 1) * den == k * den + den) by (nonlinear_arith);
        assert(0 <= k < 1024) by (nonlinear_arith)
            requires
                k * den <= num * 1024 < (k + 1) * den,
                num < den,
        ;
        law_small_ratio_is_nearest(num, den);
        lemma_in_steps(q, num as int, den as int, k);
        pressure::lemma_one();
        pressure::lemma_magnitude_ordered(q, ONE_BITS as int);
        vstd::arithmetic::power2::lemma_pow2_pos(1074);
        let (m, p) = (pressure::magnitude(q) * 1024, pow2(1074) as int);
        assert((k + 1) * p == k * p + p) by (nonlinear_arith);
        vstd::arithmetic::div_mod::lemma_fundamental_div_mod_converse(m, p, k, m - k * p);
    }
}

/// The double nearest to a quotient lies in the same step of 1/1024.
proof fn lemma_in_steps(q: int, num: int, den: int, k: int)
    requires
        nearest(q, num, den),
        0 <= num < den < 0x1000_0000_0000,
        0 <= k < 1024,
        k * den <= num * 1024 < (k + 1) * den,
    ensures
        0 <= q < ONE_BITS,
        k * pow2(1074) <= pressure::magnitude(q) * 1024 < (k + 1) * pow2(1074),
{
    let (low, high) = (lemma_steps_bits(k), lemma_steps_bits(k + 1));
    let (p, r, g) = (pow2(1074) as int, pow2(1064) as int, pow2(1021) as int);
    vstd::arithmetic::power2::lemma2_to64();
    vstd::arithmetic::power2::lemma2_to64_rest();
    vstd::arithmetic::power2::lemma_pow2_adds(1064, 10);
    vstd::arithmetic::power2::lemma_pow2_adds(1021, 43);
    vstd::arithmetic::power2::lemma_pow2_pos(1021);
    assert(1024 * den == den * 1024);
    lemma_nearest_scaled(q, num, den, 1024);
    lemma_nearest_scaled(low, k, 1024, den);
    lemma_nearest_scaled(high, k + 1, 1024, den);
    lemma_nearest_monotonic(low, q, k * den, num * 1024, den * 1024);
    lemma_nearest_monotonic(q, high, num * 1024, (k + 1) * den, den * 1024);
    if q == high {
        let off = (k + 1) * den - num * 1024;
        let gap = pressure::magnitude(high) - pressure::magnitude(high - 1);
        lemma_gap(high);
        law_nothing_is_nearer(high, high - 1, num, den);
        assert(((k + 1) * r) * den - num * (r * 1024) == off * r) by (nonlinear_arith)
            requires
                off == (k + 1) * den - num * 1024,
        ;
        assert(pressure::magnitude(high - 1) * den == ((k + 1) * r) * den - gap * den)
            by (nonlinear_arith)
            requires
                pressure::magnitude(high - 1) == (k + 1) * r - gap,
        ;
        assert(off * r >= r) by (nonlinear_arith)
            requires
                off >= 1,
                r > 0,
        ;
        assert(0 < gap * den < 2 * r) by (nonlinear_arith)
            requires
                0 < gap <= g,
                0 < den < 0x1000_0000_0000,
                r == g * 0x800_0000_0000,
                g > 0,
        ;
    }
    pressure::lemma_magnitude_ordered(low, q);
    pressure::lemma_magnitude_ordered(q, high);
    let m = pressure::magnitude(q);
    assert((k * r) * 1024 == k * (r * 1024)) by (nonlinear_arith);
    assert(((k + 1) * r) * 1024 == (k + 1) * (r * 1024)) by (nonlinear_arith);
}

} // verus!
