//! Double-precision numbers, carried as their IEEE 754 bit patterns.
//!
//! Durations, positions and rates arrive as doubles. Every finite double is a
//! whole multiple of `2^-1074`, so its exact value is a natural number of those
//! quanta together with a sign. The operations here work on the bit pattern and
//! are stated over that exact value.
use crate::rounding::{
    apart, down, half_even, law_nearest, law_nearest_ordered, lemma_div_scale, lemma_half_even_scale,
    lemma_half_even_whole, lemma_nearest_ratio, lemma_nearest_representable, lemma_pow2_ordered, nearest, power,
    round_scaled, up,
};
use crate::text::{decimal, digits, shifted_decimal};
use vstd::arithmetic::div_mod::{
    lemma_div_multiples_vanish, lemma_fundamental_div_mod, lemma_fundamental_div_mod_converse, lemma_mod_bound,
    lemma_mod_multiples_basic,
};
use vstd::arithmetic::mul::{
    lemma_mul_inequality, lemma_mul_is_commutative, lemma_mul_strict_inequality, lemma_mul_strictly_positive,
};
use vstd::arithmetic::power2::{
    lemma2_to64, lemma_pow2_adds, lemma_pow2_pos, lemma_pow2_strictly_increases, lemma_pow2_unfold, pow2,
};
use vstd::prelude::*;

verus! {

/// The bit pattern of a double.
#[derive(Clone, Copy, Debug, PartialEq, Eq, Structural)]
pub struct Double {
    pub bits: u64,
}

/// What a double stands for: not a number, or a sign and a magnitude in quanta.
/// An infinite magnitude is `infinite()`, above every finite one.
pub struct Num {
    pub nan: bool,
    pub neg: bool,
    pub mag: nat,
}

/// The number one, in quanta.
pub open spec fn one() -> nat {
    pow2(1074)
}

/// The magnitude that stands for infinity.
pub open spec fn infinite() -> nat {
    pow2(2098)
}

/// The magnitude of a bit pattern without its sign bit.
pub open spec fn magnitude(b: nat) -> nat {
    let exponent = b / 0x10_0000_0000_0000;
    let fraction = b % 0x10_0000_0000_0000;
    if exponent == 0 {
        fraction
    } else {
        (0x10_0000_0000_0000 + fraction) * pow2((exponent - 1) as nat)
    }
}

/// The number of a sign and an exact magnitude; one out of range is infinite.
pub open spec fn number(neg: bool, v: nat) -> Num {
    Num {
        nan: false,
        neg,
        mag: if v >= infinite() {
            infinite()
        } else {
            v
        },
    }
}

/// A whole number.
pub open spec fn whole(n: nat) -> Num {
    number(false, n * one())
}

/// One half.
pub open spec fn half() -> Num {
    number(false, pow2(1073))
}

/// The result of an operation without one.
pub open spec fn not_a_number() -> Num {
    Num { nan: true, neg: false, mag: 0 }
}

impl Num {
    pub open spec fn is_infinite(self) -> bool {
        !self.nan && self.mag >= infinite()
    }

    pub open spec fn value(self) -> int {
        if self.neg {
            -(self.mag as int)
        } else {
            self.mag as int
        }
    }

    /// `self < other`; false when either is not a number.
    pub open spec fn less(self, other: Num) -> bool {
        !self.nan && !other.nan && self.value() < other.value()
    }

    /// `self <= other`; false when either is not a number.
    pub open spec fn at_most(self, other: Num) -> bool {
        !self.nan && !other.nan && self.value() <= other.value()
    }

    pub open spec fn negated(self) -> Num {
        if self.nan {
            self
        } else {
            Num { neg: !self.neg, ..self }
        }
    }

    /// `self / other`, rounded to the nearest double.
    pub open spec fn over(self, other: Num) -> Num {
        let neg = self.neg != other.neg;
        if self.nan || other.nan || (self.is_infinite() && other.is_infinite()) || (self.mag == 0 && other.mag
            == 0) {
            not_a_number()
        } else if self.is_infinite() || other.mag == 0 {
            number(neg, infinite())
        } else if other.is_infinite() {
            number(neg, 0)
        } else {
            number(neg, nearest(self.mag * one(), other.mag))
        }
    }

    /// `self * other`, rounded to the nearest double.
    pub open spec fn times(self, other: Num) -> Num {
        let neg = self.neg != other.neg;
        if self.nan || other.nan || (self.is_infinite() && other.mag == 0) || (self.mag == 0
            && other.is_infinite()) {
            not_a_number()
        } else if self.is_infinite() || other.is_infinite() {
            number(neg, infinite())
        } else {
            number(neg, nearest(self.mag * other.mag, one()))
        }
    }

    /// `self + other`, rounded to the nearest double.
    pub open spec fn plus(self, other: Num) -> Num {
        let sum = self.value() + other.value();
        if self.nan || other.nan || (self.is_infinite() && other.is_infinite() && self.neg != other.neg) {
            not_a_number()
        } else if self.is_infinite() {
            self
        } else if other.is_infinite() {
            other
        } else if sum == 0 {
            number(self.neg && other.neg, 0)
        } else if sum < 0 {
            number(true, nearest((-sum) as nat, 1))
        } else {
            number(false, nearest(sum as nat, 1))
        }
    }
}

impl View for Double {
    type V = Num;

    open spec fn view(&self) -> Num {
        let b = (self.bits % 0x8000_0000_0000_0000) as nat;
        if b > 0x7ff0_0000_0000_0000 {
            not_a_number()
        } else {
            Num { nan: false, neg: self.bits >= 0x8000_0000_0000_0000, mag: magnitude(b) }
        }
    }
}

/// A larger pattern without sign is a larger magnitude.
pub proof fn lemma_magnitude_ordered(a: nat, b: nat)
    requires
        a < b,
    ensures
        magnitude(a) < magnitude(b),
{
    let h: nat = 0x10_0000_0000_0000;
    let (e1, f1) = (a / h, a % h);
    let (e2, f2) = (b / h, b % h);
    if e1 == e2 {
        if e1 > 0 {
            let p = pow2((e1 - 1) as nat);
            lemma_pow2_pos((e1 - 1) as nat);
            lemma_mul_strict_inequality((h + f1) as int, (h + f2) as int, p as int);
        }
    } else {
        let p = pow2((e2 - 1) as nat);
        lemma_pow2_pos((e2 - 1) as nat);
        lemma_mul_inequality(h as int, (h + f2) as int, p as int);
        if e1 == 0 {
            assert(h * p >= h) by (nonlinear_arith)
                requires
                    p >= 1,
                    h >= 0,
            ;
        } else {
            let o = pow2((e1 - 1) as nat);
            lemma_pow2_pos((e1 - 1) as nat);
            lemma_pow2_ordered(e1, (e2 - 1) as nat);
            lemma_pow2_unfold(e1);
            assert((h + f1) * o < h * p) by (nonlinear_arith)
                requires
                    f1 < h,
                    2 * o <= p,
                    o > 0,
            ;
        }
    }
}

/// The pattern of infinity has the infinite magnitude, and no other has.
proof fn lemma_magnitude_bounds(b: nat)
    requires
        b <= 0x7ff0_0000_0000_0000,
    ensures
        magnitude(b) <= infinite(),
        magnitude(b) == infinite() <==> b == 0x7ff0_0000_0000_0000,
        magnitude(b) == 0 <==> b == 0,
        magnitude(0) == 0,
{
    lemma_pow2_52();
    lemma_pow2_adds(52, 2046);
    if b < 0x7ff0_0000_0000_0000 {
        lemma_magnitude_ordered(b, 0x7ff0_0000_0000_0000);
    }
    if b > 0 {
        lemma_magnitude_ordered(0, b);
    }
}

proof fn lemma_pow2_52()
    ensures
        pow2(0) == 1,
        pow2(1) == 2,
        pow2(52) == 0x10_0000_0000_0000,
        pow2(53) == 0x20_0000_0000_0000,
        pow2(63) == 0x8000_0000_0000_0000,
        pow2(64) == 0x1_0000_0000_0000_0000,
{
    lemma2_to64();
    lemma_pow2_adds(32, 20);
    lemma_pow2_unfold(53);
    lemma_pow2_unfold(64);
}

/// The significand and scale of a finite pattern without sign.
fn parts(b: u64) -> (r: (u64, u32))
    requires
        b < 0x7ff0_0000_0000_0000,
    ensures
        r.0 * pow2(r.1 as nat) == magnitude(b as nat),
        r.0 < 0x20_0000_0000_0000,
        r.1 <= 2045,
        r.1 > 0 ==> r.0 >= 0x10_0000_0000_0000,
        b > 0 ==> r.0 > 0,
        r.1 == if b < 0x10_0000_0000_0000 {
            0
        } else {
            b / 0x10_0000_0000_0000 - 1
        },
{
    let exponent: u64 = b / 0x10_0000_0000_0000;
    let fraction: u64 = b % 0x10_0000_0000_0000;
    if exponent == 0 {
        proof {
            lemma_pow2_52();
        }
        (fraction, 0)
    } else {
        (0x10_0000_0000_0000 + fraction, (exponent - 1) as u32)
    }
}

/// The double of a sign, a significand and a scale.
fn pack(neg: bool, m: u64, k: u32) -> (r: Double)
    requires
        m <= 0x20_0000_0000_0000,
        m < 0x10_0000_0000_0000 ==> k == 0,
        k <= 20000,
    ensures
        r@ == number(neg, (m * pow2(k as nat)) as nat),
{
    let sign: u64 = if neg {
        0x8000_0000_0000_0000
    } else {
        0
    };
    proof {
        lemma_pow2_52();
        lemma_magnitude_bounds(0);
        lemma_pow2_adds(52, 2046);
        lemma_pow2_pos(k as nat);
    }
    if m < 0x10_0000_0000_0000 {
        proof {
            lemma_pow2_strictly_increases(52, 2098);
            assert(m * pow2(k as nat) == m) by (nonlinear_arith)
                requires
                    pow2(k as nat) == 1,
            ;
        }
        return Double { bits: sign + m };
    }
    let carried: bool = m == 0x20_0000_0000_0000;
    let significand: u64 = if carried {
        0x10_0000_0000_0000
    } else {
        m
    };
    let exponent: u32 = if carried {
        k + 2
    } else {
        k + 1
    };
    let ghost v = (m * pow2(k as nat)) as nat;
    proof {
        lemma_pow2_unfold((k + 1) as nat);
        assert(v == significand * pow2((exponent - 1) as nat)) by {
            if carried {
                assert(0x20_0000_0000_0000 * pow2(k as nat) == 0x10_0000_0000_0000 * (2 * pow2(k as nat)));
            }
        }
    }
    if exponent >= 2047 {
        proof {
            lemma_pow2_ordered(2046, (exponent - 1) as nat);
            assert(v >= infinite()) by (nonlinear_arith)
                requires
                    v == significand * pow2((exponent - 1) as nat),
                    significand >= 0x10_0000_0000_0000,
                    pow2((exponent - 1) as nat) >= pow2(2046),
                    infinite() == 0x10_0000_0000_0000 * pow2(2046),
            ;
            lemma_magnitude_bounds(0x7ff0_0000_0000_0000);
        }
        return Double { bits: sign + 0x7ff0_0000_0000_0000 };
    }
    let b: u64 = exponent as u64 * 0x10_0000_0000_0000 + (significand - 0x10_0000_0000_0000);
    proof {
        lemma_fundamental_div_mod_converse(
            b as int,
            0x10_0000_0000_0000,
            exponent as int,
            significand - 0x10_0000_0000_0000,
        );
        assert(magnitude(b as nat) == v);
        lemma_magnitude_bounds(b as nat);
    }
    Double { bits: sign + b }
}

/// Shifts a significand up until its highest bit is in place.
fn normalise(m: u64) -> (r: (u64, u32))
    requires
        0 < m < 0x20_0000_0000_0000,
    ensures
        r.0 == m * pow2(r.1 as nat),
        0x10_0000_0000_0000 <= r.0 < 0x20_0000_0000_0000,
        r.1 <= 52,
{
    let mut x: u64 = m;
    let mut s: u32 = 0;
    proof {
        lemma_pow2_52();
    }
    while x < 0x10_0000_0000_0000
        invariant
            0 < m,
            0 < x < 0x20_0000_0000_0000,
            x == m * pow2(s as nat),
            s <= 52,
        decreases 0x20_0000_0000_0000 - x,
    {
        proof {
            lemma_pow2_52();
            lemma_pow2_unfold((s + 1) as nat);
            assert(m * pow2((s + 1) as nat) == 2 * (m * pow2(s as nat))) by (nonlinear_arith)
                requires
                    pow2((s + 1) as nat) == 2 * pow2(s as nat),
            ;
            if s >= 52 {
                lemma_pow2_ordered(52, s as nat);
                assert(m * pow2(s as nat) >= pow2(s as nat)) by (nonlinear_arith)
                    requires
                        m >= 1,
                ;
            }
        }
        x = x * 2;
        s = s + 1;
    }
    (x, s)
}

impl Double {
    /// The pattern without its sign bit.
    fn unsigned(self) -> (b: u64)
        ensures
            b == self.bits % 0x8000_0000_0000_0000,
    {
        self.bits % 0x8000_0000_0000_0000
    }

    /// Whether this is not a number.
    pub fn is_nan(self) -> (r: bool)
        ensures
            r == self@.nan,
    {
        self.unsigned() > 0x7ff0_0000_0000_0000
    }

    /// `self < other`.
    pub fn less(self, other: Double) -> (r: bool)
        ensures
            r == self@.less(other@),
    {
        if self.is_nan() || other.is_nan() {
            return false;
        }
        let a: u64 = self.unsigned();
        let b: u64 = other.unsigned();
        let a_neg: bool = self.bits >= 0x8000_0000_0000_0000;
        let b_neg: bool = other.bits >= 0x8000_0000_0000_0000;
        proof {
            lemma_magnitude_bounds(a as nat);
            lemma_magnitude_bounds(b as nat);
            if a < b {
                lemma_magnitude_ordered(a as nat, b as nat);
            } else if b < a {
                lemma_magnitude_ordered(b as nat, a as nat);
            }
        }
        if a_neg {
            if b_neg {
                b < a
            } else {
                a > 0 || b > 0
            }
        } else {
            !b_neg && a < b
        }
    }

    /// `self <= other`.
    pub fn at_most(self, other: Double) -> (r: bool)
        ensures
            r == self@.at_most(other@),
    {
        !self.is_nan() && !other.is_nan() && !other.less(self)
    }

    /// `-self`.
    pub fn negated(self) -> (r: Double)
        ensures
            r@ == self@.negated(),
    {
        if self.bits >= 0x8000_0000_0000_0000 {
            Double { bits: self.bits - 0x8000_0000_0000_0000 }
        } else {
            Double { bits: self.bits + 0x8000_0000_0000_0000 }
        }
    }
}


/// A product of powers of two is the power of the sum.
proof fn lemma_pow2_product(a: nat, b: nat, c: nat)
    ensures
        pow2(a) * pow2(b) * pow2(c) == pow2(a + b + c),
{
    lemma_pow2_adds(a, b);
    lemma_pow2_adds(a + b, c);
}

impl Double {
    /// One half.
    pub fn half() -> (r: Double)
        ensures
            r@ == half(),
    {
        proof {
            lemma_pow2_52();
            lemma_pow2_adds(52, 1021);
            lemma_pow2_strictly_increases(1073, 2098);
        }
        Double { bits: 0x3fe0_0000_0000_0000 }
    }

    /// The double nearest to `n`.
    pub fn from_u64(n: u64) -> (r: Double)
        ensures
            r@ == number(false, nearest(n as nat * one(), 1)),
            n < 0x20_0000_0000_0000 ==> r@ == whole(n as nat),
    {
        proof {
            lemma_pow2_52();
            if n < 0x20_0000_0000_0000 {
                lemma_nearest_representable(n as nat, 1074);
            }
        }
        if n == 0 {
            proof {
                lemma_pow2_52();
                assert(0 * one() == 0);
                lemma_half_even_whole(0, 1);
                assert(0nat * pow2(0) == 0);
                assert(nearest(0, 1) == 0);
                lemma_pow2_pos(2098);
                lemma_magnitude_bounds(0);
            }
            return Double { bits: 0 };
        }
        let q: u128 = n as u128 * 0x40_0000_0000_0000;
        let r: (u64, u32) = round_scaled(q, true, 1020, Ghost(q as nat), Ghost(1));
        proof {
            lemma_pow2_52();
            lemma_pow2_unfold(54);
            lemma_pow2_adds(54, 1020);
            assert(q as nat * pow2(1020) == n as nat * one()) by (nonlinear_arith)
                requires
                    q as nat == n as nat * pow2(54),
                    one() == pow2(54) * pow2(1020),
            ;
            assert(1 * down(1020) == 1);
            assert(up(1020) == pow2(1020));
        }
        pack(false, r.0, r.1)
    }

    /// `self / other`, rounded to the nearest double.
    pub fn over(self, other: Double) -> (r: Double)
        ensures
            r@ == self@.over(other@),
    {
        let a: u64 = self.unsigned();
        let b: u64 = other.unsigned();
        let neg: bool = (self.bits >= 0x8000_0000_0000_0000) != (other.bits >= 0x8000_0000_0000_0000);
        let inf: u64 = 0x7ff0_0000_0000_0000;
        proof {
            if a <= inf {
                lemma_magnitude_bounds(a as nat);
            }
            if b <= inf {
                lemma_magnitude_bounds(b as nat);
            }
            lemma_pow2_52();
            lemma_pow2_adds(52, 2046);
        }
        if a > inf || b > inf || (a == inf && b == inf) || (a == 0 && b == 0) {
            return Double { bits: 0x7ff8_0000_0000_0000 };
        }
        if a == inf || b == 0 {
            return pack(neg, 0x10_0000_0000_0000, 2046);
        }
        if b == inf || a == 0 {
            proof {
                lemma_zero_nearest(self@.mag, other@.mag);
            }
            return pack(neg, 0, 0);
        }
        let (m1, k1) = parts(a);
        let (m2, k2) = parts(b);
        let (n1, s) = normalise(m1);
        let n: u128 = n1 as u128 * 0x1_0000_0000_0000_0000;
        let q: u128 = n / m2 as u128;
        let exact: bool = n % m2 as u128 == 0;
        let e: i32 = k1 as i32 + 1074 - k2 as i32 - s as i32 - 64;
        proof {
            assert(q >= 0x40_0000_0000_0000 && q <= n) by (nonlinear_arith)
                requires
                    q == n / m2 as u128,
                    n >= 0x10_0000_0000_0000 * 0x1_0000_0000_0000_0000,
                    0 < m2 < 0x20_0000_0000_0000,
            ;
        }
        let r: (u64, u32) = round_scaled(q, exact, e, Ghost(n as nat), Ghost(m2 as nat));
        proof {
            let (x, y) = (self@.mag, other@.mag);
            let (p1, p2, ps) = (pow2(k1 as nat), pow2(k2 as nat), pow2(s as nat));
            let (u, d) = (up(e as int), down(e as int));
            lemma_pow2_pos(k2 as nat);
            lemma_mul_strictly_positive(m2 as int, p2 as int);
            // the powers on both sides have the same total exponent
            let eu: nat = if e > 0 { e as nat } else { 0 };
            let ed: nat = if e < 0 { (-e) as nat } else { 0 };
            lemma_pow2_product(s as nat, 64, eu);
            lemma_pow2_adds(s as nat + 64 + eu, k2 as nat);
            lemma_pow2_product(k1 as nat, 1074, ed);
            assert(s as nat + 64 + eu + k2 as nat == k1 as nat + 1074 + ed);
            let (big, w) = (pow2(64), one());
            let (a1, a2) = (m1 as nat, m2 as nat);
            assert((a1 * ps * big * u) * (a2 * p2) == (a1 * a2) * (ps * big * u * p2)) by (nonlinear_arith);
            assert((a1 * p1 * w) * (a2 * d) == (a1 * a2) * (p1 * w * d)) by (nonlinear_arith);
            assert((n as nat * u) * y == (x * w) * (m2 as nat * d));
            lemma_nearest_ratio(n as nat * u, m2 as nat * d, x * w, y);
        }
        pack(neg, r.0, r.1)
    }

    /// `self * other`, rounded to the nearest double.
    pub fn times(self, other: Double) -> (r: Double)
        ensures
            r@ == self@.times(other@),
    {
        let a: u64 = self.unsigned();
        let b: u64 = other.unsigned();
        let neg: bool = (self.bits >= 0x8000_0000_0000_0000) != (other.bits >= 0x8000_0000_0000_0000);
        let inf: u64 = 0x7ff0_0000_0000_0000;
        proof {
            if a <= inf {
                lemma_magnitude_bounds(a as nat);
            }
            if b <= inf {
                lemma_magnitude_bounds(b as nat);
            }
            lemma_pow2_52();
            lemma_pow2_adds(52, 2046);
        }
        if a > inf || b > inf || (a == inf && b == 0) || (a == 0 && b == inf) {
            return Double { bits: 0x7ff8_0000_0000_0000 };
        }
        if a == inf || b == inf {
            return pack(neg, 0x10_0000_0000_0000, 2046);
        }
        if a == 0 || b == 0 {
            proof {
                assert(self@.mag * other@.mag == 0) by (nonlinear_arith)
                    requires
                        self@.mag == 0 || other@.mag == 0,
                ;
                lemma_pow2_pos(1074);
                lemma_nearest_zero(one());
            }
            return pack(neg, 0, 0);
        }
        let (m1, k1) = parts(a);
        let (m2, k2) = parts(b);
        let (n1, s1) = normalise(m1);
        let (n2, s2) = normalise(m2);
        assert(n1 * n2 >= 0x10_0000_0000_0000 * 0x10_0000_0000_0000) by (nonlinear_arith)
            requires
                n1 >= 0x10_0000_0000_0000,
                n2 >= 0x10_0000_0000_0000,
        ;
        assert(n1 * n2 < 0x20_0000_0000_0000 * 0x20_0000_0000_0000) by (nonlinear_arith)
            requires
                n1 < 0x20_0000_0000_0000,
                n2 < 0x20_0000_0000_0000,
        ;
        let q: u128 = n1 as u128 * n2 as u128;
        let e: i32 = k1 as i32 + k2 as i32 - 1074 - s1 as i32 - s2 as i32;
        let r: (u64, u32) = round_scaled(q, true, e, Ghost(q as nat), Ghost(1));
        proof {
            let (x, y) = (self@.mag, other@.mag);
            let (p1, p2) = (pow2(k1 as nat), pow2(k2 as nat));
            let (o1, o2) = (pow2(s1 as nat), pow2(s2 as nat));
            let (u, d) = (up(e as int), down(e as int));
            let w = one();
            lemma_pow2_pos(1074);
            let eu: nat = if e > 0 { e as nat } else { 0 };
            let ed: nat = if e < 0 { (-e) as nat } else { 0 };
            lemma_pow2_product(s1 as nat, s2 as nat, eu);
            lemma_pow2_adds(s1 as nat + s2 as nat + eu, 1074);
            lemma_pow2_product(k1 as nat, k2 as nat, ed);
            assert(s1 as nat + s2 as nat + eu + 1074 == k1 as nat + k2 as nat + ed);
            let (a1, a2) = (m1 as nat, m2 as nat);
            assert(((a1 * o1) * (a2 * o2) * u) * w == (a1 * a2) * (o1 * o2 * u * w)) by (nonlinear_arith);
            assert(((a1 * p1) * (a2 * p2)) * (1 * d) == (a1 * a2) * (p1 * p2 * d)) by (nonlinear_arith);
            assert((q as nat * u) * w == (x * y) * (1 * d));
            lemma_nearest_ratio(q as nat * u, 1 * d, x * y, w);
        }
        pack(neg, r.0, r.1)
    }
}

proof fn lemma_nearest_zero(d: nat)
    requires
        d > 0,
    ensures
        nearest(0, d) == 0,
{
    lemma_pow2_52();
    lemma_fundamental_div_mod_converse(0, d as int, 0, 0);
    assert(d * pow2(0) == d);
    assert(half_even(0, d) == 0);
    assert(0nat * pow2(0) == 0);
}

pub(crate) proof fn lemma_zero_nearest(a: nat, b: nat)
    ensures
        a == 0 && b > 0 ==> nearest(a * one(), b) == 0,
{
    if a == 0 && b > 0 {
        assert(a * one() == 0);
        lemma_nearest_zero(b);
    }
}

/// The exact sum or difference of two magnitudes, the first at least the second,
/// rounded to 53 bits. `None` when it is zero.
fn combine(hi: u64, lo: u64, same: bool) -> (r: Option<(u64, u32)>)
    requires
        lo <= hi < 0x7ff0_0000_0000_0000,
    ensures
        ({
            let exact = if same {
                magnitude(hi as nat) as int + magnitude(lo as nat)
            } else {
                magnitude(hi as nat) - magnitude(lo as nat)
            };
            &&& exact >= 0
            &&& r is None <==> exact == 0
            &&& r matches Some(x) ==> {
                &&& x.0 * pow2(x.1 as nat) == nearest(exact as nat, 1)
                &&& x.0 <= 0x20_0000_0000_0000
                &&& x.0 < 0x10_0000_0000_0000 ==> x.1 == 0
                &&& x.1 <= 11000
            }
        }),
{
    let (m1, k1) = parts(hi);
    let (m2, k2) = parts(lo);
    let gap: u32 = k1 - k2;
    let ghost p2 = pow2(k2 as nat);
    let ghost exact = if same {
        magnitude(hi as nat) as int + magnitude(lo as nat)
    } else {
        magnitude(hi as nat) - magnitude(lo as nat)
    };
    proof {
        lemma_pow2_52();
        lemma_pow2_adds(gap as nat, k2 as nat);
        lemma_pow2_pos(gap as nat);
        lemma_pow2_pos(k2 as nat);
        if lo < hi {
            lemma_magnitude_ordered(lo as nat, hi as nat);
        }
        let a = m1 as int * pow2(gap as nat);
        let b = m2 as int;
        assert(m1 as int * pow2(k1 as nat) == a * p2) by (nonlinear_arith)
            requires
                a == m1 as int * pow2(gap as nat),
                pow2(k1 as nat) == pow2(gap as nat) * p2,
        ;
        assert(a >= b) by (nonlinear_arith)
            requires
                a * p2 >= b * p2,
                p2 > 0,
        ;
        assert(exact == (if same { a + b } else { a - b }) * p2) by (nonlinear_arith)
            requires
                exact == if same { a * p2 + b * p2 } else { a * p2 - b * p2 },
        ;
    }
    if gap <= 64 {
        let p: u128 = power(gap);
        proof {
            lemma_pow2_ordered(gap as nat, 64);
            assert(m1 * p <= 0x20_0000_0000_0000 * 0x1_0000_0000_0000_0000) by (nonlinear_arith)
                requires
                    m1 <= 0x20_0000_0000_0000,
                    p <= 0x1_0000_0000_0000_0000,
            ;
        }
        let wide: u128 = m1 as u128 * p;
        let n: u128 = if same {
            wide + m2 as u128
        } else {
            wide - m2 as u128
        };
        proof {
            assert(exact == n as int * p2);
            assert(n == 0 <==> exact == 0) by (nonlinear_arith)
                requires
                    exact == n as int * p2,
                    p2 > 0,
            ;
        }
        if n == 0 {
            return None;
        }
        let s: u32 = if n < 0x40_0000_0000_0000 {
            54
        } else {
            0
        };
        let q: u128 = if n < 0x40_0000_0000_0000 {
            n * 0x40_0000_0000_0000
        } else {
            n
        };
        let e: i32 = k2 as i32 - s as i32;
        let r: (u64, u32) = round_scaled(q, true, e, Ghost(q as nat), Ghost(1));
        proof {
            lemma_pow2_unfold(54);
            let ps = pow2(s as nat);
            let (u, d) = (up(e as int), down(e as int));
            let eu: nat = if e > 0 { e as nat } else { 0 };
            let ed: nat = if e < 0 { (-e) as nat } else { 0 };
            lemma_pow2_adds(s as nat, eu);
            lemma_pow2_adds(k2 as nat, ed);
            assert(s as nat + eu == k2 as nat + ed);
            let nn = n as nat;
            if s == 0 {
                assert(nn * ps == nn) by (nonlinear_arith)
                    requires
                        ps == 1,
                ;
            } else {
                assert(ps == 0x40_0000_0000_0000);
                assert(nn * ps == n * 0x40_0000_0000_0000) by (nonlinear_arith)
                    requires
                        ps == 0x40_0000_0000_0000,
                        nn == n,
                ;
            }
            assert(q as nat == nn * ps);
            assert((nn * ps * u) * 1 == nn * (ps * u)) by (nonlinear_arith);
            assert((nn * p2) * (1 * d) == nn * (p2 * d)) by (nonlinear_arith);
            lemma_nearest_ratio(q as nat * u, 1 * d, nn * p2, 1);
        }
        Some(r)
    } else {
        let g: u32 = gap - 64;
        let wide: u128 = m1 as u128 * 0x1_0000_0000_0000_0000;
        let mut t: u64 = 0;
        let mut even: bool = m2 == 0;
        let ghost pg = pow2(g as nat);
        proof {
            lemma_pow2_pos(g as nat);
            if g >= 64 {
                lemma_pow2_ordered(64, g as nat);
                lemma_fundamental_div_mod_converse(m2 as int, pg as int, 0, m2 as int);
            }
        }
        if g < 64 {
            let p: u128 = power(g);
            t = (m2 as u128 / p) as u64;
            even = m2 as u128 % p == 0;
        }
        assert(t == m2 as nat / pg && even == (m2 as nat % pg == 0));
        assert(t <= m2) by (nonlinear_arith)
            requires
                t == m2 as nat / pg,
                pg > 0,
        ;
        let q: u128 = if same {
            wide + t as u128
        } else if even {
            wide - t as u128
        } else {
            wide - t as u128 - 1
        };
        let e: i32 = k1 as i32 - 64;
        let ghost nn: nat = (if same {
            m1 as int * pow2(gap as nat) + m2 as int
        } else {
            m1 as int * pow2(gap as nat) - m2 as int
        }) as nat;
        proof {
            lemma_pow2_adds(64, g as nat);
            let (w, b, tt, rr) = (wide as int, m2 as int, t as int, (m2 as nat % pg) as int);
            lemma_fundamental_div_mod(b, pg as int);
            lemma_mod_bound(b, pg as int);
            assert(m1 as int * pow2(gap as nat) == w * pg) by (nonlinear_arith)
                requires
                    w == m1 as int * pow2(64),
                    pow2(gap as nat) == pow2(64) * pg,
            ;
            if same {
                assert(nn as int == (w + tt) * pg + rr) by (nonlinear_arith)
                    requires
                        nn as int == w * pg + b,
                        b == pg * tt + rr,
                ;
                lemma_fundamental_div_mod_converse(nn as int, pg as int, w + tt, rr);
            } else if even {
                assert(nn as int == (w - tt) * pg) by (nonlinear_arith)
                    requires
                        nn as int == w * pg - b,
                        b == pg * tt,
                ;
                lemma_fundamental_div_mod_converse(nn as int, pg as int, w - tt, 0);
            } else {
                assert(nn as int == (w - tt - 1) * pg + (pg - rr)) by (nonlinear_arith)
                    requires
                        nn as int == w * pg - b,
                        b == pg * tt + rr,
                ;
                lemma_fundamental_div_mod_converse(nn as int, pg as int, w - tt - 1, pg - rr);
            }
        }
        let r: (u64, u32) = round_scaled(q, even, e, Ghost(nn), Ghost(pg));
        proof {
            let u = up(e as int);
            lemma_pow2_adds(k2 as nat, g as nat);
            assert(e as nat == k2 as nat + g as nat);
            assert(down(e as int) == 1);
            assert((nn * u) * 1 == (nn * p2) * (pg * 1)) by (nonlinear_arith)
                requires
                    u == p2 * pg,
            ;
            lemma_nearest_ratio(nn * u, pg * 1, nn * p2, 1);
            assert(nn > 0) by (nonlinear_arith)
                requires
                    nn as int / pg as int > 0,
                    pg > 0,
            ;
            assert(exact == nn * p2);
            assert(exact > 0) by (nonlinear_arith)
                requires
                    exact == nn * p2,
                    nn > 0,
                    p2 > 0,
            ;
        }
        Some(r)
    }
}

impl Double {
    /// `self + other`, rounded to the nearest double.
    pub fn plus(self, other: Double) -> (r: Double)
        ensures
            r@ == self@.plus(other@),
    {
        let a: u64 = self.unsigned();
        let b: u64 = other.unsigned();
        let a_neg: bool = self.bits >= 0x8000_0000_0000_0000;
        let b_neg: bool = other.bits >= 0x8000_0000_0000_0000;
        let inf: u64 = 0x7ff0_0000_0000_0000;
        proof {
            if a <= inf {
                lemma_magnitude_bounds(a as nat);
            }
            if b <= inf {
                lemma_magnitude_bounds(b as nat);
            }
            lemma_pow2_52();
            lemma_pow2_adds(52, 2046);
        }
        if a > inf || b > inf || (a == inf && b == inf && a_neg != b_neg) {
            return Double { bits: 0x7ff8_0000_0000_0000 };
        }
        if a == inf {
            return self;
        }
        if b == inf {
            return other;
        }
        let (hi, lo, neg) = if a >= b {
            (a, b, a_neg)
        } else {
            (b, a, b_neg)
        };
        proof {
            if lo < hi {
                lemma_magnitude_ordered(lo as nat, hi as nat);
            }
        }
        let ghost sum = self@.value() + other@.value();
        match combine(hi, lo, a_neg == b_neg) {
            Some((m, k)) => {
                assert(sum != 0 && (sum < 0) == neg);
                assert(m * pow2(k as nat) == nearest(
                    (if sum < 0 {
                        -sum
                    } else {
                        sum
                    }) as nat,
                    1,
                ));
                pack(neg, m, k)
            },
            None => {
                assert(sum == 0);
                assert(0 * pow2(0) == 0) by (nonlinear_arith);
                pack(a_neg && b_neg, 0, 0)
            },
        }
    }

    /// `self - other`, rounded to the nearest double.
    pub fn minus(self, other: Double) -> (r: Double)
        ensures
            r@ == self@.plus(other@.negated()),
    {
        self.plus(other.negated())
    }
}

/// The sign that a number is written with.
pub open spec fn sign_text(x: Num) -> Seq<char> {
    if x.neg {
        "-"@
    } else {
        ""@
    }
}

/// The number with one decimal, as `{:.1}` writes it.
pub open spec fn tenths_text(x: Num) -> Seq<char> {
    if x.nan {
        "NaN"@
    } else if x.is_infinite() {
        sign_text(x) + "inf"@
    } else {
        let t = half_even(x.mag * 10, one());
        sign_text(x) + digits(t / 10) + "."@ + digits(t % 10)
    }
}

/// The number without decimals, as `{:.0}` writes it.
pub open spec fn units_text(x: Num) -> Seq<char> {
    if x.nan {
        "NaN"@
    } else if x.is_infinite() {
        sign_text(x) + "inf"@
    } else {
        sign_text(x) + digits(half_even(x.mag, one()))
    }
}

/// The whole part of a number as an unsigned integer, as a cast to `u64` takes
/// it: zero for a negative number and for none, the limit above the range.
pub open spec fn whole_part(x: Num) -> nat {
    let w = x.mag / one();
    if x.nan || x.neg {
        0
    } else if w > u64::MAX {
        u64::MAX as nat
    } else {
        w
    }
}

/// The nearest integer, halves away from zero, as a cast to `u64` takes it.
pub open spec fn rounded_part(x: Num) -> nat {
    let w = (2 * x.mag + one()) / (2 * one());
    if x.nan || x.neg {
        0
    } else if w > u64::MAX {
        u64::MAX as nat
    } else {
        w
    }
}

/// The larger of a number and zero, as `f64::max` takes it.
pub open spec fn at_least_zero(x: Num) -> Num {
    if x.nan || x.value() < 0 {
        number(false, 0)
    } else {
        x
    }
}

/// `x` held between two bounds, as `f64::clamp` does.
pub open spec fn clamped(x: Num, low: Num, high: Num) -> Num {
    if x.less(low) {
        low
    } else if high.less(x) {
        high
    } else {
        x
    }
}

/// The key by which `f64::total_cmp` orders.
pub open spec fn total_key(bits: u64) -> int {
    if bits < 0x8000_0000_0000_0000 {
        bits as int
    } else {
        -1 - (bits - 0x8000_0000_0000_0000)
    }
}

/// A ratio to the number one, where the magnitude is scaled below it.
proof fn lemma_scaled_down(c: nat, k: nat)
    requires
        k < 1074,
    ensures
        pow2((1074 - k) as nat) > 0,
        half_even(c * pow2(k), one()) == half_even(c, pow2((1074 - k) as nat)),
        (c * pow2(k)) / one() == c / pow2((1074 - k) as nat),
{
    let s = (1074 - k) as nat;
    lemma_pow2_pos(s);
    lemma_pow2_pos(k);
    lemma_pow2_adds(s, k);
    lemma_half_even_scale(c, pow2(s), pow2(k));
    lemma_div_scale(c, pow2(s), pow2(k));
}

/// Where it is scaled above it.
proof fn lemma_scaled_up(c: nat, k: nat)
    requires
        k >= 1074,
    ensures
        c * pow2(k) == (c * pow2((k - 1074) as nat)) * one(),
        half_even(c * pow2(k), one()) == c * pow2((k - 1074) as nat),
        (c * pow2(k)) / one() == c * pow2((k - 1074) as nat),
{
    let s = (k - 1074) as nat;
    lemma_pow2_pos(1074);
    lemma_pow2_adds(s, 1074);
    assert(c * (pow2(s) * one()) == (c * pow2(s)) * one()) by (nonlinear_arith);
    lemma_half_even_whole(c * pow2(s), one());
    lemma_div_multiples_vanish((c * pow2(s)) as int, one() as int);
    lemma_mul_is_commutative((c * pow2(s)) as int, one() as int);
}

/// `c / 2^s`, rounded half to even.
fn half_even_shift(c: u64, s: u32) -> (r: u64)
    requires
        c < 0x1000_0000_0000_0000,
        s > 0,
    ensures
        r == half_even(c as nat, pow2(s as nat)),
        r <= c,
{
    proof {
        lemma_pow2_pos(s as nat);
        lemma_pow2_52();
    }
    if s >= 64 {
        proof {
            lemma_pow2_ordered(64, s as nat);
            lemma_fundamental_div_mod_converse(c as int, pow2(s as nat) as int, 0, c as int);
        }
        return 0;
    }
    let p: u128 = power(s);
    let q: u128 = c as u128 / p;
    let r: u128 = c as u128 % p;
    proof {
        lemma_pow2_ordered(1, s as nat);
        lemma_pow2_ordered(s as nat, 64);
        assert(2 * q <= c) by (nonlinear_arith)
            requires
                q == c as u128 / p,
                p >= 2,
        ;
        lemma_fundamental_div_mod(c as int, p as int);
        lemma_mod_bound(c as int, p as int);
        if q == 0 && c == 0 {
            assert(r == 0);
        }
    }
    if 2 * r < p || (2 * r == p && q % 2 == 0) {
        q as u64
    } else {
        q as u64 + 1
    }
}

impl Double {
    /// The key by which `f64::total_cmp` orders.
    pub fn total_key(self) -> (k: i64)
        ensures
            k == total_key(self.bits),
    {
        if self.bits < 0x8000_0000_0000_0000 {
            self.bits as i64
        } else {
            -1 - ((self.bits - 0x8000_0000_0000_0000) as i64)
        }
    }

    /// The larger of this number and zero.
    pub fn at_least_zero(self) -> (r: Double)
        ensures
            r@ == at_least_zero(self@),
    {
        let zero = Double { bits: 0 };
        proof {
            lemma_magnitude_bounds(0);
            lemma_pow2_pos(2098);
        }
        if self.is_nan() || self.less(zero) {
            zero
        } else {
            self
        }
    }

    /// This number held between two bounds.
    pub fn clamped(self, low: Double, high: Double) -> (r: Double)
        ensures
            r@ == clamped(self@, low@, high@),
    {
        if self.less(low) {
            low
        } else if high.less(self) {
            high
        } else {
            self
        }
    }

    /// The whole part, as a cast to `u64` takes it.
    pub fn whole_part(self) -> (w: u64)
        ensures
            w == whole_part(self@),
    {
        if self.is_nan() || self.bits >= 0x8000_0000_0000_0000 {
            return 0;
        }
        proof {
            lemma_pow2_52();
            lemma_pow2_pos(1074);
            lemma_magnitude_bounds(self.bits as nat);
        }
        if self.bits == 0x7ff0_0000_0000_0000 {
            proof {
                lemma_pow2_adds(1024, 1074);
                lemma_div_multiples_vanish(pow2(1024) as int, one() as int);
                lemma_mul_is_commutative(pow2(1024) as int, one() as int);
                lemma_pow2_strictly_increases(64, 1024);
            }
            return u64::MAX;
        }
        let (m, k) = parts(self.bits);
        if k >= 1074 {
            proof {
                lemma_scaled_up(m as nat, k as nat);
            }
            let s: u32 = k - 1074;
            if s > 11 {
                proof {
                    lemma_pow2_ordered(12, s as nat);
                    lemma2_to64();
                    assert(m * pow2(s as nat) > u64::MAX) by (nonlinear_arith)
                        requires
                            m >= 0x10_0000_0000_0000,
                            pow2(s as nat) >= 0x1000,
                    ;
                }
                return u64::MAX;
            }
            let p: u128 = power(s);
            proof {
                lemma_pow2_ordered(s as nat, 11);
                lemma2_to64();
                assert(m * p <= 0x1f_ffff_ffff_ffff * 0x800) by (nonlinear_arith)
                    requires
                        m <= 0x1f_ffff_ffff_ffff,
                        p <= 0x800,
                ;
            }
            (m as u128 * p) as u64
        } else {
            proof {
                lemma_scaled_down(m as nat, k as nat);
            }
            let s: u32 = 1074 - k;
            if s >= 64 {
                proof {
                    lemma_pow2_ordered(64, s as nat);
                    lemma_fundamental_div_mod_converse(m as int, pow2(s as nat) as int, 0, m as int);
                }
                return 0;
            }
            let p: u128 = power(s);
            proof {
                assert(m as u128 / p <= m) by (nonlinear_arith)
                    requires
                        p > 0,
                ;
            }
            (m as u128 / p) as u64
        }
    }
}

impl Double {
    /// The nearest integer, halves away from zero, as a cast to `u64` takes it.
    pub fn rounded_part(self) -> (w: u64)
        ensures
            w == rounded_part(self@),
    {
        if self.is_nan() || self.bits >= 0x8000_0000_0000_0000 {
            return 0;
        }
        let ghost mag = self@.mag;
        proof {
            lemma_pow2_52();
            lemma_pow2_pos(1074);
            lemma_magnitude_bounds(self.bits as nat);
        }
        if self.bits >= 0x4330_0000_0000_0000 {
            proof {
                lemma_whole(self.bits as nat);
            }
            return self.whole_part();
        }
        let (m, k) = parts(self.bits);
        let s: u32 = 1074 - k;
        let ghost (p, o) = (pow2(s as nat), pow2(k as nat));
        proof {
            lemma_pow2_adds(s as nat, k as nat);
            lemma_pow2_pos(k as nat);
            lemma_pow2_pos(s as nat);
            assert(2 * (m as nat * o) + p * o == (2 * m as nat + p) * o) by (nonlinear_arith);
            assert(2 * (p * o) == (2 * p) * o) by (nonlinear_arith);
            lemma_div_scale((2 * m as nat + p) as nat, 2 * p, o);
        }
        if s >= 64 {
            proof {
                lemma_pow2_ordered(64, s as nat);
                lemma_fundamental_div_mod_converse(2 * m + p, (2 * p) as int, 0, 2 * m + p);
            }
            return 0;
        }
        let half: u128 = power(s);
        proof {
            lemma_pow2_ordered(s as nat, 64);
            let x = 2 * m + half;
            assert(x / (2 * half) <= m + 1) by (nonlinear_arith)
                requires
                    x == 2 * m + half,
                    half > 0,
                    m >= 0,
            ;
        }
        ((2 * m as u128 + half) / (2 * half)) as u64
    }

    /// The number with one decimal, as `{:.1}` writes it.
    pub fn tenths_text(self) -> (s: String)
        ensures
            s@ == tenths_text(self@),
    {
        if self.is_nan() {
            return String::from_str("NaN");
        }
        let b: u64 = self.unsigned();
        let sign = if self.bits >= 0x8000_0000_0000_0000 {
            String::from_str("-")
        } else {
            String::from_str("")
        };
        proof {
            lemma_magnitude_bounds(b as nat);
            lemma_pow2_pos(1074);
        }
        if b == 0x7ff0_0000_0000_0000 {
            return sign.concat("inf");
        }
        let (m, k) = parts(b);
        proof {
            let o = pow2(k as nat);
            assert((m as nat * o) * 10 == (m as nat * 10) * o) by (nonlinear_arith);
        }
        if k >= 1074 {
            proof {
                lemma_scaled_up(m as nat * 10, k as nat);
                let o = pow2((k - 1074) as nat);
                let t = (m as nat * 10) * o;
                assert(t == (m as nat * o) * 10) by (nonlinear_arith)
                    requires
                        t == (m as nat * 10) * o,
                ;
                assert(t / 10 == m as nat * o && t % 10 == 0);
            }
            let whole = shifted_decimal(m, k - 1074);
            let last = decimal(0);
            return sign.concat(whole.as_str()).concat(".").concat(last.as_str());
        }
        proof {
            lemma_scaled_down(m as nat * 10, k as nat);
        }
        let t: u64 = half_even_shift(m * 10, 1074 - k);
        let whole = decimal(t / 10);
        let last = decimal(t % 10);
        sign.concat(whole.as_str()).concat(".").concat(last.as_str())
    }

    /// The number without decimals, as `{:.0}` writes it.
    pub fn units_text(self) -> (s: String)
        ensures
            s@ == units_text(self@),
    {
        if self.is_nan() {
            return String::from_str("NaN");
        }
        let b: u64 = self.unsigned();
        let sign = if self.bits >= 0x8000_0000_0000_0000 {
            String::from_str("-")
        } else {
            String::from_str("")
        };
        proof {
            lemma_magnitude_bounds(b as nat);
            lemma_pow2_pos(1074);
        }
        if b == 0x7ff0_0000_0000_0000 {
            return sign.concat("inf");
        }
        let (m, k) = parts(b);
        if k >= 1074 {
            proof {
                lemma_scaled_up(m as nat, k as nat);
            }
            let whole = shifted_decimal(m, k - 1074);
            return sign.concat(whole.as_str());
        }
        proof {
            lemma_scaled_down(m as nat, k as nat);
        }
        let t: u64 = half_even_shift(m, 1074 - k);
        let whole = decimal(t);
        sign.concat(whole.as_str())
    }
}

/// From `2^52` on a number is whole, so nothing is left to round.
proof fn lemma_whole(b: nat)
    requires
        b >= 0x4330_0000_0000_0000,
    ensures
        (2 * magnitude(b) + one()) / (2 * one()) == magnitude(b) / one(),
{
    let e = b / 0x10_0000_0000_0000;
    let m: nat = 0x10_0000_0000_0000 + b % 0x10_0000_0000_0000;
    let k = (e - 1) as nat;
    lemma_scaled_up(m, k);
    let w = (m * pow2((k - 1074) as nat)) as int;
    let u = one() as int;
    lemma_pow2_pos(1074);
    assert(2 * (w * u) + u == w * (2 * u) + u) by (nonlinear_arith);
    lemma_fundamental_div_mod_converse(2 * (w * u) + u, 2 * u, w, u);
}

/// The difference between one and the next larger double.
pub open spec fn epsilon() -> Num {
    number(false, pow2(1022))
}

/// Whether the fractional part of a number is less than `epsilon()`; of an
/// infinite number and of none it is not.
pub open spec fn nearly_whole(x: Num) -> bool {
    !x.nan && !x.is_infinite() && x.mag % one() < pow2(1022)
}

/// A number without its sign.
pub open spec fn absolute(x: Num) -> Num {
    Num { neg: false, ..x }
}

impl Double {
    /// The difference between one and the next larger double.
    pub fn epsilon() -> (r: Double)
        ensures
            r@ == epsilon(),
    {
        proof {
            lemma_pow2_52();
            lemma_pow2_adds(52, 970);
            lemma_pow2_strictly_increases(1022, 2098);
        }
        Double { bits: 0x3cb0_0000_0000_0000 }
    }

    /// This number without its sign.
    pub fn absolute(self) -> (r: Double)
        ensures
            r@ == absolute(self@),
    {
        Double { bits: self.unsigned() }
    }

    /// Whether the fractional part is less than the epsilon.
    pub fn nearly_whole(self) -> (r: bool)
        ensures
            r == nearly_whole(self@),
    {
        let b: u64 = self.unsigned();
        if b > 0x7ff0_0000_0000_0000 {
            return false;
        }
        proof {
            lemma_magnitude_bounds(b as nat);
            lemma_pow2_pos(1074);
            lemma_pow2_pos(1022);
            lemma_pow2_52();
        }
        if b == 0x7ff0_0000_0000_0000 {
            return false;
        }
        let (m, k) = parts(b);
        let ghost o = pow2(k as nat);
        if k >= 1074 {
            proof {
                lemma_scaled_up(m as nat, k as nat);
                lemma_mod_multiples_basic((m * pow2((k - 1074) as nat)) as int, one() as int);
            }
            return true;
        }
        let s: u32 = 1074 - k;
        let ghost p = pow2(s as nat);
        proof {
            lemma_pow2_pos(k as nat);
            lemma_pow2_pos(s as nat);
            lemma_pow2_adds(s as nat, k as nat);
            lemma_div_scale(m as nat, p, o);
        }
        // the fraction is what the lowest bits of the significand hold
        let low: u64 = if s < 64 {
            (m as u128 % power(s)) as u64
        } else {
            m
        };
        proof {
            if s >= 64 {
                lemma_pow2_ordered(64, s as nat);
                lemma_fundamental_div_mod_converse(m as int, p as int, 0, m as int);
            } else {
                lemma_mod_bound(m as int, p as int);
                lemma_pow2_ordered(s as nat, 63);
            }
            assert(low as nat == m as nat % p);
        }
        if k >= 1022 {
            proof {
                lemma_pow2_ordered(1022, k as nat);
                assert(low == 0 <==> low * o < pow2(1022)) by (nonlinear_arith)
                    requires
                        o >= pow2(1022),
                        pow2(1022) > 0,
                ;
            }
            low == 0
        } else {
            let j: u32 = 1022 - k;
            proof {
                lemma_pow2_adds(j as nat, k as nat);
                assert(low * o < pow2(1022) <==> low < pow2(j as nat)) by (nonlinear_arith)
                    requires
                        pow2(1022) == pow2(j as nat) * o,
                        o > 0,
                ;
                if j >= 53 {
                    lemma_pow2_ordered(53, j as nat);
                    assert(low <= m) by (nonlinear_arith)
                        requires
                            low as nat == m as nat % p,
                            p > 0,
                    ;
                }
            }
            j >= 53 || (low as u128) < power(j)
        }
    }
}

/// The quotient of two finite numbers is away from the true one by one part in
/// `2^53` at most, or by half a quantum; its sign is that of the true one.
pub proof fn law_over(x: Num, y: Num)
    requires
        !x.nan,
        !y.nan,
        !x.is_infinite(),
        !y.is_infinite(),
        y.mag > 0,
    ensures
        !x.over(y).nan,
        x.over(y).neg == (x.neg != y.neg),
        !x.over(y).is_infinite() ==> pow2(53) * apart((x.over(y).mag * y.mag) as int, (x.mag * one()) as int) <= x.mag
            * one() + pow2(52) * y.mag,
{
    law_nearest(x.mag * one(), y.mag);
}

/// The product of two finite numbers is away from the true one by one part in
/// `2^53` at most, or by half a quantum; its sign is that of the true one.
pub proof fn law_times(x: Num, y: Num)
    requires
        !x.nan,
        !y.nan,
        !x.is_infinite(),
        !y.is_infinite(),
    ensures
        !x.times(y).nan,
        x.times(y).neg == (x.neg != y.neg),
        !x.times(y).is_infinite() ==> pow2(53) * apart((x.times(y).mag * one()) as int, (x.mag * y.mag) as int)
            <= x.mag * y.mag + pow2(52) * one(),
{
    lemma_pow2_pos(1074);
    law_nearest(x.mag * y.mag, one());
}

/// The sum of two finite numbers is away from the true one by one part in `2^53`
/// at most, or by half a quantum.
pub proof fn law_plus(x: Num, y: Num)
    requires
        !x.nan,
        !y.nan,
        !x.is_infinite(),
        !y.is_infinite(),
    ensures
        !x.plus(y).nan,
        !x.plus(y).is_infinite() ==> pow2(53) * apart(x.plus(y).value(), x.value() + y.value()) <= apart(
            x.value() + y.value(),
            0,
        ) + pow2(52),
{
    let sum = x.value() + y.value();
    let size = apart(sum, 0) as nat;
    law_nearest(size, 1);
    assert(nearest(size, 1) * 1 == nearest(size, 1));
    assert(pow2(52) * 1 == pow2(52));
    lemma_pow2_pos(52);
    lemma_pow2_pos(53);
    lemma_pow2_pos(2098);
    if sum == 0 {
        assert(pow2(53) * 0 == 0);
    }
}

/// A whole number below `2^53` is a finite number of that value.
pub proof fn lemma_whole_value(n: nat)
    requires
        n < pow2(53),
    ensures
        !whole(n).nan,
        !whole(n).neg,
        !whole(n).is_infinite(),
        whole(n).mag == n * one(),
{
    lemma_pow2_pos(1074);
    lemma_pow2_adds(1024, 1074);
    lemma_pow2_strictly_increases(53, 1024);
    lemma_mul_strict_inequality(n as int, pow2(1024) as int, one() as int);
}

/// The difference of two whole numbers is the whole number that it should be.
pub proof fn law_whole_minus(a: nat, b: nat)
    requires
        b <= a < pow2(53),
    ensures
        whole(a).plus(whole(b).negated()) == whole((a - b) as nat),
{
    lemma_whole_value(a);
    lemma_whole_value(b);
    let d = (a - b) as nat;
    lemma_whole_value(d);
    let sum = whole(a).value() + whole(b).negated().value();
    assert(sum == d * one()) by (nonlinear_arith)
        requires
            sum == a * one() - b * one(),
            d == a - b,
    ;
    lemma_nearest_representable(d, 1074);
    if d == 0 {
        assert(0 * one() == 0);
    } else {
        lemma_pow2_pos(1074);
        lemma_mul_strictly_positive(d as int, one() as int);
    }
}

/// What is taken as at least zero is the larger of the number and zero; zero
/// stands for what is no number.
pub proof fn law_at_least_zero(x: Num)
    ensures
        !at_least_zero(x).nan,
        at_least_zero(x).value() >= 0,
        x.nan ==> at_least_zero(x).value() == 0,
        !x.nan && x.value() >= 0 ==> at_least_zero(x) == x,
        !x.nan && x.value() < 0 ==> at_least_zero(x).value() == 0,
{
    lemma_pow2_pos(2098);
}

/// A number held between two bounds is between them, and is the bound that it is
/// beyond or else itself.
pub proof fn law_clamped(x: Num, low: Num, high: Num)
    requires
        !x.nan,
        low.at_most(high),
    ensures
        low.at_most(clamped(x, low, high)),
        clamped(x, low, high).at_most(high),
        low.at_most(x) && x.at_most(high) ==> clamped(x, low, high) == x,
        x.at_most(low) ==> clamped(x, low, high).value() == low.value(),
        high.at_most(x) ==> clamped(x, low, high).value() == high.value(),
{
}

/// The whole part of a number that is not negative is the largest whole number
/// that is not above it, up to the limit.
pub proof fn law_whole_part(x: Num)
    requires
        !x.nan,
        !x.neg,
        x.mag < 0x1_0000_0000_0000_0000 * one(),
    ensures
        whole_part(x) * one() <= x.mag < (whole_part(x) + 1) * one(),
{
    let o = one() as int;
    lemma_pow2_pos(1074);
    lemma_fundamental_div_mod(x.mag as int, o);
    lemma_mod_bound(x.mag as int, o);
    let w = (x.mag / one()) as int;
    assert(o * w == w * o && (w + 1) * o == w * o + o) by (nonlinear_arith);
    assert(w < 0x1_0000_0000_0000_0000) by (nonlinear_arith)
        requires
            w * o <= x.mag < 0x1_0000_0000_0000_0000 * o,
            o > 0,
    ;
}

/// A negative number, and what is no number, has no whole part; beyond the limit
/// it is the limit.
pub proof fn law_whole_part_ends(x: Num)
    ensures
        x.nan || x.neg ==> whole_part(x) == 0,
        !x.nan && !x.neg && x.mag >= 0x1_0000_0000_0000_0000 * one() ==> whole_part(x) == u64::MAX,
{
    let o = one() as int;
    lemma_pow2_pos(1074);
    lemma_fundamental_div_mod(x.mag as int, o);
    lemma_mod_bound(x.mag as int, o);
    let w = (x.mag / one()) as int;
    if x.mag >= 0x1_0000_0000_0000_0000 * one() {
        assert(w >= 0x1_0000_0000_0000_0000) by (nonlinear_arith)
            requires
                x.mag as int == o * w + x.mag % one(),
                x.mag % one() < o,
                x.mag >= 0x1_0000_0000_0000_0000 * o,
                o > 0,
        ;
    }
}

/// The nearest integer of a number that is not negative is at most one half away;
/// of two that are, it is the larger.
pub proof fn law_rounded_part(x: Num)
    requires
        !x.nan,
        !x.neg,
        x.mag < 0x8000_0000_0000_0000 * one(),
    ensures
        2 * (rounded_part(x) * one()) - one() <= 2 * x.mag < 2 * (rounded_part(x) * one()) + one(),
{
    let o = one() as int;
    lemma_pow2_pos(1074);
    let n = 2 * x.mag + o;
    lemma_fundamental_div_mod(n, 2 * o);
    lemma_mod_bound(n, 2 * o);
    let w = n / (2 * o);
    assert((2 * o) * w == 2 * (w * o)) by (nonlinear_arith);
    assert(w <= 0x8000_0000_0000_0000) by (nonlinear_arith)
        requires
            2 * (w * o) <= 2 * x.mag + o,
            x.mag < 0x8000_0000_0000_0000 * o,
            o > 0,
    ;
}

/// The key of the total order rises with the number: of two numbers, the one with
/// the lesser key is not the larger, and the smaller one has the lesser key.
pub proof fn law_total_key(a: Double, b: Double)
    requires
        !a@.nan,
        !b@.nan,
    ensures
        total_key(a.bits) <= total_key(b.bits) ==> a@.value() <= b@.value(),
        a@.value() < b@.value() ==> total_key(a.bits) < total_key(b.bits),
        total_key(a.bits) == total_key(b.bits) ==> a == b,
        a@.value() == b@.value() && a@.neg && !b@.neg ==> total_key(a.bits) < total_key(b.bits),
{
    let (x, y) = ((a.bits % 0x8000_0000_0000_0000) as nat, (b.bits % 0x8000_0000_0000_0000) as nat);
    if x < y {
        lemma_magnitude_ordered(x, y);
    } else if y < x {
        lemma_magnitude_ordered(y, x);
    }
    lemma_magnitude_bounds(x);
    lemma_magnitude_bounds(y);
}

/// What is no number comes after every number or, with a sign, before every number.
pub proof fn law_total_key_ends(a: Double, b: Double)
    requires
        !a@.nan,
        b@.nan,
    ensures
        b.bits < 0x8000_0000_0000_0000 ==> total_key(a.bits) < total_key(b.bits),
        b.bits >= 0x8000_0000_0000_0000 ==> total_key(b.bits) < total_key(a.bits),
{
}

/// A number is nearly whole exactly if it is above a whole number by less than
/// the epsilon.
pub proof fn law_nearly_whole(x: Num)
    requires
        !x.nan,
        !x.is_infinite(),
    ensures
        nearly_whole(x) <==> exists|w: nat| #[trigger] (w * one()) <= x.mag < w * one() + pow2(1022),
{
    let o = one() as int;
    lemma_pow2_pos(1074);
    lemma_pow2_strictly_increases(1022, 1074);
    lemma_fundamental_div_mod(x.mag as int, o);
    lemma_mod_bound(x.mag as int, o);
    let q = x.mag / one();
    lemma_mul_is_commutative(q as int, o);
    if nearly_whole(x) {
        assert(q * one() <= x.mag < q * one() + pow2(1022));
    }
    if exists|w: nat| #[trigger] (w * one()) <= x.mag < w * one() + pow2(1022) {
        let w = choose|w: nat| #[trigger] (w * one()) <= x.mag < w * one() + pow2(1022);
        lemma_fundamental_div_mod_converse(x.mag as int, o, w as int, x.mag - w * one());
    }
}

/// A double is what it rounds to.
pub proof fn lemma_double_rounded(x: Double)
    requires
        !x@.nan,
        !x@.is_infinite(),
    ensures
        nearest(x@.mag, 1) == x@.mag,
{
    let b = (x.bits % 0x8000_0000_0000_0000) as nat;
    lemma_pow2_52();
    let exponent = b / 0x10_0000_0000_0000;
    let fraction = b % 0x10_0000_0000_0000;
    if exponent == 0 {
        lemma_nearest_representable(fraction, 0);
        assert(fraction * 1 == fraction);
    } else {
        lemma_nearest_representable(0x10_0000_0000_0000 + fraction, (exponent - 1) as nat);
    }
}

/// Adding what is not negative never makes a number smaller, and taking it off
/// never larger.
pub proof fn law_plus_ordered(x: Double, y: Num)
    requires
        !x@.nan,
        !x@.is_infinite(),
        !y.nan,
        !y.neg,
        !y.is_infinite(),
    ensures
        !x@.plus(y).nan,
        !x@.plus(y.negated()).nan,
        x@.value() <= x@.plus(y).value(),
        x@.plus(y.negated()).value() <= x@.value(),
{
    lemma_double_rounded(x);
    lemma_pow2_pos(2098);
    let up = x@.value() + y.value();
    let low = x@.value() - y.value();
    if x@.neg {
        if up < 0 {
            law_nearest_ordered((-up) as nat, x@.mag, 1);
        }
        law_nearest_ordered(x@.mag, (-low) as nat, 1);
    } else {
        law_nearest_ordered(x@.mag, up as nat, 1);
        if low > 0 {
            law_nearest_ordered(low as nat, x@.mag, 1);
        }
    }
}

/// The difference of two numbers, the larger of which is the first and which are
/// not too far apart, is positive and finite, and away from the true one by one part
/// in `2^53` at most, or by half a quantum.
#[verifier::spinoff_prover]
pub proof fn law_minus(x: Num, y: Num)
    requires
        !x.nan && !x.is_infinite(),
        !y.nan && !y.is_infinite(),
        0 < x.value() - y.value() < 0x1000_0000_0000_0000 * one(),
    ensures
        ({
            let (d, v) = (x.plus(y.negated()), x.value() - y.value());
            &&& !d.nan && !d.neg && !d.is_infinite()
            &&& 0x20_0000_0000_0000 * apart(d.mag as int, v) <= v + 0x10_0000_0000_0000
        }),
{
    lemma_pow2_52();
    lemma_pow2_pos(1074);
    lemma_pow2_adds(64, 1074);
    lemma_pow2_strictly_increases(1138, 2098);
    let v = x.value() - y.value();
    assert(x.value() + y.negated().value() == v);
    let n = nearest(v as nat, 1);
    law_nearest(v as nat, 1);
    assert(n * 1 == n && pow2(52) * 1 == pow2(52));
    lemma2_to64();
    lemma_pow2_strictly_increases(64, 1074);
}

} // verus!
