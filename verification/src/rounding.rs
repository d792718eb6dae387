//! Rounding of exact ratios of natural numbers, to integers and to the
//! 53 significant bits of a double-precision number.
use vstd::arithmetic::div_mod::{
    lemma_div_denominator, lemma_div_multiples_vanish, lemma_fundamental_div_mod,
    lemma_fundamental_div_mod_converse, lemma_mod_bound, lemma_mod_multiples_basic,
};
use vstd::arithmetic::mul::{
    lemma_mul_inequality, lemma_mul_is_commutative, lemma_mul_strict_inequality, lemma_mul_strictly_positive,
};
use vstd::arithmetic::power2::{
    lemma2_to64, lemma_pow2_adds, lemma_pow2_pos, lemma_pow2_strictly_increases, lemma_pow2_unfold, pow2,
};
use vstd::prelude::*;

verus! {

/// The integer nearest to `n / d`; of two equally near, the even one.
pub open spec fn half_even(n: nat, d: nat) -> nat {
    let q = n / d;
    let r = n % d;
    if 2 * r < d || (2 * r == d && q % 2 == 0) {
        q
    } else {
        q + 1
    }
}

/// The position of the highest set bit of `q`; zero for zero.
pub open spec fn floor_log2(q: nat) -> nat
    decreases q,
{
    if q < 2 {
        0
    } else {
        1 + floor_log2(q / 2)
    }
}

/// The multiple of a power of two with at most 53 significant bits that is
/// nearest to `n / d`; of two equally near, the one whose last bit is zero.
pub open spec fn nearest(n: nat, d: nat) -> nat {
    let q = n / d;
    let k = if q < pow2(53) {
        0
    } else {
        (floor_log2(q) - 52) as nat
    };
    half_even(n, d * pow2(k)) * pow2(k)
}

/// `2^k` for a small `k`.
pub fn power(k: u32) -> (p: u128)
    requires
        k < 128,
    ensures
        p == pow2(k as nat),
{
    let mut p: u128 = 1;
    let mut i: u32 = 0;
    proof {
        lemma2_to64();
    }
    while i < k
        invariant
            i <= k < 128,
            p == pow2(i as nat),
        decreases k - i,
    {
        proof {
            lemma_pow2_unfold((i + 1) as nat);
            if i + 1 < 127 {
                lemma_pow2_strictly_increases((i + 1) as nat, 127);
            }
            lemma_pow2_127();
        }
        p = p * 2;
        i = i + 1;
    }
    p
}

proof fn lemma_pow2_127()
    ensures
        pow2(127) == 0x8000_0000_0000_0000_0000_0000_0000_0000nat,
        pow2(126) == 0x4000_0000_0000_0000_0000_0000_0000_0000nat,
{
    lemma2_to64();
    lemma_pow2_adds(64, 32);
    lemma_pow2_adds(96, 30);
    lemma_pow2_unfold(127);
}

/// Powers of two grow with their exponent.
pub proof fn lemma_pow2_ordered(a: nat, b: nat)
    requires
        a <= b,
    ensures
        pow2(a) <= pow2(b),
{
    if a < b {
        lemma_pow2_strictly_increases(a, b);
    }
}

/// The highest set bit brackets the number between two powers of two.
pub proof fn lemma_floor_log2(q: nat)
    requires
        q > 0,
    ensures
        pow2(floor_log2(q)) <= q < pow2(floor_log2(q) + 1),
    decreases q,
{
    lemma2_to64();
    if q >= 2 {
        lemma_floor_log2(q / 2);
        lemma_pow2_unfold(floor_log2(q));
        lemma_pow2_unfold(floor_log2(q) + 1);
    }
}

/// The bracket determines the highest set bit.
pub proof fn lemma_floor_log2_unique(q: nat, l: nat)
    requires
        pow2(l) <= q < pow2(l + 1),
    ensures
        floor_log2(q) == l,
{
    lemma_pow2_pos(l);
    lemma_floor_log2(q);
    let f = floor_log2(q);
    if f < l {
        lemma_pow2_ordered(f + 1, l);
    } else if l < f {
        lemma_pow2_ordered(l + 1, f);
    }
}

/// Scaling both parts of a ratio scales the remainder and keeps the quotient.
pub proof fn lemma_div_scale(n: nat, d: nat, c: nat)
    requires
        d > 0,
        c > 0,
    ensures
        d * c > 0,
        (n * c) / (d * c) == n / d,
        (n * c) % (d * c) == (n % d) * c,
{
    let q = (n / d) as int;
    let r = (n % d) as int;
    lemma_fundamental_div_mod(n as int, d as int);
    lemma_mod_bound(n as int, d as int);
    assert((n * c) as int == q * (d * c) + r * c) by (nonlinear_arith)
        requires
            n as int == d * q + r,
    ;
    assert(0 <= r * c < d * c) by (nonlinear_arith)
        requires
            0 <= r < d,
            c > 0,
    ;
    lemma_fundamental_div_mod_converse((n * c) as int, (d * c) as int, q, r * c);
}

/// Rounding to an integer depends on the ratio alone.
pub proof fn lemma_half_even_scale(n: nat, d: nat, c: nat)
    requires
        d > 0,
        c > 0,
    ensures
        d * c > 0,
        half_even(n * c, d * c) == half_even(n, d),
{
    lemma_div_scale(n, d, c);
    let r = (n % d) as int;
    assert(2 * (r * c) < d * c <==> 2 * r < d) by (nonlinear_arith)
        requires
            c > 0,
    ;
    assert(2 * (r * c) == d * c <==> 2 * r == d) by (nonlinear_arith)
        requires
            c > 0,
    ;
}

/// A whole number rounds to itself.
pub proof fn lemma_half_even_whole(n: nat, d: nat)
    requires
        d > 0,
    ensures
        half_even(n * d, d) == n,
{
    lemma_mod_multiples_basic(n as int, d as int);
    lemma_div_multiples_vanish(n as int, d as int);
    lemma_mul_is_commutative(n as int, d as int);
}

/// Rounding to 53 bits depends on the ratio alone.
pub proof fn lemma_nearest_scale(n: nat, d: nat, c: nat)
    requires
        d > 0,
        c > 0,
    ensures
        d * c > 0,
        nearest(n * c, d * c) == nearest(n, d),
{
    lemma_div_scale(n, d, c);
    let q = n / d;
    let k = if q < pow2(53) {
        0
    } else {
        (floor_log2(q) - 52) as nat
    };
    lemma_pow2_pos(k);
    assert((d * c) * pow2(k) == (d * pow2(k)) * c) by (nonlinear_arith);
    assert(d * pow2(k) > 0) by (nonlinear_arith)
        requires
            d > 0,
            pow2(k) > 0,
    ;
    lemma_half_even_scale(n, d * pow2(k), c);
}

/// Equal ratios round alike.
pub proof fn lemma_nearest_ratio(n1: nat, d1: nat, n2: nat, d2: nat)
    requires
        d1 > 0,
        d2 > 0,
        n1 * d2 == n2 * d1,
    ensures
        nearest(n1, d1) == nearest(n2, d2),
{
    lemma_nearest_scale(n1, d1, d2);
    lemma_nearest_scale(n2, d2, d1);
    lemma_mul_is_commutative(d1 as int, d2 as int);
}

/// Rounding `n / (d * 2^j)` only needs the integer quotient of `n / d` and
/// whether it left a remainder.
proof fn lemma_half_even_parts(n: nat, d: nat, j: nat)
    requires
        d > 0,
        j > 0,
    ensures
        d * pow2(j) > 0,
        ({
            let q = n / d;
            let hi = q / pow2(j);
            let low = q % pow2(j);
            let half = pow2((j - 1) as nat);
            half_even(n, d * pow2(j)) == if low < half || (low == half && n % d == 0 && hi % 2 == 0) {
                hi
            } else {
                hi + 1
            }
        }),
{
    let p = pow2(j);
    let half = pow2((j - 1) as nat);
    lemma_pow2_pos(j);
    lemma_pow2_unfold(j);
    let q = n / d;
    let r = n % d;
    let hi = q / p;
    let low = q % p;
    lemma_fundamental_div_mod(n as int, d as int);
    lemma_mod_bound(n as int, d as int);
    lemma_fundamental_div_mod(q as int, p as int);
    lemma_mod_bound(q as int, p as int);
    let rem = low * d + r;
    assert(n as int == hi * (d * p) + rem) by (nonlinear_arith)
        requires
            n as int == d * q + r,
            q as int == p * hi + low,
            rem as int == low * d + r,
    ;
    assert(0 <= rem < d * p) by (nonlinear_arith)
        requires
            rem as int == low * d + r,
            0 <= low <= p - 1,
            0 <= r < d,
    ;
    lemma_fundamental_div_mod_converse(n as int, (d * p) as int, hi as int, rem as int);
    assert(2 * rem < d * p <==> low < half) by (nonlinear_arith)
        requires
            rem as int == low * d + r,
            0 <= r < d,
            p == 2 * half,
    ;
    assert(2 * rem == d * p <==> (low == half && r == 0)) by (nonlinear_arith)
        requires
            rem as int == low * d + r,
            0 <= r < d,
            p == 2 * half,
    ;
}

/// What is above the exponent when it is positive.
pub open spec fn up(e: int) -> nat {
    pow2(if e > 0 {
        e as nat
    } else {
        0
    })
}

/// What is below when it is negative.
pub open spec fn down(e: int) -> nat {
    pow2(if e < 0 {
        (-e) as nat
    } else {
        0
    })
}

/// The highest bit of `(n / d) * 2^e`, from that of the integer quotient.
proof fn lemma_scaled_log2(n: nat, d: nat, e: int)
    requires
        d > 0,
        n / d > 0,
    ensures
        d * down(e) > 0,
        ({
            let l = floor_log2(n / d);
            let q = (n * up(e)) / (d * down(e));
            &&& l + e >= 0 ==> pow2((l + e) as nat) <= q < pow2((l + e + 1) as nat)
            &&& l + e < 0 ==> q == 0
        }),
{
    let q0 = n / d;
    let l = floor_log2(q0);
    lemma2_to64();
    lemma_floor_log2(q0);
    lemma_fundamental_div_mod(n as int, d as int);
    lemma_mod_bound(n as int, d as int);
    if e >= 0 {
        let p = pow2(e as nat);
        lemma_pow2_pos(e as nat);
        assert(up(e) == p);
        assert(down(e) == 1);
        let m = n * p;
        let q = m / d;
        assert(d * down(e) == d);
        lemma_fundamental_div_mod(m as int, d as int);
        lemma_mod_bound(m as int, d as int);
        assert(q0 * p <= q) by (nonlinear_arith)
            requires
                m == n * p,
                m as int == d * q + m % d,
                0 <= m % d < d,
                n as int == d * q0 + n % d,
                0 <= n % d < d,
                p > 0,
        ;
        assert(q < (q0 + 1) * p) by (nonlinear_arith)
            requires
                m == n * p,
                m as int == d * q + m % d,
                0 <= m % d < d,
                n as int == d * q0 + n % d,
                0 <= n % d < d,
                p > 0,
        ;
        lemma_pow2_adds(l, e as nat);
        lemma_pow2_adds(l + 1, e as nat);
        lemma_mul_inequality(pow2(l) as int, q0 as int, p as int);
        lemma_mul_inequality((q0 + 1) as int, pow2(l + 1) as int, p as int);
        assert((l + e) as nat == l + (e as nat));
        assert((l + e + 1) as nat == (l + 1) + (e as nat));
    } else {
        let f = (-e) as nat;
        let p = pow2(f);
        lemma_pow2_pos(f);
        assert(up(e) == 1);
        assert(down(e) == p);
        assert(n * up(e) == n);
        lemma_mul_strictly_positive(d as int, p as int);
        lemma_div_denominator(n as int, d as int, p as int);
        let q = q0 / p;
        lemma_fundamental_div_mod(q0 as int, p as int);
        lemma_mod_bound(q0 as int, p as int);
        if l + e >= 0 {
            let g = (l + e) as nat;
            lemma_pow2_adds(g, f);
            lemma_pow2_adds(g + 1, f);
            assert(l == g + f);
            assert(pow2(g) <= q) by (nonlinear_arith)
                requires
                    pow2(g) * p <= q0,
                    q0 as int == p * q + q0 % p,
                    q0 % p < p,
                    p > 0,
            ;
            assert(q < pow2(g + 1)) by (nonlinear_arith)
                requires
                    q0 < pow2(g + 1) * p,
                    q0 as int == p * q + q0 % p,
                    q0 % p >= 0,
                    p > 0,
            ;
        } else {
            lemma_pow2_ordered(l + 1, f);
            assert(q == 0) by (nonlinear_arith)
                requires
                    q0 < p,
                    q0 as int == p * q + q0 % p,
                    q0 % p >= 0,
                    p > 0,
            ;
        }
    }
}

/// Rounds `(n / d) * 2^e` to 53 bits, from the integer quotient `q` of `n / d`
/// and whether it is exact. The result is the pair of a significand and the
/// power of two it is scaled by.
pub fn round_scaled(q: u128, exact: bool, e: i32, Ghost(n): Ghost<nat>, Ghost(d): Ghost<nat>) -> (r: (u64, u32))
    requires
        d > 0,
        q == n / d,
        exact == (n % d == 0),
        0x40_0000_0000_0000 <= q < 0x4000_0000_0000_0000_0000_0000_0000_0000,
        -10000 <= e <= 10000,
    ensures
        d * down(e as int) > 0,
        r.0 * pow2(r.1 as nat) == nearest(n * up(e as int), d * down(e as int)),
        r.0 <= 0x20_0000_0000_0000,
        r.0 < 0x10_0000_0000_0000 ==> r.1 == 0,
        r.1 <= 11000,
{
    let mut l: u32 = 0;
    let mut t: u128 = q;
    proof {
        lemma2_to64();
        assert(q as nat * pow2(0) <= q) by (nonlinear_arith)
            requires
                pow2(0) == 1,
        ;
    }
    while t > 1
        invariant
            floor_log2(q as nat) == l + floor_log2(t as nat),
            1 <= t <= q,
            l <= 126,
            t as nat * pow2(l as nat) <= q,
            q < 0x4000_0000_0000_0000_0000_0000_0000_0000,
        decreases t,
    {
        proof {
            let h = (t / 2) as nat;
            lemma_pow2_unfold((l + 1) as nat);
            lemma_pow2_pos(l as nat);
            assert(h * pow2((l + 1) as nat) <= q) by (nonlinear_arith)
                requires
                    2 * h <= t as nat,
                    t as nat * pow2(l as nat) <= q,
                    pow2((l + 1) as nat) == 2 * pow2(l as nat),
                    pow2(l as nat) > 0,
            ;
            lemma_pow2_127();
            if l + 1 > 125 {
                lemma_pow2_ordered(126, (l + 1) as nat);
                assert(h >= 1);
                assert(h * pow2((l + 1) as nat) >= pow2((l + 1) as nat)) by (nonlinear_arith)
                    requires
                        h >= 1,
                ;
            }
        }
        t = t / 2;
        l = l + 1;
    }
    proof {
        assert(l == floor_log2(q as nat));
        lemma_floor_log2(q as nat);
        lemma2_to64();
        lemma_pow2_54();
        lemma_pow2_127();
        if l < 54 {
            lemma_pow2_ordered((l + 1) as nat, 54);
        }
        if l > 125 {
            lemma_pow2_ordered(126, l as nat);
        }
        assert(54 <= l <= 125);
    }
    let top: i32 = l as i32 + e;
    let k: i32 = if top > 52 {
        top - 52
    } else {
        0
    };
    let j: i32 = k - e;
    let ghost qs = (n * up(e as int)) / (d * down(e as int));
    proof {
        lemma_scaled_log2(n, d, e as int);
        if top >= 53 {
            lemma_floor_log2_unique(qs, top as nat);
            lemma_pow2_ordered(53, top as nat);
        } else if top >= 0 {
            lemma_pow2_ordered((top + 1) as nat, 53);
        } else {
            lemma_pow2_pos(53);
        }
        let kk: nat = if qs < pow2(53) {
            0
        } else {
            (floor_log2(qs) - 52) as nat
        };
        assert(kk == k as nat);
        // the rounding of the scaled ratio is that of n / (d * 2^j)
        lemma_pow2_pos(j as nat);
        if e >= 0 {
            lemma_pow2_adds(j as nat, e as nat);
            lemma_pow2_pos(e as nat);
            assert(d * down(e as int) * pow2(kk) == (d * pow2(j as nat)) * pow2(e as nat)) by (nonlinear_arith)
                requires
                    down(e as int) == 1,
                    pow2(kk) == pow2(j as nat) * pow2(e as nat),
            ;
            lemma_mul_strictly_positive(d as int, pow2(j as nat) as int);
            lemma_half_even_scale(n, d * pow2(j as nat), pow2(e as nat));
            assert(up(e as int) == pow2(e as nat));
        } else {
            let f = (-e) as nat;
            lemma_pow2_adds(f, kk);
            assert(d * down(e as int) * pow2(kk) == d * pow2(j as nat)) by (nonlinear_arith)
                requires
                    down(e as int) == pow2(f),
                    pow2(j as nat) == pow2(f) * pow2(kk),
            ;
            assert(n * up(e as int) == n) by (nonlinear_arith)
                requires
                    up(e as int) == 1,
            ;
        }
        assert(nearest(n * up(e as int), d * down(e as int)) == half_even(n, d * pow2(j as nat)) * pow2(kk));
        lemma_half_even_parts(n, d, j as nat);
    }
    if j > l as i32 + 1 {
        proof {
            lemma_pow2_ordered((l + 1) as nat, (j - 1) as nat);
            lemma_pow2_unfold(j as nat);
            lemma_small(q as nat, pow2(j as nat));
        }
        return (0, 0);
    }
    let half: u128 = power((j - 1) as u32);
    proof {
        lemma_pow2_unfold(j as nat);
        lemma_pow2_ordered(j as nat, 126);
    }
    let whole: u128 = half * 2;
    let hi: u128 = q / whole;
    let low: u128 = q % whole;
    proof {
        lemma_fundamental_div_mod(q as int, whole as int);
        // the quotient keeps at most 53 bits
        lemma_pow2_adds(53, j as nat);
        lemma_pow2_ordered((l + 1) as nat, (53 + j) as nat);
        assert(hi < pow2(53)) by (nonlinear_arith)
            requires
                q < pow2(53) * whole,
                q as int == whole * hi + low,
                low >= 0,
                whole > 0,
        ;
        if k > 0 {
            lemma_pow2_adds(52, j as nat);
            assert(l == 52 + j);
            assert(hi >= pow2(52)) by (nonlinear_arith)
                requires
                    q >= pow2(52) * whole,
                    q as int == whole * hi + low,
                    low < whole,
                    whole > 0,
            ;
        }
        lemma_pow2_54();
    }
    let m: u64 = if low < half || (low == half && exact && hi % 2 == 0) {
        hi as u64
    } else {
        hi as u64 + 1
    };
    (m, k as u32)
}

proof fn lemma_pow2_54()
    ensures
        pow2(52) == 0x10_0000_0000_0000,
        pow2(53) == 0x20_0000_0000_0000,
        pow2(54) == 0x40_0000_0000_0000,
{
    lemma2_to64();
    lemma_pow2_adds(32, 20);
    lemma_pow2_unfold(53);
    lemma_pow2_unfold(54);
}

proof fn lemma_small(x: nat, m: nat)
    requires
        x < m,
    ensures
        x / m == 0,
        x % m == x,
{
    lemma_fundamental_div_mod_converse(x as int, m as int, 0, x as int);
}

/// A number with at most 53 significant bits rounds to itself.
pub proof fn lemma_nearest_representable(m: nat, e: nat)
    requires
        m < pow2(53),
    ensures
        nearest(m * pow2(e), 1) == m * pow2(e),
{
    let v = m * pow2(e);
    lemma2_to64();
    lemma_pow2_pos(e);
    lemma_fundamental_div_mod_converse(v as int, 1, v as int, 0);
    if v < pow2(53) {
        lemma_half_even_whole(v, 1);
        assert(1 * pow2(0) == 1);
        assert(v * 1 == v);
    } else {
        assert(m > 0) by (nonlinear_arith)
            requires
                m * pow2(e) >= pow2(53),
                pow2(53) > 0,
        ;
        let l = floor_log2(m);
        lemma_floor_log2(m);
        lemma_pow2_adds(l, e);
        lemma_pow2_adds(l + 1, e);
        lemma_mul_inequality(pow2(l) as int, m as int, pow2(e) as int);
        lemma_mul_strict_inequality(m as int, pow2(l + 1) as int, pow2(e) as int);
        lemma_floor_log2_unique(v, l + e);
        if l > 52 {
            lemma_pow2_ordered(53, l);
        }
        if l + e < 53 {
            lemma_pow2_ordered(l + e + 1, 53);
        }
        let k = (l + e - 52) as nat;
        let j = (e - k) as nat;
        lemma_pow2_adds(j, k);
        assert(v == (m * pow2(j)) * pow2(k)) by (nonlinear_arith)
            requires
                v == m * pow2(e),
                pow2(e) == pow2(j) * pow2(k),
        ;
        lemma_pow2_pos(k);
        lemma_half_even_whole(m * pow2(j), pow2(k));
        assert(1 * pow2(k) == pow2(k));
    }
}

/// How far two numbers are apart.
pub open spec fn apart(a: int, b: int) -> int {
    if a < b {
        b - a
    } else {
        a - b
    }
}

/// The integer that a ratio rounds to is at most one half away from it; of two
/// that are, it is the even one.
pub proof fn law_half_even(n: nat, d: nat)
    requires
        d > 0,
    ensures
        2 * apart((half_even(n, d) * d) as int, n as int) <= d,
        2 * apart((half_even(n, d) * d) as int, n as int) == d ==> half_even(n, d) % 2 == 0,
{
    let (q, r) = ((n / d) as int, (n % d) as int);
    lemma_fundamental_div_mod(n as int, d as int);
    lemma_mod_bound(n as int, d as int);
    lemma_mul_is_commutative(q, d as int);
    assert((q + 1) * d == q * d + d) by (nonlinear_arith);
}

/// What a ratio rounds to is away from it by one part in `2^53` at most, or, for
/// the smallest ratios, by one half.
pub proof fn law_nearest(n: nat, d: nat)
    requires
        d > 0,
    ensures
        pow2(53) * apart((nearest(n, d) * d) as int, n as int) <= n + pow2(52) * d,
{
    let q = n / d;
    let k = if q < pow2(53) {
        0
    } else {
        (floor_log2(q) - 52) as nat
    };
    let p = pow2(k);
    lemma_pow2_pos(k);
    lemma_mul_strictly_positive(d as int, p as int);
    let h = half_even(n, d * p);
    law_half_even(n, d * p);
    assert((h * p) * d == h * (d * p)) by (nonlinear_arith);
    let gap = apart((h * (d * p)) as int, n as int);
    let (u, v) = (pow2(52) as int, pow2(53) as int);
    lemma_pow2_unfold(53);
    lemma_pow2_pos(52);
    lemma_fundamental_div_mod(n as int, d as int);
    lemma_mod_bound(n as int, d as int);
    if q < pow2(53) {
        lemma2_to64();
        assert(v * gap <= u * d) by (nonlinear_arith)
            requires
                2 * gap <= d * p,
                p == 1,
                v == 2 * u,
                u > 0,
        ;
    } else {
        lemma_floor_log2(q);
        if floor_log2(q) < 53 {
            lemma_pow2_ordered(floor_log2(q) + 1, 53);
        }
        lemma_pow2_adds(52, k);
        assert(v * gap <= n) by (nonlinear_arith)
            requires
                2 * gap <= d * p,
                v == 2 * u,
                u * p <= q,
                n as int == d * q + n % d,
                n % d >= 0,
                u > 0,
                d > 0,
        ;
    }
}

/// From `2^53` on a ratio rounds to a number that is away from it by one part in
/// `2^53` at most.
pub proof fn law_nearest_relative(n: nat, d: nat)
    requires
        d > 0,
        n / d >= pow2(53),
    ensures
        pow2(53) * apart((nearest(n, d) * d) as int, n as int) <= n,
{
    let q = n / d;
    lemma_pow2_pos(53);
    lemma_floor_log2(q);
    if floor_log2(q) < 53 {
        lemma_pow2_ordered(floor_log2(q) + 1, 53);
    }
    let k = (floor_log2(q) - 52) as nat;
    let p = pow2(k);
    lemma_pow2_pos(k);
    lemma_mul_strictly_positive(d as int, p as int);
    let h = half_even(n, d * p);
    law_half_even(n, d * p);
    assert((h * p) * d == h * (d * p)) by (nonlinear_arith);
    let gap = apart((h * (d * p)) as int, n as int);
    let (u, v) = (pow2(52) as int, pow2(53) as int);
    lemma_pow2_unfold(53);
    lemma_pow2_pos(52);
    lemma_fundamental_div_mod(n as int, d as int);
    lemma_mod_bound(n as int, d as int);
    lemma_pow2_adds(52, k);
    assert(v * gap <= n) by (nonlinear_arith)
        requires
            2 * gap <= d * p,
            v == 2 * u,
            u * p <= q,
            n as int == d * q + n % d,
            n % d >= 0,
            u > 0,
            d > 0,
    ;
}

/// Whether `count` steps stand for `total`: to half a step, up to one part in
/// `2^48` of either.
pub open spec fn within(count: nat, step: nat, total: nat) -> bool {
    pow2(48) * (2 * apart((count * step) as int, total as int) - step) <= step + total
}

/// Where the step and the total are counted in larger units, and there are fewer
/// than `2^48` of those, `count` steps stand for `total` to half a step exactly.
pub proof fn lemma_within_exact(count: nat, step: nat, total: nat, unit: nat)
    requires
        unit > 0,
        within(count, step * unit, total * unit),
        step + total < pow2(48),
    ensures
        2 * apart((count * step) as int, total as int) <= step,
{
    let (c, t) = ((count * step) as int, total as int);
    let gap = apart(c, t);
    let m = pow2(48) as int;
    lemma_pow2_pos(48);
    assert(count * (step * unit) == c * unit) by (nonlinear_arith)
        requires
            c == count * step,
    ;
    assert(apart(c * unit, t * unit) == gap * unit) by (nonlinear_arith)
        requires
            unit > 0,
            gap == if c < t {
                t - c
            } else {
                c - t
            },
    ;
    if 2 * gap > step {
        let (over, u) = (2 * gap - step, unit as int);
        assert(2 * (gap * u) - step * u == over * u) by (nonlinear_arith)
            requires
                over == 2 * gap - step,
        ;
        assert(m * (over * u) >= m * u) by (nonlinear_arith)
            requires
                over >= 1,
                u > 0,
                m > 0,
        ;
        assert(step * u + t * u < m * u) by (nonlinear_arith)
            requires
                step + t < m,
                u > 0,
        ;
    }
}

/// What is bracketed by whole numbers rounds to between them.
proof fn lemma_half_even_bracket(n: nat, d: nat, low: nat, high: nat)
    requires
        d > 0,
        low * d <= n <= high * d,
    ensures
        low <= half_even(n, d) <= high,
{
    let h = half_even(n, d);
    law_half_even(n, d);
    if h < low {
        assert(2 * (low * d - h * d) <= d) by {
            assert(h * d <= low * d) by (nonlinear_arith)
                requires
                    h < low,
                    d > 0,
            ;
        }
        assert(false) by (nonlinear_arith)
            requires
                2 * (low * d - h * d) <= d,
                h + 1 <= low,
                d > 0,
        ;
    }
    if h > high {
        assert(high * d <= h * d) by (nonlinear_arith)
            requires
                h > high,
                d > 0,
        ;
        assert(false) by (nonlinear_arith)
            requires
                2 * (h * d - high * d) <= d,
                high + 1 <= h,
                d > 0,
        ;
    }
}

/// A larger ratio never rounds to a smaller integer.
pub proof fn law_half_even_ordered(a: nat, b: nat, d: nat)
    requires
        d > 0,
        a <= b,
    ensures
        half_even(a, d) <= half_even(b, d),
{
    let (qa, qb) = ((a / d) as int, (b / d) as int);
    lemma_fundamental_div_mod(a as int, d as int);
    lemma_mod_bound(a as int, d as int);
    lemma_fundamental_div_mod(b as int, d as int);
    lemma_mod_bound(b as int, d as int);
    if qa > qb {
        assert(false) by (nonlinear_arith)
            requires
                a as int == d * qa + a % d,
                b as int == d * qb + b % d,
                a % d >= 0,
                b % d < d,
                qa >= qb + 1,
                a <= b,
                d > 0,
        ;
    }
}

/// The power of two that a rounded ratio is a multiple of.
pub open spec fn scale(n: nat, d: nat) -> nat {
    if n / d < pow2(53) {
        0
    } else {
        (floor_log2(n / d) - 52) as nat
    }
}

/// What a ratio rounds to is below the next power of two that it could reach.
proof fn lemma_nearest_range(n: nat, d: nat)
    requires
        d > 0,
    ensures
        nearest(n, d) <= pow2(53 + scale(n, d)),
        scale(n, d) > 0 ==> nearest(n, d) >= pow2(52 + scale(n, d)),
{
    let k = scale(n, d);
    let q = n / d;
    let p = pow2(k);
    lemma_pow2_pos(k);
    lemma_mul_strictly_positive(d as int, p as int);
    lemma_fundamental_div_mod(n as int, d as int);
    lemma_mod_bound(n as int, d as int);
    lemma_pow2_adds(53, k);
    lemma_pow2_adds(52, k);
    lemma_pow2_pos(53);
    if q >= pow2(53) {
        lemma_floor_log2(q);
        if floor_log2(q) < 53 {
            lemma_pow2_ordered(floor_log2(q) + 1, 53);
        }
    } else {
        lemma2_to64();
    }
    let (h, top) = (half_even(n, d * p), pow2(53));
    assert(n <= top * (d * p)) by (nonlinear_arith)
        requires
            n as int == d * q + n % d,
            n % d < d,
            q + 1 <= top * p,
            d > 0,
    ;
    assert(0 * (d * p) == 0);
    lemma_half_even_bracket(n, d * p, 0, top);
    assert(h * p <= top * p) by (nonlinear_arith)
        requires
            h <= top,
            p > 0,
    ;
    if k > 0 {
        let low = pow2(52);
        assert(low * (d * p) <= n) by (nonlinear_arith)
            requires
                n as int == d * q + n % d,
                n % d >= 0,
                low * p <= q,
                d > 0,
        ;
        lemma_half_even_bracket(n, d * p, low, top);
        assert(low * p <= h * p) by (nonlinear_arith)
            requires
                low <= h,
                p > 0,
        ;
    }
}

/// A larger ratio never rounds to a smaller number.
pub proof fn law_nearest_ordered(a: nat, b: nat, d: nat)
    requires
        d > 0,
        a <= b,
    ensures
        nearest(a, d) <= nearest(b, d),
{
    let (ka, kb) = (scale(a, d), scale(b, d));
    let (qa, qb) = (a / d, b / d);
    lemma_fundamental_div_mod(a as int, d as int);
    lemma_mod_bound(a as int, d as int);
    lemma_fundamental_div_mod(b as int, d as int);
    lemma_mod_bound(b as int, d as int);
    assert(qa <= qb) by (nonlinear_arith)
        requires
            a as int == d * qa + a % d,
            b as int == d * qb + b % d,
            a % d >= 0,
            b % d < d,
            a <= b,
            d > 0,
    ;
    lemma_pow2_pos(53);
    lemma_floor_log2_ordered(qa, qb);
    if qa >= pow2(53) {
        lemma_floor_log2(qa);
        if floor_log2(qa) < 53 {
            lemma_pow2_ordered(floor_log2(qa) + 1, 53);
        }
    }
    if ka == kb {
        let p = pow2(ka);
        lemma_pow2_pos(ka);
        lemma_mul_strictly_positive(d as int, p as int);
        law_half_even_ordered(a, b, d * p);
        let (ha, hb) = (half_even(a, d * p), half_even(b, d * p));
        assert(ha * p <= hb * p) by (nonlinear_arith)
            requires
                ha <= hb,
                p > 0,
        ;
    } else {
        assert(ka < kb);
        lemma_nearest_range(a, d);
        lemma_nearest_range(b, d);
        lemma_pow2_ordered(53 + ka, 52 + kb);
    }
}

/// A larger number has no lower highest bit.
proof fn lemma_floor_log2_ordered(a: nat, b: nat)
    requires
        a <= b,
    ensures
        floor_log2(a) <= floor_log2(b),
    decreases b,
{
    if a >= 2 {
        lemma_floor_log2_ordered(a / 2, b / 2);
    }
}

} // verus!
