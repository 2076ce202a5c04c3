//! Floating-point numbers as bit patterns.
//!
//! A 64-bit pattern is a sign bit, eleven exponent bits and 52 fraction bits (IEEE 754
//! binary64); a 32-bit pattern has eight exponent bits and 23 fraction bits. The library holds,
//! orders and converts the patterns as integers.

use vstd::arithmetic::div_mod::*;
use vstd::arithmetic::mul::*;
use vstd::arithmetic::power2::*;
use vstd::prelude::*;

verus! {

/// The sign bit of a 64-bit pattern.
pub const SIGN: u64 = 0x8000_0000_0000_0000;

/// The pattern of positive infinity; a larger magnitude is not a number.
pub const INFINITY: u64 = 0x7ff0_0000_0000_0000;

/// A pattern that is not a number.
pub const NAN: u64 = 0x7ff8_0000_0000_0000;

/// The pattern without its sign.
pub open spec fn magnitude(b: u64) -> int {
    b as int % SIGN as int
}

/// Tells whether the pattern is not a number.
pub open spec fn is_nan(b: u64) -> bool {
    magnitude(b) > INFINITY
}

/// Tells whether the pattern stands for a real number.
pub open spec fn is_finite(b: u64) -> bool {
    magnitude(b) < INFINITY
}

/// The place of a pattern in the order of the numbers: the magnitude, negative under a sign.
pub open spec fn rank(b: u64) -> int {
    if b >= SIGN {
        -magnitude(b)
    } else {
        magnitude(b)
    }
}

/// The number that a finite magnitude stands for, in units of two to the power -1074.
pub open spec fn units(m: int) -> int {
    let e = m / 0x10_0000_0000_0000;
    let f = m % 0x10_0000_0000_0000;
    if e == 0 {
        f
    } else {
        (0x10_0000_0000_0000 + f) * pow2((e - 1) as nat) as int
    }
}

/// The number that a finite pattern stands for, in units of two to the power -1074.
pub open spec fn value_units(b: u64) -> int {
    if b >= SIGN {
        -units(magnitude(b))
    } else {
        units(magnitude(b))
    }
}

/// `a < b` as numbers.
pub open spec fn lt(a: u64, b: u64) -> bool {
    !is_nan(a) && !is_nan(b) && rank(a) < rank(b)
}

/// `a == b` as numbers: both zeros are equal, and a pattern that is not a number equals none.
pub open spec fn eq(a: u64, b: u64) -> bool {
    !is_nan(a) && !is_nan(b) && rank(a) == rank(b)
}

proof fn lemma_units_increase(x: int, y: int)
    requires
        0 <= x < y < INFINITY,
    ensures
        units(x) < units(y),
{
    let d = 0x10_0000_0000_0000int;
    let ex = x / d;
    let ey = y / d;
    let fx = x % d;
    let fy = y % d;
    if ex == ey {
        if ex > 0 {
            let p = pow2((ex - 1) as nat) as int;
            lemma_pow2_pos((ex - 1) as nat);
            assert((d + fx) * p < (d + fy) * p) by (nonlinear_arith)
                requires
                    fx < fy,
                    p > 0,
            ;
        }
    } else {
        let py = pow2((ey - 1) as nat) as int;
        lemma_pow2_pos((ey - 1) as nat);
        assert((d + fy) * py >= d * py) by (nonlinear_arith)
            requires
                fy >= 0,
                py > 0,
        ;
        if ex == 0 {
            assert(d * py >= d) by (nonlinear_arith)
                requires
                    d > 0,
                    py > 0,
            ;
        } else {
            let px = pow2((ex - 1) as nat) as int;
            lemma_pow2_pos((ex - 1) as nat);
            lemma_pow2_unfold(ex as nat);
            assert(pow2(ex as nat) == 2 * px);
            assert((d + fx) * px < d * (2 * px)) by (nonlinear_arith)
                requires
                    fx < d,
                    px > 0,
            ;
            if ex < ey - 1 {
                lemma_pow2_strictly_increases(ex as nat, (ey - 1) as nat);
            }
            assert(d * (2 * px) <= d * py) by (nonlinear_arith)
                requires
                    2 * px <= py,
                    d > 0,
            ;
        }
    }
}

/// The order of the patterns is the order of the real numbers that they stand for.
pub proof fn law_order_is_numeric(a: u64, b: u64)
    requires
        is_finite(a),
        is_finite(b),
    ensures
        lt(a, b) <==> value_units(a) < value_units(b),
        eq(a, b) <==> value_units(a) == value_units(b),
{
    let x = magnitude(a);
    let y = magnitude(b);
    if x < y {
        lemma_units_increase(x, y);
    }
    if y < x {
        lemma_units_increase(y, x);
    }
    if 0 < x {
        lemma_units_increase(0, x);
    }
    if 0 < y {
        lemma_units_increase(0, y);
    }
    assert(units(0) == 0);
}

/// Not-a-number compares as neither smaller, greater nor equal to any pattern.
pub proof fn law_nan_is_unordered(a: u64, b: u64)
    requires
        is_nan(a),
    ensures
        !lt(a, b),
        !lt(b, a),
        !eq(a, b),
        !eq(b, a),
{
}

fn rank_of(b: u64) -> (r: i128)
    ensures
        r == rank(b),
{
    if b >= SIGN {
        -((b - SIGN) as i128)
    } else {
        b as i128
    }
}

/// Tells whether the pattern is not a number.
pub fn not_a_number(b: u64) -> (r: bool)
    ensures
        r == is_nan(b),
{
    b % SIGN > INFINITY
}

/// `a < b` as numbers.
pub fn less(a: u64, b: u64) -> (r: bool)
    ensures
        r == lt(a, b),
{
    !not_a_number(a) && !not_a_number(b) && rank_of(a) < rank_of(b)
}

/// `a == b` as numbers.
pub fn equal(a: u64, b: u64) -> (r: bool)
    ensures
        r == eq(a, b),
{
    !not_a_number(a) && !not_a_number(b) && rank_of(a) == rank_of(b)
}

// ---------------------------------------------------------------------------
// Powers of two and leading bits
// ---------------------------------------------------------------------------

/// The position of the highest set bit of `n`.
pub open spec fn top_bit(n: nat) -> nat
    decreases n,
{
    if n <= 1 {
        0
    } else {
        1 + top_bit(n / 2)
    }
}

proof fn lemma_top_bit(n: nat)
    requires
        n > 0,
    ensures
        pow2(top_bit(n)) <= n < pow2(top_bit(n) + 1),
    decreases n,
{
    lemma2_to64();
    if n > 1 {
        lemma_top_bit(n / 2);
        lemma_pow2_unfold(top_bit(n));
        lemma_pow2_unfold(top_bit(n) + 1);
    }
}

proof fn lemma_top_bit_is(n: nat, t: nat)
    requires
        pow2(t) <= n < pow2(t + 1),
    ensures
        top_bit(n) == t,
{
    lemma_pow2_pos(t);
    lemma_top_bit(n);
    let u = top_bit(n);
    if u < t {
        if u + 1 < t {
            lemma_pow2_strictly_increases(u + 1, t);
        }
    } else if t < u {
        if t + 1 < u {
            lemma_pow2_strictly_increases(t + 1, u);
        }
    }
}

fn power_of_two(k: u32) -> (r: u128)
    requires
        k < 128,
    ensures
        r == pow2(k as nat),
{
    let mut p: u128 = 1;
    let mut i: u32 = 0;
    proof {
        lemma2_to64();
        lemma_pow2_is_u128();
    }
    while i < k
        invariant
            i <= k < 128,
            p == pow2(i as nat),
            pow2(127) < 0x8000_0000_0000_0000_0000_0000_0000_0001,
        decreases k - i,
    {
        proof {
            lemma_pow2_unfold((i + 1) as nat);
            if i + 1 < 127 {
                lemma_pow2_strictly_increases((i + 1) as nat, 127);
            }
        }
        p = p * 2;
        i += 1;
    }
    p
}

proof fn lemma_pow2_is_u128()
    ensures
        pow2(52) == 0x10_0000_0000_0000,
        pow2(53) == 0x20_0000_0000_0000,
        pow2(63) == 0x8000_0000_0000_0000,
        pow2(64) == 0x1_0000_0000_0000_0000,
        pow2(127) == 0x8000_0000_0000_0000_0000_0000_0000_0000,
{
    lemma2_to64();
    lemma2_to64_rest();
    lemma_pow2_adds(63, 64);
    assert(0x8000_0000_0000_0000int * 0x1_0000_0000_0000_0000int
        == 0x8000_0000_0000_0000_0000_0000_0000_0000int) by (nonlinear_arith);
}

fn leading_bit(n: u128) -> (r: u32)
    requires
        n > 0,
    ensures
        r == top_bit(n as nat),
        r < 128,
{
    let mut t: u32 = 0;
    let mut m: u128 = n;
    proof {
        lemma_top_bit(n as nat);
        lemma_pow2_is_u128();
        lemma_pow2_unfold(128);
        if top_bit(n as nat) >= 128 {
            if top_bit(n as nat) > 128 {
                lemma_pow2_strictly_increases(128, top_bit(n as nat));
            }
        }
    }
    while m > 1
        invariant
            m > 0,
            t + top_bit(m as nat) == top_bit(n as nat),
            top_bit(n as nat) < 128,
        decreases m,
    {
        m = m / 2;
        t += 1;
    }
    t
}

// ---------------------------------------------------------------------------
// From 32 to 64 bits
// ---------------------------------------------------------------------------

/// The magnitude of the 64-bit pattern for the same number as the 32-bit pattern `b`.
pub open spec fn widened_magnitude(b: u32) -> int {
    let e = (b as int / 0x80_0000) % 256;
    let f = b as int % 0x80_0000;
    if e == 255 {
        INFINITY + f * 0x2000_0000
    } else if e > 0 {
        (e + 896) * 0x10_0000_0000_0000 + f * 0x2000_0000
    } else if f == 0 {
        0
    } else {
        let t = top_bit(f as nat);
        (t + 873) * 0x10_0000_0000_0000 + f * pow2((52 - t) as nat)
    }
}

/// The 64-bit pattern for the same number as the 32-bit pattern `b`.
pub open spec fn widened(b: u32) -> int {
    if b >= 0x8000_0000 {
        SIGN + widened_magnitude(b)
    } else {
        widened_magnitude(b)
    }
}

/// The number that a finite 32-bit pattern stands for, in units of two to the power -149.
pub open spec fn single_units(b: u32) -> int {
    let e = (b as int / 0x80_0000) % 256;
    let f = b as int % 0x80_0000;
    let u = if e == 0 {
        f
    } else {
        (0x80_0000 + f) * pow2((e - 1) as nat)
    };
    if b >= 0x8000_0000 {
        -u
    } else {
        u
    }
}

proof fn lemma_small_top_bit(f: nat)
    requires
        0 < f < 0x80_0000,
    ensures
        top_bit(f) <= 22,
        0x10_0000_0000_0000 <= f * pow2((52 - top_bit(f)) as nat) < 0x20_0000_0000_0000,
{
    let t = top_bit(f);
    lemma_top_bit(f);
    lemma2_to64();
    lemma_pow2_is_u128();
    if t > 22 {
        if t > 23 {
            lemma_pow2_strictly_increases(23, t);
        }
    }
    let q = pow2((52 - t) as nat);
    lemma_pow2_pos((52 - t) as nat);
    lemma_pow2_adds(t, (52 - t) as nat);
    lemma_pow2_adds(t + 1, (52 - t) as nat);
    assert(pow2(t) * q <= f * q) by (nonlinear_arith)
        requires
            pow2(t) <= f,
            q > 0,
    ;
    assert(f * q < pow2(t + 1) * q) by (nonlinear_arith)
        requires
            f < pow2(t + 1),
            q > 0,
    ;
}

/// A 32-bit number keeps its value in 64 bits.
pub proof fn law_widening_is_exact(b: u32, w: u64)
    requires
        (b as int / 0x80_0000) % 256 != 255,
        w == widened(b),
    ensures
        is_finite(w),
        value_units(w) == single_units(b) * pow2(925),
{
    let e = (b as int / 0x80_0000) % 256;
    let f = b as int % 0x80_0000;
    lemma2_to64();
    lemma_pow2_is_u128();
    let m = widened_magnitude(b);
    let d = 0x10_0000_0000_0000int;
    if e > 0 {
        assert(magnitude(w) == m);
        assert(m / d == e + 896);
        assert(m % d == f * 0x2000_0000);
        assert(units(m) == (d + f * 0x2000_0000) * pow2((e + 895) as nat) as int);
        assert(d + f * 0x2000_0000 == (0x80_0000 + f) * pow2(29));
        lemma_pow2_adds(29, (e + 895) as nat);
        lemma_pow2_adds((e - 1) as nat, 925);
        lemma_mul_is_associative(0x80_0000 + f, pow2(29) as int, pow2((e + 895) as nat) as int);
        lemma_mul_is_associative(0x80_0000 + f, pow2((e - 1) as nat) as int, pow2(925) as int);
    } else if f > 0 {
        let t = top_bit(f as nat);
        let q = pow2((52 - t) as nat) as int;
        lemma_small_top_bit(f as nat);
        assert(m == (t + 873) * d + f * q);
        assert(m / d == t + 874);
        assert(m % d == f * q - d);
        assert(magnitude(w) == m);
        assert(units(m) == (f * q) * pow2((t + 873) as nat) as int);
        lemma_pow2_adds((52 - t) as nat, (t + 873) as nat);
        lemma_mul_is_associative(f, q, pow2((t + 873) as nat) as int);
    } else {
        assert(m == 0);
        assert(magnitude(w) == 0);
    }
    let u = if e == 0 {
        f
    } else {
        (0x80_0000 + f) * pow2((e - 1) as nat)
    };
    let p = pow2(925) as int;
    assert(0 * p == 0 && (-u) * p == -(u * p)) by (nonlinear_arith);
    assert(units(m) == u * p);
}

/// The 64-bit pattern for the same number as the 32-bit pattern `b`.
pub fn widen(b: u32) -> (r: u64)
    ensures
        r == widened(b),
{
    let e: u64 = ((b / 0x80_0000) % 256) as u64;
    let f: u64 = (b % 0x80_0000) as u64;
    let m: u64 = if e == 255 {
        INFINITY + f * 0x2000_0000
    } else if e > 0 {
        (e + 896) * 0x10_0000_0000_0000 + f * 0x2000_0000
    } else if f == 0 {
        0
    } else {
        let t = leading_bit(f as u128);
        proof {
            lemma_small_top_bit(f as nat);
        }
        let q: u128 = power_of_two(52 - t);
        assert(f * q < 0x20_0000_0000_0000);
        let frac: u64 = (f as u128 * q) as u64;
        (t as u64 + 873) * 0x10_0000_0000_0000 + frac
    };
    if b >= 0x8000_0000 {
        SIGN + m
    } else {
        m
    }
}

// ---------------------------------------------------------------------------
// Integers
// ---------------------------------------------------------------------------

/// The distance between neighbouring 64-bit floating-point numbers around the integer `n`, or 1
/// where every integer is one.
pub open spec fn spacing(n: nat) -> nat {
    if n < 0x20_0000_0000_0000 {
        1
    } else {
        pow2((top_bit(n) - 52) as nat)
    }
}

/// The 64-bit floating-point number nearest to the integer `n`, the one with an even last digit
/// where two are equally near.
pub open spec fn nearest(n: nat) -> nat {
    let u = spacing(n);
    let q = n / u;
    let r = n % u;
    if 2 * r > u || (2 * r == u && q % 2 == 1) {
        (q + 1) * u
    } else {
        q * u
    }
}

/// `nearest`, with the sign of `v`.
pub open spec fn nearest_int(v: int) -> int {
    if v < 0 {
        -(nearest((-v) as nat) as int)
    } else {
        nearest(v as nat) as int
    }
}

/// Rounding an integer to a floating-point number moves it by at most half the spacing there, and
/// not at all below two to the power 53.
pub proof fn law_nearest_is_close(n: nat)
    ensures
        2 * (nearest(n) - n) <= spacing(n),
        2 * (n - nearest(n)) <= spacing(n),
        n <= 0x20_0000_0000_0000 ==> nearest(n) == n,
{
    let u = spacing(n) as int;
    lemma_pow2_is_u128();
    if n >= 0x20_0000_0000_0000 {
        lemma_top_bit(n);
        if top_bit(n) < 53 {
            if top_bit(n) + 1 < 53 {
                lemma_pow2_strictly_increases(top_bit(n) + 1, 53);
            }
        }
        lemma_pow2_pos((top_bit(n) - 52) as nat);
    }
    lemma_fundamental_div_mod(n as int, u);
    let q = n as int / u;
    assert(u * q == q * u && (q + 1) * u == q * u + u) by (nonlinear_arith);
    if n == 0x20_0000_0000_0000 {
        lemma2_to64();
        lemma_pow2_unfold(54);
        lemma_top_bit_is(n, 53);
        assert(u == 2);
    }
}

proof fn lemma_nearest_shape(n: nat)
    requires
        0x20_0000_0000_0000 <= n <= 0x1_0000_0000_0000_0000,
    ensures
        53 <= top_bit(n) <= 64,
        pow2((top_bit(n) - 52) as nat) > 0,
        0x10_0000_0000_0000 <= n / pow2((top_bit(n) - 52) as nat) < 0x20_0000_0000_0000,
{
    let t = top_bit(n);
    lemma_top_bit(n);
    lemma_pow2_is_u128();
    if t < 53 {
        if t + 1 < 53 {
            lemma_pow2_strictly_increases(t + 1, 53);
        }
    }
    if t > 64 {
        lemma_pow2_strictly_increases(64, t);
    }
    let k = (t - 52) as nat;
    lemma_pow2_pos(k);
    lemma_pow2_adds(52, k);
    lemma_pow2_adds(53, k);
    let u = pow2(k) as int;
    assert(0x10_0000_0000_0000 * u <= n < 0x20_0000_0000_0000 * u);
    lemma_fundamental_div_mod(n as int, u);
    let q = n as int / u;
    assert(q >= 0x10_0000_0000_0000) by (nonlinear_arith)
        requires
            0x10_0000_0000_0000 * u <= n,
            n == u * q + n as int % u,
            0 <= n as int % u < u,
            u > 0,
    ;
    assert(q < 0x20_0000_0000_0000) by (nonlinear_arith)
        requires
            n < 0x20_0000_0000_0000 * u,
            n == u * q + n as int % u,
            0 <= n as int % u < u,
            u > 0,
    ;
}

/// The magnitude of the pattern for the integer `w`, which has at most 53 significant bits.
pub open spec fn exact_magnitude(w: nat) -> int {
    if w == 0 {
        0
    } else {
        let t = top_bit(w);
        (t + 1022) * 0x10_0000_0000_0000 + (if t <= 52 {
            (w * pow2((52 - t) as nat)) as int
        } else {
            (w / pow2((t - 52) as nat)) as int
        })
    }
}

/// The pattern of the floating-point number nearest to the integer `v`.
pub open spec fn int_pattern(v: int) -> int {
    if v < 0 {
        SIGN + exact_magnitude(nearest((-v) as nat))
    } else {
        exact_magnitude(nearest(v as nat))
    }
}

/// Rounds an integer to the nearest 64-bit floating-point number.
pub fn round_integer(n: u128) -> (r: u128)
    requires
        n <= 0x1_0000_0000_0000_0000,
    ensures
        r == nearest(n as nat),
        r <= 0x1_0000_0000_0000_0000,
{
    if n < 0x20_0000_0000_0000 {
        return n;
    }
    proof {
        lemma_nearest_shape(n as nat);
        lemma_pow2_is_u128();
    }
    let t = leading_bit(n);
    let u: u128 = power_of_two(t - 52);
    let q: u128 = n / u;
    let rest: u128 = n % u;
    proof {
        lemma_fundamental_div_mod(n as int, u as int);
        lemma_mod_bound(n as int, u as int);
        lemma2_to64();
        let k = (t - 52) as nat;
        if k < 12 {
            lemma_pow2_strictly_increases(k, 12);
        }
        assert(u <= 0x1000);
        assert((q + 1) * u == q * u + u && q * u == u * q) by (nonlinear_arith);
    }
    if 2 * rest > u || (2 * rest == u && q % 2 == 1) {
        proof {
            // The rounded number cannot pass the next power of two.
            lemma_pow2_adds(53, (t - 52) as nat);
            lemma_top_bit(n as nat);
            assert((q + 1) * u <= 0x20_0000_0000_0000 * u) by (nonlinear_arith)
                requires
                    q + 1 <= 0x20_0000_0000_0000,
                    u > 0,
            ;
            if t < 64 {
                if t + 1 < 64 {
                    lemma_pow2_strictly_increases((t + 1) as nat, 64);
                }
            } else {
                assert(n == 0x1_0000_0000_0000_0000);
                assert(pow2(12) * pow2(52) == pow2(64)) by {
                    lemma_pow2_adds(12, 52);
                }
                assert(n == u * 0x10_0000_0000_0000);
                lemma_div_multiples_vanish(0x10_0000_0000_0000, u as int);
                assert(rest == 0) by {
                    lemma_mod_multiples_basic(0x10_0000_0000_0000, u as int);
                }
            }
        }
        (q + 1) * u
    } else {
        q * u
    }
}

/// The value that an integer shows when it passes through a 64-bit floating-point number and back
/// to a signed 64-bit integer.
pub open spec fn through_float(v: int) -> int {
    let w = nearest_int(v);
    if w > i64::MAX {
        i64::MAX as int
    } else if w < i64::MIN {
        i64::MIN as int
    } else {
        w
    }
}

/// Passes an integer through a 64-bit floating-point number, and saturates it to `i64`.
pub fn show_through_float(v: i128) -> (r: i64)
    requires
        -0x1_0000_0000_0000_0000 <= v <= 0x1_0000_0000_0000_0000,
    ensures
        r == through_float(v as int),
{
    let w: i128 = if v < 0 {
        -(round_integer((-v) as u128) as i128)
    } else {
        round_integer(v as u128) as i128
    };
    if w > 0x7fff_ffff_ffff_ffff {
        i64::MAX
    } else if w < -0x8000_0000_0000_0000 {
        i64::MIN
    } else {
        w as i64
    }
}

/// A rounded integer has at most 53 significant bits.
proof fn lemma_nearest_exact(n: nat)
    requires
        n <= 0x1_0000_0000_0000_0000,
    ensures
        nearest(n) <= 0x1_0000_0000_0000_0000,
        nearest(n) > 0 ==> top_bit(nearest(n)) <= 64,
        top_bit(nearest(n)) > 52 ==> nearest(n) % pow2((top_bit(nearest(n)) - 52) as nat) == 0,
{
    let w = nearest(n);
    lemma_pow2_is_u128();
    law_nearest_is_close(n);
    if n < 0x20_0000_0000_0000 {
        assert(w == n);
        if w > 0 {
            lemma_top_bit(w);
            if top_bit(w) > 52 {
                if top_bit(w) > 53 {
                    lemma_pow2_strictly_increases(53, top_bit(w));
                }
            }
        }
        return ;
    }
    lemma_nearest_shape(n);
    let t = top_bit(n);
    let k = (t - 52) as nat;
    let u = pow2(k) as int;
    let q = n as int / u;
    lemma_top_bit(n);
    lemma_pow2_adds(52, k);
    lemma_pow2_adds(53, k);
    if w == (q + 1) * u && q + 1 == 0x20_0000_0000_0000 {
        // Rounded up to the next power of two.
        assert(w == pow2(t + 1));
        lemma_pow2_unfold(t + 2);
        lemma_pow2_pos(t + 1);
        lemma_top_bit_is(w, t + 1);
        lemma_pow2_adds(53, (k + 1) as nat);
        lemma_pow2_unfold((k + 1) as nat);
        assert(t < 64) by {
            if t == 64 {
                assert(n == pow2(64));
                lemma2_to64();
                lemma_pow2_adds(12, 52);
                lemma_mod_multiples_basic(0x10_0000_0000_0000, u);
                assert(n as int % u == 0);
                lemma_pow2_pos(k);
            }
        }
        if t + 1 < 64 {
            lemma_pow2_strictly_increases(t + 1, 64);
        }
        lemma_pow2_adds(52, (k + 1) as nat);
        lemma_mod_multiples_basic(0x10_0000_0000_0000, pow2((k + 1) as nat) as int);
    } else {
        let c = if w == q * u {
            q
        } else {
            q + 1
        };
        assert(w == c * u);
        assert(0x10_0000_0000_0000 * u <= c * u < 0x20_0000_0000_0000 * u) by (nonlinear_arith)
            requires
                0x10_0000_0000_0000 <= c < 0x20_0000_0000_0000,
                u > 0,
        ;
        lemma_top_bit_is(w, t);
        lemma_mod_multiples_basic(c, u);
        if t == 64 {
            lemma2_to64();
            lemma_pow2_adds(12, 52);
            lemma_mod_multiples_basic(0x10_0000_0000_0000, u);
            assert(n as int % u == 0);
            assert(w == q * u);
            lemma_fundamental_div_mod(n as int, u);
            assert(u * q == q * u) by (nonlinear_arith);
        } else {
            if t + 1 < 64 {
                lemma_pow2_strictly_increases(t + 1, 64);
            }
        }
    }
}

proof fn lemma_exact_fraction(w: nat)
    requires
        w > 0,
    ensures
        top_bit(w) <= 52 ==> 0x10_0000_0000_0000 <= w * pow2((52 - top_bit(w)) as nat)
            < 0x20_0000_0000_0000,
        top_bit(w) > 52 ==> 0x10_0000_0000_0000 <= w / pow2((top_bit(w) - 52) as nat)
            < 0x20_0000_0000_0000,
{
    let t = top_bit(w);
    lemma_top_bit(w);
    lemma_pow2_is_u128();
    if t <= 52 {
        let q = pow2((52 - t) as nat) as int;
        lemma_pow2_pos((52 - t) as nat);
        lemma_pow2_adds(t, (52 - t) as nat);
        lemma_pow2_adds(t + 1, (52 - t) as nat);
        assert(pow2(t) * q <= w * q < pow2(t + 1) * q) by (nonlinear_arith)
            requires
                pow2(t) <= w < pow2(t + 1),
                q > 0,
        ;
    } else {
        let k = (t - 52) as nat;
        let u = pow2(k) as int;
        lemma_pow2_pos(k);
        lemma_pow2_adds(52, k);
        lemma_pow2_adds(53, k);
        lemma_fundamental_div_mod(w as int, u);
        let q = w as int / u;
        assert(q >= 0x10_0000_0000_0000) by (nonlinear_arith)
            requires
                0x10_0000_0000_0000 * u <= w,
                w == u * q + w as int % u,
                0 <= w as int % u < u,
                u > 0,
        ;
        assert(q < 0x20_0000_0000_0000) by (nonlinear_arith)
            requires
                w < 0x20_0000_0000_0000 * u,
                w == u * q + w as int % u,
                0 <= w as int % u < u,
                u > 0,
        ;
    }
}

/// The pattern of an integer stands for the rounded integer.
pub proof fn law_integer_pattern(v: int, b: u64)
    requires
        -0x1_0000_0000_0000_0000 <= v <= 0x1_0000_0000_0000_0000,
        b == int_pattern(v),
    ensures
        is_finite(b),
        value_units(b) == nearest_int(v) * pow2(1074),
{
    let n = if v < 0 {
        (-v) as nat
    } else {
        v as nat
    };
    let w = nearest(n);
    let m = exact_magnitude(w);
    let d = 0x10_0000_0000_0000int;
    let p = pow2(1074) as int;
    lemma_nearest_exact(n);
    if w > 0 {
        let t = top_bit(w);
        lemma_exact_fraction(w);
        let g = if t <= 52 {
            w * pow2((52 - t) as nat)
        } else {
            w / pow2((t - 52) as nat)
        };
        assert(m == (t + 1022) * d + g);
        assert(m / d == t + 1023);
        assert(m % d == g - d);
        assert(units(m) == g * pow2((t + 1022) as nat) as int);
        if t <= 52 {
            let q = pow2((52 - t) as nat) as int;
            lemma_pow2_adds((52 - t) as nat, (t + 1022) as nat);
            lemma_mul_is_associative(w as int, q, pow2((t + 1022) as nat) as int);
        } else {
            let u = pow2((t - 52) as nat) as int;
            lemma_pow2_pos((t - 52) as nat);
            lemma_fundamental_div_mod(w as int, u);
            lemma_pow2_adds((t - 52) as nat, 1074);
            assert(w == u * g);
            lemma_mul_is_commutative(u, g as int);
            lemma_mul_is_associative(g as int, u, p);
        }
        assert(units(m) == w * p);
        assert(magnitude(b) == m);
    } else {
        assert(magnitude(b) == 0);
    }
    assert(0 * p == 0 && (-(w as int)) * p == -(w * p)) by (nonlinear_arith);
}

/// The pattern of the floating-point number nearest to the integer `v`.
pub fn from_integer(v: i128) -> (r: u64)
    requires
        -0x1_0000_0000_0000_0000 <= v <= 0x1_0000_0000_0000_0000,
    ensures
        r == int_pattern(v as int),
{
    let n: u128 = if v < 0 {
        (-v) as u128
    } else {
        v as u128
    };
    let w = round_integer(n);
    let m: u64 = if w == 0 {
        0
    } else {
        proof {
            lemma_nearest_exact(n as nat);
            lemma_exact_fraction(w as nat);
            lemma_pow2_is_u128();
        }
        let t = leading_bit(w);
        let g: u128 = if t <= 52 {
            w * power_of_two(52 - t)
        } else {
            proof {
                lemma_pow2_pos((t - 52) as nat);
            }
            w / power_of_two(t - 52)
        };
        (t as u64 + 1022) * 0x10_0000_0000_0000 + g as u64
    };
    if v < 0 {
        SIGN + m
    } else {
        m
    }
}

/// The integer part of the number that a pattern stands for, toward zero, within the range of
/// `i128`; 0 for a pattern that is not a number.
pub open spec fn integer_part(b: u64) -> int {
    if is_nan(b) {
        0
    } else {
        let whole = if is_finite(b) {
            units(magnitude(b)) / pow2(1074) as int
        } else {
            pow2(127) as int
        };
        if b >= SIGN {
            if whole > pow2(127) {
                i128::MIN as int
            } else {
                -whole
            }
        } else if whole >= pow2(127) {
            i128::MAX as int
        } else {
            whole
        }
    }
}

proof fn lemma_whole(m: int)
    requires
        0 <= m < INFINITY,
    ensures
        ({
            let e = m / 0x10_0000_0000_0000;
            let g = 0x10_0000_0000_0000 + m % 0x10_0000_0000_0000;
            let whole = units(m) / pow2(1074) as int;
            &&& e < 1023 ==> whole == 0
            &&& 1023 <= e < 1075 ==> whole == g / pow2((1075 - e) as nat) as int
            &&& 1075 <= e ==> whole == g * pow2((e - 1075) as nat)
        }),
{
    let d = 0x10_0000_0000_0000int;
    let e = m / d;
    let g = d + m % d;
    let p = pow2(1074) as int;
    lemma_pow2_pos(1074);
    lemma_pow2_is_u128();
    if e == 0 {
        lemma_pow2_strictly_increases(52, 1074);
        lemma_basic_div(units(m), p);
    } else if e < 1023 {
        let r = pow2((e - 1) as nat) as int;
        lemma_pow2_pos((e - 1) as nat);
        lemma_pow2_adds(53, (e - 1) as nat);
        assert(g * r < 0x20_0000_0000_0000 * r) by (nonlinear_arith)
            requires
                g < 0x20_0000_0000_0000,
                r > 0,
        ;
        if e + 52 < 1074 {
            lemma_pow2_strictly_increases((e + 52) as nat, 1074);
        }
        assert(g * r >= 0) by (nonlinear_arith)
            requires
                g >= 0,
                r > 0,
        ;
        lemma_basic_div(g * r, p);
    } else if e < 1075 {
        let r = pow2((e - 1) as nat) as int;
        let q = pow2((1075 - e) as nat) as int;
        lemma_pow2_pos((e - 1) as nat);
        lemma_pow2_pos((1075 - e) as nat);
        lemma_pow2_adds((e - 1) as nat, (1075 - e) as nat);
        assert(g * r >= 0) by (nonlinear_arith)
            requires
                g >= 0,
                r > 0,
        ;
        lemma_div_denominator(g * r, r, q);
        lemma_div_multiples_vanish(g, r);
        lemma_mul_is_commutative(g, r);
    } else {
        let q = pow2((e - 1075) as nat) as int;
        lemma_pow2_adds((e - 1075) as nat, 1074);
        lemma_mul_is_associative(g, q, p);
        lemma_div_multiples_vanish(g * q, p);
        lemma_mul_is_commutative(g * q, p);
    }
}

/// The integer part of a number, toward zero, within the range of `i128`.
pub fn truncate(b: u64) -> (r: i128)
    ensures
        r == integer_part(b),
{
    if not_a_number(b) {
        return 0;
    }
    let m: u64 = b % SIGN;
    let e: u64 = m / 0x10_0000_0000_0000;
    let g: u64 = 0x10_0000_0000_0000 + m % 0x10_0000_0000_0000;
    proof {
        lemma_pow2_is_u128();
        lemma2_to64();
        if m < INFINITY {
            lemma_whole(m as int);
        }
    }
    if e < 1023 {
        return 0;
    }
    if e >= 1150 {
        proof {
            if m < INFINITY {
                let q = pow2((e - 1075) as nat) as int;
                if e > 1150 {
                    lemma_pow2_strictly_increases(75, (e - 1075) as nat);
                }
                lemma_pow2_adds(52, 75);
                assert(g * q >= 0x10_0000_0000_0000 * pow2(75)) by (nonlinear_arith)
                    requires
                        g >= 0x10_0000_0000_0000,
                        q >= pow2(75),
                        pow2(75) >= 0,
                ;
            }
        }
        return if b >= SIGN {
            i128::MIN
        } else {
            i128::MAX
        };
    }
    let whole: i128 = if e < 1075 {
        proof {
            lemma_pow2_pos((1075 - e) as nat);
        }
        let q: u128 = power_of_two((1075 - e) as u32);
        assert(g as int / q as int <= g) by (nonlinear_arith)
            requires
                g >= 0,
                q >= 1,
        ;
        (g as u128 / q) as i128
    } else {
        let q: u128 = power_of_two((e - 1075) as u32);
        proof {
            lemma_pow2_adds(53, (e - 1075) as nat);
            lemma_pow2_pos((e - 1075) as nat);
            if e + 53 - 1075 < 127 {
                lemma_pow2_strictly_increases((e + 53 - 1075) as nat, 127);
            }
            assert(g * q < 0x20_0000_0000_0000 * q) by (nonlinear_arith)
                requires
                    g < 0x20_0000_0000_0000,
                    q > 0,
            ;
        }
        (g as u128 * q) as i128
    };
    if b >= SIGN {
        -whole
    } else {
        whole
    }
}

/// An integer that passes through a floating-point number and back is rounded and nothing more.
pub proof fn law_integer_survives(v: int, b: u64)
    requires
        -0x1_0000_0000_0000_0000 <= v <= 0x1_0000_0000_0000_0000,
        b == int_pattern(v),
    ensures
        integer_part(b) == nearest_int(v),
{
    let n = if v < 0 {
        (-v) as nat
    } else {
        v as nat
    };
    let w = nearest(n) as int;
    law_integer_pattern(v, b);
    lemma_nearest_exact(n);
    lemma_pow2_is_u128();
    lemma_pow2_pos(1074);
    let p = pow2(1074) as int;
    assert((-w) * p == -(w * p)) by (nonlinear_arith);
    if w > 0 {
        lemma_exact_fraction(w as nat);
    }
    assert(v < 0 <==> b >= SIGN);
    lemma_div_multiples_vanish(w, p);
    lemma_mul_is_commutative(w, p);
}

/// Not-a-number are the patterns whose exponent bits are all set and whose fraction is not zero;
/// the infinities have the exponent bits set and no fraction; all others are finite.
pub proof fn law_kinds_of_patterns(b: u64)
    ensures
        ({
            let e = (b as int / 0x10_0000_0000_0000) % 0x800;
            let f = b as int % 0x10_0000_0000_0000;
            &&& is_nan(b) <==> e == 0x7ff && f != 0
            &&& is_finite(b) <==> e != 0x7ff
            &&& e == 0x7ff && f == 0 <==> b == INFINITY || b == SIGN + INFINITY
        }),
{
}

/// Every finite number lies between the infinities, and each of these equals itself alone.
pub proof fn law_infinities_bound_all(a: u64, minus: u64)
    requires
        is_finite(a),
        minus == SIGN + INFINITY,
    ensures
        lt(a, INFINITY) && !lt(INFINITY, a) && !eq(a, INFINITY) && !eq(INFINITY, a),
        lt(minus, a) && !lt(a, minus) && !eq(a, minus) && !eq(minus, a),
        lt(minus, INFINITY) && !lt(INFINITY, minus) && !eq(minus, INFINITY) && !eq(INFINITY, minus),
        eq(INFINITY, INFINITY) && !lt(INFINITY, INFINITY),
        eq(minus, minus) && !lt(minus, minus),
{
}

/// The infinities and what is not a number stay what they are in 64 bits.
pub proof fn law_widening_keeps_the_rest(b: u32, w: u64)
    requires
        (b as int / 0x80_0000) % 256 == 255,
        w == widened(b),
    ensures
        is_nan(w) <==> b as int % 0x80_0000 != 0,
        b == 0x7f80_0000 ==> w == INFINITY,
        b == 0xff80_0000 ==> w == SIGN + INFINITY,
{
}

/// The integer part of a number is the integer nearest to it on the side of zero, where it lies
/// within the range of `i128`.
pub proof fn law_integer_part_is_toward_zero(b: u64)
    requires
        is_finite(b),
        -pow2(127) * pow2(1074) < value_units(b) < pow2(127) * pow2(1074),
    ensures
        value_units(b) >= 0 ==> integer_part(b) * pow2(1074) <= value_units(b) < (integer_part(b)
            + 1) * pow2(1074),
        value_units(b) <= 0 ==> (integer_part(b) - 1) * pow2(1074) < value_units(b)
            <= integer_part(b) * pow2(1074),
{
    let p = pow2(1074) as int;
    lemma_pow2_pos(1074);
    let u = units(magnitude(b));
    let m = magnitude(b);
    if m > 0 {
        lemma_units_increase(0, m);
    }
    assert(units(0) == 0);
    let q = u / p;
    lemma_fundamental_div_mod(u, p);
    lemma_pow2_is_u128();
    assert(p * q == q * p) by (nonlinear_arith);
    let top = pow2(127) as int;
    assert((-top) * p == -(top * p)) by (nonlinear_arith);
    assert(u < top * p);
    assert(q < top) by (nonlinear_arith)
        requires
            q * p <= u,
            u < top * p,
            p > 0,
    ;
    assert((q + 1) * p == q * p + p) by (nonlinear_arith);
    assert((-q) * p == -(q * p)) by (nonlinear_arith);
    assert((-q - 1) * p == -(q * p) - p) by (nonlinear_arith);
    assert((-q + 1) * p == -(q * p) + p) by (nonlinear_arith);
    assert(q >= 0) by (nonlinear_arith)
        requires
            u >= 0,
            p > 0,
            q == u / p,
    ;
    if u == 0 {
        assert(q == 0) by (nonlinear_arith)
            requires
                q * p <= 0,
                q >= 0,
                p > 0,
        ;
    }
}

/// Neighbouring floating-point numbers around an integer from two to the power 53 on are as far
/// apart as leaves it 53 binary digits. The one it is rounded to is a multiple of that distance, and
/// an even one where two are equally near.
pub proof fn law_nearest_has_53_digits(n: nat)
    requires
        n >= 0x20_0000_0000_0000,
    ensures
        0x10_0000_0000_0000 * spacing(n) <= n < 0x20_0000_0000_0000 * spacing(n),
        nearest(n) as int % spacing(n) as int == 0,
        2 * (nearest(n) - n) == spacing(n) || 2 * (n - nearest(n)) == spacing(n) ==> (nearest(n)
            as int / spacing(n) as int) % 2 == 0,
{
    lemma_top_bit(n);
    let t = top_bit(n);
    lemma2_to64_rest();
    lemma_pow2_unfold(t + 1);
    lemma2_to64();
    if t < 53 {
        if t + 1 < 53 {
            lemma_pow2_strictly_increases(t + 1, 53);
        }
    }
    let u = spacing(n);
    lemma_pow2_pos((t - 52) as nat);
    lemma_pow2_adds(52, (t - 52) as nat);
    lemma_pow2_adds(53, (t - 52) as nat);
    let q = n as int / u as int;
    let r = n as int % u as int;
    lemma_fundamental_div_mod(n as int, u as int);
    assert(u * q == q * u) by (nonlinear_arith);
    assert((q + 1) * u == q * u + u) by (nonlinear_arith);
    lemma_div_multiples_vanish(q, u as int);
    lemma_div_multiples_vanish(q + 1, u as int);
    lemma_mod_multiples_basic(q, u as int);
    lemma_mod_multiples_basic(q + 1, u as int);
    lemma_mul_is_commutative(q + 1, u as int);
}

/// The pattern of an integer has 64 bits.
pub(crate) proof fn lemma_int_pattern_fits(v: int)
    requires
        -0x1_0000_0000_0000_0000 <= v <= 0x1_0000_0000_0000_0000,
    ensures
        0 <= int_pattern(v) <= u64::MAX,
{
    let n = if v < 0 {
        (-v) as nat
    } else {
        v as nat
    };
    let w = nearest(n);
    lemma_nearest_exact(n);
    if w > 0 {
        lemma_exact_fraction(w);
    }
    lemma_pow2_is_u128();
}

/// The 64-bit pattern of a 32-bit number has 64 bits.
pub(crate) proof fn lemma_widened_fits(b: u32)
    ensures
        0 <= widened(b) <= u64::MAX,
        (b as int / 0x80_0000) % 256 != 255 ==> widened_magnitude(b) < INFINITY,
{
    let e = (b as int / 0x80_0000) % 256;
    let f = b as int % 0x80_0000;
    if e == 0 && f > 0 {
        lemma_small_top_bit(f as nat);
    }
}

/// The number that a pattern stands for, in units of two to the power -1074, with the infinities
/// farther from zero than every other number.
pub open spec fn extended(b: u64) -> int {
    if is_finite(b) {
        value_units(b)
    } else if b >= SIGN {
        -pow2(2100)
    } else {
        pow2(2100) as int
    }
}

proof fn lemma_units_bound(m: int)
    requires
        0 <= m < INFINITY,
    ensures
        0 <= units(m) < pow2(2100),
{
    let e = m / 0x10_0000_0000_0000;
    let f = m % 0x10_0000_0000_0000;
    lemma_pow2_is_u128();
    if e == 0 {
        lemma_pow2_strictly_increases(53, 2100);
    } else {
        let r = pow2((e - 1) as nat) as int;
        lemma_pow2_pos((e - 1) as nat);
        lemma_pow2_adds(53, (e - 1) as nat);
        assert(0 <= (0x10_0000_0000_0000 + f) * r < 0x20_0000_0000_0000 * r) by (nonlinear_arith)
            requires
                0 <= f < 0x10_0000_0000_0000,
                r > 0,
        ;
        lemma_pow2_strictly_increases((e + 52) as nat, 2100);
    }
}

/// The order of the patterns is the order of the numbers that they stand for, between the two
/// infinities.
pub proof fn law_order_is_extended(a: u64, b: u64)
    requires
        !is_nan(a),
        !is_nan(b),
    ensures
        lt(a, b) <==> extended(a) < extended(b),
        eq(a, b) <==> extended(a) == extended(b),
{
    lemma_pow2_pos(2100);
    if is_finite(a) {
        lemma_units_bound(magnitude(a));
    }
    if is_finite(b) {
        lemma_units_bound(magnitude(b));
    }
    if is_finite(a) && is_finite(b) {
        law_order_is_numeric(a, b);
    }
}

/// An integer beyond two to the power 53 is shown as the floating-point number nearest to it, and one
/// beyond the range of `i64` as the end of that range.
pub proof fn law_large_integers_are_shown_rounded(v: int)
    ensures
        nearest_int(v) > i64::MAX ==> through_float(v) == i64::MAX,
        nearest_int(v) < i64::MIN ==> through_float(v) == i64::MIN,
        i64::MIN <= nearest_int(v) <= i64::MAX ==> through_float(v) == nearest_int(v),
        v >= 0 ==> nearest_int(v) == nearest(v as nat),
        v < 0 ==> nearest_int(v) == -nearest_int(-v),
{
}

/// Widening keeps the sign, also that of zero.
pub proof fn law_widening_keeps_the_sign(b: u32)
    ensures
        widened(b) >= 0x8000_0000_0000_0000 <==> b >= 0x8000_0000,
        b < 0x8000_0000 ==> widened((b + 0x8000_0000) as u32) == widened(b)
            + 0x8000_0000_0000_0000,
        widened(0) == 0,
{
    lemma_widened_fits(b);
    if b < 0x8000_0000 {
        let c = (b + 0x8000_0000) as u32;
        assert(c as int / 0x80_0000 == b as int / 0x80_0000 + 256);
        assert((c as int / 0x80_0000) % 256 == (b as int / 0x80_0000) % 256);
        assert(c as int % 0x80_0000 == b as int % 0x80_0000);
    }
}

} // verus!
