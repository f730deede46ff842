//! Base-2 logarithm in fixed point with 16 fractional bits.
//!
//! `log2_scaled(x)` stands for `65536 * log2(x)` rounded down bit by bit: the
//! whole part is the position of the highest set bit, and the fractional bits
//! come from the classic mantissa-squaring construction.  The function is
//! deterministic, monotone, and exact on powers of two, which is all the
//! entropy score built on top of it needs.

use vstd::prelude::*;
use vstd::arithmetic::power2::{
    pow2, lemma_pow2_adds, lemma_pow2_strictly_increases, lemma_pow2_pos, lemma2_to64,
    lemma2_to64_rest,
};
use vstd::arithmetic::div_mod::{
    lemma_div_multiples_vanish, lemma_div_is_ordered, lemma_div_denominator,
    lemma_multiply_divide_lt, lemma_fundamental_div_mod,
};
use vstd::arithmetic::mul::{
    lemma_mul_inequality, lemma_mul_strict_inequality, lemma_mul_upper_bound,
    lemma_mul_is_commutative, lemma_mul_is_associative,
};

verus! {

/// The fixed-point scale: log2_scaled carries 16 fractional bits.
pub const LOG2_SCALE: u64 = 65536;

/// Floor of the base-2 logarithm: the position of the highest set bit of x
/// (0 for x <= 1).
pub open spec fn floor_log2(x: nat) -> nat
    decreases x,
{
    if x < 2 {
        0
    } else {
        (1 + floor_log2(x / 2)) as nat
    }
}

/// The mantissa of x scaled into [2^32, 2^33) for x >= 1:
/// floor(x * 2^32 / 2^floor_log2(x)).
pub open spec fn mantissa(x: nat) -> nat {
    (x * pow2(32)) / pow2(floor_log2(x))
}

/// The k fractional bits of log2(m / 2^32), most significant first, obtained
/// by repeatedly squaring the fixed-point mantissa m.  The literals are
/// 2^65, 2^33 and 2^32: squaring a mantissa scaled by 2^32 yields a square
/// scaled by 2^64, which is at least 2^65 exactly when the mantissa value is
/// at least 2, that is, when the next bit of the logarithm is 1.
pub open spec fn frac_log2(m: nat, k: nat) -> nat
    decreases k,
{
    if k == 0 {
        0
    } else {
        let sq = m * m;
        if sq >= 36893488147419103232 {
            pow2((k - 1) as nat) + frac_log2(sq / 8589934592, (k - 1) as nat)
        } else {
            frac_log2(sq / 4294967296, (k - 1) as nat)
        }
    }
}

/// Base-2 logarithm scaled by 65536 (16 fractional bits), rounded down.
pub open spec fn log2_scaled(x: nat) -> nat {
    floor_log2(x) * 65536 + frac_log2(mantissa(x), 16)
}

/// The defining property of floor_log2: x lies between the enclosing powers
/// of two.
pub proof fn lemma_floor_log2_bounds(x: nat)
    requires
        x >= 1,
    ensures
        pow2(floor_log2(x)) <= x,
        x < pow2(floor_log2(x) + 1),
    decreases x,
{
    lemma2_to64();
    if x < 2 {
        assert(floor_log2(x) == 0);
    } else {
        lemma_floor_log2_bounds(x / 2);
        let f = floor_log2(x / 2);
        assert(floor_log2(x) == f + 1);
        lemma_pow2_adds(f, 1);
        lemma_pow2_adds(f + 1, 1);
        lemma_fundamental_div_mod(x as int, 2);
        assert(pow2(f + 1) == pow2(f) * 2);
        assert(pow2(f + 2) == pow2(f + 1) * 2);
    }
}

/// floor_log2 is monotone.
pub proof fn lemma_floor_log2_mono(a: nat, b: nat)
    requires
        a <= b,
    ensures
        floor_log2(a) <= floor_log2(b),
    decreases b,
{
    if a < 2 {
        assert(floor_log2(a) == 0);
    } else {
        lemma_div_is_ordered(a as int, b as int, 2);
        lemma_floor_log2_mono(a / 2, b / 2);
    }
}

/// Below 2^64 the whole part of the logarithm is at most 63.
pub proof fn lemma_floor_log2_63(x: nat)
    requires
        1 <= x,
        x < pow2(64),
    ensures
        floor_log2(x) <= 63,
{
    lemma_floor_log2_bounds(x);
    if floor_log2(x) > 63 {
        if floor_log2(x) > 64 {
            lemma_pow2_strictly_increases(64, floor_log2(x));
        }
        assert(false);
    }
}

/// k fractional bits stay below 2^k.
pub proof fn lemma_frac_log2_bound(m: nat, k: nat)
    ensures
        frac_log2(m, k) < pow2(k),
    decreases k,
{
    lemma2_to64();
    if k == 0 {
    } else {
        let sq = m * m;
        lemma_pow2_adds((k - 1) as nat, 1);
        if sq >= 36893488147419103232 {
            lemma_frac_log2_bound(sq / 8589934592, (k - 1) as nat);
            assert(pow2(k) == pow2((k - 1) as nat) * 2);
        } else {
            lemma_frac_log2_bound(sq / 4294967296, (k - 1) as nat);
            lemma_pow2_strictly_increases((k - 1) as nat, k);
        }
    }
}

/// The fractional bits are monotone in the mantissa.
pub proof fn lemma_frac_log2_mono(m1: nat, m2: nat, k: nat)
    requires
        m1 <= m2,
    ensures
        frac_log2(m1, k) <= frac_log2(m2, k),
    decreases k,
{
    if k == 0 {
    } else {
        let s1 = m1 * m1;
        let s2 = m2 * m2;
        lemma_mul_upper_bound(m1 as int, m2 as int, m1 as int, m2 as int);
        if s1 >= 36893488147419103232 {
            lemma_div_is_ordered(s1 as int, s2 as int, 8589934592);
            lemma_frac_log2_mono(s1 / 8589934592, s2 / 8589934592, (k - 1) as nat);
        } else if s2 < 36893488147419103232 {
            lemma_div_is_ordered(s1 as int, s2 as int, 4294967296);
            lemma_frac_log2_mono(s1 / 4294967296, s2 / 4294967296, (k - 1) as nat);
        } else {
            lemma_frac_log2_bound(s1 / 4294967296, (k - 1) as nat);
            lemma2_to64();
        }
    }
}

/// Doubling x shifts the exponent up by one and leaves the mantissa as it is.
pub proof fn lemma_mantissa_double(x: nat)
    requires
        x >= 1,
    ensures
        floor_log2(2 * x) == floor_log2(x) + 1,
        mantissa(2 * x) == mantissa(x),
{
    let e = floor_log2(x);
    lemma_div_multiples_vanish(x as int, 2);
    assert((2 * x) / 2 == x);
    assert(floor_log2(2 * x) == 1 + floor_log2((2 * x) / 2));
    lemma2_to64();
    lemma_pow2_adds(e, 1);
    lemma_pow2_pos(e);
    let a = x * pow2(32);
    lemma_mul_is_associative(2, x as int, pow2(32) as int);
    assert((2 * x) * pow2(32) == 2 * a);
    lemma_div_denominator((2 * a) as int, 2, pow2(e) as int);
    lemma_div_multiples_vanish(a as int, 2);
    assert((2 * a) / 2 == a);
    assert(pow2(e + 1) == pow2(e) * 2);
    assert(mantissa(2 * x) == (2 * a) / (2 * pow2(e)));
    assert((2 * a) / (2 * pow2(e)) == a / pow2(e));
}

/// The mantissa of a power of two squares back to itself, so its fractional
/// bits are all zero.
pub proof fn lemma_frac_log2_unit(k: nat)
    ensures
        frac_log2(4294967296, k) == 0,
    decreases k,
{
    if k > 0 {
        assert(4294967296nat * 4294967296nat == 18446744073709551616nat) by (nonlinear_arith);
        lemma_div_multiples_vanish(4294967296, 4294967296);
        lemma_frac_log2_unit((k - 1) as nat);
    }
}

/// log2_scaled(1) == 0.
pub proof fn lemma_log2_scaled_one()
    ensures
        log2_scaled(1) == 0,
{
    lemma2_to64();
    assert(floor_log2(1) == 0);
    lemma_div_multiples_vanish(pow2(32) as int, 1);
    assert((1 * pow2(32)) / pow2(0) == pow2(32));
    assert(mantissa(1) == 4294967296);
    lemma_frac_log2_unit(16);
}

/// Doubling adds exactly one whole bit: log2_scaled(2x) == log2_scaled(x) + 65536.
pub proof fn lemma_log2_scaled_double(x: nat)
    requires
        x >= 1,
    ensures
        log2_scaled(2 * x) == log2_scaled(x) + 65536,
{
    lemma_mantissa_double(x);
}

/// Multiplying by 2^j adds exactly j whole bits.
pub proof fn lemma_log2_scaled_pow2_mul(j: nat, x: nat)
    requires
        x >= 1,
    ensures
        log2_scaled(pow2(j) * x) == j * 65536 + log2_scaled(x),
    decreases j,
{
    if j == 0 {
        lemma2_to64();
        assert(pow2(0) * x == x);
    } else {
        lemma_log2_scaled_pow2_mul((j - 1) as nat, x);
        lemma2_to64();
        lemma_pow2_adds(1, (j - 1) as nat);
        assert(pow2(j) == 2 * pow2((j - 1) as nat));
        lemma_mul_is_associative(2, pow2((j - 1) as nat) as int, x as int);
        assert(pow2(j) * x == 2 * (pow2((j - 1) as nat) * x));
        lemma_pow2_pos((j - 1) as nat);
        lemma_mul_inequality(1, pow2((j - 1) as nat) as int, x as int);
        lemma_mul_is_commutative(pow2((j - 1) as nat) as int, x as int);
        assert(pow2((j - 1) as nat) * x >= 1);
        lemma_log2_scaled_double((pow2((j - 1) as nat) * x) as nat);
    }
}

/// log2_scaled is monotone.
pub proof fn lemma_log2_scaled_mono(a: nat, b: nat)
    requires
        1 <= a,
        a <= b,
    ensures
        log2_scaled(a) <= log2_scaled(b),
{
    lemma_floor_log2_mono(a, b);
    let fa = floor_log2(a);
    let fb = floor_log2(b);
    lemma_frac_log2_bound(mantissa(a), 16);
    lemma2_to64();
    if fa == fb {
        lemma_mul_inequality(a as int, b as int, pow2(32) as int);
        lemma_pow2_pos(fa);
        lemma_div_is_ordered((a * pow2(32)) as int, (b * pow2(32)) as int, pow2(fa) as int);
        lemma_frac_log2_mono(mantissa(a), mantissa(b), 16);
    } else {
        lemma_mul_inequality((fa + 1) as int, fb as int, 65536);
    }
}

/// Below 2^64 the scaled logarithm stays below 64 * 65536.
pub proof fn lemma_log2_scaled_bound(x: nat)
    requires
        x < pow2(64),
    ensures
        log2_scaled(x) < 4194304,
{
    lemma_frac_log2_bound(mantissa(x), 16);
    lemma2_to64();
    if x == 0 {
        assert(floor_log2(0) == 0);
    } else {
        lemma_floor_log2_63(x);
    }
}

/// 2^k as a u64.
pub fn pow2_u64(k: u64) -> (r: u64)
    requires
        k < 64,
    ensures
        r == pow2(k as nat),
{
    proof {
        lemma2_to64();
    }
    let mut r: u64 = 1;
    let mut i: u64 = 0;
    while i < k
        invariant
            i <= k,
            k < 64,
            r == pow2(i as nat),
        decreases k - i,
    {
        proof {
            lemma2_to64();
            lemma2_to64_rest();
            lemma_pow2_adds(i as nat, 1);
            if i + 1 < 63 {
                lemma_pow2_strictly_increases((i + 1) as nat, 63);
            }
            assert(pow2((i + 1) as nat) <= pow2(63));
        }
        r = r * 2;
        i = i + 1;
    }
    r
}

/// Fixed-point base-2 logarithm with 16 fractional bits: returns
/// log2_scaled(x), which is 65536 * log2(x) rounded down bit by bit.
pub fn log2_fixed(x: u64) -> (r: u64)
    requires
        1 <= x,
    ensures
        r == log2_scaled(x as nat),
        r < 4194304,
{
    proof {
        lemma2_to64();
        lemma_floor_log2_63(x as nat);
    }
    let mut e: u64 = 0;
    let mut t: u64 = x;
    while t >= 2
        invariant
            1 <= t,
            floor_log2(x as nat) == e + floor_log2(t as nat),
            floor_log2(x as nat) <= 63,
            e <= 63,
        decreases t,
    {
        proof {
            assert(floor_log2(t as nat) == 1 + floor_log2((t / 2) as nat));
        }
        t = t / 2;
        e = e + 1;
    }
    assert(floor_log2(1nat) == 0);
    assert(e == floor_log2(x as nat));

    proof {
        lemma_mantissa_bounds(x as nat);
    }
    let m0: u64;
    if e >= 32 {
        let d = pow2_u64(e - 32);
        proof {
            lemma_pow2_pos((e - 32) as nat);
        }
        m0 = x / d;
        proof {
            lemma_pow2_adds(32, (e - 32) as nat);
            lemma_pow2_pos(32);
            lemma_mul_is_commutative(x as int, pow2(32) as int);
            lemma_div_multiples_vanish(x as int, pow2(32) as int);
            assert(((x as int) * (pow2(32) as int)) / (pow2(32) as int) == x as int);
            lemma_div_denominator((x as int) * (pow2(32) as int), pow2(32) as int, pow2((e - 32) as nat) as int);
            assert(mantissa(x as nat) == ((x as int) * (pow2(32) as int)) / ((pow2(32) as int) * (
            pow2((e - 32) as nat) as int)));
            assert(mantissa(x as nat) == (x as int) / (pow2((e - 32) as nat) as int));
        }
    } else {
        let p = pow2_u64(32 - e);
        proof {
            lemma_floor_log2_bounds(x as nat);
            lemma_pow2_pos((32 - e) as nat);
            lemma_pow2_pos(e as nat);
            lemma_mul_strict_inequality(x as int, pow2((e + 1) as nat) as int, pow2((32 - e) as nat) as int);
            lemma_pow2_adds((e + 1) as nat, (32 - e) as nat);
            lemma2_to64_rest();
            assert(x * pow2((32 - e) as nat) < pow2(33));
            lemma_pow2_adds((32 - e) as nat, e as nat);
            lemma_mul_is_associative(x as int, pow2((32 - e) as nat) as int, pow2(e as nat) as int);
            lemma_mul_is_commutative((x as int) * (pow2((32 - e) as nat) as int), pow2(e as nat) as int);
            lemma_div_multiples_vanish((x as int) * (pow2((32 - e) as nat) as int), pow2(e as nat) as int);
            assert((((x as int) * (pow2((32 - e) as nat) as int)) * (pow2(e as nat) as int)) / (
            pow2(e as nat) as int) == (x as int) * (pow2((32 - e) as nat) as int));
            assert(mantissa(x as nat) == (x as int) * (pow2((32 - e) as nat) as int));
        }
        m0 = x * p;
    }
    proof {
        lemma2_to64();
        lemma2_to64_rest();
    }
    assert(m0 == mantissa(x as nat));
    assert(4294967296 <= m0 && m0 < 8589934592);

    let mut m: u64 = m0;
    let mut acc: u64 = 0;
    let mut j: u64 = 0;
    while j < 16
        invariant
            j <= 16,
            4294967296 <= m && m < 8589934592,
            acc < pow2(j as nat),
            acc * pow2((16 - j) as nat) + frac_log2(m as nat, (16 - j) as nat) == frac_log2(
                mantissa(x as nat),
                16,
            ),
        decreases 16 - j,
    {
        proof {
            lemma2_to64();
            lemma2_to64_rest();
            lemma_pow2_adds(64, 1);
            lemma_pow2_adds(64, 2);
            lemma_pow2_adds(32, 32);
            lemma_pow2_adds(32, 33);
            lemma_pow2_adds(33, 33);
            lemma_pow2_pos(32);
            lemma_pow2_pos(33);
        }
        proof {
            lemma_mul_upper_bound(m as int, 8589934591, m as int, 8589934591);
        }
        let sq: u128 = (m as u128) * (m as u128);
        proof {
            assert(sq == (m as nat) * (m as nat));
            lemma_mul_inequality(4294967296, m as int, m as int);
            lemma_mul_inequality(4294967296, 4294967296, 4294967296);
            assert(sq >= pow2(64));
        }
        let ghost kk = (16 - j) as nat;
        assert(frac_log2(m as nat, kk) == if (m as nat) * (m as nat) >= pow2(65) {
            (pow2((kk - 1) as nat) + frac_log2(((m as nat) * (m as nat)) / pow2(33), (kk - 1) as nat)) as nat
        } else {
            frac_log2(((m as nat) * (m as nat)) / pow2(32), (kk - 1) as nat)
        });
        let bit: u64;
        let q: u128;
        if sq >= 36893488147419103232u128 {
            q = sq / 8589934592u128;
            bit = 1;
            proof {
                lemma_div_is_ordered(pow2(65) as int, sq as int, pow2(33) as int);
                lemma_div_multiples_vanish(pow2(32) as int, pow2(33) as int);
                assert(pow2(65) / pow2(33) == pow2(32));
                lemma_multiply_divide_lt(sq as int, pow2(33) as int, pow2(33) as int);
                assert(q >= 4294967296 && q < 8589934592);
                assert(frac_log2(m as nat, kk) == pow2((kk - 1) as nat) + frac_log2(
                    q as nat,
                    (kk - 1) as nat,
                ));
            }
        } else {
            q = sq / 4294967296u128;
            bit = 0;
            proof {
                lemma_div_is_ordered(pow2(64) as int, sq as int, pow2(32) as int);
                lemma_div_multiples_vanish(pow2(32) as int, pow2(32) as int);
                assert(pow2(64) / pow2(32) == pow2(32));
                lemma_multiply_divide_lt(sq as int, pow2(32) as int, pow2(33) as int);
                assert(q >= 4294967296 && q < 8589934592);
                assert(frac_log2(m as nat, kk) == frac_log2(q as nat, (kk - 1) as nat));
            }
        }
        proof {
            if j + 1 < 16 {
                lemma_pow2_strictly_increases((j + 1) as nat, 16);
            }
            lemma_pow2_adds(j as nat, 1);
            lemma_pow2_adds((15 - j) as nat, 1);
            assert((2 * acc + bit) * pow2((15 - j) as nat) == acc * pow2((16 - j) as nat) + bit
                * pow2((15 - j) as nat)) by (nonlinear_arith)
                requires
                    pow2((16 - j) as nat) == 2 * pow2((15 - j) as nat),
                    j < 16,
            ;
            assert((16 - j) - 1 == 15 - j);
        }
        m = q as u64;
        acc = 2 * acc + bit;
        j = j + 1;
    }
    proof {
        lemma2_to64();
        assert(frac_log2(m as nat, 0) == 0);
        assert(acc * pow2(0) == acc);
        assert(acc == frac_log2(mantissa(x as nat), 16));
    }
    e * 65536 + acc
}

/// The mantissa of x >= 1 lies in [2^32, 2^33).
pub proof fn lemma_mantissa_bounds(x: nat)
    requires
        x >= 1,
    ensures
        pow2(32) <= mantissa(x),
        mantissa(x) < pow2(33),
{
    let e = floor_log2(x);
    lemma_floor_log2_bounds(x);
    lemma_pow2_pos(e);
    lemma_pow2_pos(32);
    lemma_mul_inequality(pow2(e) as int, x as int, pow2(32) as int);
    lemma_pow2_adds(e, 32);
    lemma_mul_is_commutative(pow2(32) as int, pow2(e) as int);
    lemma_div_multiples_vanish(pow2(32) as int, pow2(e) as int);
    assert((pow2(e) * pow2(32)) / pow2(e) == pow2(32));
    lemma_div_is_ordered((pow2(e) * pow2(32)) as int, (x * pow2(32)) as int, pow2(e) as int);
    lemma_mul_strict_inequality(x as int, pow2(e + 1) as int, pow2(32) as int);
    lemma_pow2_adds(e + 1, 32);
    lemma_pow2_adds(e, 33);
    assert(x * pow2(32) < pow2(e) * pow2(33));
    lemma_multiply_divide_lt((x * pow2(32)) as int, pow2(e) as int, pow2(33) as int);
}

} // verus!
