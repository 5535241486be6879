//! Q32.32 unsigned fixed-point arithmetic.
//!
//! The robust soliton distribution needs a square root, a natural logarithm
//! and a handful of products and quotients.  Carrying them out on integers
//! keeps every step exactly reproducible, which is what lets the encoder and
//! the decoder agree on the degree table bit for bit.  A real number `v` is
//! stored as the `u64` value `v * 2^32`, truncated; operations that could
//! exceed 64 bits saturate at `u64::MAX`.

use vstd::prelude::*;
use vstd::arithmetic::power2::{pow2, lemma2_to64, lemma2_to64_rest, lemma_pow2_adds,
    lemma_pow2_pos, lemma_pow2_strictly_increases, lemma_pow2_unfold};
use vstd::arithmetic::mul::{lemma_mul_inequality, lemma_mul_upper_bound};

verus! {

/// The fixed-point representation of one: `2^32`.
pub const FX_ONE: u64 = 0x1_0000_0000;

/// `ln 2` in Q32.32, truncated.
pub const FX_LN2: u64 = 0xB172_17F7;

/// Clamps a non-negative mathematical integer into the `u64` range.
pub open spec fn cap64(x: int) -> int {
    if x > u64::MAX { u64::MAX as int } else { x }
}

/// Saturating fixed-point (or plain integer) addition.
pub open spec fn sp_sat_add(a: int, b: int) -> int {
    cap64(a + b)
}

/// Saturating fixed-point product: `(a * b) / 2^32`, capped.
pub open spec fn sp_fx_mul(a: int, b: int) -> int {
    cap64((a * b) / (FX_ONE as int))
}

/// Saturating fixed-point quotient: `(a * 2^32) / b`, capped;
/// a zero divisor saturates.
pub open spec fn sp_fx_div(a: int, b: int) -> int {
    if b <= 0 { u64::MAX as int } else { cap64((a * (FX_ONE as int)) / b) }
}

/// A machine integer as a saturating Q32.32 value.
pub open spec fn sp_int_to_fx(k: int) -> int {
    cap64(k * (FX_ONE as int))
}

/// The integer square root: the unique `r >= 0` with `r^2 <= x < (r+1)^2`.
pub open spec fn sp_isqrt(x: int) -> int {
    choose|r: int| 0 <= r && #[trigger] (r * r) <= x && x < (r + 1) * (r + 1)
}

/// The square root of a machine integer as a Q32.32 value:
/// `isqrt(k * 2^64)` equals `sqrt(k) * 2^32` up to truncation.
pub open spec fn sp_sqrt_fx(k: int) -> int {
    sp_isqrt(k * 0x1_0000_0000_0000_0000)
}

/// The position of the highest set bit: `floor(log2 x)` for `x >= 1`.
pub open spec fn sp_log2_floor(x: nat) -> nat
    decreases x,
{
    if x < 2 { 0 } else { 1 + sp_log2_floor(x / 2) }
}

/// `i` binary fraction bits of `log2(m / 2^32)` for a mantissa
/// `m` in `[2^32, 2^33)`, by repeated squaring with truncation.
pub open spec fn sp_log2_frac(m: int, i: nat) -> int
    decreases i,
{
    if i == 0 {
        0
    } else {
        let m2 = (m * m) / (FX_ONE as int);
        if m2 >= 2 * (FX_ONE as int) {
            pow2((i - 1) as nat) + sp_log2_frac(m2 / 2, (i - 1) as nat)
        } else {
            sp_log2_frac(m2, (i - 1) as nat)
        }
    }
}

/// `log2 x` in Q32.32 for `x > 2^32` (that is, for values above one).
pub open spec fn sp_fx_log2(x: int) -> int {
    let e = sp_log2_floor(x as nat);
    let m = x / (pow2((e - 32) as nat) as int);
    (e - 32) * (FX_ONE as int) + sp_log2_frac(m, 32)
}

/// `ln x` in Q32.32, clamped to zero below one (the distribution tail
/// weight is floored at zero so the table stays a distribution).
pub open spec fn sp_fx_ln(x: int) -> int {
    if x <= FX_ONE as int { 0 } else { sp_fx_mul(sp_fx_log2(x), FX_LN2 as int) }
}

/// Fixed-point division by a common positive divisor keeps the order.
pub proof fn lemma_fx_div_ordered(a: int, b: int, z: int)
    requires
        0 <= a <= b,
        z >= 1,
    ensures
        sp_fx_div(a, z) <= sp_fx_div(b, z),
{
    lemma_mul_inequality(a, b, FX_ONE as int);
    vstd::arithmetic::div_mod::lemma_div_is_ordered(
        a * (FX_ONE as int),
        b * (FX_ONE as int),
        z,
    );
}

/// A value divided by itself is exactly one; smaller numerators stay at or
/// below one.
pub proof fn lemma_fx_div_le_one(a: int, z: int)
    requires
        0 <= a <= z,
        z >= 1,
    ensures
        sp_fx_div(a, z) <= FX_ONE as int,
        sp_fx_div(z, z) == FX_ONE as int,
{
    vstd::arithmetic::div_mod::lemma_div_multiples_vanish(FX_ONE as int, z);
    assert((z * (FX_ONE as int)) / z == FX_ONE as int);
    lemma_fx_div_ordered(a, z, z);
}

/// Saturating addition.
pub fn sat_add(a: u64, b: u64) -> (r: u64)
    ensures
        r as int == sp_sat_add(a as int, b as int),
{
    let s: u128 = a as u128 + b as u128;
    if s > u64::MAX as u128 { u64::MAX } else { s as u64 }
}

/// Saturating fixed-point multiplication.
pub fn fx_mul(a: u64, b: u64) -> (r: u64)
    ensures
        r as int == sp_fx_mul(a as int, b as int),
{
    proof {
        lemma_mul_upper_bound(a as int, u64::MAX as int, b as int, u64::MAX as int);
    }
    let p: u128 = a as u128 * b as u128;
    let q: u128 = p / (FX_ONE as u128);
    if q > u64::MAX as u128 { u64::MAX } else { q as u64 }
}

/// Saturating fixed-point division.
pub fn fx_div(a: u64, b: u64) -> (r: u64)
    ensures
        r as int == sp_fx_div(a as int, b as int),
{
    if b == 0 {
        u64::MAX
    } else {
        proof {
            lemma_mul_upper_bound(a as int, u64::MAX as int, FX_ONE as int, FX_ONE as int);
        }
        let p: u128 = a as u128 * FX_ONE as u128;
        let q: u128 = p / (b as u128);
        if q > u64::MAX as u128 { u64::MAX } else { q as u64 }
    }
}

/// A machine integer as a saturating Q32.32 value.
pub fn int_to_fx(k: usize) -> (r: u64)
    ensures
        r as int == sp_int_to_fx(k as int),
{
    proof {
        lemma_mul_upper_bound(k as int, u64::MAX as int, FX_ONE as int, FX_ONE as int);
    }
    let p: u128 = k as u128 * FX_ONE as u128;
    if p > u64::MAX as u128 { u64::MAX } else { p as u64 }
}

/// Any two integer square roots of the same value agree.
proof fn lemma_isqrt_unique(x: int, r1: int, r2: int)
    requires
        0 <= r1 && r1 * r1 <= x && x < (r1 + 1) * (r1 + 1),
        0 <= r2 && r2 * r2 <= x && x < (r2 + 1) * (r2 + 1),
    ensures
        r1 == r2,
{
    if r1 < r2 {
        lemma_mul_inequality(r1 + 1, r2, r2);
        lemma_mul_inequality(r1 + 1, r2, r1 + 1);
        assert(false);
    }
    if r2 < r1 {
        lemma_mul_inequality(r2 + 1, r1, r1);
        lemma_mul_inequality(r2 + 1, r1, r2 + 1);
        assert(false);
    }
}

/// Every non-negative integer has an integer square root, so `sp_isqrt`
/// satisfies its defining property.
pub proof fn lemma_isqrt_exists(x: int)
    requires
        x >= 0,
    ensures
        0 <= sp_isqrt(x),
        sp_isqrt(x) * sp_isqrt(x) <= x,
        x < (sp_isqrt(x) + 1) * (sp_isqrt(x) + 1),
    decreases x,
{
    if x == 0 {
        assert(0 <= 0 && #[trigger] (0int * 0int) <= 0 && 0 < (0int + 1) * (0int + 1));
    } else {
        lemma_isqrt_exists(x - 1);
        let r = sp_isqrt(x - 1);
        if (r + 1) * (r + 1) <= x {
            let w = r + 1;
            assert(x < (w + 1) * (w + 1)) by (nonlinear_arith)
                requires
                    w == r + 1,
                    x - 1 < (r + 1) * (r + 1),
                    (r + 1) * (r + 1) <= x,
                    r >= 0,
            ;
            assert(0 <= w && #[trigger] (w * w) <= x && x < (w + 1) * (w + 1));
        } else {
            assert(0 <= r && #[trigger] (r * r) <= x && x < (r + 1) * (r + 1));
        }
    }
    let got = sp_isqrt(x);
    assert(0 <= got && got * got <= x && x < (got + 1) * (got + 1));
}

/// A witness pins down `sp_isqrt`.
proof fn lemma_isqrt_is(x: int, r: int)
    requires
        0 <= r && r * r <= x && x < (r + 1) * (r + 1),
    ensures
        sp_isqrt(x) == r,
{
    let w = choose|w: int| 0 <= w && #[trigger] (w * w) <= x && x < (w + 1) * (w + 1);
    lemma_isqrt_unique(x, w, r);
}

/// The integer square root of a 128-bit value, by bisection.
pub fn isqrt128(x: u128) -> (r: u64)
    ensures
        r as int == sp_isqrt(x as int),
{
    let mut lo: u64 = 0;
    let mut hi: u64 = u64::MAX;
    proof {
        assert((hi as int + 1) * (hi as int + 1) > x as int) by (nonlinear_arith)
            requires hi == u64::MAX && x <= u128::MAX;
    }
    while lo < hi
        invariant
            lo <= hi,
            (lo as int) * (lo as int) <= x as int,
            x < (hi as int + 1) * (hi as int + 1),
        decreases hi - lo,
    {
        let mid: u64 = ((lo as u128 + hi as u128 + 1) / 2) as u64;
        proof {
            lemma_mul_upper_bound(mid as int, u64::MAX as int, mid as int, u64::MAX as int);
        }
        if mid as u128 * mid as u128 <= x {
            lo = mid;
        } else {
            hi = mid - 1;
        }
    }
    proof {
        lemma_isqrt_is(x as int, lo as int);
    }
    lo
}

/// The square root of a machine integer in Q32.32.
pub fn sqrt_fx(k: usize) -> (r: u64)
    ensures
        r as int == sp_sqrt_fx(k as int),
{
    isqrt128(k as u128 * 0x1_0000_0000_0000_0000u128)
}

/// `2^e` brackets any `x >= 1` at `e = sp_log2_floor(x)`.
proof fn lemma_log2_floor_bounds(x: nat)
    requires
        x >= 1,
    ensures
        pow2(sp_log2_floor(x)) <= x < pow2(sp_log2_floor(x) + 1),
    decreases x,
{
    let e = sp_log2_floor(x);
    if x < 2 {
        lemma2_to64();
    } else {
        lemma_log2_floor_bounds(x / 2);
        lemma_pow2_unfold(e);
        lemma_pow2_unfold(e + 1);
    }
}

/// Below `2^64` the bit position stays below 64.
proof fn lemma_log2_floor_le63(x: nat)
    requires
        1 <= x <= u64::MAX,
    ensures
        sp_log2_floor(x) <= 63,
{
    let e = sp_log2_floor(x);
    lemma_log2_floor_bounds(x);
    if e > 63 {
        if e > 64 {
            lemma_pow2_strictly_increases(64, e);
        }
        lemma2_to64();
        assert(false);
    }
}

/// Values of one or more have `pow2(e) <= x`, so `x >= 2^32` forces `e >= 32`.
proof fn lemma_log2_floor_ge32(x: nat)
    requires
        x >= 0x1_0000_0000,
    ensures
        sp_log2_floor(x) >= 32,
{
    let e = sp_log2_floor(x);
    lemma_log2_floor_bounds(x);
    if e < 32 {
        if e + 1 < 32 {
            lemma_pow2_strictly_increases(e + 1, 32);
        }
        lemma2_to64();
        assert(false);
    }
}

/// The position of the highest set bit of a positive word.
pub fn log2_floor(x: u64) -> (r: u64)
    requires
        x >= 1,
    ensures
        r as nat == sp_log2_floor(x as nat),
        r <= 63,
    decreases x,
{
    proof {
        lemma_log2_floor_le63(x as nat);
    }
    if x < 2 { 0 } else { 1 + log2_floor(x / 2) }
}

/// `2^n` as a word.
pub fn pow2_exec(n: u64) -> (r: u64)
    requires
        n <= 63,
    ensures
        r as nat == pow2(n as nat),
    decreases n,
{
    if n == 0 {
        proof { lemma2_to64(); }
        1
    } else {
        let p = pow2_exec(n - 1);
        proof {
            lemma_pow2_unfold(n as nat);
            lemma_pow2_strictly_increases((n - 1) as nat, 63);
            lemma2_to64_rest();
        }
        2 * p
    }
}

/// The truncated fraction bits stay below `2^i`.
proof fn lemma_log2_frac_bound(m: int, i: nat)
    ensures
        0 <= sp_log2_frac(m, i) < pow2(i),
    decreases i,
{
    lemma_pow2_pos(i);
    if i == 0 {
        lemma2_to64();
    } else {
        let m2 = (m * m) / (FX_ONE as int);
        lemma_log2_frac_bound(m2 / 2, (i - 1) as nat);
        lemma_log2_frac_bound(m2, (i - 1) as nat);
        lemma_pow2_unfold(i);
    }
}

/// Binary fraction bits of `log2` of a mantissa in `[1, 2)`.
fn log2_frac(m: u64, i: u64) -> (r: u64)
    requires
        FX_ONE <= m < 2 * FX_ONE,
        i <= 32,
    ensures
        r as int == sp_log2_frac(m as int, i as nat),
    decreases i,
{
    if i == 0 {
        0
    } else {
        proof {
            assert(FX_ONE == 0x1_0000_0000u64);
            assert(0x1_0000_0000_0000_0000 <= (m as int) * (m as int)
                && (m as int) * (m as int) < 0x4_0000_0000_0000_0000) by (nonlinear_arith)
                requires
                    0x1_0000_0000 <= (m as int) && (m as int) < 0x2_0000_0000,
            ;
            vstd::arithmetic::div_mod::lemma_div_is_ordered(
                0x1_0000_0000_0000_0000,
                (m as int) * (m as int),
                0x1_0000_0000,
            );
            vstd::arithmetic::div_mod::lemma_div_is_ordered(
                (m as int) * (m as int),
                0x4_0000_0000_0000_0000 - 1,
                0x1_0000_0000,
            );
            assert((m as int) * (m as int) / 0x1_0000_0000 >= 0x1_0000_0000);
            assert((m as int) * (m as int) / 0x1_0000_0000 <= 0x3_ffff_ffff);
        }
        let m2: u64 = ((m as u128 * m as u128) / FX_ONE as u128) as u64;
        let bit = pow2_exec(i - 1);
        proof {
            lemma_pow2_strictly_increases((i - 1) as nat, 32);
            lemma2_to64();
            lemma_log2_frac_bound((m2 / 2) as int, (i - 1) as nat);
            lemma_log2_frac_bound(m2 as int, (i - 1) as nat);
        }
        if m2 >= 2 * FX_ONE {
            bit + log2_frac(m2 / 2, i - 1)
        } else {
            log2_frac(m2, i - 1)
        }
    }
}

/// Above one, the fixed-point base-two logarithm is non-negative.
pub proof fn lemma_fx_log2_nonneg(x: int)
    requires
        x > FX_ONE as int,
    ensures
        sp_fx_log2(x) >= 0,
{
    let e = sp_log2_floor(x as nat);
    lemma_log2_floor_ge32(x as nat);
    let m = x / (pow2((e - 32) as nat) as int);
    lemma_log2_frac_bound(m, 32);
    vstd::arithmetic::mul::lemma_mul_nonnegative((e - 32) as int, FX_ONE as int);
}

/// Natural logarithm in Q32.32, clamped to zero below one.
pub fn fx_ln(x: u64) -> (r: u64)
    ensures
        r as int == sp_fx_ln(x as int),
{
    if x <= FX_ONE {
        0
    } else {
        let e = log2_floor(x);
        proof {
            lemma_log2_floor_ge32(x as nat);
            lemma_log2_floor_bounds(x as nat);
            lemma_pow2_pos((e - 32) as nat);
        }
        let m = x / pow2_exec(e - 32);
        proof {
            let ei = e as int;
            let p = pow2((ei - 32) as nat) as int;
            lemma_pow2_adds((ei - 32) as nat, 32);
            lemma_pow2_unfold((e + 1) as nat);
            lemma2_to64();
            // pow2(e) == p * 2^32, so p * 2^32 <= x < 2 * p * 2^32 brackets the mantissa.
            assert(p * 0x1_0000_0000 <= (x as int) && (x as int) < 2 * (p * 0x1_0000_0000));
            assert(0x1_0000_0000 <= (x as int) / p && (x as int) / p < 0x2_0000_0000)
                by (nonlinear_arith)
                requires
                    p > 0,
                    p * 0x1_0000_0000 <= x as int,
                    (x as int) < 2 * (p * 0x1_0000_0000),
            ;
        }
        let frac = log2_frac(m, 32);
        proof {
            lemma_log2_frac_bound(m as int, 32);
            lemma_pow2_strictly_increases(32, 63);
            lemma2_to64();
            lemma2_to64_rest();
        }
        let l2: u64 = (e - 32) * FX_ONE + frac;
        fx_mul(l2, FX_LN2)
    }
}

} // verus!
