//! The robust soliton distribution and the seeded degree/index generator.
//!
//! For a configuration `(k, delta, c)` this module builds the robust soliton
//! weight table in Q32.32 fixed point and exposes a Park-Miller linear
//! congruential generator that turns a seed into a degree (sampled from the
//! table) and that many distinct source indices.  Both ends of the channel
//! run this code on the same parameters, and every step is an exact integer
//! function of its inputs, so a seed reproduces the same selection anywhere.

use vstd::prelude::*;
use vstd::arithmetic::div_mod::lemma_mod_division_less_than_divisor;
use crate::fixed::{FX_ONE, sp_sat_add, sp_fx_mul, sp_fx_div, sp_int_to_fx, sp_sqrt_fx,
    sp_fx_ln, sat_add, fx_mul, fx_div, int_to_fx, sqrt_fx, fx_ln,
    lemma_fx_div_ordered, lemma_fx_div_le_one};
use crate::errors::LtError;
use crate::{DEFAULT_DELTA, DEFAULT_C};

verus! {

/// Park-Miller multiplier.
pub const PRNG_A: u64 = 16807;

/// Park-Miller modulus: `2^31 - 1`.
pub const PRNG_M: u64 = 0x7fff_ffff;

/// Largest value the generator hands out: `PRNG_M - 1`.
pub const PRNG_MAX_RAND: u64 = 0x7fff_fffe;

/// Largest admissible number of source symbols: indices are drawn modulo
/// `k` from residues below `PRNG_M`, so `k` must stay below the modulus.
pub const MAX_SOURCES: usize = 0x7fff_fffe;

// ---------------------------------------------------------------------------
// The weight table, index by index, as mathematical functions of (k, delta, c).
// ---------------------------------------------------------------------------

/// `s = c * sqrt(k) * ln(k / delta)` in Q32.32.
pub open spec fn sp_s(k: int, delta: int, c: int) -> int {
    sp_fx_mul(sp_fx_mul(c, sp_fx_ln(sp_fx_div(sp_int_to_fx(k), delta))), sp_sqrt_fx(k))
}

/// The spike position: `floor(k / s)` clamped into `[2, k - 1]`.
pub open spec fn sp_pivot(k: int, s: int) -> int {
    let q = if s <= 0 { k - 1 } else { (k * (FX_ONE as int)) / s };
    let lo = if q < k - 1 { q } else { k - 1 };
    if lo < 2 { 2 } else { lo }
}

/// The robust tail weight at zero-based index `j` (degree `j + 1`),
/// unnormalized, in Q32.32.  The logarithmic spike is floored at zero.
pub open spec fn sp_tau_at(s: int, k: int, delta: int, j: int) -> int {
    let pivot = sp_pivot(k, s);
    if j < pivot - 1 {
        s / (k * (j + 1))
    } else if j == pivot - 1 {
        sp_fx_mul(s / k, sp_fx_ln(sp_fx_div(s, delta)))
    } else {
        0
    }
}

/// The ideal soliton weight at zero-based index `j`, in Q32.32:
/// `1/k` at degree one, `1 / (d * (d - 1))` above.
pub open spec fn sp_rho_at(k: int, j: int) -> int {
    if j == 0 { (FX_ONE as int) / k } else { (FX_ONE as int) / ((j + 1) * j) }
}

/// The unnormalized robust soliton weight at index `j`.
pub open spec fn sp_weight_at(k: int, delta: int, c: int, j: int) -> int {
    sp_sat_add(sp_rho_at(k, j), sp_tau_at(sp_s(k, delta, c), k, delta, j))
}

/// The running sum of weights through index `j` (saturating).
pub open spec fn sp_prefix(k: int, delta: int, c: int, j: int) -> int
    decreases j + 1,
{
    if j < 0 {
        0
    } else {
        sp_sat_add(sp_prefix(k, delta, c, j - 1), sp_weight_at(k, delta, c, j))
    }
}

/// The normalizer `Z`: the sum of all `k` weights.
pub open spec fn sp_z(k: int, delta: int, c: int) -> int {
    sp_prefix(k, delta, c, k - 1)
}

/// The cumulative distribution at index `j`: the prefix weight normalized
/// by `Z`, in Q32.32.  By construction the final entry is exactly one.
pub open spec fn sp_cdf_at(k: int, delta: int, c: int, j: int) -> int {
    sp_fx_div(sp_prefix(k, delta, c, j), sp_z(k, delta, c))
}

/// The normalized probability mass at index `j`, in Q32.32.
pub open spec fn sp_mu_at(k: int, delta: int, c: int, j: int) -> int {
    sp_fx_div(sp_weight_at(k, delta, c, j), sp_z(k, delta, c))
}

/// Prefix sums never shrink as the index grows.
pub proof fn lemma_prefix_monotone(k: int, delta: int, c: int, j1: int, j2: int)
    requires
        j1 <= j2,
        k >= 1,
        c >= 0,
    ensures
        0 <= sp_prefix(k, delta, c, j1) <= sp_prefix(k, delta, c, j2),
        sp_prefix(k, delta, c, j2) <= u64::MAX,
    decreases j2 + 1,
{
    if j2 >= 0 {
        lemma_prefix_monotone(k, delta, c, j2 - 1, j2 - 1);
        if j1 <= j2 - 1 {
            lemma_prefix_monotone(k, delta, c, j1, j2 - 1);
        }
        lemma_weight_nonneg(k, delta, c, j2);
    }
}

/// The spike parameter is non-negative.
pub proof fn lemma_s_nonneg(k: int, delta: int, c: int)
    requires
        k >= 0,
        c >= 0,
    ensures
        sp_s(k, delta, c) >= 0,
{
    lemma_ln_nonneg(sp_fx_div(sp_int_to_fx(k), delta));
    let l = sp_fx_ln(sp_fx_div(sp_int_to_fx(k), delta));
    vstd::arithmetic::mul::lemma_mul_nonnegative(c, l);
    vstd::arithmetic::div_mod::lemma_div_pos_is_pos(c * l, FX_ONE as int);
    let inner = sp_fx_mul(c, l);
    crate::fixed::lemma_isqrt_exists(k * 0x1_0000_0000_0000_0000);
    let sq = sp_sqrt_fx(k);
    vstd::arithmetic::mul::lemma_mul_nonnegative(inner, sq);
    vstd::arithmetic::div_mod::lemma_div_pos_is_pos(inner * sq, FX_ONE as int);
}

/// Every weight is a non-negative value that fits a word.
pub proof fn lemma_weight_nonneg(k: int, delta: int, c: int, j: int)
    requires
        k >= 1,
        j >= 0,
        c >= 0,
    ensures
        0 <= sp_weight_at(k, delta, c, j) <= u64::MAX,
{
    lemma_rho_nonneg(k, j);
    lemma_s_nonneg(k, delta, c);
    lemma_tau_nonneg(sp_s(k, delta, c), k, delta, j);
}

proof fn lemma_rho_nonneg(k: int, j: int)
    requires
        k >= 1,
        j >= 0,
    ensures
        0 <= sp_rho_at(k, j),
{
    if j == 0 {
        vstd::arithmetic::div_mod::lemma_div_pos_is_pos(FX_ONE as int, k);
    } else {
        vstd::arithmetic::mul::lemma_mul_strictly_positive(j + 1, j);
        vstd::arithmetic::div_mod::lemma_div_pos_is_pos(FX_ONE as int, (j + 1) * j);
    }
}

proof fn lemma_tau_nonneg(s: int, k: int, delta: int, j: int)
    requires
        s >= 0,
        k >= 1,
        j >= 0,
    ensures
        0 <= sp_tau_at(s, k, delta, j),
{
    let pivot = sp_pivot(k, s);
    if j < pivot - 1 {
        vstd::arithmetic::mul::lemma_mul_strictly_positive(k, j + 1);
        vstd::arithmetic::div_mod::lemma_div_pos_is_pos(s, k * (j + 1));
    } else if j == pivot - 1 {
        let a = s / k;
        let b = sp_fx_ln(sp_fx_div(s, delta));
        vstd::arithmetic::div_mod::lemma_div_pos_is_pos(s, k);
        lemma_ln_nonneg(sp_fx_div(s, delta));
        vstd::arithmetic::mul::lemma_mul_nonnegative(a, b);
        vstd::arithmetic::div_mod::lemma_div_pos_is_pos(a * b, FX_ONE as int);
    }
}

/// The clamped logarithm never goes negative.
proof fn lemma_ln_nonneg(x: int)
    ensures
        sp_fx_ln(x) >= 0,
{
    if x > FX_ONE as int {
        let l2 = crate::fixed::sp_fx_log2(x);
        crate::fixed::lemma_fx_log2_nonneg(x);
        vstd::arithmetic::mul::lemma_mul_nonnegative(l2, crate::fixed::FX_LN2 as int);
        vstd::arithmetic::div_mod::lemma_div_pos_is_pos(l2 * (crate::fixed::FX_LN2 as int),
            FX_ONE as int);
    }
}

// ---------------------------------------------------------------------------
// Executable construction of the tables.
// ---------------------------------------------------------------------------

/// Generates the robust part of the distribution (`tau`), unnormalized,
/// in Q32.32.  `s` is the spike parameter in Q32.32.
pub fn gen_tau(s: u64, k: usize, delta: u64) -> (r: Vec<u64>)
    ensures
        r@.len() == k,
        forall|j: int| 0 <= j < k ==> r@[j] as int == sp_tau_at(s as int, k as int, delta as int, j),
{
    let mut r: Vec<u64> = Vec::new();
    if k == 0 {
        return r;
    }
    // floor(k / s), clamped into [2, k - 1].
    proof {
        vstd::arithmetic::mul::lemma_mul_upper_bound(
            k as int, u64::MAX as int, FX_ONE as int, FX_ONE as int);
    }
    let q128: u128 = if s == 0 {
        (k - 1) as u128
    } else {
        (k as u128 * FX_ONE as u128) / (s as u128)
    };
    let lo128: u128 = if q128 < (k - 1) as u128 { q128 } else { (k - 1) as u128 };
    let pivot: usize = if lo128 < 2 { 2 } else { lo128 as usize };
    assert(pivot as int == sp_pivot(k as int, s as int));
    let mut j: usize = 0;
    while j < k
        invariant
            j <= k,
            1 <= k,
            pivot as int == sp_pivot(k as int, s as int),
            pivot >= 2,
            r@.len() == j,
            forall|i: int| 0 <= i < j
                ==> r@[i] as int == sp_tau_at(s as int, k as int, delta as int, i),
        decreases k - j,
    {
        if j < pivot - 1 {
            proof {
                vstd::arithmetic::mul::lemma_mul_upper_bound(
                    k as int, u64::MAX as int, (j + 1) as int, u64::MAX as int);
                vstd::arithmetic::mul::lemma_mul_strictly_positive(k as int, (j + 1) as int);
                vstd::arithmetic::div_mod::lemma_div_nonincreasing(
                    s as int, k as int * (j + 1) as int);
                vstd::arithmetic::div_mod::lemma_div_pos_is_pos(
                    s as int, k as int * (j + 1) as int);
            }
            let d128: u128 = k as u128 * (j + 1) as u128;
            let v: u64 = ((s as u128) / d128) as u64;
            r.push(v);
        } else if j == pivot - 1 {
            proof {
                vstd::arithmetic::div_mod::lemma_div_nonincreasing(s as int, k as int);
                vstd::arithmetic::div_mod::lemma_div_pos_is_pos(s as int, k as int);
            }
            let a: u64 = ((s as u128) / (k as u128)) as u64;
            let b: u64 = fx_ln(fx_div(s, delta));
            r.push(fx_mul(a, b));
        } else {
            r.push(0);
        }
        j = j + 1;
    }
    r
}

/// Generates the ideal soliton distribution (`rho`), in Q32.32.
pub fn gen_rho(k: usize) -> (r: Vec<u64>)
    ensures
        r@.len() == k,
        forall|j: int| 0 <= j < k ==> r@[j] as int == sp_rho_at(k as int, j),
{
    let mut r: Vec<u64> = Vec::new();
    let mut j: usize = 0;
    while j < k
        invariant
            j <= k,
            r@.len() == j,
            forall|i: int| 0 <= i < j ==> r@[i] as int == sp_rho_at(k as int, i),
        decreases k - j,
    {
        if j == 0 {
            proof {
                vstd::arithmetic::div_mod::lemma_div_nonincreasing(FX_ONE as int, k as int);
                vstd::arithmetic::div_mod::lemma_div_pos_is_pos(FX_ONE as int, k as int);
            }
            r.push(((FX_ONE as u128) / (k as u128)) as u64);
        } else {
            proof {
                vstd::arithmetic::mul::lemma_mul_upper_bound(
                    (j + 1) as int, u64::MAX as int, j as int, u64::MAX as int);
                vstd::arithmetic::mul::lemma_mul_strictly_positive((j + 1) as int, j as int);
                vstd::arithmetic::div_mod::lemma_div_nonincreasing(
                    FX_ONE as int, (j + 1) as int * (j as int));
                vstd::arithmetic::div_mod::lemma_div_pos_is_pos(
                    FX_ONE as int, (j + 1) as int * (j as int));
            }
            let d128: u128 = (j + 1) as u128 * j as u128;
            r.push(((FX_ONE as u128) / d128) as u64);
        }
        j = j + 1;
    }
    r
}

/// The spike parameter `s = c * sqrt(k) * ln(k / delta)` in Q32.32.
fn gen_s(k: usize, delta: u64, c: u64) -> (r: u64)
    ensures
        r as int == sp_s(k as int, delta as int, c as int),
{
    let lnterm = fx_ln(fx_div(int_to_fx(k), delta));
    fx_mul(fx_mul(c, lnterm), sqrt_fx(k))
}

/// The unnormalized weights `rho + tau`, element-wise, saturating.
fn gen_weights(k: usize, delta: u64, c: u64) -> (r: Vec<u64>)
    ensures
        r@.len() == k,
        forall|j: int| 0 <= j < k
            ==> r@[j] as int == sp_weight_at(k as int, delta as int, c as int, j),
{
    let s = gen_s(k, delta, c);
    let tau = gen_tau(s, k, delta);
    let rho = gen_rho(k);
    let mut r: Vec<u64> = Vec::new();
    let mut j: usize = 0;
    while j < k
        invariant
            j <= k,
            tau@.len() == k,
            rho@.len() == k,
            s as int == sp_s(k as int, delta as int, c as int),
            forall|i: int| 0 <= i < k
                ==> tau@[i] as int == sp_tau_at(s as int, k as int, delta as int, i),
            forall|i: int| 0 <= i < k ==> rho@[i] as int == sp_rho_at(k as int, i),
            r@.len() == j,
            forall|i: int| 0 <= i < j
                ==> r@[i] as int == sp_weight_at(k as int, delta as int, c as int, i),
        decreases k - j,
    {
        r.push(sat_add(rho[j], tau[j]));
        j = j + 1;
    }
    r
}

/// The running prefix sums of the weights, saturating.
fn gen_prefix(k: usize, delta: u64, c: u64) -> (r: Vec<u64>)
    ensures
        r@.len() == k,
        forall|j: int| 0 <= j < k
            ==> r@[j] as int == sp_prefix(k as int, delta as int, c as int, j),
{
    let w = gen_weights(k, delta, c);
    let mut r: Vec<u64> = Vec::new();
    let mut acc: u64 = 0;
    let mut j: usize = 0;
    while j < k
        invariant
            j <= k,
            w@.len() == k,
            forall|i: int| 0 <= i < k
                ==> w@[i] as int == sp_weight_at(k as int, delta as int, c as int, i),
            acc as int == sp_prefix(k as int, delta as int, c as int, j - 1),
            r@.len() == j,
            forall|i: int| 0 <= i < j
                ==> r@[i] as int == sp_prefix(k as int, delta as int, c as int, i),
        decreases k - j,
    {
        acc = sat_add(acc, w[j]);
        r.push(acc);
        j = j + 1;
    }
    r
}

/// Generates the normalized robust soliton distribution (`mu`), in Q32.32.
///
/// Each entry is the exact truncated quotient of its weight by the
/// normalizer, so the entries' total sits within `k` truncation units
/// below one whenever the normalizer did not saturate (`lemma_mu_mass`);
/// the cumulative table carries the exact unit total instead.
pub fn gen_mu(k: usize, delta: u64, c: u64) -> (r: Vec<u64>)
    ensures
        r@.len() == k,
        forall|j: int| 0 <= j < k
            ==> r@[j] as int == sp_mu_at(k as int, delta as int, c as int, j),
        seq_sum(r@) == sp_mu_sum(k as int, delta as int, c as int, k - 1),
        1 <= k <= MAX_SOURCES && 1 <= c
            && sp_z(k as int, delta as int, c as int) < u64::MAX
            ==> (FX_ONE as int) - k < seq_sum(r@) <= FX_ONE as int,
{
    let w = gen_weights(k, delta, c);
    let p = gen_prefix(k, delta, c);
    let z: u64 = if k == 0 { 0 } else { p[k - 1] };
    assert(z as int == sp_z(k as int, delta as int, c as int) || k == 0);
    let mut r: Vec<u64> = Vec::new();
    let mut j: usize = 0;
    while j < k
        invariant
            j <= k,
            w@.len() == k,
            forall|i: int| 0 <= i < k
                ==> w@[i] as int == sp_weight_at(k as int, delta as int, c as int, i),
            k > 0 ==> z as int == sp_z(k as int, delta as int, c as int),
            r@.len() == j,
            forall|i: int| 0 <= i < j
                ==> r@[i] as int == sp_mu_at(k as int, delta as int, c as int, i),
            seq_sum(r@) == sp_mu_sum(k as int, delta as int, c as int, j - 1),
        decreases k - j,
    {
        let ghost r0 = r@;
        r.push(fx_div(w[j], z));
        proof {
            assert(r@.drop_last() =~= r0);
        }
        j = j + 1;
    }
    proof {
        if 1 <= k <= MAX_SOURCES && 1 <= c
            && sp_z(k as int, delta as int, c as int) < u64::MAX {
            lemma_mu_mass(k as int, delta as int, c as int);
        }
    }
    r
}

/// Generates the cumulative distribution of the robust soliton, in Q32.32.
///
/// Each entry is the normalized prefix weight, so the table never decreases
/// and its final entry is exactly one whenever the normalizer is positive.
pub fn gen_rsd_cdf(k: usize, delta: u64, c: u64) -> (r: Vec<u64>)
    ensures
        r@.len() == k,
        forall|j: int| 0 <= j < k
            ==> r@[j] as int == sp_cdf_at(k as int, delta as int, c as int, j),
        forall|j1: int, j2: int| 0 <= j1 <= j2 < k ==> #[trigger] r@[j1] <= #[trigger] r@[j2],
        k > 0 && sp_z(k as int, delta as int, c as int) >= 1 ==> r@[k - 1] == FX_ONE,
        forall|j: int| 0 <= j < k && sp_z(k as int, delta as int, c as int) >= 1
            ==> #[trigger] r@[j] <= FX_ONE,
{
    let p = gen_prefix(k, delta, c);
    let z: u64 = if k == 0 { 0 } else { p[k - 1] };
    let mut r: Vec<u64> = Vec::new();
    let mut j: usize = 0;
    while j < k
        invariant
            j <= k,
            p@.len() == k,
            forall|i: int| 0 <= i < k
                ==> p@[i] as int == sp_prefix(k as int, delta as int, c as int, i),
            k > 0 ==> z as int == sp_z(k as int, delta as int, c as int),
            r@.len() == j,
            forall|i: int| 0 <= i < j
                ==> r@[i] as int == sp_cdf_at(k as int, delta as int, c as int, i),
        decreases k - j,
    {
        r.push(fx_div(p[j], z));
        j = j + 1;
    }
    proof {
        let ki = k as int;
        let di = delta as int;
        let ci = c as int;
        let zi = sp_z(ki, di, ci);
        assert forall|j1: int, j2: int| 0 <= j1 <= j2 < k implies #[trigger] r@[j1] <= #[trigger] r@[j2] by {
            lemma_prefix_monotone(ki, di, ci, j1, j2);
            if zi >= 1 {
                lemma_fx_div_ordered(sp_prefix(ki, di, ci, j1), sp_prefix(ki, di, ci, j2), zi);
            }
        }
        if k > 0 && zi >= 1 {
            lemma_fx_div_le_one(zi, zi);
            assert(r@[ki - 1] as int == sp_fx_div(zi, zi));
        }
        assert forall|j: int| 0 <= j < k && zi >= 1 implies #[trigger] r@[j] <= FX_ONE by {
            lemma_prefix_monotone(ki, di, ci, j, ki - 1);
            lemma_fx_div_le_one(sp_prefix(ki, di, ci, j), zi);
        }
    }
    r
}

// ---------------------------------------------------------------------------
// The seeded generator.
// ---------------------------------------------------------------------------

/// A seed, folded into the generator's state space `[0, PRNG_M)`:
/// its absolute value reduced modulo the Park-Miller modulus.
pub open spec fn sp_normalize_seed(seed: int) -> int {
    (if seed < 0 { -seed } else { seed }) % (PRNG_M as int)
}

/// One Park-Miller step: `x -> (16807 * x) mod (2^31 - 1)`.
pub open spec fn sp_lcg(x: int) -> int {
    (16807 * x) % (PRNG_M as int)
}

/// The `n`-th iterate of the generator from state `x`.
pub open spec fn sp_lcg_iter(x: int, n: nat) -> int
    decreases n,
{
    if n == 0 { x } else { sp_lcg(sp_lcg_iter(x, (n - 1) as nat)) }
}

/// Iterates of a non-negative state stay in `[0, PRNG_M)` after one step.
pub proof fn lemma_lcg_iter_range(x: int, n: nat)
    requires
        0 <= x,
    ensures
        0 <= sp_lcg_iter(x, n),
        n >= 1 ==> sp_lcg_iter(x, n) < PRNG_M,
    decreases n,
{
    if n >= 1 {
        lemma_lcg_iter_range(x, (n - 1) as nat);
        lemma_mod_division_less_than_divisor(16807 * sp_lcg_iter(x, (n - 1) as nat),
            PRNG_M as int);
    }
}

/// The degree scan: the one-based position of the first table entry whose
/// normalized value exceeds `x / PRNG_MAX_RAND`, or the table length if
/// none does.  `cdf[i] / 2^32 > x / PRNG_MAX_RAND` is compared exactly as
/// `cdf[i] * PRNG_MAX_RAND > x * 2^32`.
pub open spec fn sp_scan(cdf: Seq<u64>, x: int, i: int) -> int
    decreases cdf.len() - i,
{
    if i < 0 || i >= cdf.len() {
        cdf.len() as int
    } else if (cdf[i] as int) * (PRNG_MAX_RAND as int) > x * (FX_ONE as int) {
        i + 1
    } else {
        sp_scan(cdf, x, i + 1)
    }
}

/// The degree drawn for the generator output `x`.
pub open spec fn sp_degree(cdf: Seq<u64>, x: int) -> int {
    sp_scan(cdf, x, 0)
}

/// The scan lands in `[i + 1, len]`.
pub proof fn lemma_scan_range(cdf: Seq<u64>, x: int, i: int)
    requires
        0 <= i <= cdf.len(),
    ensures
        i < cdf.len() ==> i + 1 <= sp_scan(cdf, x, i) <= cdf.len(),
        i == cdf.len() ==> sp_scan(cdf, x, i) == cdf.len(),
    decreases cdf.len() - i,
{
    if i < cdf.len() {
        lemma_scan_range(cdf, x, i + 1);
    }
}

/// The distinct residues modulo `k` among the first `n` iterates after
/// state `x`, in order of first appearance.
pub open spec fn sp_seen(k: int, x: int, n: nat) -> Seq<usize>
    decreases n,
{
    if n == 0 || k <= 0 {
        Seq::empty()
    } else {
        let s = sp_seen(k, x, (n - 1) as nat);
        let v = (sp_lcg_iter(x, n) % k) as usize;
        if s.contains(v) { s } else { s.push(v) }
    }
}

/// The collected residues are distinct, below `k`, and at most `n` many.
pub proof fn lemma_seen_props(k: int, x: int, n: nat)
    requires
        1 <= k <= usize::MAX,
        0 <= x,
    ensures
        sp_seen(k, x, n).no_duplicates(),
        forall|i: int| 0 <= i < sp_seen(k, x, n).len()
            ==> (#[trigger] sp_seen(k, x, n)[i] as int) < k,
        sp_seen(k, x, n).len() <= n,
    decreases n,
{
    if n > 0 {
        lemma_seen_props(k, x, (n - 1) as nat);
        let s = sp_seen(k, x, (n - 1) as nat);
        lemma_lcg_iter_range(x, n);
        lemma_mod_division_less_than_divisor(sp_lcg_iter(x, n), k);
        let v = (sp_lcg_iter(x, n) % k) as usize;
        if !s.contains(v) {
            assert forall|i: int, j: int| 0 <= i < j < s.push(v).len()
                implies s.push(v)[i] != s.push(v)[j]
            by {
                if j == s.len() {
                    assert(s.push(v)[i] == s[i]);
                    assert(s.contains(s[i]));
                }
            }
        }
    }
}

/// More iterates never lose residues, and each step adds at most one.
pub proof fn lemma_seen_len_monotone(k: int, x: int, n1: nat, n2: nat)
    requires
        n1 <= n2,
    ensures
        sp_seen(k, x, n1).len() <= sp_seen(k, x, n2).len(),
    decreases n2,
{
    if n1 < n2 {
        lemma_seen_len_monotone(k, x, n1, (n2 - 1) as nat);
    }
}

/// The number of iterates needed before `d` distinct residues have shown
/// up: the first `n` whose collection has length `d`.
pub open spec fn sp_steps(k: int, x: int, d: int) -> nat {
    choose|n: nat|
        (#[trigger] sp_seen(k, x, n)).len() == d && n >= 1
            && sp_seen(k, x, (n - 1) as nat).len() < d
}

/// The index set drawn for degree `d` after state `x`.
pub open spec fn sp_indices(k: int, x: int, d: int) -> Seq<usize> {
    sp_seen(k, x, sp_steps(k, x, d))
}

/// A witness for the first time the collection reaches `d` pins down
/// `sp_steps` and with it `sp_indices`.
pub proof fn lemma_steps_eq(k: int, x: int, d: int, n: nat)
    requires
        sp_seen(k, x, n).len() == d,
        n >= 1,
        sp_seen(k, x, (n - 1) as nat).len() < d,
    ensures
        sp_steps(k, x, d) == n,
        sp_indices(k, x, d) == sp_seen(k, x, n),
{
    let m = sp_steps(k, x, d);
    assert(sp_seen(k, x, m).len() == d && m >= 1 && sp_seen(k, x, (m - 1) as nat).len() < d);
    if m < n {
        lemma_seen_len_monotone(k, x, m, (n - 1) as nat);
        assert(false);
    }
    if n < m {
        lemma_seen_len_monotone(k, x, n, (m - 1) as nat);
        assert(false);
    }
}

/// Whether `v` holds `x`.
fn contains_usize(v: &Vec<usize>, x: usize) -> (b: bool)
    ensures
        b == v@.contains(x),
{
    let n = v.len();
    let mut i: usize = 0;
    while i < n
        invariant
            i <= n,
            n == v@.len(),
            forall|j: int| 0 <= j < i ==> v@[j] != x,
        decreases n - i,
    {
        if v[i] == x {
            assert(v@[i as int] == x);
            return true;
        }
        i = i + 1;
    }
    false
}

/// A pseudo-random generator that yields, for each seed, a degree sampled
/// from the robust soliton table and that many distinct source indices.
pub struct PRNG {
    state: Option<u64>,
    k: usize,
    cdf: Vec<u64>,
}

/// The table is exactly the one `(k, delta, c)` prescribe.
pub open spec fn is_rsd_table(cdf: Seq<u64>, k: int, delta: int, c: int) -> bool {
    cdf.len() == k
        && forall|j: int| 0 <= j < k ==> (#[trigger] cdf[j] as int) == sp_cdf_at(k, delta, c, j)
}

impl PRNG {
    /// Structural soundness: a valid symbol count, a table of that length,
    /// and a state inside the generator's range.
    pub closed spec fn wf(&self) -> bool {
        &&& 1 <= self.k <= MAX_SOURCES
        &&& self.cdf@.len() == self.k
        &&& match self.state {
            Some(x) => x < PRNG_M,
            None => true,
        }
    }

    /// The configured number of source symbols.
    pub closed spec fn spec_k(&self) -> usize {
        self.k
    }

    /// The degree table.
    pub closed spec fn spec_cdf(&self) -> Seq<u64> {
        self.cdf@
    }

    /// The current state, if one is installed.
    pub closed spec fn spec_state(&self) -> Option<u64> {
        self.state
    }

    /// Creates a generator for `k` source symbols with decoding-failure
    /// bound `delta` and constant `c`, both in Q32.32.
    pub fn new(k: usize, delta: u64, c: u64) -> (r: Result<PRNG, LtError>)
        ensures
            match r {
                Ok(p) => {
                    &&& 1 <= k <= MAX_SOURCES && 1 <= delta < FX_ONE && 1 <= c
                    &&& p.wf()
                    &&& p.spec_k() == k
                    &&& is_rsd_table(p.spec_cdf(), k as int, delta as int, c as int)
                    &&& p.spec_state() is None
                },
                Err(e) => {
                    &&& e == LtError::ConfigurationError
                    &&& !(1 <= k <= MAX_SOURCES && 1 <= delta < FX_ONE && 1 <= c)
                },
            },
    {
        if k == 0 || k > MAX_SOURCES || delta == 0 || delta >= FX_ONE || c == 0 {
            return Err(LtError::ConfigurationError);
        }
        let cdf = gen_rsd_cdf(k, delta, c);
        Ok(PRNG { state: None, k, cdf })
    }

    /// Creates a generator with the default `delta` and `c`.
    pub fn new_default(k: usize) -> (r: Result<PRNG, LtError>)
        ensures
            match r {
                Ok(p) => {
                    &&& 1 <= k <= MAX_SOURCES
                    &&& p.wf()
                    &&& p.spec_k() == k
                    &&& is_rsd_table(p.spec_cdf(), k as int, DEFAULT_DELTA as int, DEFAULT_C as int)
                    &&& p.spec_state() is None
                },
                Err(e) => e == LtError::ConfigurationError && !(1 <= k <= MAX_SOURCES),
            },
    {
        PRNG::new(k, DEFAULT_DELTA, DEFAULT_C)
    }

    /// The configured number of source symbols.
    pub fn k(&self) -> (r: usize)
        ensures
            r == self.spec_k(),
    {
        self.k
    }

    /// The length of the degree table.
    pub fn cdf_len(&self) -> (r: usize)
        ensures
            r == self.spec_cdf().len(),
    {
        self.cdf.len()
    }

    /// Installs a seed; consumes no generator step.
    pub fn set_seed(&mut self, seed: i64)
        requires
            old(self).wf(),
        ensures
            final(self).wf(),
            final(self).spec_k() == old(self).spec_k(),
            final(self).spec_cdf() == old(self).spec_cdf(),
            final(self).spec_state() is Some,
            final(self).spec_state()->0 as int == sp_normalize_seed(seed as int),
    {
        self.state = Some(normalize_seed(seed));
    }

    /// Advances the state one step and returns the new value.
    fn get_next(&mut self) -> (r: u64)
        requires
            old(self).wf(),
            old(self).spec_state() is Some,
        ensures
            final(self).wf(),
            final(self).spec_k() == old(self).spec_k(),
            final(self).spec_cdf() == old(self).spec_cdf(),
            final(self).spec_state() is Some,
            r == final(self).spec_state()->0,
            r as int == sp_lcg(old(self).spec_state()->0 as int),
            r < PRNG_M,
    {
        match self.state {
            Some(x) => {
                let next = (PRNG_A * x) % PRNG_M;
                self.state = Some(next);
                next
            },
            None => {
                // Unreachable under the precondition.
                proof {
                    assert(false);
                }
                0
            },
        }
    }

    /// Samples a degree from the table, consuming one generator step.
    fn sample_d(&mut self) -> (d: usize)
        requires
            old(self).wf(),
            old(self).spec_state() is Some,
        ensures
            final(self).wf(),
            final(self).spec_k() == old(self).spec_k(),
            final(self).spec_cdf() == old(self).spec_cdf(),
            final(self).spec_state() is Some,
            final(self).spec_state()->0 as int == sp_lcg(old(self).spec_state()->0 as int),
            d as int == sp_degree(final(self).spec_cdf(), final(self).spec_state()->0 as int),
            1 <= d <= final(self).spec_k(),
    {
        let x = self.get_next();
        let n = self.cdf.len();
        let mut i: usize = 0;
        while i < n
            invariant
                i <= n,
                n == self.cdf@.len(),
                self.wf(),
                self.spec_k() == old(self).spec_k(),
                self.spec_cdf() == old(self).spec_cdf(),
                self.spec_state() is Some,
                x == self.spec_state()->0,
                x as int == sp_lcg(old(self).spec_state()->0 as int),
                x < PRNG_M,
                sp_degree(self.cdf@, x as int) == sp_scan(self.cdf@, x as int, i as int),
            decreases n - i,
        {
            proof {
                vstd::arithmetic::mul::lemma_mul_upper_bound(
                    self.cdf@[i as int] as int, u64::MAX as int,
                    PRNG_MAX_RAND as int, PRNG_MAX_RAND as int);
            }
            if self.cdf[i] as u128 * PRNG_MAX_RAND as u128 > x as u128 * FX_ONE as u128 {
                proof {
                    lemma_scan_range(self.cdf@, x as int, i as int);
                }
                return i + 1;
            }
            i = i + 1;
        }
        proof {
            lemma_scan_range(self.cdf@, x as int, n as int);
        }
        n
    }

    /// Draws a degree and that many distinct source indices.
    ///
    /// If a seed is supplied it is installed first; the returned seed echo
    /// is the seed before any step, so the receiver can reproduce the draw.
    /// With no seed supplied and none installed the draw fails with
    /// `UninitializedPrng`.  The search for distinct indices gives up after
    /// `u64::MAX` steps with `InternalInvariant`; that many steps without
    /// `d` distinct residues cannot happen unless the state has collapsed.
    pub fn get_src_blocks(&mut self, seed: Option<i64>) -> (r: Result<(i64, usize, Vec<usize>), LtError>)
        requires
            old(self).wf(),
        ensures
            final(self).wf(),
            final(self).spec_k() == old(self).spec_k(),
            final(self).spec_cdf() == old(self).spec_cdf(),
            match r {
                Ok((echo, d, idx)) => {
                    let x0 = if seed is Some {
                        sp_normalize_seed(seed->0 as int)
                    } else {
                        old(self).spec_state()->0 as int
                    };
                    let x1 = sp_lcg(x0);
                    &&& seed is Some || old(self).spec_state() is Some
                    &&& echo == if seed is Some { seed->0 } else { old(self).spec_state()->0 as i64 }
                    &&& d as int == sp_degree(old(self).spec_cdf(), x1)
                    &&& 1 <= d <= old(self).spec_k()
                    &&& idx@ == sp_indices(old(self).spec_k() as int, x1, d as int)
                    &&& idx@.len() == d
                    &&& idx@.no_duplicates()
                    &&& forall|i: int| 0 <= i < idx@.len()
                        ==> (#[trigger] idx@[i] as int) < old(self).spec_k()
                    &&& final(self).spec_state() is Some
                    &&& final(self).spec_state()->0 as int
                        == sp_lcg_iter(x1, sp_steps(old(self).spec_k() as int, x1, d as int))
                },
                Err(e) => {
                    if seed is None && old(self).spec_state() is None {
                        e == LtError::UninitializedPrng && *final(self) == *old(self)
                    } else {
                        let x0 = if seed is Some {
                            sp_normalize_seed(seed->0 as int)
                        } else {
                            old(self).spec_state()->0 as int
                        };
                        let x1 = sp_lcg(x0);
                        e == LtError::InternalInvariant
                            && sp_seen(old(self).spec_k() as int, x1, u64::MAX as nat).len()
                                < sp_degree(old(self).spec_cdf(), x1)
                    }
                },
            },
    {
        let echo: i64;
        match seed {
            Some(s) => {
                self.state = Some(normalize_seed(s));
                echo = s;
            },
            None => {
                match self.state {
                    Some(v) => {
                        echo = v as i64;
                    },
                    None => {
                        return Err(LtError::UninitializedPrng);
                    },
                }
            },
        }
        let ghost x0 = self.spec_state()->0 as int;
        let d = self.sample_d();
        let ghost x1 = self.spec_state()->0 as int;
        let ghost ki = self.spec_k() as int;
        proof {
            assert(x1 == sp_lcg(x0));
            assert(sp_lcg_iter(x1, 0) == x1);
        }
        let mut nums: Vec<usize> = Vec::new();
        let mut gas: u64 = u64::MAX;
        let ghost mut n: nat = 0nat;
        while nums.len() < d
            invariant
                self.wf(),
                self.spec_k() == old(self).spec_k(),
                self.spec_cdf() == old(self).spec_cdf(),
                ki == self.spec_k() as int,
                1 <= d <= self.spec_k(),
                d as int == sp_degree(old(self).spec_cdf(), x1),
                seed is Some || old(self).spec_state() is Some,
                x1 == sp_lcg(
                    if seed is Some {
                        sp_normalize_seed(seed->0 as int)
                    } else {
                        old(self).spec_state()->0 as int
                    }),
                0 <= x1 < PRNG_M,
                self.spec_state() is Some,
                self.spec_state()->0 as int == sp_lcg_iter(x1, n),
                nums@ == sp_seen(ki, x1, n),
                nums@.len() <= d,
                n == u64::MAX - gas,
                n >= 1 ==> sp_seen(ki, x1, (n - 1) as nat).len() < d,
            decreases gas,
        {
            if gas == 0 {
                proof {
                    assert(n == u64::MAX as nat);
                    assert(sp_seen(ki, x1, u64::MAX as nat).len() < d);
                }
                return Err(LtError::InternalInvariant);
            }
            gas = gas - 1;
            let v = self.get_next();
            let idx = (v % self.k as u64) as usize;
            let present = contains_usize(&nums, idx);
            proof {
                assert(v as int == sp_lcg_iter(x1, n + 1));
                lemma_mod_division_less_than_divisor(v as int, ki);
                assert(idx as int == sp_lcg_iter(x1, n + 1) % ki);
                assert(idx == (sp_lcg_iter(x1, n + 1) % ki) as usize);
            }
            if !present {
                nums.push(idx);
            }
            proof {
                n = n + 1;
                assert(nums@ == sp_seen(ki, x1, n));
            }
        }
        proof {
            assert(nums@.len() == d);
            assert(n >= 1) by {
                if n == 0 {
                    assert(nums@ == sp_seen(ki, x1, 0));
                    assert(nums@.len() == 0);
                }
            }
            lemma_steps_eq(ki, x1, d as int, n);
            lemma_seen_props(ki, x1, n);
        }
        Ok((echo, d, nums))
    }
}


/// For every admissible configuration the normalizer is positive: the
/// degree-one ideal soliton weight alone contributes at least one unit.
pub proof fn lemma_z_positive(k: int, delta: int, c: int)
    requires
        1 <= k <= FX_ONE,
        c >= 1,
    ensures
        sp_z(k, delta, c) >= 1,
{
    lemma_s_nonneg(k, delta, c);
    lemma_tau_nonneg(sp_s(k, delta, c), k, delta, 0);
    vstd::arithmetic::div_mod::lemma_div_by_self(k);
    vstd::arithmetic::div_mod::lemma_div_is_ordered(k, FX_ONE as int, k);
    assert(sp_rho_at(k, 0) >= 1);
    assert(sp_prefix(k, delta, c, -1) == 0);
    assert(sp_weight_at(k, delta, c, 0) >= 1);
    assert(sp_prefix(k, delta, c, 0) >= 1);
    lemma_prefix_monotone(k, delta, c, 0, k - 1);
}

/// The cumulative degree table is a distribution: it never decreases, it
/// never exceeds one, and its final entry is exactly one.  This holds for
/// every configuration with at least one source symbol and a positive `c`;
/// the exact final entry is the fixed-point sharpening of asking the last
/// cumulative value to land within a tolerance of one.
pub proof fn lemma_cdf_is_distribution(k: int, delta: int, c: int)
    requires
        1 <= k <= MAX_SOURCES as int,
        c >= 1,
    ensures
        forall|j1: int, j2: int| 0 <= j1 <= j2 < k
            ==> #[trigger] sp_cdf_at(k, delta, c, j1) <= #[trigger] sp_cdf_at(k, delta, c, j2),
        sp_cdf_at(k, delta, c, k - 1) == FX_ONE as int,
        forall|j: int| 0 <= j < k ==> #[trigger] sp_cdf_at(k, delta, c, j) <= FX_ONE as int,
{
    let z = sp_z(k, delta, c);
    lemma_z_positive(k, delta, c);
    assert forall|j1: int, j2: int| 0 <= j1 <= j2 < k
        implies #[trigger] sp_cdf_at(k, delta, c, j1) <= #[trigger] sp_cdf_at(k, delta, c, j2)
    by {
        lemma_prefix_monotone(k, delta, c, j1, j2);
        lemma_fx_div_ordered(sp_prefix(k, delta, c, j1), sp_prefix(k, delta, c, j2), z);
    }
    lemma_fx_div_le_one(z, z);
    assert forall|j: int| 0 <= j < k
        implies #[trigger] sp_cdf_at(k, delta, c, j) <= FX_ONE as int
    by {
        lemma_prefix_monotone(k, delta, c, j, k - 1);
        lemma_fx_div_le_one(sp_prefix(k, delta, c, j), z);
    }
}

/// Two tables built for the same `(k, delta, c)` are identical: the whole
/// construction is a function of the configuration alone, which is what
/// lets two ends of a channel agree without communicating.
pub proof fn lemma_table_determined(cdf1: Seq<u64>, cdf2: Seq<u64>, k: int, delta: int, c: int)
    requires
        is_rsd_table(cdf1, k, delta, c),
        is_rsd_table(cdf2, k, delta, c),
    ensures
        cdf1 == cdf2,
{
    assert(cdf1 =~= cdf2);
}

/// With a single source symbol, every seed draws degree one and selects
/// index zero: any first packet solves the whole message.
pub proof fn lemma_single_source_selection(cdf: Seq<u64>, seed: i64)
    requires
        cdf.len() == 1,
    ensures
        ({
            let x1 = sp_lcg(sp_normalize_seed(seed as int));
            &&& sp_degree(cdf, x1) == 1
            &&& sp_indices(1, x1, 1) == seq![0usize]
        }),
{
    let x0 = sp_normalize_seed(seed as int);
    let a = if (seed as int) < 0 { -(seed as int) } else { seed as int };
    lemma_mod_division_less_than_divisor(a, PRNG_M as int);
    let x1 = sp_lcg(x0);
    lemma_mod_division_less_than_divisor(16807 * x0, PRNG_M as int);
    assert(sp_scan(cdf, x1, 1) == 1);
    assert(sp_degree(cdf, x1) == 1);
    lemma_lcg_iter_range(x1, 1);
    lemma_mod_division_less_than_divisor(sp_lcg_iter(x1, 1), 1);
    assert(sp_lcg_iter(x1, 1) % 1 == 0);
    assert(sp_seen(1, x1, 0) =~= Seq::<usize>::empty());
    assert(sp_seen(1, x1, 1) =~= seq![0usize]);
    lemma_steps_eq(1, x1, 1, 1);
}


/// The plain integer sum of a word sequence.
pub open spec fn seq_sum(s: Seq<u64>) -> int
    decreases s.len(),
{
    if s.len() == 0 { 0 } else { seq_sum(s.drop_last()) + s.last() }
}

/// The total normalized mass through index `j`.
pub open spec fn sp_mu_sum(k: int, delta: int, c: int, j: int) -> int
    decreases j + 1,
{
    if j < 0 { 0 } else { sp_mu_sum(k, delta, c, j - 1) + sp_mu_at(k, delta, c, j) }
}

/// While the normalizer stays below the word limit no prefix sum
/// saturates, so each prefix is exactly the previous one plus a weight.
proof fn lemma_prefix_exact(k: int, delta: int, c: int, j: int)
    requires
        1 <= k,
        c >= 0,
        0 <= j <= k - 1,
        sp_z(k, delta, c) < u64::MAX,
    ensures
        sp_prefix(k, delta, c, j)
            == sp_prefix(k, delta, c, j - 1) + sp_weight_at(k, delta, c, j),
{
    lemma_prefix_monotone(k, delta, c, j, k - 1);
    lemma_prefix_monotone(k, delta, c, j - 1, j - 1);
    lemma_weight_nonneg(k, delta, c, j);
}

/// Truncated quotients of a split numerator differ from the quotient of
/// the whole by at most one.
proof fn lemma_div_add_bounds(a: int, b: int, z: int)
    requires
        a >= 0,
        b >= 0,
        z >= 1,
    ensures
        (a * (FX_ONE as int)) / z + (b * (FX_ONE as int)) / z
            <= ((a + b) * (FX_ONE as int)) / z,
        ((a + b) * (FX_ONE as int)) / z
            <= (a * (FX_ONE as int)) / z + (b * (FX_ONE as int)) / z + 1,
{
    let f = FX_ONE as int;
    vstd::arithmetic::div_mod::lemma_fundamental_div_mod(a * f, z);
    vstd::arithmetic::div_mod::lemma_fundamental_div_mod(b * f, z);
    vstd::arithmetic::mul::lemma_mul_nonnegative(a, f);
    vstd::arithmetic::mul::lemma_mul_nonnegative(b, f);
    vstd::arithmetic::div_mod::lemma_div_pos_is_pos(a * f, z);
    vstd::arithmetic::div_mod::lemma_div_pos_is_pos(b * f, z);
    vstd::arithmetic::div_mod::lemma_mod_division_less_than_divisor(a * f, z);
    vstd::arithmetic::div_mod::lemma_mod_division_less_than_divisor(b * f, z);
    let q1 = (a * f) / z;
    let r1 = (a * f) % z;
    let q2 = (b * f) / z;
    let r2 = (b * f) % z;
    vstd::arithmetic::mul::lemma_mul_is_distributive_add_other_way(f, a, b);
    assert((a + b) * f == a * f + b * f);
    if r1 + r2 < z {
        vstd::arithmetic::mul::lemma_mul_is_distributive_add_other_way(z, q1, q2);
        assert((a + b) * f == (q1 + q2) * z + (r1 + r2)) by {
            assert(a * f == z * q1 + r1);
            assert(b * f == z * q2 + r2);
            vstd::arithmetic::mul::lemma_mul_is_commutative(z, q1);
            vstd::arithmetic::mul::lemma_mul_is_commutative(z, q2);
        }
        vstd::arithmetic::div_mod::lemma_fundamental_div_mod_converse(
            (a + b) * f, z, q1 + q2, r1 + r2);
    } else {
        vstd::arithmetic::mul::lemma_mul_is_distributive_add_other_way(z, q1 + q2, 1);
        vstd::arithmetic::mul::lemma_mul_is_distributive_add_other_way(z, q1, q2);
        assert((a + b) * f == (q1 + q2 + 1) * z + (r1 + r2 - z)) by {
            assert(a * f == z * q1 + r1);
            assert(b * f == z * q2 + r2);
            vstd::arithmetic::mul::lemma_mul_is_commutative(z, q1);
            vstd::arithmetic::mul::lemma_mul_is_commutative(z, q2);
            vstd::arithmetic::mul::lemma_mul_basics_3(z);
        }
        vstd::arithmetic::div_mod::lemma_fundamental_div_mod_converse(
            (a + b) * f, z, q1 + q2 + 1, r1 + r2 - z);
    }
}

/// Below the saturation limit, each normalized mass entry is the exact
/// truncated quotient of its weight, uncapped.
proof fn lemma_mu_at_exact(k: int, delta: int, c: int, j: int)
    requires
        1 <= k,
        c >= 1,
        0 <= j <= k - 1,
        1 <= sp_z(k, delta, c) < u64::MAX,
    ensures
        sp_mu_at(k, delta, c, j)
            == (sp_weight_at(k, delta, c, j) * (FX_ONE as int)) / sp_z(k, delta, c),
        0 <= sp_mu_at(k, delta, c, j) <= FX_ONE as int,
        sp_weight_at(k, delta, c, j) <= sp_z(k, delta, c),
{
    let z = sp_z(k, delta, c);
    let w = sp_weight_at(k, delta, c, j);
    lemma_prefix_exact(k, delta, c, j);
    lemma_prefix_monotone(k, delta, c, j, k - 1);
    lemma_prefix_monotone(k, delta, c, j - 1, j - 1);
    lemma_weight_nonneg(k, delta, c, j);
    assert(w <= z);
    lemma_fx_div_le_one(w, z);
    vstd::arithmetic::mul::lemma_mul_nonnegative(w, FX_ONE as int);
    vstd::arithmetic::div_mod::lemma_div_pos_is_pos(w * (FX_ONE as int), z);
}

/// The running normalized mass tracks the normalized prefix to within one
/// truncation per entry.
proof fn lemma_mu_sum_bounds(k: int, delta: int, c: int, j: int)
    requires
        1 <= k <= MAX_SOURCES,
        c >= 1,
        0 <= j <= k - 1,
        sp_z(k, delta, c) < u64::MAX,
    ensures
        (sp_prefix(k, delta, c, j) * (FX_ONE as int)) / sp_z(k, delta, c) - j
            <= sp_mu_sum(k, delta, c, j),
        sp_mu_sum(k, delta, c, j)
            <= (sp_prefix(k, delta, c, j) * (FX_ONE as int)) / sp_z(k, delta, c),
    decreases j,
{
    let z = sp_z(k, delta, c);
    let f = FX_ONE as int;
    lemma_z_positive(k, delta, c);
    lemma_mu_at_exact(k, delta, c, j);
    lemma_prefix_exact(k, delta, c, j);
    lemma_weight_nonneg(k, delta, c, j);
    let a = sp_prefix(k, delta, c, j - 1);
    let b = sp_weight_at(k, delta, c, j);
    lemma_prefix_monotone(k, delta, c, j - 1, j - 1);
    lemma_div_add_bounds(a, b, z);
    if j == 0 {
        assert(sp_prefix(k, delta, c, -1) == 0);
        assert(sp_mu_sum(k, delta, c, -1) == 0);
        assert(0 * f == 0) by (nonlinear_arith);
        assert((0 as int) / z == 0);
    } else {
        lemma_mu_sum_bounds(k, delta, c, j - 1);
    }
}

/// The total mass of the normalized distribution: within `k` truncation
/// units below one, and never above one.  (The cumulative table is exact
/// instead: its final entry is one by construction.)  The hypothesis that
/// the normalizer stays below the word limit rules saturation out; every
/// configuration whose real-valued normalizer is moderate satisfies it.
pub proof fn lemma_mu_mass(k: int, delta: int, c: int)
    requires
        1 <= k <= MAX_SOURCES,
        c >= 1,
        sp_z(k, delta, c) < u64::MAX,
    ensures
        (FX_ONE as int) - k < sp_mu_sum(k, delta, c, k - 1),
        sp_mu_sum(k, delta, c, k - 1) <= FX_ONE as int,
{
    let z = sp_z(k, delta, c);
    lemma_z_positive(k, delta, c);
    lemma_mu_sum_bounds(k, delta, c, k - 1);
    vstd::arithmetic::div_mod::lemma_div_multiples_vanish(FX_ONE as int, z);
    assert((z * (FX_ONE as int)) / z == FX_ONE as int);
}

/// Folds a raw seed into the generator's state range.
fn normalize_seed(seed: i64) -> (r: u64)
    ensures
        r as int == sp_normalize_seed(seed as int),
        r < PRNG_M,
{
    let a: u64 = if seed < 0 { (-(seed as i128)) as u64 } else { seed as u64 };
    a % PRNG_M
}

} // verus!
