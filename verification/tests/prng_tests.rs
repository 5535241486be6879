use luby_transform::prng::{gen_mu, gen_rho, gen_rsd_cdf, gen_tau, PRNG};
use luby_transform::errors::LtError;
use luby_transform::fixed::{fx_div, fx_ln, fx_mul, int_to_fx, isqrt128, sat_add, sqrt_fx, FX_ONE,
    FX_LN2};
use luby_transform::{DEFAULT_C, DEFAULT_DELTA};

#[test]
fn test_prng_initialization() {
    let prng = PRNG::new(100, DEFAULT_DELTA, DEFAULT_C).unwrap();
    assert_eq!(prng.k(), 100);
    assert_eq!(prng.cdf_len(), 100);
}

#[test]
fn test_prng_with_seed() {
    let mut prng = PRNG::new(100, DEFAULT_DELTA, DEFAULT_C).unwrap();
    prng.set_seed(42);
    let (blockseed, d, blocks) = prng.get_src_blocks(None).unwrap();
    assert_eq!(blockseed, 42);
    assert!(d >= 1 && d <= 100);
    assert_eq!(blocks.len(), d);
}

#[test]
fn test_prng_with_direct_seed() {
    let mut prng = PRNG::new(100, DEFAULT_DELTA, DEFAULT_C).unwrap();
    let (blockseed, d, blocks) = prng.get_src_blocks(Some(42)).unwrap();
    assert_eq!(blockseed, 42);
    assert!(d >= 1 && d <= 100);
    assert_eq!(blocks.len(), d);
}

#[test]
fn test_prng_uninitialized_draw_fails() {
    let mut prng = PRNG::new(10, DEFAULT_DELTA, DEFAULT_C).unwrap();
    assert_eq!(prng.get_src_blocks(None), Err(LtError::UninitializedPrng));
    // After installing a seed the same call succeeds.
    prng.set_seed(7);
    assert!(prng.get_src_blocks(None).is_ok());
}

#[test]
fn test_prng_configuration_errors() {
    assert_eq!(PRNG::new(0, DEFAULT_DELTA, DEFAULT_C).err(), Some(LtError::ConfigurationError));
    // delta must lie strictly between zero and one.
    assert_eq!(PRNG::new(10, 0, DEFAULT_C).err(), Some(LtError::ConfigurationError));
    assert_eq!(PRNG::new(10, FX_ONE, DEFAULT_C).err(), Some(LtError::ConfigurationError));
    // c must be positive.
    assert_eq!(PRNG::new(10, DEFAULT_DELTA, 0).err(), Some(LtError::ConfigurationError));
}

// The cumulative table is non-decreasing and its final entry is exactly one
// (the fixed-point analogue of landing within a billionth of one).
#[test]
fn test_rsd_cdf_monotone_and_total() {
    for k in [2usize, 3, 7, 100, 1000] {
        let cdf = gen_rsd_cdf(k, DEFAULT_DELTA, DEFAULT_C);
        assert_eq!(cdf.len(), k);
        for j in 1..k {
            assert!(cdf[j - 1] <= cdf[j]);
        }
        assert_eq!(cdf[k - 1], FX_ONE);
    }
}

// Exact table values for two sources under the default parameters.
#[test]
fn test_rsd_tables_exact_small() {
    let rho = gen_rho(4);
    assert_eq!(rho, vec![1073741824u64, 2147483648, 715827882, 357913941]);

    // k = 2: s = c * sqrt(2) * ln(2 / delta) in Q32.32.
    let tau = gen_tau(842035331, 2, DEFAULT_DELTA);
    assert_eq!(tau, vec![421017665u64, 0]);

    let mu = gen_mu(2, DEFAULT_DELTA, DEFAULT_C);
    assert_eq!(mu, vec![2339199388u64, 1955767907]);

    let cdf = gen_rsd_cdf(2, DEFAULT_DELTA, DEFAULT_C);
    assert_eq!(cdf, vec![2339199388u64, 4294967296]);

    let cdf10 = gen_rsd_cdf(10, DEFAULT_DELTA, DEFAULT_C);
    assert_eq!(cdf10, vec![
        634572686u64, 2418262585, 3064276756, 3413009277, 3637684051,
        3797757407, 3919445644, 4016224414, 4258759801, 4294967296,
    ]);
}

// The golden first draw for seed 1 with ten sources under the defaults:
// degree in [1, 10] with exactly that many distinct indices below 10.
#[test]
fn test_first_draw_golden_vector() {
    let mut prng = PRNG::new(10, DEFAULT_DELTA, DEFAULT_C).unwrap();
    let (seed, d, idx) = prng.get_src_blocks(Some(1)).unwrap();
    assert_eq!(seed, 1);
    assert!(d >= 1 && d <= 10);
    assert_eq!(idx.len(), d);
    for i in 0..idx.len() {
        assert!(idx[i] < 10);
        for j in 0..i {
            assert_ne!(idx[j], idx[i]);
        }
    }
    // The recorded golden values.
    assert_eq!(d, 1);
    assert_eq!(idx, vec![9usize]);
}

// The same seed yields the same draw, again and again.
#[test]
fn test_draw_is_reproducible() {
    let mut prng = PRNG::new(25, DEFAULT_DELTA, DEFAULT_C).unwrap();
    let first = prng.get_src_blocks(Some(424242)).unwrap();
    for _ in 0..3 {
        let again = prng.get_src_blocks(Some(424242)).unwrap();
        assert_eq!(first, again);
    }
}

#[test]
fn test_fixed_point_building_blocks() {
    // ln in Q32.32: ln(2) exactly matches the stored constant; ln(e) is one
    // to within a couple of units in the last place; below one it clamps.
    assert_eq!(fx_ln(2 * FX_ONE), FX_LN2);
    assert_eq!(fx_ln(11674931555), 4294967294); // floor(e * 2^32)
    assert_eq!(fx_ln(FX_ONE), 0);
    assert_eq!(fx_ln(1), 0);

    // Square roots.
    assert_eq!(isqrt128(10), 3);
    assert_eq!(isqrt128(1 << 64), 1 << 32);
    assert_eq!(sqrt_fx(4), 2 * FX_ONE);
    assert_eq!(sqrt_fx(2), 6074000999);

    // Saturating arithmetic.
    assert_eq!(sat_add(u64::MAX, 1), u64::MAX);
    assert_eq!(sat_add(1, 2), 3);
    assert_eq!(fx_mul(3 * FX_ONE, 2 * FX_ONE), 6 * FX_ONE);
    assert_eq!(fx_div(FX_ONE, 2 * FX_ONE), FX_ONE / 2);
    assert_eq!(fx_div(1, 0), u64::MAX);
    assert_eq!(int_to_fx(5), 5 * FX_ONE);
}

// The normalized distribution's total mass sits within k truncation units
// below one (the cumulative table carries the exact unit total instead).
#[test]
fn test_mu_total_mass() {
    for k in [2usize, 3, 10, 100, 1000] {
        let mu = gen_mu(k, DEFAULT_DELTA, DEFAULT_C);
        let total: u128 = mu.iter().map(|&v| v as u128).sum();
        assert!(total > (FX_ONE as u128) - (k as u128));
        assert!(total <= FX_ONE as u128);
    }
}
