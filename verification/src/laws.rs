//! Cross-component laws of the codec.

use vstd::prelude::*;
use crate::encoder::Encoder;
use crate::decoder::{Decoder, seed_selection};
use crate::prng::{is_rsd_table, lemma_table_determined, sp_normalize_seed, sp_lcg, sp_degree};

verus! {

/// An encoder and a decoder configured with the same `(k, delta, c)` agree
/// on every seed: the decoder reconstructs exactly the degree and index set
/// the encoder drew, so a packet needs to carry nothing but its seed and
/// payload.
pub proof fn lemma_matched_codec_agrees(
    enc: &Encoder,
    dec: &Decoder,
    k: usize,
    delta: u64,
    c: u64,
    seed: i64,
)
    requires
        enc.spec_k() == k,
        dec.spec_k() == k,
        is_rsd_table(enc.spec_cdf(), k as int, delta as int, c as int),
        is_rsd_table(dec.spec_cdf(), k as int, delta as int, c as int),
    ensures
        enc.spec_cdf() == dec.spec_cdf(),
        sp_degree(enc.spec_cdf(), sp_lcg(sp_normalize_seed(seed as int)))
            == sp_degree(dec.spec_cdf(), sp_lcg(sp_normalize_seed(seed as int))),
        seed_selection(enc.spec_cdf(), k as int, seed)
            == seed_selection(dec.spec_cdf(), k as int, seed),
{
    lemma_table_determined(enc.spec_cdf(), dec.spec_cdf(), k as int, delta as int, c as int);
}

} // verus!
