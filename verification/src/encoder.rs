//! The encoder: XOR-combines seed-selected source symbols.

use vstd::prelude::*;
use crate::errors::LtError;
use crate::fixed::FX_ONE;
use crate::prng::{PRNG, MAX_SOURCES, is_rsd_table, sp_normalize_seed, sp_lcg, sp_lcg_iter,
    sp_degree, sp_indices, sp_seen, sp_steps};
use crate::xor::{xor_all, zero_block, xor_vecs, lemma_xor_all_push};
use crate::{DEFAULT_DELTA, DEFAULT_C};

verus! {

/// Every index selects a source symbol of the common length `l`.
pub open spec fn uniform_selection(srcs: Seq<Seq<u8>>, idx: Seq<usize>, l: nat) -> bool {
    l >= 1 && forall|i: int| 0 <= i < idx.len()
        ==> srcs[#[trigger] idx[i] as int].len() == l
}

/// XORs together the selected source symbols, checking that they share one
/// positive length `l` (the length of the first selected symbol).
fn xor_selection(blocks: &Vec<Vec<u8>>, idx: &Vec<usize>, l: usize) -> (r: Result<Vec<u8>, LtError>)
    requires
        idx@.len() >= 1,
        forall|m: int| 0 <= m < idx@.len() ==> (#[trigger] idx@[m] as int) < blocks@.len(),
        l == blocks.deep_view()[idx@[0] as int].len(),
    ensures
        match r {
            Ok(payload) => {
                &&& uniform_selection(blocks.deep_view(), idx@, l as nat)
                &&& payload@ == xor_all(blocks.deep_view(), idx@, l as nat)
                &&& payload@.len() == l
            },
            Err(e) => {
                &&& e == LtError::LengthMismatch
                &&& !uniform_selection(blocks.deep_view(), idx@, l as nat)
            },
        },
{
    let ghost srcs = blocks.deep_view();
    if l == 0 {
        return Err(LtError::LengthMismatch);
    }
    let mut payload: Vec<u8> = vec![0u8; l];
    proof {
        assert(payload@ =~= zero_block(l as nat));
        assert(idx@.take(0) =~= Seq::<usize>::empty());
    }
    let n = idx.len();
    let mut i: usize = 0;
    while i < n
        invariant
            i <= n,
            n == idx@.len(),
            srcs == blocks.deep_view(),
            l >= 1,
            forall|m: int| 0 <= m < n ==> (#[trigger] idx@[m] as int) < blocks@.len(),
            forall|m: int| 0 <= m < i ==> srcs[#[trigger] idx@[m] as int].len() == l,
            payload@ == xor_all(srcs, idx@.take(i as int), l as nat),
            payload@.len() == l,
        decreases n - i,
    {
        let j = idx[i];
        if blocks[j].len() != l {
            proof {
                assert(srcs[idx@[i as int] as int].len() != l);
            }
            return Err(LtError::LengthMismatch);
        }
        proof {
            lemma_xor_all_push(srcs, idx@.take(i as int), l as nat, j);
            assert(idx@.take(i as int).push(j) =~= idx@.take(i as int + 1));
            assert(srcs[j as int] == blocks@[j as int]@);
        }
        payload = xor_vecs(&payload, &blocks[j]);
        i = i + 1;
    }
    proof {
        assert(idx@.take(n as int) =~= idx@);
    }
    Ok(payload)
}

/// Encoder for Luby Transform codes: holds the source symbols and a
/// generator, and emits encoded symbols on demand.
pub struct Encoder {
    source_blocks: Vec<Vec<u8>>,
    prng: PRNG,
    k: usize,
}

impl Encoder {
    /// Structural soundness: the generator is configured for exactly the
    /// held source symbols.
    pub closed spec fn wf(&self) -> bool {
        &&& self.prng.wf()
        &&& self.k == self.source_blocks@.len()
        &&& self.k == self.prng.spec_k()
    }

    /// The source symbols as byte sequences.
    pub closed spec fn spec_sources(&self) -> Seq<Seq<u8>> {
        self.source_blocks.deep_view()
    }

    /// The number of source symbols.
    pub closed spec fn spec_k(&self) -> usize {
        self.k
    }

    /// The degree table of the generator.
    pub closed spec fn spec_cdf(&self) -> Seq<u64> {
        self.prng.spec_cdf()
    }

    /// The generator state, if a seed is installed.
    pub closed spec fn spec_state(&self) -> Option<u64> {
        self.prng.spec_state()
    }

    /// Creates an encoder over `source_blocks` with distribution
    /// parameters `delta` and `c` in Q32.32.  No seed is installed.
    pub fn new(source_blocks: Vec<Vec<u8>>, delta: u64, c: u64) -> (r: Result<Encoder, LtError>)
        ensures
            match r {
                Ok(e) => {
                    &&& 1 <= source_blocks@.len() <= MAX_SOURCES
                    &&& 1 <= delta < FX_ONE && 1 <= c
                    &&& e.wf()
                    &&& e.spec_k() == source_blocks@.len()
                    &&& e.spec_sources() == source_blocks.deep_view()
                    &&& is_rsd_table(e.spec_cdf(), source_blocks@.len() as int, delta as int,
                        c as int)
                    &&& e.spec_state() is None
                },
                Err(e) => {
                    if source_blocks@.len() == 0 {
                        e == LtError::EmptySource
                    } else {
                        e == LtError::ConfigurationError
                            && !(source_blocks@.len() <= MAX_SOURCES && 1 <= delta < FX_ONE
                                && 1 <= c)
                    }
                },
            },
    {
        let k = source_blocks.len();
        if k == 0 {
            return Err(LtError::EmptySource);
        }
        match PRNG::new(k, delta, c) {
            Ok(prng) => Ok(Encoder { source_blocks, prng, k }),
            Err(e) => Err(e),
        }
    }

    /// Creates an encoder with the default distribution parameters and
    /// installs `seed` (or zero when none is given).
    pub fn new_default(source_blocks: Vec<Vec<u8>>, seed: Option<i64>) -> (r: Result<
        Encoder,
        LtError,
    >)
        ensures
            match r {
                Ok(e) => {
                    &&& 1 <= source_blocks@.len() <= MAX_SOURCES
                    &&& e.wf()
                    &&& e.spec_k() == source_blocks@.len()
                    &&& e.spec_sources() == source_blocks.deep_view()
                    &&& is_rsd_table(e.spec_cdf(), source_blocks@.len() as int,
                        DEFAULT_DELTA as int, DEFAULT_C as int)
                    &&& e.spec_state() is Some
                    &&& e.spec_state()->0 as int == sp_normalize_seed(
                        if seed is Some { seed->0 as int } else { 0 })
                },
                Err(e) => {
                    if source_blocks@.len() == 0 {
                        e == LtError::EmptySource
                    } else {
                        e == LtError::ConfigurationError && source_blocks@.len() > MAX_SOURCES
                    }
                },
            },
    {
        let k = source_blocks.len();
        if k == 0 {
            return Err(LtError::EmptySource);
        }
        match PRNG::new_default(k) {
            Ok(mut prng) => {
                let s: i64 = match seed {
                    Some(s) => s,
                    None => 0,
                };
                prng.set_seed(s);
                Ok(Encoder { source_blocks, prng, k })
            },
            Err(e) => Err(e),
        }
    }

    /// The number of source symbols.
    pub fn source_block_count(&self) -> (r: usize)
        ensures
            r == self.spec_k(),
    {
        self.k
    }

    /// Generates one encoded symbol.
    ///
    /// Draws `(seed echo, degree, indices)` from the generator — installing
    /// `seed` first if one is supplied — and returns with them the XOR of
    /// the selected source symbols.  Fails with `LengthMismatch` when the
    /// selected symbols do not share one positive length, and with
    /// `UninitializedPrng` when no seed is supplied or installed.
    #[verifier::rlimit(50)]
    pub fn generate_encoded_block(&mut self, seed: Option<i64>) -> (r: Result<
        (i64, usize, Vec<usize>, Vec<u8>),
        LtError,
    >)
        requires
            old(self).wf(),
        ensures
            final(self).wf(),
            final(self).spec_k() == old(self).spec_k(),
            final(self).spec_cdf() == old(self).spec_cdf(),
            final(self).spec_sources() == old(self).spec_sources(),
            ({
                let srcs = old(self).spec_sources();
                let ki = old(self).spec_k() as int;
                let x1 = sp_lcg(
                    if seed is Some {
                        sp_normalize_seed(seed->0 as int)
                    } else {
                        old(self).spec_state()->0 as int
                    });
                let dd = sp_degree(old(self).spec_cdf(), x1);
                let sel = sp_indices(ki, x1, dd);
                match r {
                    Ok((echo, d, idx, payload)) => {
                        let l = srcs[idx@[0] as int].len();
                        &&& seed is Some || old(self).spec_state() is Some
                        &&& echo == if seed is Some {
                            seed->0
                        } else {
                            old(self).spec_state()->0 as i64
                        }
                        &&& d as int == dd
                        &&& 1 <= d <= ki
                        &&& idx@ == sel
                        &&& idx@.len() == d
                        &&& idx@.no_duplicates()
                        &&& forall|i: int| 0 <= i < idx@.len()
                            ==> (#[trigger] idx@[i] as int) < ki
                        &&& uniform_selection(srcs, idx@, l)
                        &&& payload@ == xor_all(srcs, idx@, l)
                        &&& payload@.len() == l
                        &&& final(self).spec_state() is Some
                        &&& final(self).spec_state()->0 as int
                            == sp_lcg_iter(x1, sp_steps(ki, x1, dd))
                    },
                    Err(e) => {
                        if seed is None && old(self).spec_state() is None {
                            e == LtError::UninitializedPrng && *final(self) == *old(self)
                        } else if e == LtError::InternalInvariant {
                            sp_seen(ki, x1, u64::MAX as nat).len() < dd
                        } else {
                            e == LtError::LengthMismatch
                                && !uniform_selection(srcs, sel, srcs[sel[0] as int].len())
                        }
                    },
                }
            }),
    {
        let drawn = match self.prng.get_src_blocks(seed) {
            Ok(t) => t,
            Err(e) => {
                return Err(e);
            },
        };
        let (echo, d, idx) = drawn;
        let first = idx[0];
        let l = self.source_blocks[first].len();
        match xor_selection(&self.source_blocks, &idx, l) {
            Ok(payload) => Ok((echo, d, idx, payload)),
            Err(e) => Err(e),
        }
    }
}

} // verus!
