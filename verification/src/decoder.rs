//! The belief-propagation (peeling) decoder.
//!
//! The decoder re-derives each packet's index set from its seed, reduces the
//! payload against already-solved sources, and repeatedly peels: whenever a
//! held packet has exactly one unsolved dependency left, that dependency is
//! solved.  Its central guarantee is stated against any *ghost* source table
//! `srcs`: if every packet fed in is genuine for `srcs` (its payload is the
//! XOR of the sources its seed selects), then everything the decoder marks
//! solved equals the corresponding source, byte for byte.

use vstd::prelude::*;
use vstd::multiset::Multiset;
use crate::errors::LtError;
use crate::fixed::FX_ONE;
use crate::prng::{PRNG, MAX_SOURCES, is_rsd_table, sp_normalize_seed, sp_lcg, sp_degree,
    sp_indices, sp_seen};
use crate::xor::{xor_all, xor_bytes, zero_block, xor_vecs, lemma_xor_all_push,
    lemma_xor_all_len, lemma_xor_all_multiset, lemma_xor_all_concat, lemma_xor_all_agree,
    lemma_xor_bytes_assoc, lemma_xor_bytes_cancel, lemma_xor_bytes_zero,
    lemma_xor_all_singleton, lemma_to_multiset_concat};
use crate::{DEFAULT_DELTA, DEFAULT_C};

verus! {

/// A received encoded symbol that still has unsolved dependencies: its
/// payload, already reduced to the XOR of exactly those dependencies.
struct PendingBlock {
    seed: i64,
    degree: usize,
    payload: Vec<u8>,
    deps: Vec<usize>,
}

/// The solved table as ghost data: byte sequences where a source is known.
pub open spec fn slot_model(s: Seq<Option<Vec<u8>>>) -> Seq<Option<Seq<u8>>> {
    Seq::new(s.len(), |i: int| match s[i] {
        Some(v) => Some(v@),
        None => None,
    })
}

/// The solved table as a source table for XOR: unknown slots read as zero.
pub open spec fn solved_vals(sm: Seq<Option<Seq<u8>>>, l: nat) -> Seq<Seq<u8>> {
    Seq::new(sm.len(), |i: int| if sm[i] is Some { sm[i]->0 } else { zero_block(l) })
}

/// How many slots are solved.
pub open spec fn count_some(s: Seq<Option<Seq<u8>>>) -> nat
    decreases s.len(),
{
    if s.len() == 0 {
        0
    } else {
        count_some(s.drop_last()) + if s.last() is Some { 1nat } else { 0nat }
    }
}

/// A well-formed source table: `k` symbols of length `l` each.
pub open spec fn wf_sources(srcs: Seq<Seq<u8>>, k: int, l: int) -> bool {
    srcs.len() == k && forall|i: int| 0 <= i < k ==> (#[trigger] srcs[i]).len() == l
}

/// The index set that a seed stands for under the degree table `cdf` and
/// symbol count `k`.
pub open spec fn seed_selection(cdf: Seq<u64>, k: int, seed: i64) -> Seq<usize> {
    let x1 = sp_lcg(sp_normalize_seed(seed as int));
    sp_indices(k, x1, sp_degree(cdf, x1))
}

/// A genuine packet for the table `srcs`: its payload is the XOR of the
/// sources that its seed selects under the configuration's degree table.
pub open spec fn genuine_packet(
    srcs: Seq<Seq<u8>>,
    cdf: Seq<u64>,
    k: int,
    l: int,
    seed: i64,
    payload: Seq<u8>,
) -> bool {
    payload == xor_all(srcs, seed_selection(cdf, k, seed), l as nat)
}

/// Every solved slot holds the true source from the table `srcs`.
pub open spec fn solved_explains(sm: Seq<Option<Seq<u8>>>, srcs: Seq<Seq<u8>>) -> bool {
    forall|i: int| 0 <= i < sm.len() && sm[i] is Some ==> (#[trigger] sm[i])->0 == srcs[i]
}

/// No more slots can be solved than exist.
pub proof fn lemma_count_le_len(s: Seq<Option<Seq<u8>>>)
    ensures
        count_some(s) <= s.len(),
    decreases s.len(),
{
    if s.len() > 0 {
        lemma_count_le_len(s.drop_last());
    }
}

/// A full count means every slot is solved.
pub proof fn lemma_count_full(s: Seq<Option<Seq<u8>>>)
    requires
        count_some(s) == s.len(),
    ensures
        forall|i: int| 0 <= i < s.len() ==> s[i] is Some,
    decreases s.len(),
{
    if s.len() > 0 {
        lemma_count_le_len(s.drop_last());
        lemma_count_full(s.drop_last());
        assert forall|i: int| 0 <= i < s.len() implies s[i] is Some by {
            if i < s.len() - 1 {
                assert(s.drop_last()[i] is Some);
            }
        }
    }
}

/// Solving one empty slot raises the count by one.
pub proof fn lemma_count_update(s: Seq<Option<Seq<u8>>>, i: int, v: Seq<u8>)
    requires
        0 <= i < s.len(),
        s[i] is None,
    ensures
        count_some(s.update(i, Some(v))) == count_some(s) + 1,
    decreases s.len(),
{
    let su = s.update(i, Some(v));
    if i == s.len() - 1 {
        assert(su.drop_last() =~= s.drop_last());
    } else {
        assert(su.drop_last() =~= s.drop_last().update(i, Some(v)));
        lemma_count_update(s.drop_last(), i, v);
    }
}

/// Reduces `payload` against the solved table: XORs in every already-solved
/// dependency and returns the reduced payload together with the dependencies
/// that remain unsolved.
///
/// The last postcondition is the reduction's meaning: for any source table
/// `srcs` the solved entries agree with, a payload that was the XOR of the
/// sources selected by `idx` becomes the XOR of the sources selected by the
/// remaining dependencies.
fn reduce_against_solved(
    solved: &Vec<Option<Vec<u8>>>,
    payload: Vec<u8>,
    idx: &Vec<usize>,
    l: usize,
) -> (r: (Vec<u8>, Vec<usize>))
    requires
        l >= 1,
        payload@.len() == l,
        forall|m: int| 0 <= m < idx@.len() ==> (#[trigger] idx@[m] as int) < solved@.len(),
        forall|i: int| 0 <= i < solved@.len() && solved@[i] is Some
            ==> (#[trigger] solved@[i]->0)@.len() == l,
    ensures
        ({
            let (rp, deps) = r;
            &&& rp@.len() == l
            &&& deps@.len() <= idx@.len()
            &&& forall|m: int| 0 <= m < deps@.len()
                ==> (#[trigger] deps@[m] as int) < solved@.len()
                    && solved@[deps@[m] as int] is None
            &&& forall|m: int| 0 <= m < deps@.len() ==> idx@.contains(#[trigger] deps@[m])
            &&& forall|m: int| 0 <= m < idx@.len()
                ==> solved@[#[trigger] idx@[m] as int] is Some || deps@.contains(idx@[m])
            &&& forall|srcs: Seq<Seq<u8>>|
                #![trigger xor_all(srcs, deps@, l as nat)]
                (srcs.len() == solved@.len()
                    && (forall|i: int| 0 <= i < srcs.len() ==> (#[trigger] srcs[i]).len() == l)
                    && solved_explains(slot_model(solved@), srcs)
                    && payload@ == xor_all(srcs, idx@, l as nat))
                    ==> rp@ == xor_all(srcs, deps@, l as nat)
        }),
{
    let ghost payload0 = payload@;
    let ghost sv = solved_vals(slot_model(solved@), l as nat);
    let mut rp = payload;
    let mut kept: Vec<usize> = Vec::new();
    let mut removed: Vec<usize> = Vec::new();
    let n = idx.len();
    let mut i: usize = 0;
    proof {
        assert(xor_all(sv, removed@, l as nat) == zero_block(l as nat));
        lemma_xor_bytes_zero(payload0);
        assert(rp@ == xor_bytes(payload0, xor_all(sv, removed@, l as nat)));
        broadcast use vstd::seq_lib::group_to_multiset_ensures;

        assert(idx@.take(0) =~= Seq::<usize>::empty());
        assert(idx@.take(0).to_multiset() =~= Multiset::<usize>::empty());
        assert(kept@.to_multiset() =~= Multiset::<usize>::empty());
        assert(removed@.to_multiset() =~= Multiset::<usize>::empty());
        assert(idx@.take(0).to_multiset() =~= kept@.to_multiset().add(removed@.to_multiset()));
    }
    while i < n
        invariant
            i <= n,
            n == idx@.len(),
            l >= 1,
            sv == solved_vals(slot_model(solved@), l as nat),
            payload0.len() == l,
            forall|m: int| 0 <= m < idx@.len() ==> (#[trigger] idx@[m] as int) < solved@.len(),
            forall|q: int| 0 <= q < solved@.len() && solved@[q] is Some
                ==> (#[trigger] solved@[q]->0)@.len() == l,
            rp@.len() == l,
            forall|m: int| 0 <= m < kept@.len()
                ==> (#[trigger] kept@[m] as int) < solved@.len()
                    && solved@[kept@[m] as int] is None,
            forall|m: int| 0 <= m < kept@.len() ==> idx@.contains(#[trigger] kept@[m]),
            forall|m: int| 0 <= m < removed@.len()
                ==> (#[trigger] removed@[m] as int) < solved@.len()
                    && solved@[removed@[m] as int] is Some,
            forall|m: int| 0 <= m < i
                ==> solved@[#[trigger] idx@[m] as int] is Some || kept@.contains(idx@[m]),
            kept@.len() + removed@.len() == i,
            idx@.take(i as int).to_multiset() == kept@.to_multiset().add(removed@.to_multiset()),
            rp@ == xor_bytes(payload0, xor_all(sv, removed@, l as nat)),
        decreases n - i,
    {
        broadcast use vstd::seq_lib::group_to_multiset_ensures;

        let j = idx[i];
        proof {
            assert(idx@.take(i as int).push(j) =~= idx@.take(i as int + 1));
        }
        match solved[j].as_ref() {
            Some(v) => {
                proof {
                    assert(sv[j as int] == v@);
                    lemma_xor_all_push(sv, removed@, l as nat, j);
                    lemma_xor_all_len(sv, removed@, l as nat);
                    lemma_xor_bytes_assoc(payload0, xor_all(sv, removed@, l as nat), sv[j as int]);
                    assert(kept@.to_multiset().add(removed@.to_multiset().insert(j))
                        =~= kept@.to_multiset().add(removed@.to_multiset()).insert(j));
                }
                rp = xor_vecs(&rp, v);
                removed.push(j);
            },
            None => {
                let ghost kept0 = kept@;
                proof {
                    assert(kept@.to_multiset().insert(j).add(removed@.to_multiset())
                        =~= kept@.to_multiset().add(removed@.to_multiset()).insert(j));
                }
                kept.push(j);
                proof {
                    assert(idx@[i as int] == j);
                    assert(kept@[kept0.len() as int] == j);
                    assert(kept@.contains(j));
                    assert forall|x: usize| kept0.contains(x) implies kept@.contains(x) by {
                        let w = choose|w: int| 0 <= w < kept0.len() && kept0[w] == x;
                        assert(kept@[w] == x);
                    }
                }
            },
        }
        i = i + 1;
    }
    proof {
        assert(idx@.take(n as int) =~= idx@);
        assert forall|srcs: Seq<Seq<u8>>|
            #![trigger xor_all(srcs, kept@, l as nat)]
            (srcs.len() == solved@.len()
                && (forall|q: int| 0 <= q < srcs.len() ==> (#[trigger] srcs[q]).len() == l)
                && solved_explains(slot_model(solved@), srcs)
                && payload0 == xor_all(srcs, idx@, l as nat))
            implies rp@ == xor_all(srcs, kept@, l as nat)
        by {
            assert forall|q: int| 0 <= q < solved@.len() && solved@[q] is Some
                implies (#[trigger] solved@[q]->0)@ == srcs[q]
            by {
                assert(slot_model(solved@)[q] is Some);
                assert(slot_model(solved@)[q]->0 == solved@[q]->0@);
            }
            lemma_to_multiset_concat(kept@, removed@);
            assert(idx@.to_multiset() == (kept@ + removed@).to_multiset());
            assert forall|m: int| 0 <= m < (kept@ + removed@).len()
                implies ((kept@ + removed@)[m] as int) < srcs.len()
                    && srcs[#[trigger] (kept@ + removed@)[m] as int].len() == l
            by {
                if m < kept@.len() {
                    assert((kept@ + removed@)[m] == kept@[m]);
                } else {
                    assert((kept@ + removed@)[m] == removed@[m - kept@.len()]);
                }
            }
            lemma_xor_all_multiset(srcs, idx@, kept@ + removed@, l as nat);
            lemma_xor_all_concat(srcs, kept@, removed@, l as nat);
            assert forall|m: int| 0 <= m < removed@.len()
                implies (#[trigger] removed@[m] as int) < sv.len()
                    && (removed@[m] as int) < srcs.len()
                    && sv[removed@[m] as int] == srcs[removed@[m] as int]
            by {
                let q = removed@[m] as int;
                assert(solved@[q] is Some);
                assert(sv[q] == solved@[q]->0@);
            }
            lemma_xor_all_agree(sv, srcs, removed@, l as nat);
            let xk = xor_all(srcs, kept@, l as nat);
            let xr = xor_all(srcs, removed@, l as nat);
            lemma_xor_all_len(srcs, kept@, l as nat);
            lemma_xor_all_len(srcs, removed@, l as nat);
            lemma_xor_bytes_cancel(xk, xr);
        }
    }
    (rp, kept)
}

/// A byte-for-byte copy.
fn copy_bytes(v: &Vec<u8>) -> (r: Vec<u8>)
    ensures
        r@ == v@,
{
    let n = v.len();
    let mut r: Vec<u8> = Vec::new();
    let mut i: usize = 0;
    while i < n
        invariant
            i <= n,
            n == v@.len(),
            r@ == v@.take(i as int),
        decreases n - i,
    {
        r.push(v[i]);
        proof {
            assert(v@.take(i as int).push(v@[i as int]) =~= v@.take(i as int + 1));
        }
        i = i + 1;
    }
    proof {
        assert(v@.take(n as int) =~= v@);
    }
    r
}

/// An index-for-index copy.
fn copy_indices(v: &Vec<usize>) -> (r: Vec<usize>)
    ensures
        r@ == v@,
{
    let n = v.len();
    let mut r: Vec<usize> = Vec::new();
    let mut i: usize = 0;
    while i < n
        invariant
            i <= n,
            n == v@.len(),
            r@ == v@.take(i as int),
        decreases n - i,
    {
        r.push(v[i]);
        proof {
            assert(v@.take(i as int).push(v@[i as int]) =~= v@.take(i as int + 1));
        }
        i = i + 1;
    }
    proof {
        assert(v@.take(n as int) =~= v@);
    }
    r
}

/// Decoder for Luby Transform codes: reconstructs the source symbols from a
/// stream of `(seed, degree, payload)` packets by iterative peeling.
pub struct Decoder {
    k: usize,
    block_size: usize,
    prng: PRNG,
    pending: Vec<PendingBlock>,
    solved: Vec<Option<Vec<u8>>>,
    solved_count: usize,
    current_round: usize,
    next_receipt: usize,
}

impl Decoder {
    /// The solved table as ghost data.
    pub closed spec fn spec_solved(&self) -> Seq<Option<Seq<u8>>> {
        slot_model(self.solved@)
    }

    /// The number of source symbols.
    pub closed spec fn spec_k(&self) -> usize {
        self.k
    }

    /// The symbol length.
    pub closed spec fn spec_block_size(&self) -> usize {
        self.block_size
    }

    /// The degree table of the generator.
    pub closed spec fn spec_cdf(&self) -> Seq<u64> {
        self.prng.spec_cdf()
    }

    /// How many sources are solved.
    pub closed spec fn spec_solved_count(&self) -> usize {
        self.solved_count
    }

    /// How many packets are held with unsolved dependencies.
    pub closed spec fn spec_pending_len(&self) -> nat {
        self.pending@.len()
    }

    /// How many peeling passes have run (saturating at the word limit).
    pub closed spec fn spec_current_round(&self) -> usize {
        self.current_round
    }

    /// The receipt the next accepted packet will get.
    pub closed spec fn spec_next_receipt(&self) -> usize {
        self.next_receipt
    }

    /// Whether every source is solved.
    pub open spec fn spec_is_complete(&self) -> bool {
        self.spec_solved_count() == self.spec_k()
    }

    /// One held packet's payload is the XOR of the sources its remaining
    /// dependencies name.
    spec fn entry_ok(e: PendingBlock, srcs: Seq<Seq<u8>>, l: nat) -> bool {
        e.payload@ == xor_all(srcs, e.deps@, l)
    }

    spec fn entries_ok(entries: Seq<PendingBlock>, srcs: Seq<Seq<u8>>, l: nat) -> bool {
        forall|e: int| 0 <= e < entries.len() ==> Self::entry_ok(#[trigger] entries[e], srcs, l)
    }

    /// None of this packet's dependencies is solved in the table `sm`.
    spec fn entry_unsolved(e: PendingBlock, sm: Seq<Option<Seq<u8>>>) -> bool {
        forall|m: int| 0 <= m < e.deps@.len() ==> sm[#[trigger] e.deps@[m] as int] is None
    }

    spec fn entry_wf(e: PendingBlock, k: int, l: int) -> bool {
        e.payload@.len() == l
            && forall|m: int| 0 <= m < e.deps@.len() ==> (#[trigger] e.deps@[m] as int) < k
    }

    /// Structural soundness, independent of any source table.
    pub closed spec fn wf(&self) -> bool {
        &&& self.prng.wf()
        &&& self.prng.spec_k() == self.k
        &&& 1 <= self.k <= MAX_SOURCES
        &&& self.block_size >= 1
        &&& self.solved@.len() == self.k
        &&& self.solved_count == count_some(self.spec_solved())
        &&& forall|i: int| 0 <= i < self.solved@.len() && self.solved@[i] is Some
            ==> (#[trigger] self.solved@[i]->0)@.len() == self.block_size
        &&& forall|e: int| 0 <= e < self.pending@.len()
            ==> Self::entry_wf(#[trigger] self.pending@[e], self.k as int,
                self.block_size as int)
    }

    /// At rest (after every public call) each held packet still needs at
    /// least two unsolved sources, and none of its dependencies is solved.
    pub closed spec fn at_rest(&self) -> bool {
        forall|e: int| 0 <= e < self.pending@.len()
            ==> (#[trigger] self.pending@[e]).deps@.len() >= 2
                && Self::entry_unsolved(self.pending@[e], self.spec_solved())
    }

    /// The two decoders hold identical tables: the same solved slots, the
    /// same held packets, and the same geometry.  Only the generator state
    /// may differ, and none of the decoding guarantees depend on it.
    pub closed spec fn same_tables(&self, other: &Decoder) -> bool {
        &&& self.solved@ == other.solved@
        &&& self.pending@ == other.pending@
        &&& self.block_size == other.block_size
        &&& self.k == other.k
        &&& self.solved_count == other.solved_count
    }

    /// The decoder's state is explained by the source table `srcs`: every
    /// solved slot holds the true source, and every held packet's payload is
    /// the XOR of the sources its remaining dependencies name.
    pub closed spec fn consistent_with(&self, srcs: Seq<Seq<u8>>) -> bool {
        &&& solved_explains(self.spec_solved(), srcs)
        &&& Self::entries_ok(self.pending@, srcs, self.spec_block_size() as nat)
    }

    /// Creates a decoder for `k` source symbols of `block_size` bytes with
    /// distribution parameters `delta` and `c` in Q32.32.
    pub fn new(k: usize, block_size: usize, delta: u64, c: u64) -> (r: Result<Decoder, LtError>)
        ensures
            match r {
                Ok(d) => {
                    &&& 1 <= k <= MAX_SOURCES && block_size >= 1 && 1 <= delta < FX_ONE && 1 <= c
                    &&& d.wf() && d.at_rest()
                    &&& d.spec_k() == k
                    &&& d.spec_block_size() == block_size
                    &&& is_rsd_table(d.spec_cdf(), k as int, delta as int, c as int)
                    &&& d.spec_solved_count() == 0
                    &&& d.spec_pending_len() == 0
                    &&& d.spec_current_round() == 0
                    &&& d.spec_next_receipt() == 0
                    &&& forall|i: int| 0 <= i < k ==> d.spec_solved()[i] is None
                    &&& forall|srcs: Seq<Seq<u8>>| #[trigger] d.consistent_with(srcs)
                },
                Err(e) => {
                    &&& e == LtError::ConfigurationError
                    &&& !(1 <= k <= MAX_SOURCES && block_size >= 1 && 1 <= delta < FX_ONE
                        && 1 <= c)
                },
            },
    {
        if block_size == 0 {
            return Err(LtError::ConfigurationError);
        }
        let prng = match PRNG::new(k, delta, c) {
            Ok(p) => p,
            Err(e) => {
                return Err(e);
            },
        };
        let mut solved: Vec<Option<Vec<u8>>> = Vec::new();
        let mut i: usize = 0;
        while i < k
            invariant
                i <= k,
                solved@.len() == i,
                forall|m: int| 0 <= m < i ==> solved@[m] is None,
            decreases k - i,
        {
            solved.push(None);
            i = i + 1;
        }
        let d = Decoder {
            k,
            block_size,
            prng,
            pending: Vec::new(),
            solved,
            solved_count: 0,
            current_round: 0,
            next_receipt: 0,
        };
        proof {
            lemma_count_none(d.spec_solved());
        }
        Ok(d)
    }

    /// Creates a decoder with the default distribution parameters.
    pub fn new_default(k: usize, block_size: usize) -> (r: Result<Decoder, LtError>)
        ensures
            match r {
                Ok(d) => {
                    &&& 1 <= k <= MAX_SOURCES && block_size >= 1
                    &&& d.wf() && d.at_rest()
                    &&& d.spec_k() == k
                    &&& d.spec_block_size() == block_size
                    &&& is_rsd_table(d.spec_cdf(), k as int, DEFAULT_DELTA as int,
                        DEFAULT_C as int)
                    &&& d.spec_solved_count() == 0
                    &&& d.spec_pending_len() == 0
                    &&& d.spec_current_round() == 0
                    &&& d.spec_next_receipt() == 0
                    &&& forall|i: int| 0 <= i < k ==> d.spec_solved()[i] is None
                    &&& forall|srcs: Seq<Seq<u8>>| #[trigger] d.consistent_with(srcs)
                },
                Err(e) => {
                    &&& e == LtError::ConfigurationError
                    &&& !(1 <= k <= MAX_SOURCES && block_size >= 1)
                },
            },
    {
        Decoder::new(k, block_size, DEFAULT_DELTA, DEFAULT_C)
    }

    /// The number of source symbols.
    pub fn k(&self) -> (r: usize)
        ensures
            r == self.spec_k(),
    {
        self.k
    }

    /// The symbol length in bytes.
    pub fn block_size(&self) -> (r: usize)
        ensures
            r == self.spec_block_size(),
    {
        self.block_size
    }

    /// The number of successfully decoded source symbols.
    pub fn decoded_count(&self) -> (r: usize)
        ensures
            r == self.spec_solved_count(),
    {
        self.solved_count
    }

    /// Whether all source symbols have been decoded.
    pub fn is_complete(&self) -> (r: bool)
        ensures
            r == self.spec_is_complete(),
    {
        self.solved_count == self.k
    }

    /// The number of peeling rounds run so far.
    pub fn current_round(&self) -> (r: usize)
        ensures
            r == self.spec_current_round(),
    {
        self.current_round
    }

    /// A decoded source symbol, if that index has been solved.
    pub fn get_decoded_block(&self, index: usize) -> (r: Option<&Vec<u8>>)
        requires
            self.wf(),
        ensures
            match r {
                Some(v) => index < self.spec_k() && self.spec_solved()[index as int] is Some
                    && v@ == self.spec_solved()[index as int]->0,
                None => index >= self.spec_k() || self.spec_solved()[index as int] is None,
            },
    {
        if index >= self.k {
            return None;
        }
        self.solved[index].as_ref()
    }

    /// All decoded source symbols in index order, once decoding is complete;
    /// nothing before that.
    pub fn get_all_decoded_blocks(&self) -> (r: Option<Vec<Vec<u8>>>)
        requires
            self.wf(),
        ensures
            match r {
                Some(blocks) => {
                    &&& self.spec_is_complete()
                    &&& blocks@.len() == self.spec_k()
                    &&& forall|i: int| 0 <= i < self.spec_k()
                        ==> self.spec_solved()[i] is Some
                            && (#[trigger] blocks@[i])@ == self.spec_solved()[i]->0
                },
                None => !self.spec_is_complete(),
            },
    {
        if self.solved_count != self.k {
            return None;
        }
        proof {
            lemma_count_full(self.spec_solved());
            assert forall|m: int| 0 <= m < self.solved@.len()
                implies self.solved@[m] is Some
            by {
                assert(self.spec_solved()[m] is Some);
            }
        }
        let mut blocks: Vec<Vec<u8>> = Vec::new();
        let mut i: usize = 0;
        while i < self.k
            invariant
                i <= self.k,
                self.wf(),
                forall|m: int| 0 <= m < self.solved@.len() ==> self.solved@[m] is Some,
                blocks@.len() == i,
                forall|m: int| 0 <= m < i
                    ==> (#[trigger] blocks@[m])@ == self.spec_solved()[m]->0,
            decreases self.k - i,
        {
            let b = match self.solved[i].as_ref() {
                Some(v) => copy_bytes(v),
                None => {
                    proof {
                        assert(false);
                    }
                    Vec::new()
                },
            };
            blocks.push(b);
            i = i + 1;
        }
        Some(blocks)
    }


    /// One peeling pass: refreshes every held packet against the solved
    /// table, solves each packet left with exactly one unsolved dependency,
    /// drops the fully covered ones, and keeps the rest.  Returns whether
    /// any source was solved.
    #[verifier::rlimit(100)]
    fn peel_pass(&mut self) -> (progress: bool)
        requires
            old(self).wf(),
        ensures
            final(self).wf(),
            final(self).spec_k() == old(self).spec_k(),
            final(self).spec_block_size() == old(self).spec_block_size(),
            final(self).spec_cdf() == old(self).spec_cdf(),
            final(self).spec_current_round() == old(self).spec_current_round(),
            final(self).spec_next_receipt() == old(self).spec_next_receipt(),
            forall|q: int| 0 <= q < old(self).spec_solved().len()
                && old(self).spec_solved()[q] is Some
                ==> final(self).spec_solved()[q] == old(self).spec_solved()[q],
            final(self).spec_solved_count() >= old(self).spec_solved_count(),
            progress == (final(self).spec_solved_count() > old(self).spec_solved_count()),
            !progress ==> final(self).spec_solved() == old(self).spec_solved()
                && final(self).at_rest(),
            forall|srcs: Seq<Seq<u8>>|
                #![trigger old(self).consistent_with(srcs)]
                wf_sources(srcs, old(self).spec_k() as int, old(self).spec_block_size() as int)
                    && old(self).consistent_with(srcs)
                    ==> final(self).consistent_with(srcs),
    {
        let ghost ki = self.k as int;
        let l = self.block_size;
        let n = self.pending.len();
        let mut new_pending: Vec<PendingBlock> = Vec::new();
        let mut progress = false;
        let mut i: usize = 0;
        while i < n
            invariant
                i <= n,
                self.wf(),
                l == old(self).spec_block_size(),
                ki == old(self).spec_k() as int,
                self.k == old(self).spec_k(),
                self.block_size == old(self).spec_block_size(),
                self.spec_cdf() == old(self).spec_cdf(),
                self.spec_current_round() == old(self).spec_current_round(),
                self.spec_next_receipt() == old(self).spec_next_receipt(),
                self.pending@ == old(self).pending@,
                n == self.pending@.len(),
                old(self).spec_solved().len() == self.k,
                forall|q: int| 0 <= q < old(self).spec_solved().len()
                    && old(self).spec_solved()[q] is Some
                    ==> self.spec_solved()[q] == old(self).spec_solved()[q],
                self.solved_count >= old(self).spec_solved_count(),
                progress == (self.solved_count > old(self).spec_solved_count()),
                !progress ==> self.spec_solved() == old(self).spec_solved(),
                forall|e: int| 0 <= e < new_pending@.len()
                    ==> Self::entry_wf(#[trigger] new_pending@[e], ki, l as int)
                        && new_pending@[e].deps@.len() >= 2,
                !progress ==> forall|e: int| 0 <= e < new_pending@.len()
                    ==> Self::entry_unsolved(#[trigger] new_pending@[e], self.spec_solved()),
                forall|srcs: Seq<Seq<u8>>|
                    #![trigger old(self).consistent_with(srcs)]
                    wf_sources(srcs, ki, l as int) && old(self).consistent_with(srcs)
                        ==> solved_explains(self.spec_solved(), srcs)
                            && Self::entries_ok(new_pending@, srcs, l as nat),
            decreases n - i,
        {
            proof {
                assert(Self::entry_wf(self.pending@[i as int], ki, l as int));
            }
            let e_payload = copy_bytes(&self.pending[i].payload);
            let e_deps = copy_indices(&self.pending[i].deps);
            let e_seed = self.pending[i].seed;
            let e_degree = self.pending[i].degree;
            let ghost pend_i = self.pending@[i as int];
            let ghost sol0 = self.solved@;
            let ghost sm0 = self.spec_solved();
            let (rp, nd) = reduce_against_solved(&self.solved, e_payload, &e_deps, l);
            let ghost rpv = rp@;
            let ghost ndv = nd@;
            if nd.len() == 0 {
                // Fully covered by earlier solves: discard.
            } else if nd.len() == 1 {
                let t = nd[0];
                proof {
                    lemma_count_le_len(sm0);
                }
                let _prev = self.solved.remove(t);
                self.solved.insert(t, Some(rp));
                self.solved_count = self.solved_count + 1;
                progress = true;
                proof {
                    assert(self.solved@ =~= sol0.update(t as int, Some(self.solved@[t as int]->0)));
                    assert(self.spec_solved() =~= sm0.update(t as int, Some(rpv)));
                    lemma_count_update(sm0, t as int, rpv);
                    assert(sol0[t as int] is None);
                    assert(sm0[t as int] is None);
                    assert forall|q: int| 0 <= q < old(self).spec_solved().len()
                        && old(self).spec_solved()[q] is Some
                        implies self.spec_solved()[q] == old(self).spec_solved()[q]
                    by {
                        assert(sm0[q] == old(self).spec_solved()[q]);
                        if q != t as int {
                            assert(self.spec_solved()[q] == sm0[q]);
                        }
                    }
                    assert forall|srcs: Seq<Seq<u8>>|
                        wf_sources(srcs, ki, l as int)
                            && #[trigger] old(self).consistent_with(srcs)
                        implies solved_explains(self.spec_solved(), srcs)
                            && Self::entries_ok(new_pending@, srcs, l as nat)
                    by {
                        assert(solved_explains(sm0, srcs));
                        assert(Self::entry_ok(pend_i, srcs, l as nat));
                        assert(e_payload@ == xor_all(srcs, e_deps@, l as nat));
                        assert(rpv == xor_all(srcs, ndv, l as nat));
                        assert(ndv =~= seq![t]);
                        lemma_xor_all_singleton(srcs, t, l as nat);
                        assert(rpv == srcs[t as int]);
                        assert forall|q: int| 0 <= q < self.spec_solved().len()
                            && self.spec_solved()[q] is Some
                            implies (#[trigger] self.spec_solved()[q])->0 == srcs[q]
                        by {
                            if q != t as int {
                                assert(self.spec_solved()[q] == sm0[q]);
                            }
                        }
                    }
                }
            } else {
                new_pending.push(PendingBlock {
                    seed: e_seed,
                    degree: e_degree,
                    payload: rp,
                    deps: nd,
                });
                proof {
                    assert forall|srcs: Seq<Seq<u8>>|
                        wf_sources(srcs, ki, l as int)
                            && #[trigger] old(self).consistent_with(srcs)
                        implies solved_explains(self.spec_solved(), srcs)
                            && Self::entries_ok(new_pending@, srcs, l as nat)
                    by {
                        assert(solved_explains(sm0, srcs));
                        assert(Self::entry_ok(pend_i, srcs, l as nat));
                        assert(e_payload@ == xor_all(srcs, e_deps@, l as nat));
                        assert(rpv == xor_all(srcs, ndv, l as nat));
                        assert(Self::entry_ok(new_pending@.last(), srcs, l as nat));
                    }
                }
            }
            i = i + 1;
        }
        self.pending = new_pending;
        proof {
            assert forall|srcs: Seq<Seq<u8>>|
                wf_sources(srcs, old(self).spec_k() as int, old(self).spec_block_size() as int)
                    && #[trigger] old(self).consistent_with(srcs)
                implies self.consistent_with(srcs)
            by {
                assert(solved_explains(self.spec_solved(), srcs));
                assert(Self::entries_ok(self.pending@, srcs, l as nat));
            }
        }
        progress
    }

    /// Runs peeling passes until one makes no progress, advancing the
    /// round counter once per pass (saturating at the word limit).
    fn try_decode(&mut self)
        requires
            old(self).wf(),
        ensures
            final(self).wf(),
            final(self).at_rest(),
            final(self).spec_k() == old(self).spec_k(),
            final(self).spec_block_size() == old(self).spec_block_size(),
            final(self).spec_cdf() == old(self).spec_cdf(),
            final(self).spec_next_receipt() == old(self).spec_next_receipt(),
            final(self).spec_current_round() >= old(self).spec_current_round(),
            old(self).spec_current_round() < usize::MAX
                ==> final(self).spec_current_round() > old(self).spec_current_round(),
            forall|q: int| 0 <= q < old(self).spec_solved().len()
                && old(self).spec_solved()[q] is Some
                ==> final(self).spec_solved()[q] == old(self).spec_solved()[q],
            final(self).spec_solved_count() >= old(self).spec_solved_count(),
            forall|srcs: Seq<Seq<u8>>|
                #![trigger old(self).consistent_with(srcs)]
                wf_sources(srcs, old(self).spec_k() as int, old(self).spec_block_size() as int)
                    && old(self).consistent_with(srcs)
                    ==> final(self).consistent_with(srcs),
    {
        let mut progress = true;
        proof {
            lemma_count_le_len(self.spec_solved());
        }
        while progress
            invariant
                self.wf(),
                self.spec_k() == old(self).spec_k(),
                self.spec_block_size() == old(self).spec_block_size(),
                self.spec_cdf() == old(self).spec_cdf(),
                self.spec_next_receipt() == old(self).spec_next_receipt(),
                self.spec_current_round() >= old(self).spec_current_round(),
                !progress && old(self).spec_current_round() < usize::MAX
                    ==> self.spec_current_round() > old(self).spec_current_round(),
                self.solved_count <= self.k,
                old(self).spec_solved().len() == self.k,
                forall|q: int| 0 <= q < old(self).spec_solved().len()
                    && old(self).spec_solved()[q] is Some
                    ==> self.spec_solved()[q] == old(self).spec_solved()[q],
                self.spec_solved_count() >= old(self).spec_solved_count(),
                !progress ==> self.at_rest(),
                forall|srcs: Seq<Seq<u8>>|
                    #![trigger old(self).consistent_with(srcs)]
                    wf_sources(srcs, old(self).spec_k() as int,
                        old(self).spec_block_size() as int)
                        && old(self).consistent_with(srcs)
                        ==> self.consistent_with(srcs),
            decreases self.k - self.solved_count + (if progress { 1int } else { 0int }),
        {
            if self.current_round < usize::MAX {
                self.current_round = self.current_round + 1;
            }
            let ghost mid = *self;
            progress = self.peel_pass();
            proof {
                lemma_count_le_len(self.spec_solved());
                assert forall|q: int| 0 <= q < old(self).spec_solved().len()
                    && old(self).spec_solved()[q] is Some
                    implies self.spec_solved()[q] == old(self).spec_solved()[q]
                by {
                    assert(mid.spec_solved()[q] == old(self).spec_solved()[q]);
                    assert(mid.spec_solved()[q] is Some);
                }
                assert forall|srcs: Seq<Seq<u8>>|
                    wf_sources(srcs, old(self).spec_k() as int,
                        old(self).spec_block_size() as int)
                        && #[trigger] old(self).consistent_with(srcs)
                    implies self.consistent_with(srcs)
                by {
                    assert(mid.consistent_with(srcs));
                }
            }
        }
    }


    /// Records a newly solved source symbol.
    fn solve_single(&mut self, t: usize, rp: Vec<u8>)
        requires
            old(self).wf(),
            t < old(self).spec_k(),
            old(self).spec_solved()[t as int] is None,
            rp@.len() == old(self).spec_block_size(),
        ensures
            final(self).wf(),
            final(self).spec_k() == old(self).spec_k(),
            final(self).spec_block_size() == old(self).spec_block_size(),
            final(self).spec_cdf() == old(self).spec_cdf(),
            final(self).pending@ == old(self).pending@,
            final(self).spec_current_round() == old(self).spec_current_round(),
            final(self).spec_next_receipt() == old(self).spec_next_receipt(),
            final(self).spec_solved() == old(self).spec_solved().update(t as int, Some(rp@)),
            final(self).spec_solved_count() == old(self).spec_solved_count() + 1,
    {
        let ghost sol0 = self.solved@;
        let ghost sm0 = self.spec_solved();
        let ghost rpv = rp@;
        proof {
            lemma_count_le_len(sm0);
        }
        let _prev = self.solved.remove(t);
        self.solved.insert(t, Some(rp));
        self.solved_count = self.solved_count + 1;
        proof {
            assert(self.solved@ =~= sol0.update(t as int, Some(self.solved@[t as int]->0)));
            assert(self.spec_solved() =~= sm0.update(t as int, Some(rpv)));
            lemma_count_update(sm0, t as int, rpv);
        }
    }

    /// Holds a reduced packet whose dependencies are not yet solved.
    fn hold_packet(&mut self, seed: i64, degree: usize, rp: Vec<u8>, nd: Vec<usize>)
        requires
            old(self).wf(),
            old(self).at_rest(),
            rp@.len() == old(self).spec_block_size(),
            nd@.len() >= 2,
            forall|m: int| 0 <= m < nd@.len()
                ==> (#[trigger] nd@[m] as int) < old(self).spec_k()
                    && old(self).spec_solved()[nd@[m] as int] is None,
        ensures
            final(self).wf(),
            final(self).at_rest(),
            final(self).spec_k() == old(self).spec_k(),
            final(self).spec_block_size() == old(self).spec_block_size(),
            final(self).spec_cdf() == old(self).spec_cdf(),
            final(self).spec_solved() == old(self).spec_solved(),
            final(self).spec_solved_count() == old(self).spec_solved_count(),
            final(self).spec_pending_len() == old(self).spec_pending_len() + 1,
            final(self).spec_current_round() == old(self).spec_current_round(),
            final(self).spec_next_receipt() == old(self).spec_next_receipt(),
            forall|srcs: Seq<Seq<u8>>|
                #![trigger old(self).consistent_with(srcs)]
                old(self).consistent_with(srcs)
                    && rp@ == xor_all(srcs, nd@, old(self).spec_block_size() as nat)
                    ==> final(self).consistent_with(srcs),
    {
        let ghost ki = self.k as int;
        let ghost li = self.block_size as int;
        self.pending.push(PendingBlock { seed, degree, payload: rp, deps: nd });
        proof {
            assert forall|e: int| 0 <= e < self.pending@.len()
                implies Self::entry_wf(#[trigger] self.pending@[e], ki, li)
            by {
                if e < self.pending@.len() - 1 {
                    assert(self.pending@[e] == old(self).pending@[e]);
                }
            }
            assert forall|e: int| 0 <= e < self.pending@.len()
                implies (#[trigger] self.pending@[e]).deps@.len() >= 2
                    && Self::entry_unsolved(self.pending@[e], self.spec_solved())
            by {
                if e < self.pending@.len() - 1 {
                    assert(self.pending@[e] == old(self).pending@[e]);
                    assert(Self::entry_unsolved(old(self).pending@[e], old(self).spec_solved()));
                }
            }
            assert forall|srcs: Seq<Seq<u8>>|
                #[trigger] old(self).consistent_with(srcs)
                    && self.pending@.last().payload@
                        == xor_all(srcs, self.pending@.last().deps@, li as nat)
                implies self.consistent_with(srcs)
            by {
                assert forall|e: int| 0 <= e < self.pending@.len()
                    implies Self::entry_ok(#[trigger] self.pending@[e], srcs, li as nat)
                by {
                    if e < self.pending@.len() - 1 {
                        assert(self.pending@[e] == old(self).pending@[e]);
                        assert(Self::entry_ok(old(self).pending@[e], srcs, li as nat));
                    }
                }
            }
        }
    }

    /// Records a solved source symbol and peels until quiescent.
    fn solve_and_peel(&mut self, t: usize, rp: Vec<u8>)
        requires
            old(self).wf(),
            t < old(self).spec_k(),
            old(self).spec_solved()[t as int] is None,
            rp@.len() == old(self).spec_block_size(),
        ensures
            final(self).wf(),
            final(self).at_rest(),
            final(self).spec_k() == old(self).spec_k(),
            final(self).spec_block_size() == old(self).spec_block_size(),
            final(self).spec_cdf() == old(self).spec_cdf(),
            final(self).spec_next_receipt() == old(self).spec_next_receipt(),
            final(self).spec_current_round() >= old(self).spec_current_round(),
            forall|q: int| 0 <= q < old(self).spec_solved().len()
                && old(self).spec_solved()[q] is Some
                ==> final(self).spec_solved()[q] == old(self).spec_solved()[q],
            final(self).spec_solved_count() > old(self).spec_solved_count(),
            final(self).spec_solved()[t as int] is Some,
            forall|srcs: Seq<Seq<u8>>|
                #![trigger old(self).consistent_with(srcs)]
                wf_sources(srcs, old(self).spec_k() as int, old(self).spec_block_size() as int)
                    && old(self).consistent_with(srcs)
                    && rp@ == srcs[t as int]
                    ==> final(self).consistent_with(srcs),
    {
        let ghost ki = self.k as int;
        let ghost li = self.block_size as int;
        let ghost sm0 = self.spec_solved();
        let ghost rpv = rp@;
        self.solve_single(t, rp);
        let ghost mid = *self;
        proof {
            assert forall|srcs: Seq<Seq<u8>>|
                wf_sources(srcs, ki, li) && #[trigger] old(self).consistent_with(srcs)
                    && rpv == srcs[t as int]
                implies mid.consistent_with(srcs)
            by {
                assert forall|q: int| 0 <= q < mid.spec_solved().len()
                    && mid.spec_solved()[q] is Some
                    implies (#[trigger] mid.spec_solved()[q])->0 == srcs[q]
                by {
                    if q != t as int {
                        assert(mid.spec_solved()[q] == sm0[q]);
                    }
                }
            }
        }
        self.try_decode();
        proof {
            assert forall|srcs: Seq<Seq<u8>>|
                wf_sources(srcs, ki, li) && #[trigger] old(self).consistent_with(srcs)
                    && rpv == srcs[t as int]
                implies self.consistent_with(srcs)
            by {
                assert(mid.consistent_with(srcs));
            }
            assert(mid.spec_solved()[t as int] is Some);
        }
    }

    /// The body of `add_encoded_block`, after the payload length has been
    /// checked.
    #[verifier::rlimit(100)]
    #[verifier::spinoff_prover]
    fn add_packet_checked(&mut self, seed: i64, degree: usize, data: Vec<u8>) -> (r: Result<
        usize,
        LtError,
    >)
        requires
            old(self).wf(),
            old(self).at_rest(),
            data@.len() == old(self).spec_block_size(),
        ensures
            final(self).wf(),
            final(self).at_rest(),
            final(self).spec_k() == old(self).spec_k(),
            final(self).spec_block_size() == old(self).spec_block_size(),
            final(self).spec_cdf() == old(self).spec_cdf(),
            forall|q: int| 0 <= q < old(self).spec_solved().len()
                && old(self).spec_solved()[q] is Some
                ==> final(self).spec_solved()[q] == old(self).spec_solved()[q],
            final(self).spec_solved_count() >= old(self).spec_solved_count(),
            final(self).spec_current_round() >= old(self).spec_current_round(),
            match r {
                Ok(receipt) => {
                    &&& data@.len() == old(self).spec_block_size()
                    &&& receipt == old(self).spec_next_receipt()
                    &&& final(self).spec_next_receipt() == if old(self).spec_next_receipt()
                        < usize::MAX {
                        (old(self).spec_next_receipt() + 1) as usize
                    } else {
                        usize::MAX
                    }
                    &&& forall|srcs: Seq<Seq<u8>>|
                        #![trigger old(self).consistent_with(srcs)]
                        wf_sources(srcs, old(self).spec_k() as int,
                            old(self).spec_block_size() as int)
                            && old(self).consistent_with(srcs)
                            && genuine_packet(srcs, old(self).spec_cdf(),
                                old(self).spec_k() as int,
                                old(self).spec_block_size() as int, seed, data@)
                            ==> final(self).consistent_with(srcs)
                    &&& ({
                        let sel = seed_selection(old(self).spec_cdf(),
                            old(self).spec_k() as int, seed);
                        sel.len() == 1 ==> final(self).spec_solved()[sel[0] as int] is Some
                    })
                    &&& (final(self).spec_solved_count() > old(self).spec_solved_count()
                        || final(self).spec_pending_len() == old(self).spec_pending_len() + 1
                        || ({
                            let sel = seed_selection(old(self).spec_cdf(),
                                old(self).spec_k() as int, seed);
                            forall|m: int| 0 <= m < sel.len()
                                ==> final(self).spec_solved()[#[trigger] sel[m] as int] is Some
                        }))
                },
                Err(e) => {
                    &&& e == LtError::InternalInvariant
                    &&& final(self).same_tables(old(self))
                    &&& final(self).spec_current_round() == old(self).spec_current_round()
                    &&& final(self).spec_next_receipt() == old(self).spec_next_receipt()
                    &&& ({
                        let x1 = sp_lcg(sp_normalize_seed(seed as int));
                        sp_seen(old(self).spec_k() as int, x1, u64::MAX as nat).len()
                            < sp_degree(old(self).spec_cdf(), x1)
                    })
                },
            },
    {
        let ghost ki = self.k as int;
        let l = self.block_size;
        let drawn = match self.prng.get_src_blocks(Some(seed)) {
            Ok(t) => t,
            Err(e) => {
                proof {
                    assert(self.same_tables(old(self)));
                    assert(self.at_rest() == old(self).at_rest());
                }
                return Err(e);
            },
        };
        let (_echo, d, idx) = drawn;
        let ghost sel = seed_selection(old(self).spec_cdf(), ki, seed);
        proof {
            assert(idx@ == sel);
        }
        let receipt = self.next_receipt;
        if self.next_receipt < usize::MAX {
            self.next_receipt = self.next_receipt + 1;
        }
        let ghost sol0 = self.solved@;
        let ghost sm0 = self.spec_solved();
        let (rp, nd) = reduce_against_solved(&self.solved, data, &idx, l);
        let ghost rpv = rp@;
        let ghost ndv = nd@;
        if nd.len() == 0 {
            // Redundant: every selected source is already solved.
            proof {
                assert(self.same_tables(old(self)));
                assert(self.at_rest() == old(self).at_rest());
                assert forall|m: int| 0 <= m < sel.len()
                    implies self.spec_solved()[#[trigger] sel[m] as int] is Some
                by {
                    assert(sol0[sel[m] as int] is Some || ndv.contains(sel[m]));
                    assert(slot_model(sol0)[sel[m] as int] is Some);
                }
            }
            return Ok(receipt);
        }
        if nd.len() == 1 {
            let t = nd[0];
            let ghost pre = *self;
            proof {
                assert forall|srcs: Seq<Seq<u8>>|
                    wf_sources(srcs, ki, l as int)
                        && #[trigger] old(self).consistent_with(srcs)
                        && genuine_packet(srcs, old(self).spec_cdf(), ki, l as int, seed, data@)
                    implies pre.consistent_with(srcs) && rpv == srcs[t as int]
                by {
                    assert(solved_explains(sm0, srcs));
                    assert(data@ == xor_all(srcs, idx@, l as nat));
                    assert(rpv == xor_all(srcs, ndv, l as nat));
                    assert(ndv =~= seq![t]);
                    lemma_xor_all_singleton(srcs, t, l as nat);
                }
            }
            self.solve_and_peel(t, rp);
            proof {
                assert forall|srcs: Seq<Seq<u8>>|
                    wf_sources(srcs, ki, l as int)
                        && #[trigger] old(self).consistent_with(srcs)
                        && genuine_packet(srcs, old(self).spec_cdf(), ki, l as int, seed, data@)
                    implies self.consistent_with(srcs)
                by {
                    assert(pre.consistent_with(srcs) && rpv == srcs[t as int]);
                }
                if sel.len() == 1 {
                    assert(ndv.contains(sel[0]) || sol0[sel[0] as int] is Some);
                    if ndv.contains(sel[0]) {
                        assert(sel[0] == t);
                    } else {
                        assert(sm0[sel[0] as int] is Some);
                    }
                }
            }
            return Ok(receipt);
        }
        // Two or more unsolved dependencies: hold the packet.
        let ghost pre = *self;
        proof {
            assert forall|srcs: Seq<Seq<u8>>|
                wf_sources(srcs, ki, l as int)
                    && #[trigger] old(self).consistent_with(srcs)
                    && genuine_packet(srcs, old(self).spec_cdf(), ki, l as int, seed, data@)
                implies pre.consistent_with(srcs) && rpv == xor_all(srcs, ndv, l as nat)
            by {
                assert(solved_explains(sm0, srcs));
                assert(data@ == xor_all(srcs, idx@, l as nat));
            }
            if sel.len() == 1 {
                assert(ndv.len() <= 1);
                assert(false);
            }
        }
        self.hold_packet(seed, d, rp, nd);
        proof {
            assert forall|srcs: Seq<Seq<u8>>|
                wf_sources(srcs, ki, l as int)
                    && #[trigger] old(self).consistent_with(srcs)
                    && genuine_packet(srcs, old(self).spec_cdf(), ki, l as int, seed, data@)
                implies self.consistent_with(srcs)
            by {
                assert(pre.consistent_with(srcs) && rpv == xor_all(srcs, ndv, l as nat));
            }
        }
        Ok(receipt)
    }

    /// Accepts one `(seed, degree, payload)` packet and returns a receipt.
    ///
    /// The decoder reconstructs the index set from the seed (the transmitted
    /// degree is advisory; the generator is authoritative), reduces the
    /// payload against already-solved sources, stores what remains, and
    /// peels until no further progress is possible.  A payload whose length
    /// is not the configured symbol length is rejected with
    /// `LengthMismatch`, and the decoder is unchanged.  Receipts start at
    /// zero and increase by one per accepted packet until the counter
    /// reaches the word limit.
    ///
    /// The quantified postcondition is the decoding guarantee: whatever
    /// source table explains the decoder's state and this packet also
    /// explains the state afterwards — so solved slots only ever hold true
    /// sources.
    pub fn add_encoded_block(&mut self, seed: i64, degree: usize, data: Vec<u8>) -> (r: Result<
        usize,
        LtError,
    >)
        requires
            old(self).wf(),
            old(self).at_rest(),
        ensures
            final(self).wf(),
            final(self).at_rest(),
            final(self).spec_k() == old(self).spec_k(),
            final(self).spec_block_size() == old(self).spec_block_size(),
            final(self).spec_cdf() == old(self).spec_cdf(),
            forall|q: int| 0 <= q < old(self).spec_solved().len()
                && old(self).spec_solved()[q] is Some
                ==> final(self).spec_solved()[q] == old(self).spec_solved()[q],
            final(self).spec_solved_count() >= old(self).spec_solved_count(),
            final(self).spec_current_round() >= old(self).spec_current_round(),
            match r {
                Ok(receipt) => {
                    &&& data@.len() == old(self).spec_block_size()
                    &&& receipt == old(self).spec_next_receipt()
                    &&& final(self).spec_next_receipt() == if old(self).spec_next_receipt()
                        < usize::MAX {
                        (old(self).spec_next_receipt() + 1) as usize
                    } else {
                        usize::MAX
                    }
                    &&& forall|srcs: Seq<Seq<u8>>|
                        #![trigger old(self).consistent_with(srcs)]
                        wf_sources(srcs, old(self).spec_k() as int,
                            old(self).spec_block_size() as int)
                            && old(self).consistent_with(srcs)
                            && genuine_packet(srcs, old(self).spec_cdf(),
                                old(self).spec_k() as int,
                                old(self).spec_block_size() as int, seed, data@)
                            ==> final(self).consistent_with(srcs)
                    &&& ({
                        let sel = seed_selection(old(self).spec_cdf(),
                            old(self).spec_k() as int, seed);
                        sel.len() == 1 ==> final(self).spec_solved()[sel[0] as int] is Some
                    })
                    &&& (final(self).spec_solved_count() > old(self).spec_solved_count()
                        || final(self).spec_pending_len() == old(self).spec_pending_len() + 1
                        || ({
                            let sel = seed_selection(old(self).spec_cdf(),
                                old(self).spec_k() as int, seed);
                            forall|m: int| 0 <= m < sel.len()
                                ==> final(self).spec_solved()[#[trigger] sel[m] as int] is Some
                        }))
                },
                Err(e) => {
                    if data@.len() != old(self).spec_block_size() {
                        e == LtError::LengthMismatch && *final(self) == *old(self)
                    } else {
                        &&& e == LtError::InternalInvariant
                        &&& final(self).same_tables(old(self))
                        &&& final(self).spec_current_round() == old(self).spec_current_round()
                        &&& final(self).spec_next_receipt() == old(self).spec_next_receipt()
                        &&& ({
                            let x1 = sp_lcg(sp_normalize_seed(seed as int));
                            sp_seen(old(self).spec_k() as int, x1, u64::MAX as nat).len()
                                < sp_degree(old(self).spec_cdf(), x1)
                        })
                    }
                },
            },
    {
        if data.len() != self.block_size {
            return Err(LtError::LengthMismatch);
        }
        self.add_packet_checked(seed, degree, data)
    }

    /// The degree and index set that a seed stands for under this decoder's
    /// configuration — the same values the encoder derived when it built the
    /// packet.
    #[verifier::rlimit(100)]
    pub fn reconstruct_indices(&mut self, seed: i64) -> (r: Result<(usize, Vec<usize>), LtError>)
        requires
            old(self).wf(),
        ensures
            final(self).wf(),
            final(self).same_tables(old(self)),
            final(self).spec_k() == old(self).spec_k(),
            final(self).spec_block_size() == old(self).spec_block_size(),
            final(self).spec_cdf() == old(self).spec_cdf(),
            final(self).spec_solved() == old(self).spec_solved(),
            final(self).spec_solved_count() == old(self).spec_solved_count(),
            ({
                let x1 = sp_lcg(sp_normalize_seed(seed as int));
                let dd = sp_degree(old(self).spec_cdf(), x1);
                match r {
                    Ok((d, idx)) => {
                        &&& d as int == dd
                        &&& 1 <= d <= old(self).spec_k()
                        &&& idx@ == sp_indices(old(self).spec_k() as int, x1, dd)
                        &&& idx@.len() == d
                        &&& idx@.no_duplicates()
                        &&& forall|i: int| 0 <= i < idx@.len()
                            ==> (#[trigger] idx@[i] as int) < old(self).spec_k()
                    },
                    Err(e) => {
                        e == LtError::InternalInvariant
                            && sp_seen(old(self).spec_k() as int, x1, u64::MAX as nat).len() < dd
                    },
                }
            }),
    {
        match self.prng.get_src_blocks(Some(seed)) {
            Ok((_echo, d, idx)) => Ok((d, idx)),
            Err(e) => Err(e),
        }
    }
}

/// Decoders with identical tables hold the same solved slots and held
/// packets, explain the same source tables, rest in the same way, and
/// report the same progress.
pub proof fn lemma_same_tables(d1: &Decoder, d2: &Decoder, srcs: Seq<Seq<u8>>)
    requires
        d1.same_tables(d2),
    ensures
        d1.spec_solved() == d2.spec_solved(),
        d1.spec_solved_count() == d2.spec_solved_count(),
        d1.spec_pending_len() == d2.spec_pending_len(),
        d1.spec_k() == d2.spec_k(),
        d1.spec_block_size() == d2.spec_block_size(),
        d1.consistent_with(srcs) == d2.consistent_with(srcs),
        d1.at_rest() == d2.at_rest(),
        d1.spec_is_complete() == d2.spec_is_complete(),
{
}

/// The shape of a well-formed decoder, stated for callers outside this
/// module: the solved table always has exactly `k` slots, never more of
/// them are solved than exist, and completion means every slot is solved.
pub proof fn lemma_solved_table_shape(d: &Decoder)
    requires
        d.wf(),
    ensures
        d.spec_solved().len() == d.spec_k(),
        d.spec_solved_count() <= d.spec_k(),
        d.spec_is_complete() ==> forall|i: int| 0 <= i < d.spec_k()
            ==> (#[trigger] d.spec_solved()[i]) is Some,
{
    lemma_count_le_len(d.spec_solved());
    if d.spec_is_complete() {
        lemma_count_full(d.spec_solved());
    }
}


/// A slot that is solved contributes to the count.
proof fn lemma_count_lower(s: Seq<Option<Seq<u8>>>, i: int)
    requires
        0 <= i < s.len(),
        s[i] is Some,
    ensures
        count_some(s) >= 1,
    decreases s.len(),
{
    if i < s.len() - 1 {
        assert(s.drop_last()[i] is Some);
        lemma_count_lower(s.drop_last(), i);
    }
}

/// A table whose every slot is solved counts its full length.
proof fn lemma_count_all(s: Seq<Option<Seq<u8>>>)
    requires
        forall|i: int| 0 <= i < s.len() ==> s[i] is Some,
    ensures
        count_some(s) == s.len(),
    decreases s.len(),
{
    if s.len() > 0 {
        assert forall|i: int| 0 <= i < s.drop_last().len()
            implies s.drop_last()[i] is Some
        by {
            assert(s.drop_last()[i] == s[i]);
        }
        lemma_count_all(s.drop_last());
    }
}

/// Once decoding is complete, the decoder's table *is* the source table:
/// every slot is solved and holds exactly the corresponding source symbol,
/// byte for byte, for any source table that explains the packets fed in.
pub proof fn lemma_complete_decoding_exact(d: &Decoder, srcs: Seq<Seq<u8>>)
    requires
        d.wf(),
        wf_sources(srcs, d.spec_k() as int, d.spec_block_size() as int),
        d.consistent_with(srcs),
        d.spec_is_complete(),
    ensures
        forall|i: int| 0 <= i < d.spec_k()
            ==> (#[trigger] d.spec_solved()[i]) is Some
                && d.spec_solved()[i]->0 == srcs[i],
{
    lemma_count_full(d.spec_solved());
}

/// With a single source symbol, the first solved slot completes decoding:
/// together with `lemma_single_source_selection` this says a one-symbol
/// message is recovered from any first genuine packet.
pub proof fn lemma_single_source_complete(d: &Decoder)
    requires
        d.wf(),
        d.spec_k() == 1,
        d.spec_solved()[0] is Some,
    ensures
        d.spec_is_complete(),
{
    lemma_count_lower(d.spec_solved(), 0);
    lemma_count_le_len(d.spec_solved());
}

/// Once every slot is individually solved the decoder reports completion —
/// for two sources, two degree-one packets for indices zero and one are
/// enough.
pub proof fn lemma_all_slots_complete(d: &Decoder)
    requires
        d.wf(),
        forall|i: int| 0 <= i < d.spec_k() ==> (#[trigger] d.spec_solved()[i]) is Some,
    ensures
        d.spec_is_complete(),
{
    lemma_count_all(d.spec_solved());
}


/// Order independence at completion: two decoders that were fed genuine
/// packet streams for the same source table — in any order, with any
/// losses — hold identical solved tables once both are complete, because
/// each equals the source table itself.
pub proof fn lemma_order_independent_when_complete(d1: &Decoder, d2: &Decoder, srcs: Seq<Seq<u8>>)
    requires
        d1.wf(),
        d2.wf(),
        d1.spec_k() == d2.spec_k(),
        d1.spec_block_size() == d2.spec_block_size(),
        wf_sources(srcs, d1.spec_k() as int, d1.spec_block_size() as int),
        d1.consistent_with(srcs),
        d2.consistent_with(srcs),
        d1.spec_is_complete(),
        d2.spec_is_complete(),
    ensures
        d1.spec_solved() == d2.spec_solved(),
{
    lemma_complete_decoding_exact(d1, srcs);
    lemma_complete_decoding_exact(d2, srcs);
    assert(d1.spec_solved() =~= d2.spec_solved());
}

/// An all-`None` table counts zero.
proof fn lemma_count_none(s: Seq<Option<Seq<u8>>>)
    requires
        forall|i: int| 0 <= i < s.len() ==> s[i] is None,
    ensures
        count_some(s) == 0,
    decreases s.len(),
{
    if s.len() > 0 {
        lemma_count_none(s.drop_last());
    }
}

} // verus!
