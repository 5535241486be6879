//! Byte-wise XOR and its algebra.
//!
//! An encoded symbol is the XOR of a selection of source symbols.  The
//! decoder's whole correctness argument rests on the group laws of XOR on
//! fixed-length byte blocks: commutativity, associativity, self-inverse and
//! the zero identity.  This module states them once, over `Seq<u8>`, and
//! lifts them to `xor_all`, the XOR of a list of selected source symbols.

use vstd::prelude::*;
use vstd::multiset::Multiset;
use vstd::seq_lib::group_to_multiset_ensures;

verus! {

/// The all-zero block of length `l`.
pub open spec fn zero_block(l: nat) -> Seq<u8> {
    Seq::new(l, |i: int| 0u8)
}

/// Byte-wise XOR; the result takes its length from the first operand.
pub open spec fn xor_bytes(a: Seq<u8>, b: Seq<u8>) -> Seq<u8> {
    Seq::new(a.len(), |i: int| a[i] ^ b[i])
}

/// The XOR of `srcs[deps[0]], srcs[deps[1]], ...` over a zero block of
/// length `l`.
pub open spec fn xor_all(srcs: Seq<Seq<u8>>, deps: Seq<usize>, l: nat) -> Seq<u8>
    decreases deps.len(),
{
    if deps.len() == 0 {
        zero_block(l)
    } else {
        xor_bytes(xor_all(srcs, deps.drop_last(), l), srcs[deps.last() as int])
    }
}

/// Every entry of `deps` indexes a source symbol of length `l`.
pub open spec fn deps_ok(srcs: Seq<Seq<u8>>, deps: Seq<usize>, l: nat) -> bool {
    forall|i: int| 0 <= i < deps.len()
        ==> #[trigger] (deps[i] as int) < srcs.len() && srcs[deps[i] as int].len() == l
}

/// The group laws of XOR on bytes.
proof fn lemma_u8_xor_facts()
    by (bit_vector)
    ensures
        forall|a: u8, b: u8| #[trigger] (a ^ b) == b ^ a,
        forall|a: u8, b: u8, c: u8| #[trigger] ((a ^ b) ^ c) == a ^ (b ^ c),
        forall|a: u8| #[trigger] (a ^ a) == 0u8,
        forall|a: u8| #[trigger] (a ^ 0u8) == a,
{
}

/// XOR of equal-length blocks commutes.
pub proof fn lemma_xor_bytes_comm(a: Seq<u8>, b: Seq<u8>)
    requires
        a.len() == b.len(),
    ensures
        xor_bytes(a, b) == xor_bytes(b, a),
{
    lemma_u8_xor_facts();
    assert(xor_bytes(a, b) =~= xor_bytes(b, a));
}

/// XOR of equal-length blocks associates.
pub proof fn lemma_xor_bytes_assoc(a: Seq<u8>, b: Seq<u8>, c: Seq<u8>)
    requires
        a.len() == b.len() && b.len() == c.len(),
    ensures
        xor_bytes(xor_bytes(a, b), c) == xor_bytes(a, xor_bytes(b, c)),
{
    lemma_u8_xor_facts();
    assert(xor_bytes(xor_bytes(a, b), c) =~= xor_bytes(a, xor_bytes(b, c)));
}

/// A block cancels itself.
pub proof fn lemma_xor_bytes_self(a: Seq<u8>)
    ensures
        xor_bytes(a, a) == zero_block(a.len()),
{
    lemma_u8_xor_facts();
    assert(xor_bytes(a, a) =~= zero_block(a.len()));
}

/// The zero block is the identity, on either side.
pub proof fn lemma_xor_bytes_zero(a: Seq<u8>)
    ensures
        xor_bytes(a, zero_block(a.len())) == a,
        xor_bytes(zero_block(a.len()), a) == a,
{
    lemma_u8_xor_facts();
    assert(xor_bytes(a, zero_block(a.len())) =~= a);
    assert(xor_bytes(zero_block(a.len()), a) =~= a);
}

/// XORing the same block in twice is a no-op.
pub proof fn lemma_xor_bytes_cancel(a: Seq<u8>, b: Seq<u8>)
    requires
        a.len() == b.len(),
    ensures
        xor_bytes(xor_bytes(a, b), b) == a,
{
    lemma_xor_bytes_assoc(a, b, b);
    lemma_xor_bytes_self(b);
    lemma_xor_bytes_zero(a);
}

/// `xor_all` always yields a block of length `l`.
pub proof fn lemma_xor_all_len(srcs: Seq<Seq<u8>>, deps: Seq<usize>, l: nat)
    ensures
        xor_all(srcs, deps, l).len() == l,
    decreases deps.len(),
{
    if deps.len() > 0 {
        lemma_xor_all_len(srcs, deps.drop_last(), l);
    }
}

/// Appending an index XORs its source symbol in.
pub proof fn lemma_xor_all_push(srcs: Seq<Seq<u8>>, deps: Seq<usize>, l: nat, j: usize)
    ensures
        xor_all(srcs, deps.push(j), l)
            == xor_bytes(xor_all(srcs, deps, l), srcs[j as int]),
{
    assert(deps.push(j).drop_last() =~= deps);
    assert(deps.push(j).last() == j);
}

/// Any element of the list can be pulled out last: XOR does not care
/// where in the list an index stands.
pub proof fn lemma_xor_all_pick(srcs: Seq<Seq<u8>>, deps: Seq<usize>, l: nat, p: int)
    requires
        0 <= p < deps.len(),
        deps_ok(srcs, deps, l),
    ensures
        xor_all(srcs, deps, l)
            == xor_bytes(xor_all(srcs, deps.remove(p), l), srcs[deps[p] as int]),
    decreases deps.len(),
{
    let n = deps.len() as int;
    if p == n - 1 {
        assert(deps.remove(p) =~= deps.drop_last());
    } else {
        let dl = deps.drop_last();
        let t = deps.last();
        assert(deps_ok(srcs, dl, l));
        lemma_xor_all_pick(srcs, dl, l, p);
        // xor_all(deps) == X(X(xor_all(dl.remove(p)), srcs[deps[p]]), srcs[t])
        let base = xor_all(srcs, dl.remove(p), l);
        lemma_xor_all_len(srcs, dl.remove(p), l);
        lemma_xor_bytes_assoc(base, srcs[deps[p] as int], srcs[t as int]);
        lemma_xor_bytes_comm(srcs[deps[p] as int], srcs[t as int]);
        lemma_xor_bytes_assoc(base, srcs[t as int], srcs[deps[p] as int]);
        assert(deps.remove(p).drop_last() =~= dl.remove(p));
        assert(deps.remove(p).last() == t);
    }
}

/// The XOR over a single index is that source symbol itself.
pub proof fn lemma_xor_all_singleton(srcs: Seq<Seq<u8>>, j: usize, l: nat)
    requires
        (j as int) < srcs.len(),
        srcs[j as int].len() == l,
    ensures
        xor_all(srcs, seq![j], l) == srcs[j as int],
{
    let s = seq![j];
    assert(s.drop_last() =~= Seq::<usize>::empty());
    assert(s.last() == j);
    assert(xor_all(srcs, s, l)
        == xor_bytes(xor_all(srcs, s.drop_last(), l), srcs[s.last() as int]));
    assert(xor_all(srcs, s.drop_last(), l) == zero_block(l));
    lemma_xor_bytes_zero(srcs[j as int]);
}

/// XOR over a concatenation splits into the XOR of the two halves.
pub proof fn lemma_xor_all_concat(srcs: Seq<Seq<u8>>, a: Seq<usize>, b: Seq<usize>, l: nat)
    requires
        deps_ok(srcs, a, l),
        deps_ok(srcs, b, l),
    ensures
        xor_all(srcs, a + b, l) == xor_bytes(xor_all(srcs, a, l), xor_all(srcs, b, l)),
    decreases b.len(),
{
    lemma_xor_all_len(srcs, a, l);
    if b.len() == 0 {
        assert(a + b =~= a);
        lemma_xor_bytes_zero(xor_all(srcs, a, l));
    } else {
        let bd = b.drop_last();
        let t = b.last();
        assert(deps_ok(srcs, bd, l));
        lemma_xor_all_concat(srcs, a, bd, l);
        assert((a + b).drop_last() =~= a + bd);
        assert((a + b).last() == t);
        let xa = xor_all(srcs, a, l);
        let xbd = xor_all(srcs, bd, l);
        lemma_xor_all_len(srcs, bd, l);
        lemma_xor_bytes_assoc(xa, xbd, srcs[t as int]);
    }
}

/// The multiset of a concatenation is the sum of the two multisets.
pub proof fn lemma_to_multiset_concat(a: Seq<usize>, b: Seq<usize>)
    ensures
        (a + b).to_multiset() == a.to_multiset().add(b.to_multiset()),
    decreases b.len(),
{
    broadcast use group_to_multiset_ensures;

    if b.len() == 0 {
        assert(a + b =~= a);
        assert(b.to_multiset() =~= Multiset::<usize>::empty());
        assert(a.to_multiset().add(b.to_multiset()) =~= a.to_multiset());
    } else {
        let bd = b.drop_last();
        let t = b.last();
        lemma_to_multiset_concat(a, bd);
        assert(a + b =~= (a + bd).push(t));
        assert(bd.push(t) =~= b);
        assert((a + b).to_multiset() =~= (a + bd).to_multiset().insert(t));
        assert(b.to_multiset() =~= bd.to_multiset().insert(t));
        assert(a.to_multiset().add(bd.to_multiset().insert(t))
            =~= a.to_multiset().add(bd.to_multiset()).insert(t));
    }
}

/// Two lists with the same multiset of indices XOR to the same block.
pub proof fn lemma_xor_all_multiset(srcs: Seq<Seq<u8>>, a: Seq<usize>, b: Seq<usize>, l: nat)
    requires
        a.to_multiset() == b.to_multiset(),
        deps_ok(srcs, a, l),
        deps_ok(srcs, b, l),
    ensures
        xor_all(srcs, a, l) == xor_all(srcs, b, l),
    decreases a.len(),
{
    broadcast use group_to_multiset_ensures;

    if a.len() == 0 {
        assert(a.to_multiset().len() == a.len());
        assert(b.to_multiset().len() == b.len());
        assert(a =~= b);
    } else {
        let t = a.last();
        let n = a.len() as int;
        assert(a.to_multiset().count(t) > 0);
        assert(b.contains(t));
        let p = choose|p: int| 0 <= p < b.len() && b[p] == t;
        lemma_xor_all_pick(srcs, b, l, p);
        assert(a.drop_last() =~= a.remove(n - 1));
        assert(a.remove(n - 1).to_multiset() == a.to_multiset().remove(t));
        assert(b.remove(p).to_multiset() == b.to_multiset().remove(t));
        assert(deps_ok(srcs, a.drop_last(), l));
        assert(deps_ok(srcs, b.remove(p), l)) by {
            assert forall|i: int| 0 <= i < b.remove(p).len()
                implies #[trigger] (b.remove(p)[i] as int) < srcs.len()
                    && srcs[b.remove(p)[i] as int].len() == l
            by {
                if i < p {
                    assert(b.remove(p)[i] == b[i]);
                } else {
                    assert(b.remove(p)[i] == b[i + 1]);
                }
            }
        }
        lemma_xor_all_multiset(srcs, a.drop_last(), b.remove(p), l);
    }
}

/// If two source tables agree on every index the list uses, the XOR agrees.
pub proof fn lemma_xor_all_agree(s1: Seq<Seq<u8>>, s2: Seq<Seq<u8>>, deps: Seq<usize>, l: nat)
    requires
        forall|i: int| 0 <= i < deps.len()
            ==> #[trigger] (deps[i] as int) < s1.len() && (deps[i] as int) < s2.len()
                && s1[deps[i] as int] == s2[deps[i] as int],
    ensures
        xor_all(s1, deps, l) == xor_all(s2, deps, l),
    decreases deps.len(),
{
    if deps.len() > 0 {
        lemma_xor_all_agree(s1, s2, deps.drop_last(), l);
        let n = deps.len() as int;
        assert(deps[n - 1] == deps.last());
    }
}

/// The XOR of two equal-length byte vectors, as a fresh vector.
pub fn xor_vecs(a: &Vec<u8>, b: &Vec<u8>) -> (r: Vec<u8>)
    requires
        a@.len() == b@.len(),
    ensures
        r@ == xor_bytes(a@, b@),
{
    let n = a.len();
    let mut r: Vec<u8> = Vec::new();
    let mut i: usize = 0;
    while i < n
        invariant
            i <= n,
            n == a@.len() == b@.len(),
            r@.len() == i,
            forall|j: int| 0 <= j < i ==> r@[j] == #[trigger] (a@[j] ^ b@[j]),
        decreases n - i,
    {
        r.push(a[i] ^ b[i]);
        i = i + 1;
    }
    assert(r@ =~= xor_bytes(a@, b@));
    r
}

} // verus!
