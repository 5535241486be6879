//! Splitting a byte string into fixed-size blocks.
//!
//! Callers that frame a larger message for the codec cut it into
//! consecutive blocks of one agreed size; only the last block may fall
//! short.  The contract pins every block to the exact slice of the input
//! it came from, so concatenating the blocks in order gives the input
//! back.

use vstd::prelude::*;
use vstd::arithmetic::div_mod::{lemma_basic_div, lemma_fundamental_div_mod_converse};
use vstd::arithmetic::mul::lemma_mul_is_distributive_add_other_way;

verus! {

/// The end of block `i`: one block further, or the end of the data.
pub open spec fn block_end(len: int, block_size: int, i: int) -> int {
    if (i + 1) * block_size <= len { (i + 1) * block_size } else { len }
}

/// Splits `data` into consecutive blocks of `block_size` bytes each, the
/// last holding whatever remains.  The block count is the rounded-up
/// quotient of the lengths.
pub fn split_into_blocks(data: &Vec<u8>, block_size: usize) -> (r: Vec<Vec<u8>>)
    requires
        block_size >= 1,
    ensures
        r@.len() == (data@.len() + block_size - 1) / (block_size as int),
        forall|i: int| 0 <= i < r@.len()
            ==> (#[trigger] r@[i])@ == data@.subrange(
                i * (block_size as int),
                block_end(data@.len() as int, block_size as int, i),
            ),
{
    let n = data.len();
    let bs = block_size;
    let ghost bsi = bs as int;
    let mut r: Vec<Vec<u8>> = Vec::new();
    let mut start: usize = 0;
    while start < n
        invariant
            bs >= 1,
            bsi == bs as int,
            n == data@.len(),
            start <= n,
            (r@.len() as int) * bsi >= start,
            r@.len() == 0 ==> start == 0,
            r@.len() >= 1 ==> (r@.len() as int) * bsi - bsi < start,
            start < n ==> start == (r@.len() as int) * bsi,
            forall|i: int| 0 <= i < r@.len()
                ==> (#[trigger] r@[i])@ == data@.subrange(i * bsi, block_end(n as int, bsi, i)),
        decreases n - start,
    {
        let ghost c = r@.len() as int;
        let end: usize = if bs < n - start { start + bs } else { n };
        proof {
            lemma_mul_is_distributive_add_other_way(bsi, c, 1);
            assert((c + 1) * bsi == c * bsi + bsi);
        }
        let mut chunk: Vec<u8> = Vec::new();
        let mut p: usize = start;
        while p < end
            invariant
                start <= p <= end <= n,
                n == data@.len(),
                chunk@ == data@.subrange(start as int, p as int),
            decreases end - p,
        {
            proof {
                assert(data@.subrange(start as int, p + 1)
                    =~= data@.subrange(start as int, p as int).push(data@[p as int]));
            }
            chunk.push(data[p]);
            p = p + 1;
        }
        proof {
            assert(chunk@ == data@.subrange(start as int, end as int));
            assert(end as int == block_end(n as int, bsi, c));
        }
        r.push(chunk);
        start = end;
    }
    proof {
        let c = r@.len() as int;
        let ni = n as int;
        if n == 0 {
            // No iterations ran, so no block was pushed.
            if c >= 1 {
                vstd::arithmetic::mul::lemma_mul_inequality(1, c, bsi);
                assert(false);
            }
            lemma_basic_div(bsi - 1, bsi);
        } else {
            // c blocks cover n bytes: (c-1)*bs < n <= c*bs pins the
            // rounded-up quotient.
            assert(c >= 1);
            assert(c * bsi >= ni);
            assert(c * bsi - bsi < ni);
            assert(ni + bsi - 1 == c * bsi + (ni + bsi - 1 - c * bsi));
            assert(0 <= ni + bsi - 1 - c * bsi < bsi);
            lemma_fundamental_div_mod_converse(ni + bsi - 1, bsi, c, ni + bsi - 1 - c * bsi);
            assert(c == (ni + bsi - 1) / bsi);
        }
    }
    r
}

} // verus!
