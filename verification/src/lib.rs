//! A Luby Transform (LT) rateless erasure codec.
//!
//! A sender splits its data into `k` equal-length source symbols and emits an
//! unbounded stream of encoded symbols, each the byte-wise XOR of a
//! pseudo-randomly selected subset of the sources.  A receiver that collects
//! slightly more than `k` of them, in any order, recovers the sources by
//! belief-propagation peeling.  Encoder and decoder share a deterministic
//! pseudo-random generator, so a packet needs to carry only its seed and its
//! payload.
//!
//! All distribution arithmetic is carried out in Q32.32 fixed point, so the
//! degree tables are bit-for-bit reproducible on both sides of the channel.

use vstd::prelude::*;

pub mod chunking;
pub mod decoder;
pub mod encoder;
pub mod errors;
pub mod fixed;
pub mod laws;
pub mod prng;
pub mod xor;

verus! {

/// Default decoding-failure bound `delta` (one half) in Q32.32 fixed point.
pub const DEFAULT_DELTA: u64 = 0x8000_0000;

/// Default robust-soliton constant `c` (one tenth, truncated) in Q32.32
/// fixed point.
pub const DEFAULT_C: u64 = 429496729;

} // verus!
