//! Error taxonomy of the codec.

use vstd::prelude::*;

verus! {

/// Everything that a call into the codec can report.
///
/// Configuration and length errors surface at the call site; "not enough
/// packets yet" is never an error — the decoder simply stays incomplete.
#[derive(Clone, Copy, Debug, PartialEq, Eq, Structural)]
pub enum LtError {
    /// `k` or the symbol length is zero, `delta` is outside `(0, 1)`,
    /// `c` is not positive, or the degree table degenerated.
    ConfigurationError,
    /// An encoder was built over zero source symbols.
    EmptySource,
    /// A draw was requested with no seed supplied and no seed installed.
    UninitializedPrng,
    /// A source symbol or an incoming payload does not have the agreed length.
    LengthMismatch,
    /// An internal assumption failed; this marks a bug, not a runtime
    /// condition (for instance, a pseudo-random state that never yields
    /// enough distinct residues).
    InternalInvariant,
}

} // verus!
