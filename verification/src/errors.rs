use vstd::prelude::*;

verus! {

/// Why a compression pass, or the setup of one, failed.
#[derive(Clone, Copy, Debug, PartialEq, Eq, Structural)]
pub enum DeflateError {
    /// The code lengths allow no prefix code, or one is above 15 bits.
    HuffmanConstruction,
    /// A match length outside 3..=258 or a distance outside 1..=32768.
    InvalidLengthOrDistance,
    /// A symbol arrived where the block emitter cannot write it.
    InternalInvariant,
}

} // verus!
