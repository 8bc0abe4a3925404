use vstd::prelude::*;

verus! {

/// Failures reported by the decoder side of the codec.
#[derive(Debug, Clone, Copy, PartialEq, Eq, Structural)]
pub enum LzmaError {
    /// The header's properties byte or dictionary size is out of range.
    InvalidHeader,
    /// The first byte of the range-coded payload is not zero.
    InvalidInput,
    /// A decoded distance points before the start of the output or past the dictionary.
    InvalidDistance,
    /// The range decoder reached a state that no encoder can produce.
    CorruptStream,
    /// The input ended before the stream did.
    UnexpectedEof,
}

} // verus!
