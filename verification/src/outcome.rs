//! Results shared by the strategies and the framer: the outcome of one
//! compression attempt, and the errors a decoder can report.

use vstd::prelude::*;

verus! {

/// Why a decoder rejected its input.
///
/// Decoding never silently returns encoded bytes as if they were the decoded
/// payload: a malformed frame is reported through one of these.
#[derive(Clone, Copy, Debug, PartialEq, Eq, Structural)]
pub enum DecodeError {
    /// A frame, header or marker promises more bytes than remain.
    TruncatedInput,
    /// A stored index or back-reference points outside the decoded data.
    InvalidIndex,
    /// A frame or chunk method byte (or structural tag) is not recognized.
    UnknownMethodFlag,
}

/// A decoder's executable result, seen through the views of its values, so
/// that it can be compared with the mathematical decoding of the input.
pub open spec fn lift_result<T: View>(r: Result<T, DecodeError>) -> Result<
    <T as View>::V,
    DecodeError,
> {
    match r {
        Ok(v) => Ok(v@),
        Err(e) => Err(e),
    }
}

/// The result of one strategy attempt: either compressed bytes together with
/// the method flag that produced them, or the unchanged input when no
/// strategy beat the raw size.
#[derive(Debug)]
pub enum CompressionResult {
    Compressed(Vec<u8>, u8),
    Uncompressed(Vec<u8>),
}

} // verus!
