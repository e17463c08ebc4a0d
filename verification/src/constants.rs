//! Format constants shared by the encoders, the decoders and the framer.

use vstd::prelude::*;

verus! {

/// Maximum backward distance an LZ match may reference.
pub const WINDOW_SIZE: usize = 4096;

/// Shortest run of equal bytes worth emitting as an LZ match.
pub const MIN_MATCH_LEN: usize = 3;

/// Longest LZ match (the length is stored in one byte elsewhere).
pub const MAX_MATCH_LEN: usize = 255;

/// Outer-frame flag: payload is the raw input.
pub const UNCOMPRESSED_FLAG: u8 = 0xAA;

/// Outer-frame flag: payload was produced by the LZ + entropy strategy.
pub const COMPRESSED_FLAG: u8 = 0xBB;

/// Outer-frame flag: payload was produced by the run-length strategy.
pub const RLE_FLAG: u8 = 0xCC;

/// Outer-frame flag: payload was produced by the delta strategy.
pub const DELTA_FLAG: u8 = 0xDD;

/// Outer-frame flag: payload was produced by the Burrows-Wheeler strategy.
pub const BWT_FLAG: u8 = 0xEE;

/// Outer-frame flag: payload is a chunked multi-strategy stream.
pub const CHUNKED_FLAG: u8 = 0xFF;

/// Inputs shorter than this are always stored raw.
pub const MIN_FILE_SIZE: usize = 64;

/// Size of the pieces the chunked orchestrator splits its input into.
pub const CHUNK_SIZE: usize = 32768;

/// Most strategies that may be chained on one chunk.
pub const MAX_METHODS: usize = 3;

} // verus!
