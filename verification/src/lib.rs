//! A byte-stream compressor with several reversible strategies (run-length,
//! delta, Burrows-Wheeler + move-to-front, LZ77 + prefix-code entropy coding)
//! and an adaptive chunked orchestrator that chains strategies per chunk and
//! frames the result behind a one-byte method flag.
//!
//! Every decoder is verified against a mathematical description of the frame
//! format, and every encoder is verified to produce bytes that its decoder
//! maps back to the original input.

pub mod constants;
pub mod token;
pub mod outcome;
pub mod util;
pub mod delta;
pub mod rle;
pub mod matcher;
pub mod bits;
pub mod huffman;
pub mod lz;
pub mod bwt;
pub mod chunked;
pub mod config;
pub mod container;
