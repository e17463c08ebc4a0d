//! Malformed frames report decode errors instead of passing bytes through.

use goud_compressor::bwt::decompress_bwt;
use goud_compressor::chunked::decompress_chunked;
use goud_compressor::config::Algorithm;
use goud_compressor::constants::CHUNKED_FLAG;
use goud_compressor::container::{compress, decompress};
use goud_compressor::lz::decompress_lz_huffman;
use goud_compressor::outcome::DecodeError;
use goud_compressor::rle::decompress_rle;

#[test]
fn empty_frame_is_truncated() {
    assert_eq!(decompress(&[]), Err(DecodeError::TruncatedInput));
}

#[test]
fn unknown_flag_is_an_error() {
    assert_eq!(decompress(&[0x11, 1, 2, 3]), Err(DecodeError::UnknownMethodFlag));
}

/// Truncating a chunked frame below a chunk's declared payload length is
/// reported as truncation, not decoded best-effort.
#[test]
fn truncated_chunk_payload_is_reported() {
    let mut block = Vec::new();
    for i in 0..255usize {
        block.push(((i * i * 31 + i * 7 + 13) % 251) as u8);
    }
    let mut input = Vec::new();
    for r in 0..140usize {
        input.extend_from_slice(&block);
        input.push((r * 17 % 256) as u8);
    }
    let frame = compress(&input, Algorithm::Best);
    assert_eq!(frame[0], CHUNKED_FLAG);
    let cut = &frame[0..frame.len() - 5];
    assert_eq!(decompress(cut), Err(DecodeError::TruncatedInput));
}

#[test]
fn chunked_header_too_short() {
    assert_eq!(decompress_chunked(&[1, 0, 0, 0]), Err(DecodeError::TruncatedInput));
}

#[test]
fn chunked_record_header_too_short() {
    // One declared chunk, but only two bytes where its record should be.
    let payload = [1u8, 0, 0, 0, 9, 0, 0, 0, 5, 1];
    assert_eq!(decompress_chunked(&payload), Err(DecodeError::TruncatedInput));
}

#[test]
fn bwt_bad_index_is_reported() {
    // One (count, value) pair decoding to a single byte, but the stored
    // original-rotation index is far outside the column.
    let payload = [255u8, 255, 255, 255, 1, 65];
    assert_eq!(decompress_bwt(&payload), Err(DecodeError::InvalidIndex));
}

#[test]
fn bwt_odd_pair_bytes_are_truncation() {
    let payload = [0u8, 0, 0, 0, 3, 65, 9];
    assert_eq!(decompress_bwt(&payload), Err(DecodeError::TruncatedInput));
}

#[test]
fn rle_run_marker_without_operands() {
    assert_eq!(decompress_rle(&[0xFF, 5]), Err(DecodeError::TruncatedInput));
    assert_eq!(decompress_rle(&[0xFE, 9, 1]), Err(DecodeError::TruncatedInput));
}

#[test]
fn lz_backreference_behind_start_is_reported() {
    // A single-leaf tree holding Match(5, 3), one token, no bits: the match
    // reaches behind the start of the output.
    let payload = [1u8, 1, 5, 0, 3, 0, 1, 0, 0, 0];
    assert_eq!(decompress_lz_huffman(&payload), Err(DecodeError::InvalidIndex));
}
