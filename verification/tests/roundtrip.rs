//! Round trips through the container framer, for every algorithm setting.

use goud_compressor::config::Algorithm;
use goud_compressor::constants::{CHUNKED_FLAG, RLE_FLAG, UNCOMPRESSED_FLAG};
use goud_compressor::container::{compress, decompress};

fn all_algorithms() -> Vec<Algorithm> {
    vec![Algorithm::Rle, Algorithm::Delta, Algorithm::Lz, Algorithm::Bwt, Algorithm::Best]
}

fn assert_round_trip(input: &[u8]) {
    for alg in all_algorithms() {
        let frame = compress(input, alg);
        assert!(frame.len() <= input.len() + 1);
        let back = decompress(&frame).expect("a frame the compressor emitted must decode");
        assert_eq!(back, input);
    }
}

#[test]
fn round_trip_empty() {
    assert_round_trip(&[]);
}

#[test]
fn round_trip_single_byte() {
    assert_round_trip(&[0x2A]);
}

#[test]
fn round_trip_short_text() {
    assert_round_trip(b"the quick brown fox jumps over the lazy dog");
}

#[test]
fn round_trip_repetitive() {
    let mut input = Vec::new();
    for _ in 0..100 {
        input.extend_from_slice(b"ab");
    }
    assert_round_trip(&input);
}

#[test]
fn round_trip_mixed() {
    let mut input = Vec::new();
    for i in 0..1000usize {
        if i % 3 == 0 {
            input.push(0x55);
        } else {
            input.push((i * 37 % 251) as u8);
        }
    }
    assert_round_trip(&input);
}

#[test]
fn small_input_is_stored_raw() {
    let input = b"short";
    for alg in all_algorithms() {
        let frame = compress(input, alg);
        assert_eq!(frame[0], UNCOMPRESSED_FLAG);
        assert_eq!(&frame[1..], input);
    }
}

/// High-entropy input of exactly the minimum compressible size: no strategy
/// beats raw storage, so the frame carries the raw flag and decodes to the
/// input unchanged.
#[test]
fn fallback_on_incompressible_input() {
    let mut input = Vec::new();
    for i in 0..64usize {
        input.push(((i * 113 + 47) % 256) as u8);
    }
    assert_eq!(input.len(), 64);
    let frame = compress(&input, Algorithm::Best);
    assert_eq!(frame[0], UNCOMPRESSED_FLAG);
    let back = decompress(&frame).unwrap();
    assert_eq!(back, input);
}

/// Input spanning more than one chunk produces a chunked frame whose
/// decoding equals the original bit for bit.
#[test]
fn chunked_round_trip_over_one_chunk() {
    let mut block = Vec::new();
    for i in 0..255usize {
        block.push(((i * i * 31 + i * 7 + 13) % 251) as u8);
    }
    let mut input = Vec::new();
    for r in 0..140usize {
        input.extend_from_slice(&block);
        input.push((r * 17 % 256) as u8);
    }
    assert!(input.len() > 32 * 1024);
    let frame = compress(&input, Algorithm::Best);
    assert_eq!(frame[0], CHUNKED_FLAG);
    assert!(frame.len() < input.len());
    let back = decompress(&frame).unwrap();
    assert_eq!(back, input);
}

/// The run-length flag is used exactly when the canonical run-length
/// encoding beats the raw size.
#[test]
fn rle_flag_used_when_rle_wins() {
    let input = vec![0x41u8; 100];
    let frame = compress(&input, Algorithm::Rle);
    assert_eq!(frame, vec![RLE_FLAG, 0xFF, 100, 0x41]);
    assert_eq!(decompress(&frame).unwrap(), input);
}

/// Delta coding keeps the length, so the delta algorithm always stores raw.
#[test]
fn delta_always_stores_raw() {
    let input: Vec<u8> = (0..100u32).map(|i| (i % 256) as u8).collect();
    let frame = compress(&input, Algorithm::Delta);
    assert_eq!(frame[0], UNCOMPRESSED_FLAG);
    assert_eq!(&frame[1..], &input[..]);
}
