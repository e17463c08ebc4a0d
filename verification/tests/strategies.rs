//! The individual strategies: exact encodings, inverses, and the shape of
//! the LZ token stream.

use goud_compressor::bwt::{compress_bwt, decompress_bwt};
use goud_compressor::delta::{compress_delta, decompress_delta};
use goud_compressor::matcher::{find_matches, lz_tokenize};
use goud_compressor::lz::{compress_lz, decompress_lz_huffman};
use goud_compressor::rle::{compress_rle, decompress_rle};
use goud_compressor::token::Token;

/// A run of ten equal bytes becomes one run block, shorter than the run.
#[test]
fn rle_encodes_a_run_of_ten() {
    let input = [0x41u8; 10];
    let out = compress_rle(&input);
    assert_eq!(out, vec![0xFF, 10, 0x41]);
    assert!(out.len() < input.len());
    let back = decompress_rle(&out).unwrap();
    assert_eq!(back, input.to_vec());
}

#[test]
fn rle_round_trips_marker_bytes() {
    let input = [0x12, 0xFF, 0xFE, 0xFF, 0x07, 0x07, 0x07, 0x07, 0x07];
    let out = compress_rle(&input);
    let back = decompress_rle(&out).unwrap();
    assert_eq!(back, input.to_vec());
}

/// The documented delta example: differences wrap modulo 256.
#[test]
fn delta_exact_encoding() {
    let input = [5u8, 7, 6, 6];
    let out = compress_delta(&input);
    assert_eq!(out, vec![5, 2, 255, 0]);
    let back = decompress_delta(&out);
    assert_eq!(back, input.to_vec());
}

#[test]
fn delta_round_trips_empty_and_wrapping() {
    assert_eq!(compress_delta(&[]), Vec::<u8>::new());
    assert_eq!(decompress_delta(&[]), Vec::<u8>::new());
    let input = [0u8, 255, 0, 128, 127];
    let back = decompress_delta(&compress_delta(&input));
    assert_eq!(back, input.to_vec());
}

/// A long repetitive input transforms to something smaller, and the inverse
/// restores it exactly.
#[test]
fn bwt_round_trips_repetitive_input() {
    let mut input = Vec::new();
    for _ in 0..100 {
        input.extend_from_slice(b"ab");
    }
    let out = compress_bwt(&input);
    assert!(out.len() < input.len());
    let back = decompress_bwt(&out).unwrap();
    assert_eq!(back, input);
}

/// Below the transform's minimum size the input comes back unchanged.
#[test]
fn bwt_leaves_short_input_unchanged() {
    let input = b"only forty-two bytes of input, well short".to_vec();
    assert!(input.len() < 64);
    let out = compress_bwt(&input);
    assert_eq!(out, input);
}

#[test]
fn bwt_round_trips_text() {
    let mut input = Vec::new();
    for _ in 0..8 {
        input.extend_from_slice(b"banana bandana banana bandana! ");
    }
    let out = compress_bwt(&input);
    let back = decompress_bwt(&out).unwrap();
    assert_eq!(back, input);
}

/// A repeated 20-byte pattern tokenizes into a stream dominated by matches
/// at offset 20.
#[test]
fn matcher_finds_period_twenty() {
    let pattern: Vec<u8> = (0..20u8).map(|i| i * 7 + 3).collect();
    let mut input = Vec::new();
    for _ in 0..50 {
        input.extend_from_slice(&pattern);
    }
    assert_eq!(input.len(), 1000);
    let tokens = find_matches(&input);
    let mut matched_bytes = 0usize;
    for t in &tokens {
        if let Token::Match(off, len) = t {
            assert_eq!(*off, 20);
            matched_bytes += *len as usize;
        }
    }
    assert!(matched_bytes > 900);
}

#[test]
fn tokenizer_expands_back() {
    let input = b"abcabcabcabcxyz".to_vec();
    let tokens = lz_tokenize(&input);
    let mut out = Vec::new();
    for t in tokens {
        match t {
            Token::Literal(b) => out.push(b),
            Token::Match(off, len) => {
                let start = out.len() - off as usize;
                for j in 0..len as usize {
                    let b = out[start + j];
                    out.push(b);
                }
            },
        }
    }
    assert_eq!(out, input);
}

#[test]
fn lz_round_trips() {
    let cases: Vec<Vec<u8>> = vec![
        Vec::new(),
        vec![7],
        b"mississippi mississippi mississippi".to_vec(),
        (0..500u32).map(|i| (i % 7) as u8).collect(),
    ];
    for input in cases {
        let out = compress_lz(&input);
        let back = decompress_lz_huffman(&out).unwrap();
        assert_eq!(back, input);
    }
}
