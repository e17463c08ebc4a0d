//! The entropy coder: tree building, serialization, bit packing, and the
//! decode side of the token stream format.

use goud_compressor::huffman::{build_huffman_tree, decode_huffman, encode_tokens, HuffmanNode};
use goud_compressor::outcome::DecodeError;
use goud_compressor::token::Token;

fn encode_stream(tokens: &[Token]) -> Vec<u8> {
    let tree = build_huffman_tree(tokens);
    let mut payload = tree.serialize();
    payload.extend(encode_tokens(tokens, &tree));
    payload
}

#[test]
fn huffman_round_trips_mixed_tokens() {
    let tokens = vec![
        Token::Literal(1),
        Token::Literal(1),
        Token::Literal(1),
        Token::Literal(2),
        Token::Match(3, 4),
        Token::Literal(1),
        Token::Match(3, 4),
        Token::Match(700, 255),
    ];
    let payload = encode_stream(&tokens);
    let back = decode_huffman(&payload).unwrap();
    assert_eq!(back, tokens);
}

#[test]
fn huffman_round_trips_empty_stream() {
    let tokens: Vec<Token> = Vec::new();
    let payload = encode_stream(&tokens);
    let back = decode_huffman(&payload).unwrap();
    assert_eq!(back, tokens);
}

/// With one distinct token the path code is empty: the stream is the tree
/// plus the count and no bits at all.
#[test]
fn huffman_single_symbol_needs_no_bits() {
    let tokens = vec![Token::Literal(7); 10];
    let tree = build_huffman_tree(&tokens);
    assert!(matches!(tree.root, HuffmanNode::Leaf(Token::Literal(7))));
    let enc = encode_tokens(&tokens, &tree);
    assert_eq!(enc.len(), 4);
    let payload = encode_stream(&tokens);
    let back = decode_huffman(&payload).unwrap();
    assert_eq!(back, tokens);
}

/// Two symbols get one-bit codes: 101 tokens pack into 13 bytes of bits.
#[test]
fn huffman_packs_bits() {
    let mut tokens = vec![Token::Literal(0); 100];
    tokens.push(Token::Literal(1));
    let tree = build_huffman_tree(&tokens);
    let enc = encode_tokens(&tokens, &tree);
    assert_eq!(enc.len(), 4 + 13);
    let payload = encode_stream(&tokens);
    let back = decode_huffman(&payload).unwrap();
    assert_eq!(back, tokens);
}

#[test]
fn empty_stream_is_truncated() {
    assert_eq!(decode_huffman(&[]), Err(DecodeError::TruncatedInput));
}

#[test]
fn bad_tree_tag_is_rejected() {
    assert_eq!(decode_huffman(&[9, 0, 0, 0, 0]), Err(DecodeError::UnknownMethodFlag));
}

#[test]
fn truncated_tree_is_rejected() {
    // An internal node whose left leaf ends before its literal byte.
    assert_eq!(decode_huffman(&[0, 1, 0]), Err(DecodeError::TruncatedInput));
}

#[test]
fn missing_count_is_rejected() {
    // A whole leaf, but no token count after it.
    assert_eq!(decode_huffman(&[1, 0, 42]), Err(DecodeError::TruncatedInput));
}

#[test]
fn missing_bits_are_rejected() {
    // Two leaves want one bit per token, but the bit stream is empty.
    let payload = vec![
        0u8, // internal
        1, 0, 10, // leaf Literal(10)
        1, 0, 20, // leaf Literal(20)
        1, 0, 0, 0, // one token
    ];
    assert_eq!(decode_huffman(&payload), Err(DecodeError::TruncatedInput));
}
