//! The chained LZ + entropy strategy: tokenize the input with the match
//! finder, then emit the serialized prefix-code tree followed by the
//! bit-packed token stream. The payload decodes back to the input exactly.

use vstd::prelude::*;
use crate::huffman::{build_huffman_tree, codes_concat, decode_huffman, lemma_codes_decode, lemma_parse_ser, parse_node, ser_node, tokens_unapply, HuffmanNode};
use crate::matcher::find_matches;
use crate::outcome::{lift_result, DecodeError};
use crate::token::{copy_back, expand_token, expand_tokens, lemma_expand_tokens_push, lemma_expand_tokens_split, Token};
use crate::util::push_all;
use vstd::bytes::{lemma_auto_spec_u32_to_from_le_bytes, spec_u32_to_le_bytes};
use crate::bits::{bits_of, pad_len};

verus! {

/// What an LZ + entropy payload decodes to: the token stream of
/// [`tokens_unapply`], expanded token by token, with a back-reference that
/// reaches behind the start of the output rejected.
pub open spec fn lz_unapply(b: Seq<u8>) -> Result<Seq<u8>, DecodeError> {
    match tokens_unapply(b) {
        Ok(toks) => expand_tokens(Seq::empty(), toks),
        Err(e) => Err(e),
    }
}

/// Compress `data` with the LZ + entropy chain. The output is laid out as a
/// serialized prefix-code tree, then a token count, then the bit-packed path
/// codes of a token stream that expands to `data`; it decodes back to `data`
/// exactly.
pub fn compress_lz(data: &[u8]) -> (result: Vec<u8>)
    requires
        data@.len() < 0x1_0000_0000,
    ensures
        lz_unapply(result@) == Ok::<_, DecodeError>(data@),
        exists|root: HuffmanNode, toks: Seq<Token>|
            #![trigger ser_node(root), codes_concat(root, toks)]
            {
                &&& expand_tokens(Seq::empty(), toks) == Ok::<_, DecodeError>(data@)
                &&& toks.len() <= data@.len()
                &&& parse_node(result@) == Ok::<_, DecodeError>(
                    (root, ser_node(root).len() as int),
                )
                &&& result@.subrange(
                    ser_node(root).len() as int,
                    ser_node(root).len() as int + 4,
                ) == spec_u32_to_le_bytes(toks.len() as u32)
                &&& bits_of(result@.skip(ser_node(root).len() as int + 4)) == codes_concat(
                    root,
                    toks,
                ) + Seq::new(pad_len(codes_concat(root, toks).len()) as nat, |j: int| false)
            },
{
    let tokens = find_matches(data);
    let tree = build_huffman_tree(tokens.as_slice());
    let mut result = tree.serialize();
    let ghost ser = result@;
    let enc = crate::huffman::encode_tokens(tokens.as_slice(), &tree);
    push_all(&mut result, enc.as_slice());
    proof {
        let used = ser.len() as int;
        lemma_parse_ser(tree.root, enc@);
        assert(result@ =~= ser + enc@);
        assert(parse_node(result@) == Ok::<_, DecodeError>((tree.root, used)));
        assert(enc@.len() >= 4);
        assert(result@.subrange(used, used + 4) =~= enc@.subrange(0, 4));
        lemma_auto_spec_u32_to_from_le_bytes();
        let count = vstd::bytes::spec_u32_from_le_bytes(result@.subrange(used, used + 4));
        assert(count == tokens@.len());
        assert(result@.skip(used + 4) =~= enc@.skip(4));
        let codes = codes_concat(tree.root, tokens@);
        let padding = Seq::new(pad_len(codes.len()) as nat, |j: int| false);
        assert(bits_of(result@.skip(used + 4)) == codes + padding);
        lemma_codes_decode(tree.root, tokens@, padding);
        assert(tokens_unapply(result@) == Ok::<_, DecodeError>(tokens@));
        assert(result@.subrange(used, used + 4) == spec_u32_to_le_bytes(tokens@.len() as u32));
    }
    result
}

/// Decode an LZ + entropy payload: decode the token stream, then expand it,
/// reporting an out-of-range back-reference as an invalid index. Exactly
/// [`lz_unapply`].
pub fn decompress_lz_huffman(data: &[u8]) -> (result: Result<Vec<u8>, DecodeError>)
    ensures
        lift_result(result) == lz_unapply(data@),
{
    let toks = match decode_huffman(data) {
        Ok(t) => t,
        Err(e) => {
            return Err(e);
        },
    };
    let n = toks.len();
    let mut out: Vec<u8> = Vec::new();
    let mut i: usize = 0;
    proof {
        assert(toks@.take(0) =~= Seq::<Token>::empty());
    }
    while i < n
        invariant
            n == toks@.len(),
            i <= n,
            tokens_unapply(data@) == Ok::<_, DecodeError>(toks@),
            expand_tokens(Seq::empty(), toks@.take(i as int)) == Ok::<_, DecodeError>(out@),
        decreases n - i,
    {
        let ghost pre = out@;
        proof {
            lemma_expand_tokens_push(Seq::empty(), toks@.take(i as int), toks@[i as int]);
            assert(toks@.take(i as int).push(toks@[i as int]) =~= toks@.take(i as int + 1));
        }
        match toks[i] {
            Token::Literal(b) => {
                out.push(b);
            },
            Token::Match(o, l) => {
                let o = o as usize;
                let l = l as usize;
                if l > 0 {
                    if o == 0 || o > out.len() {
                        proof {
                            lemma_expand_tokens_split(Seq::empty(), toks@, i as int);
                            assert(toks@.skip(i as int).len() > 0);
                            assert(toks@.skip(i as int)[0] == toks@[i as int]);
                            assert(expand_token(pre, toks@[i as int]) == Err::<Seq<u8>, _>(
                                DecodeError::InvalidIndex,
                            ));
                            assert(expand_tokens(Seq::empty(), toks@) == Err::<Seq<u8>, _>(
                                DecodeError::InvalidIndex,
                            ));
                        }
                        return Err(DecodeError::InvalidIndex);
                    }
                    let start = out.len() - o;
                    let mut j: usize = 0;
                    while j < l
                        invariant
                            j <= l,
                            1 <= o <= pre.len(),
                            start == pre.len() - o,
                            out@.len() == pre.len() + j,
                            copy_back(out@, o as nat, (l - j) as nat) == copy_back(
                                pre,
                                o as nat,
                                l as nat,
                            ),
                        decreases l - j,
                    {
                        let ol = out.len();
                        assert(start + j < ol);
                        let byte = out[start + j];
                        out.push(byte);
                        j = j + 1;
                    }
                    assert(out@ == copy_back(pre, o as nat, l as nat));
                }
            },
        }
        i = i + 1;
    }
    assert(toks@.take(n as int) =~= toks@);
    Ok(out)
}

} // verus!
