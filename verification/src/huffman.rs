//! The entropy coder: a frequency-ordered binary prefix-code tree over
//! tokens. The tree is serialized structurally (pre-order, with each leaf's
//! token spelled out) and the token stream is emitted as bit-packed
//! root-to-leaf path codes, so decoding can rebuild the same tree and walk
//! it bit by bit.

use vstd::prelude::*;
use std::collections::HashMap;
use crate::bits::{bits_of, byte_bits, get_bit, lemma_bits_of_index, lemma_bits_of_len, lemma_bits_of_push, make_byte, pad_len};
use crate::outcome::{lift_result, DecodeError};
use crate::token::Token;
use crate::util::push_all;
use vstd::bytes::{lemma_auto_spec_u16_to_from_le_bytes, spec_u16_from_le_bytes, spec_u16_to_le_bytes, spec_u32_from_le_bytes, spec_u32_to_le_bytes, u16_from_le_bytes, u16_to_le_bytes, u32_from_le_bytes, u32_to_le_bytes};

verus! {

/// One node of the prefix-code tree: a leaf holding a distinct token, or an
/// internal node with exactly two children.
#[derive(Debug)]
pub enum HuffmanNode {
    Leaf(Token),
    Internal(Box<HuffmanNode>, Box<HuffmanNode>),
}

/// A prefix-code tree, built once per compression call.
#[derive(Debug)]
pub struct HuffmanTree {
    pub root: HuffmanNode,
}

/// One serialized token: a tag byte, then the literal byte or the two
/// little-endian match fields.
pub open spec fn ser_token(tok: Token) -> Seq<u8> {
    match tok {
        Token::Literal(b) => seq![0u8, b],
        Token::Match(o, l) => seq![1u8] + spec_u16_to_le_bytes(o) + spec_u16_to_le_bytes(l),
    }
}

/// A serialized tree node, pre-order: `0` opens an internal node followed by
/// its two children, `1` opens a leaf followed by its token.
pub open spec fn ser_node(t: HuffmanNode) -> Seq<u8>
    decreases t,
{
    match t {
        HuffmanNode::Leaf(tok) => seq![1u8] + ser_token(tok),
        HuffmanNode::Internal(l, r) => seq![0u8] + ser_node(*l) + ser_node(*r),
    }
}

/// Parse one serialized node from the front of `b`, returning it with the
/// number of bytes it occupied. Unrecognized tag bytes are rejected, as is a
/// buffer that ends inside a node.
pub open spec fn parse_node(b: Seq<u8>) -> Result<(HuffmanNode, int), DecodeError>
    decreases b.len(),
{
    if b.len() < 1 {
        Err(DecodeError::TruncatedInput)
    } else if b[0] == 0u8 {
        match parse_node(b.skip(1)) {
            Ok((left, c1)) => {
                if c1 < 1 || 1 + c1 > b.len() {
                    Err(DecodeError::TruncatedInput)
                } else {
                    match parse_node(b.skip(1 + c1)) {
                        Ok((right, c2)) => Ok(
                            (HuffmanNode::Internal(Box::new(left), Box::new(right)), 1 + c1 + c2),
                        ),
                        Err(e) => Err(e),
                    }
                }
            },
            Err(e) => Err(e),
        }
    } else if b[0] == 1u8 {
        if b.len() < 2 {
            Err(DecodeError::TruncatedInput)
        } else if b[1] == 0u8 {
            if b.len() < 3 {
                Err(DecodeError::TruncatedInput)
            } else {
                Ok((HuffmanNode::Leaf(Token::Literal(b[2])), 3))
            }
        } else if b[1] == 1u8 {
            if b.len() < 6 {
                Err(DecodeError::TruncatedInput)
            } else {
                Ok(
                    (
                        HuffmanNode::Leaf(
                            Token::Match(
                                spec_u16_from_le_bytes(b.subrange(2, 4)),
                                spec_u16_from_le_bytes(b.subrange(4, 6)),
                            ),
                        ),
                        6,
                    ),
                )
            }
        } else {
            Err(DecodeError::UnknownMethodFlag)
        }
    } else {
        Err(DecodeError::UnknownMethodFlag)
    }
}

pub proof fn lemma_ser_node_len(t: HuffmanNode)
    ensures
        ser_node(t).len() >= 3,
    decreases t,
{
    match t {
        HuffmanNode::Leaf(tok) => {
            lemma_auto_spec_u16_to_from_le_bytes();
        },
        HuffmanNode::Internal(l, r) => {
            lemma_ser_node_len(*l);
            lemma_ser_node_len(*r);
        },
    }
}

/// Parsing inverts serialization: a serialized node followed by anything
/// parses back to that node, consuming exactly its bytes.
pub proof fn lemma_parse_ser(t: HuffmanNode, rest: Seq<u8>)
    ensures
        parse_node(ser_node(t) + rest) == Ok::<_, DecodeError>((t, ser_node(t).len() as int)),
    decreases t,
{
    lemma_ser_node_len(t);
    let full = ser_node(t) + rest;
    match t {
        HuffmanNode::Leaf(tok) => {
            match tok {
                Token::Literal(bb) => {
                    assert(ser_node(t) =~= seq![1u8, 0u8, bb]);
                    assert(full[0] == 1u8 && full[1] == 0u8 && full[2] == bb);
                    assert(full.len() >= 3);
                },
                Token::Match(o, l) => {
                    lemma_auto_spec_u16_to_from_le_bytes();
                    assert(ser_node(t) =~= seq![1u8, 1u8] + spec_u16_to_le_bytes(o)
                        + spec_u16_to_le_bytes(l));
                    assert(full[0] == 1u8 && full[1] == 1u8);
                    assert(full.len() >= 6);
                    assert(full.subrange(2, 4) =~= spec_u16_to_le_bytes(o));
                    assert(full.subrange(4, 6) =~= spec_u16_to_le_bytes(l));
                    assert(ser_node(t).len() == 6);
                },
            }
        },
        HuffmanNode::Internal(l, r) => {
            lemma_ser_node_len(*l);
            lemma_ser_node_len(*r);
            assert(full[0] == 0u8);
            let sl = ser_node(*l);
            let sr = ser_node(*r);
            assert(ser_node(t) == seq![0u8] + sl + sr);
            assert(full.skip(1) =~= sl + (sr + rest));
            lemma_parse_ser(*l, sr + rest);
            let c1 = sl.len() as int;
            assert(1 + c1 <= full.len());
            assert(full.skip(1 + c1) =~= sr + rest);
            lemma_parse_ser(*r, rest);
            assert(ser_node(t).len() == 1 + sl.len() + sr.len());
        },
    }
}

/// The root-to-leaf path code of `tok` in `t` (`false` = left), or `None`
/// when no leaf holds it; with duplicate leaves the leftmost wins.
pub open spec fn code_of(t: HuffmanNode, tok: Token) -> Option<Seq<bool>>
    decreases t,
{
    match t {
        HuffmanNode::Leaf(tk) => if tk == tok {
            Some(Seq::empty())
        } else {
            None
        },
        HuffmanNode::Internal(l, r) => match code_of(*l, tok) {
            Some(c) => Some(seq![false] + c),
            None => match code_of(*r, tok) {
                Some(c) => Some(seq![true] + c),
                None => None,
            },
        },
    }
}

/// Walk `t` from the root along `bits` until a leaf: the decoded token and
/// the number of bits consumed. Running out of bits mid-walk is truncation.
pub open spec fn decode_sym(t: HuffmanNode, bits: Seq<bool>) -> Result<(Token, int), DecodeError>
    decreases t,
{
    match t {
        HuffmanNode::Leaf(tk) => Ok((tk, 0)),
        HuffmanNode::Internal(l, r) => {
            if bits.len() == 0 {
                Err(DecodeError::TruncatedInput)
            } else if !bits[0] {
                match decode_sym(*l, bits.drop_first()) {
                    Ok((tk, c)) => Ok((tk, 1 + c)),
                    Err(e) => Err(e),
                }
            } else {
                match decode_sym(*r, bits.drop_first()) {
                    Ok((tk, c)) => Ok((tk, 1 + c)),
                    Err(e) => Err(e),
                }
            }
        },
    }
}

/// Walking a token's own path code reaches that token, consuming exactly the
/// code, whatever follows.
pub proof fn lemma_code_decodes(t: HuffmanNode, tok: Token, rest: Seq<bool>)
    requires
        code_of(t, tok) is Some,
    ensures
        0 <= code_of(t, tok)->Some_0.len(),
        decode_sym(t, code_of(t, tok)->Some_0 + rest) == Ok::<_, DecodeError>(
            (tok, code_of(t, tok)->Some_0.len() as int),
        ),
    decreases t,
{
    match t {
        HuffmanNode::Leaf(tk) => {
            assert(code_of(t, tok)->Some_0 + rest =~= rest);
        },
        HuffmanNode::Internal(l, r) => {
            match code_of(*l, tok) {
                Some(c) => {
                    let full = code_of(t, tok)->Some_0 + rest;
                    assert(full[0] == false);
                    assert(full.drop_first() =~= c + rest);
                    lemma_code_decodes(*l, tok, rest);
                },
                None => {
                    let c = code_of(*r, tok)->Some_0;
                    let full = code_of(t, tok)->Some_0 + rest;
                    assert(full[0] == true);
                    assert(full.drop_first() =~= c + rest);
                    lemma_code_decodes(*r, tok, rest);
                },
            }
        },
    }
}

/// The concatenated path codes of a whole token stream.
pub open spec fn codes_concat(t: HuffmanNode, toks: Seq<Token>) -> Seq<bool>
    decreases toks.len(),
{
    if toks.len() == 0 {
        Seq::empty()
    } else {
        code_of(t, toks[0])->Some_0 + codes_concat(t, toks.drop_first())
    }
}

pub proof fn lemma_codes_concat_push(t: HuffmanNode, toks: Seq<Token>, tok: Token)
    ensures
        codes_concat(t, toks.push(tok)) == codes_concat(t, toks) + code_of(t, tok)->Some_0,
    decreases toks.len(),
{
    let pushed = toks.push(tok);
    if toks.len() == 0 {
        assert(pushed[0] == tok);
        assert(pushed.drop_first() =~= Seq::<Token>::empty());
        assert(codes_concat(t, pushed.drop_first()) =~= Seq::<bool>::empty());
        assert(codes_concat(t, pushed) =~= codes_concat(t, toks) + code_of(t, tok)->Some_0);
    } else {
        assert(pushed[0] == toks[0]);
        assert(pushed.drop_first() =~= toks.drop_first().push(tok));
        lemma_codes_concat_push(t, toks.drop_first(), tok);
        assert(codes_concat(t, pushed) =~= codes_concat(t, toks) + code_of(t, tok)->Some_0);
    }
}

/// Decode `count` tokens from `bits` by repeated walks from the root.
pub open spec fn decode_syms(t: HuffmanNode, bits: Seq<bool>, count: nat) -> Result<
    Seq<Token>,
    DecodeError,
>
    decreases count,
{
    if count == 0 {
        Ok(Seq::empty())
    } else {
        match decode_sym(t, bits) {
            Ok((tk, c)) => {
                if c < 0 || c > bits.len() {
                    Err(DecodeError::TruncatedInput)
                } else {
                    match decode_syms(t, bits.skip(c), (count - 1) as nat) {
                        Ok(rest) => Ok(seq![tk] + rest),
                        Err(e) => Err(e),
                    }
                }
            },
            Err(e) => Err(e),
        }
    }
}

/// Decoding the concatenated codes of a token stream, with anything after
/// them, yields back exactly that stream.
pub proof fn lemma_codes_decode(t: HuffmanNode, toks: Seq<Token>, extra: Seq<bool>)
    requires
        forall|k: int| 0 <= k < toks.len() ==> code_of(t, #[trigger] toks[k]) is Some,
    ensures
        decode_syms(t, codes_concat(t, toks) + extra, toks.len() as nat) == Ok::<_, DecodeError>(
            toks,
        ),
    decreases toks.len(),
{
    if toks.len() == 0 {
        assert(decode_syms(t, codes_concat(t, toks) + extra, 0) == Ok::<_, DecodeError>(
            Seq::<Token>::empty(),
        ));
        assert(toks =~= Seq::<Token>::empty());
    } else {
        let c0 = code_of(t, toks[0])->Some_0;
        let restc = codes_concat(t, toks.drop_first());
        let bits = codes_concat(t, toks) + extra;
        assert(bits =~= c0 + (restc + extra));
        lemma_code_decodes(t, toks[0], restc + extra);
        assert(decode_sym(t, bits) == Ok::<_, DecodeError>((toks[0], c0.len() as int)));
        assert(bits.skip(c0.len() as int) =~= restc + extra);
        assert(forall|k: int|
            0 <= k < toks.drop_first().len() ==> code_of(t, #[trigger] toks.drop_first()[k])
                is Some);
        lemma_codes_decode(t, toks.drop_first(), extra);
        assert(seq![toks[0]] + toks.drop_first() =~= toks);
    }
}

/// What a serialized tree plus a counted, bit-packed code stream decodes to:
/// the token stream the encoder started from.
pub open spec fn tokens_unapply(b: Seq<u8>) -> Result<Seq<Token>, DecodeError> {
    match parse_node(b) {
        Ok((root, used)) => {
            if used < 0 || used + 4 > b.len() {
                Err(DecodeError::TruncatedInput)
            } else {
                let count = spec_u32_from_le_bytes(b.subrange(used, used + 4));
                decode_syms(root, bits_of(b.skip(used + 4)), count as nat)
            }
        },
        Err(e) => Err(e),
    }
}

} // verus!

verus! {

/// Serialize one node onto `out`, pre-order.
fn ser_node_exec(node: &HuffmanNode, out: &mut Vec<u8>)
    ensures
        final(out)@ == old(out)@ + ser_node(*node),
    decreases *node,
{
    match node {
        HuffmanNode::Leaf(tok) => {
            out.push(1u8);
            match tok {
                Token::Literal(b) => {
                    out.push(0u8);
                    out.push(*b);
                    assert(final(out)@ =~= old(out)@ + ser_node(*node));
                },
                Token::Match(o, l) => {
                    out.push(1u8);
                    let ob = u16_to_le_bytes(*o);
                    push_all(out, ob.as_slice());
                    let lb = u16_to_le_bytes(*l);
                    push_all(out, lb.as_slice());
                    assert(final(out)@ =~= old(out)@ + ser_node(*node));
                },
            }
        },
        HuffmanNode::Internal(l, r) => {
            out.push(0u8);
            let ghost mid0 = out@;
            ser_node_exec(l, out);
            ser_node_exec(r, out);
            assert(final(out)@ =~= old(out)@ + ser_node(*node));
        },
    }
}

impl HuffmanTree {
    /// Serialize the whole tree: shape plus per-leaf tokens, enough to
    /// rebuild the same tree on decode.
    pub fn serialize(&self) -> (result: Vec<u8>)
        ensures
            result@ == ser_node(self.root),
    {
        let mut out: Vec<u8> = Vec::new();
        ser_node_exec(&self.root, &mut out);
        assert(out@ =~= ser_node(self.root));
        out
    }
}

/// The key under which a token is counted: injective, so two tokens collide
/// exactly when they are equal.
pub open spec fn token_key_spec(t: Token) -> u64 {
    match t {
        Token::Literal(b) => b as u64,
        Token::Match(o, l) => (0x1_0000_0000 + (o as int) * 0x1_0000 + (l as int)) as u64,
    }
}

proof fn lemma_token_key_injective(t1: Token, t2: Token)
    requires
        token_key_spec(t1) == token_key_spec(t2),
    ensures
        t1 == t2,
{
    match (t1, t2) {
        (Token::Match(o1, l1), Token::Match(o2, l2)) => {
            assert(o1 == o2 && l1 == l2) by (nonlinear_arith)
                requires
                    (o1 as u64) * 0x1_0000 + (l1 as u64) == (o2 as u64) * 0x1_0000 + (l2 as u64),
                    l1 < 0x1_0000,
                    l2 < 0x1_0000,
            ;
        },
        _ => {},
    }
}

fn token_key(t: Token) -> (k: u64)
    ensures
        k == token_key_spec(t),
{
    match t {
        Token::Literal(b) => b as u64,
        Token::Match(o, l) => 0x1_0000_0000u64 + (o as u64) * 0x1_0000u64 + (l as u64),
    }
}

/// Remove the first lowest-frequency node (so ties keep their earlier,
/// insertion-order position); every other node stays, and every kept node
/// was already there.
fn remove_min(nodes: &mut Vec<(u64, HuffmanNode)>) -> (r: (u64, HuffmanNode))
    requires
        old(nodes)@.len() >= 1,
    ensures
        final(nodes)@.len() == old(nodes)@.len() - 1,
        forall|m: int|
            0 <= m < old(nodes)@.len() ==> (#[trigger] old(nodes)@[m] == r || exists|m2: int|
                0 <= m2 < final(nodes)@.len() && final(nodes)@[m2] == old(nodes)@[m]),
        forall|m2: int|
            0 <= m2 < final(nodes)@.len() ==> exists|m: int|
                0 <= m < old(nodes)@.len() && old(nodes)@[m] == #[trigger] final(nodes)@[m2],
        forall|m: int| 0 <= m < old(nodes)@.len() ==> r.0 <= (#[trigger] old(nodes)@[m]).0,
        exists|mi: int|
            {
                &&& 0 <= mi < old(nodes)@.len()
                &&& #[trigger] old(nodes)@[mi] == r
                &&& forall|m: int| 0 <= m < mi ==> (#[trigger] old(nodes)@[m]).0 > r.0
            },
{
    let mut mi: usize = 0;
    let mut j: usize = 1;
    while j < nodes.len()
        invariant
            nodes@.len() >= 1,
            mi < nodes@.len(),
            mi < j || mi == 0,
            j <= nodes@.len(),
            forall|m: int| 0 <= m < j ==> nodes@[mi as int].0 <= (#[trigger] nodes@[m]).0,
            forall|m: int| 0 <= m < mi ==> (#[trigger] nodes@[m]).0 > nodes@[mi as int].0,
        decreases nodes@.len() - j,
    {
        if nodes[j].0 < nodes[mi].0 {
            mi = j;
        }
        j = j + 1;
    }
    let r = nodes.swap_remove(mi);
    proof {
        assert forall|m: int| 0 <= m < old(nodes)@.len() implies (#[trigger] old(nodes)@[m] == r
            || exists|m2: int|
            0 <= m2 < nodes@.len() && nodes@[m2] == old(nodes)@[m]) by {
            if m != mi {
                if m < nodes@.len() && m != mi {
                    assert(nodes@[m] == old(nodes)@[m]);
                } else {
                    assert(nodes@[mi as int] == old(nodes)@[old(nodes)@.len() - 1]);
                }
            }
        }
    }
    r
}

/// Build the prefix-code tree: count each distinct token's frequency in
/// first-occurrence order, then repeatedly merge the two lowest-frequency
/// nodes (ties broken by scan order) until one root remains. An empty token
/// stream yields a single-leaf placeholder. Every token of the input has a
/// path code in the returned tree.
#[verifier::rlimit(100)]
pub fn build_huffman_tree(tokens: &[Token]) -> (tree: HuffmanTree)
    ensures
        tokens@.len() == 0 ==> tree.root == HuffmanNode::Leaf(Token::Literal(0)),
        forall|k: int| 0 <= k < tokens@.len() ==> code_of(tree.root, #[trigger] tokens@[k]) is Some,
        forall|tok: Token|
            #![trigger code_of(tree.root, tok)]
            tokens@.len() > 0 ==> (code_of(tree.root, tok) is Some <==> tokens@.contains(tok)),
{
    let n = tokens.len();
    let mut freqs: Vec<(Token, u64)> = Vec::new();
    let mut index: HashMap<u64, usize> = HashMap::new();
    let mut i: usize = 0;
    while i < n
        invariant
            n == tokens@.len(),
            i <= n,
            freqs@.len() <= i,
            forall|j: int| 0 <= j < freqs@.len() ==> tokens@.contains((#[trigger] freqs@[j]).0),
            forall|kk: u64|
                #[trigger] index@.contains_key(kk) ==> index@[kk] < freqs@.len()
                    && token_key_spec(freqs@[index@[kk] as int].0) == kk,
            forall|q: int|
                0 <= q < i ==> exists|j: int|
                    0 <= j < freqs@.len() && (#[trigger] freqs@[j]).0 == #[trigger] tokens@[q],
        decreases n - i,
    {
        let tok = tokens[i];
        let k = token_key(tok);
        let found = match index.get(&k) {
            Some(j) => Some(*j),
            None => None,
        };
        let ghost pre = freqs@;
        match found {
            Some(j) => {
                proof {
                    lemma_token_key_injective(freqs@[j as int].0, tok);
                }
                let c = freqs[j].1;
                let c2 = if c == u64::MAX {
                    c
                } else {
                    c + 1
                };
                freqs.set(j, (tok, c2));
                proof {
                    assert(tokens@[i as int] == tok);
                    assert(tokens@.contains(tok));
                    assert(freqs@[j as int].0 == pre[j as int].0);
                    assert forall|q: int| 0 <= q < i + 1 implies exists|jj: int|
                        0 <= jj < freqs@.len() && (#[trigger] freqs@[jj]).0 == #[trigger] tokens@[q] by {
                        if q < i {
                            let w = choose|w: int|
                                0 <= w < pre.len() && (#[trigger] pre[w]).0 == tokens@[q];
                            assert(freqs@[w].0 == pre[w].0);
                        } else {
                            assert(freqs@[j as int].0 == tokens@[q]);
                        }
                    }
                }
            },
            None => {
                index.insert(k, freqs.len());
                freqs.push((tok, 1));
                proof {
                    assert(tokens@[i as int] == tok);
                    assert(tokens@.contains(tok));
                    assert forall|q: int| 0 <= q < i + 1 implies exists|jj: int|
                        0 <= jj < freqs@.len() && (#[trigger] freqs@[jj]).0 == #[trigger] tokens@[q] by {
                        if q < i {
                            let w = choose|w: int|
                                0 <= w < pre.len() && (#[trigger] pre[w]).0 == tokens@[q];
                            assert(freqs@[w].0 == pre[w].0);
                        } else {
                            assert(freqs@[freqs@.len() - 1].0 == tokens@[q]);
                        }
                    }
                }
            },
        }
        i = i + 1;
    }
    let mut nodes: Vec<(u64, HuffmanNode)> = Vec::new();
    let mut j: usize = 0;
    while j < freqs.len()
        invariant
            j <= freqs@.len(),
            nodes@.len() == j,
            forall|q: int| 0 <= q < freqs@.len() ==> tokens@.contains((#[trigger] freqs@[q]).0),
            forall|m: int|
                0 <= m < j ==> #[trigger] nodes@[m] == (
                freqs@[m].1,
                HuffmanNode::Leaf(freqs@[m].0),
                ),
            forall|m: int, tok: Token|
                #![trigger code_of(nodes@[m].1, tok)]
                0 <= m < j && code_of(nodes@[m].1, tok) is Some ==> tokens@.contains(tok),
        decreases freqs@.len() - j,
    {
        nodes.push((freqs[j].1, HuffmanNode::Leaf(freqs[j].0)));
        j = j + 1;
    }
    proof {
        assert forall|q: int| #![trigger tokens@[q]] 0 <= q < tokens@.len() implies exists|m: int|
            0 <= m < nodes@.len() && code_of((#[trigger] nodes@[m]).1, tokens@[q]) is Some by {
            let jj = choose|jj: int| 0 <= jj < freqs@.len() && (#[trigger] freqs@[jj]).0
                == tokens@[q];
            assert(nodes@[jj].1 == HuffmanNode::Leaf(tokens@[q]));
            assert(code_of(nodes@[jj].1, tokens@[q]) is Some);
        }
    }
    if nodes.len() == 0 {
        proof {
            if tokens@.len() > 0 {
                let t0 = tokens@[0];
                assert(exists|m: int|
                    0 <= m < nodes@.len() && code_of((#[trigger] nodes@[m]).1, tokens@[0])
                        is Some);
                assert(false);
            }
        }
        return HuffmanTree { root: HuffmanNode::Leaf(Token::Literal(0)) };
    }
    while nodes.len() > 1
        invariant
            nodes@.len() >= 1,
            forall|q: int|
                #![trigger tokens@[q]]
                0 <= q < tokens@.len() ==> exists|m: int|
                    0 <= m < nodes@.len() && code_of((#[trigger] nodes@[m]).1, tokens@[q]) is Some,
            forall|m: int, tok: Token|
                #![trigger code_of(nodes@[m].1, tok)]
                0 <= m < nodes@.len() && code_of(nodes@[m].1, tok) is Some ==> tokens@.contains(
                    tok,
                ),
        decreases nodes@.len(),
    {
        let ghost before = nodes@;
        let a = remove_min(&mut nodes);
        let ghost mid = nodes@;
        let b = remove_min(&mut nodes);
        let ghost after = nodes@;
        let f = if u64::MAX - a.0 < b.0 {
            u64::MAX
        } else {
            a.0 + b.0
        };
        let merged = HuffmanNode::Internal(Box::new(a.1), Box::new(b.1));
        nodes.push((f, merged));
        proof {
            assert forall|m: int, tok: Token|
                #![trigger code_of(nodes@[m].1, tok)]
                0 <= m < nodes@.len() && code_of(nodes@[m].1, tok) is Some implies tokens@.contains(
                tok,
            ) by {
                if m == nodes@.len() - 1 {
                    assert(nodes@[m].1 == merged);
                    assert(code_of(a.1, tok) is Some || code_of(b.1, tok) is Some);
                    let ma = choose|ma: int| 0 <= ma < before.len() && before[ma] == a;
                    let mb0 = choose|mb0: int| 0 <= mb0 < mid.len() && mid[mb0] == b;
                    let mb = choose|mb: int| 0 <= mb < before.len() && before[mb] == mid[mb0];
                    assert(code_of(before[ma].1, tok) is Some || code_of(before[mb].1, tok)
                        is Some);
                } else {
                    assert(nodes@[m] == after[m]);
                    let m1 = choose|m1: int| 0 <= m1 < mid.len() && mid[m1] == after[m];
                    let m0 = choose|m0: int| 0 <= m0 < before.len() && before[m0] == mid[m1];
                    assert(code_of(before[m0].1, tok) is Some);
                }
            }
            assert forall|q: int| #![trigger tokens@[q]] 0 <= q < tokens@.len() implies exists|m: int|
                0 <= m < nodes@.len() && code_of((#[trigger] nodes@[m]).1, tokens@[q]) is Some by {
                let m0 = choose|m0: int|
                    0 <= m0 < before.len() && code_of((#[trigger] before[m0]).1, tokens@[q])
                        is Some;
                if code_of(a.1, tokens@[q]) is Some || code_of(b.1, tokens@[q]) is Some {
                    assert(code_of(merged, tokens@[q]) is Some);
                    assert(nodes@[nodes@.len() - 1].1 == merged);
                } else {
                    let m1 = choose|m1: int| 0 <= m1 < mid.len() && mid[m1] == before[m0];
                    let m2 = choose|m2: int| 0 <= m2 < after.len() && after[m2] == mid[m1];
                    assert(nodes@[m2] == after[m2]);
                }
            }
        }
    }
    let ghost final_nodes = nodes@;
    let root_pair = match nodes.pop() {
        Some(p) => p,
        None => {
            proof {
                assert(false);
            }
            (0, HuffmanNode::Leaf(Token::Literal(0)))
        },
    };
    proof {
        assert(final_nodes.len() == 1);
        assert(root_pair == final_nodes[0]);
        assert forall|tok: Token| #![trigger code_of(root_pair.1, tok)] tokens@.len() > 0 implies (
        code_of(root_pair.1, tok) is Some <==> tokens@.contains(tok)) by {
            if code_of(root_pair.1, tok) is Some {
                assert(code_of(final_nodes[0].1, tok) is Some);
                assert(tokens@.contains(tok));
            }
            if tokens@.contains(tok) {
                let q = choose|q: int| 0 <= q < tokens@.len() && tokens@[q] == tok;
                assert(tokens@[q] == tok);
                let m = choose|m: int|
                    0 <= m < final_nodes.len() && code_of(
                        (#[trigger] final_nodes[m]).1,
                        tokens@[q],
                    ) is Some;
                assert(m == 0);
            }
        }
    }
    HuffmanTree { root: root_pair.1 }
}

} // verus!

verus! {

/// Append `tok`'s path code in `node` to `bits`; whether a leaf held it.
fn append_code(node: &HuffmanNode, tok: Token, bits: &mut Vec<bool>) -> (found: bool)
    ensures
        found == (code_of(*node, tok) is Some),
        found ==> final(bits)@ == old(bits)@ + code_of(*node, tok)->Some_0,
        !found ==> final(bits)@ == old(bits)@,
    decreases *node,
{
    match node {
        HuffmanNode::Leaf(tk) => {
            if *tk == tok {
                assert(bits@ =~= old(bits)@ + code_of(*node, tok)->Some_0);
                true
            } else {
                false
            }
        },
        HuffmanNode::Internal(l, r) => {
            bits.push(false);
            if append_code(l, tok, bits) {
                proof {
                    let c = code_of(**l, tok)->Some_0;
                    assert(old(bits)@.push(false) + c =~= old(bits)@ + (seq![false] + c));
                }
                return true;
            }
            bits.pop();
            assert(bits@ =~= old(bits)@);
            bits.push(true);
            if append_code(r, tok, bits) {
                proof {
                    let c = code_of(**r, tok)->Some_0;
                    assert(old(bits)@.push(true) + c =~= old(bits)@ + (seq![true] + c));
                }
                return true;
            }
            bits.pop();
            assert(bits@ =~= old(bits)@);
            false
        },
    }
}

/// Encode a token stream against `tree`: a four-byte little-endian token
/// count, then the bit-packed concatenation of each token's path code,
/// padded to a whole byte with zero bits.
pub fn encode_tokens(tokens: &[Token], tree: &HuffmanTree) -> (result: Vec<u8>)
    requires
        tokens@.len() < 0x1_0000_0000,
        forall|k: int| 0 <= k < tokens@.len() ==> code_of(tree.root, #[trigger] tokens@[k]) is Some,
    ensures
        result@.len() >= 4,
        result@.subrange(0, 4) == spec_u32_to_le_bytes(tokens@.len() as u32),
        bits_of(result@.skip(4)) == codes_concat(tree.root, tokens@) + Seq::new(
            pad_len(codes_concat(tree.root, tokens@).len()) as nat,
            |j: int| false,
        ),
{
    let n = tokens.len();
    let mut bitsvec: Vec<bool> = Vec::new();
    let mut i: usize = 0;
    proof {
        assert(tokens@.subrange(0, 0) =~= Seq::<Token>::empty());
    }
    while i < n
        invariant
            n == tokens@.len(),
            i <= n,
            forall|k: int|
                0 <= k < tokens@.len() ==> code_of(tree.root, #[trigger] tokens@[k]) is Some,
            bitsvec@ == codes_concat(tree.root, tokens@.subrange(0, i as int)),
        decreases n - i,
    {
        let tok = tokens[i];
        let found = append_code(&tree.root, tok, &mut bitsvec);
        assert(found);
        proof {
            lemma_codes_concat_push(tree.root, tokens@.subrange(0, i as int), tok);
            assert(tokens@.subrange(0, i as int).push(tok) =~= tokens@.subrange(0, i as int + 1));
        }
        i = i + 1;
    }
    assert(tokens@.subrange(0, n as int) =~= tokens@);
    let ghost codes = codes_concat(tree.root, tokens@);
    assert(bitsvec@ == codes);
    let count32 = n as u32;
    let mut result = u32_to_le_bytes(count32);
    assert(result@.subrange(0, 4) =~= spec_u32_to_le_bytes(count32));
    let total = bitsvec.len();
    let mut pos: usize = 0;
    proof {
        assert(result@.skip(4) =~= Seq::<u8>::empty());
        assert(bits_of(result@.skip(4)) =~= codes.subrange(0, 0));
    }
    while total - pos >= 8
        invariant
            total == bitsvec@.len(),
            bitsvec@ == codes,
            pos <= total,
            pos % 8 == 0,
            result@.len() == 4 + pos / 8,
            result@.subrange(0, 4) == spec_u32_to_le_bytes(count32),
            bits_of(result@.skip(4)) == codes.subrange(0, pos as int),
        decreases total - pos,
    {
        let b = make_byte(&bitsvec, pos);
        proof {
            assert(byte_bits(b) =~= codes.subrange(pos as int, pos as int + 8));
            lemma_bits_of_push(result@.skip(4), b);
            assert(result@.push(b).skip(4) =~= result@.skip(4).push(b));
            assert(codes.subrange(0, pos as int) + codes.subrange(pos as int, pos as int + 8)
                =~= codes.subrange(0, pos as int + 8));
        }
        result.push(b);
        pos = pos + 8;
    }
    if pos < total {
        let b = make_byte(&bitsvec, pos);
        proof {
            lemma_bits_of_push(result@.skip(4), b);
            assert(result@.push(b).skip(4) =~= result@.skip(4).push(b));
            assert(codes.subrange(0, pos as int) + (codes.subrange(pos as int, total as int)
                + Seq::new(((pos + 8) - total) as nat, |j: int| false)) =~= codes + Seq::new(
                ((pos + 8) - total) as nat,
                |j: int| false,
            ));
            assert(codes.len() % 8 == total - pos);
            assert(pad_len(codes.len() as nat) == (pos + 8) - total);
        }
        result.push(b);
    } else {
        proof {
            assert(codes.subrange(0, total as int) =~= codes);
            assert(codes.len() % 8 == 0);
            assert(pad_len(codes.len() as nat) == 0);
            assert(codes + Seq::new(0nat, |j: int| false) =~= codes);
        }
    }
    result
}

} // verus!

verus! {

/// Parse one serialized node starting at `pos`: exactly [`parse_node`] on
/// the remaining bytes, returning the position just past the node.
fn parse_node_exec(data: &[u8], pos: usize) -> (r: Result<(HuffmanNode, usize), DecodeError>)
    requires
        pos <= data@.len(),
    ensures
        match r {
            Ok(p) => pos + 3 <= p.1 <= data@.len() && parse_node(data@.skip(pos as int)) == Ok::<
                _,
                DecodeError,
            >((p.0, p.1 - pos)),
            Err(e) => parse_node(data@.skip(pos as int)) == Err::<(HuffmanNode, int), _>(e),
        },
    decreases data@.len() - pos,
{
    let ghost tail = data@.skip(pos as int);
    if data.len() - pos < 1 {
        return Err(DecodeError::TruncatedInput);
    }
    let tag = data[pos];
    assert(tail[0] == tag);
    if tag == 0u8 {
        proof {
            assert(tail.skip(1) =~= data@.skip(pos as int + 1));
        }
        match parse_node_exec(data, pos + 1) {
            Ok((left, p1)) => {
                proof {
                    assert(tail.skip(1 + (p1 - pos - 1)) =~= data@.skip(p1 as int));
                }
                match parse_node_exec(data, p1) {
                    Ok((right, p2)) => {
                        Ok((HuffmanNode::Internal(Box::new(left), Box::new(right)), p2))
                    },
                    Err(e) => Err(e),
                }
            },
            Err(e) => Err(e),
        }
    } else if tag == 1u8 {
        if data.len() - pos < 2 {
            return Err(DecodeError::TruncatedInput);
        }
        let tag2 = data[pos + 1];
        assert(tail[1] == tag2);
        if tag2 == 0u8 {
            if data.len() - pos < 3 {
                return Err(DecodeError::TruncatedInput);
            }
            assert(tail[2] == data@[pos as int + 2]);
            Ok((HuffmanNode::Leaf(Token::Literal(data[pos + 2])), pos + 3))
        } else if tag2 == 1u8 {
            if data.len() - pos < 6 {
                return Err(DecodeError::TruncatedInput);
            }
            let o = u16_from_le_bytes(&data[pos + 2..pos + 4]);
            let l = u16_from_le_bytes(&data[pos + 4..pos + 6]);
            proof {
                assert(tail.subrange(2, 4) =~= data@.subrange(pos as int + 2, pos as int + 4));
                assert(tail.subrange(4, 6) =~= data@.subrange(pos as int + 4, pos as int + 6));
            }
            Ok((HuffmanNode::Leaf(Token::Match(o, l)), pos + 6))
        } else {
            Err(DecodeError::UnknownMethodFlag)
        }
    } else {
        Err(DecodeError::UnknownMethodFlag)
    }
}

/// Walk the tree from `node` along the packed bits starting at byte
/// `cur_byte`, bit `cur_bit`: exactly [`decode_sym`] on the remaining bits.
fn walk_sym(data: &[u8], node: &HuffmanNode, base: usize, cur_byte: usize, cur_bit: usize) -> (r:
    Result<(Token, usize, usize), DecodeError>)
    requires
        base <= cur_byte <= data@.len(),
        cur_bit < 8,
        cur_byte == data@.len() ==> cur_bit == 0,
    ensures
        match r {
            Ok(p) => {
                &&& base <= p.1 <= data@.len()
                &&& p.2 < 8
                &&& (p.1 == data@.len() ==> p.2 == 0)
                &&& 8 * (p.1 - base) + p.2 >= 8 * (cur_byte - base) + cur_bit
                &&& decode_sym(
                    *node,
                    bits_of(data@.skip(base as int)).skip(8 * (cur_byte - base) + cur_bit),
                ) == Ok::<_, DecodeError>(
                    (p.0, (8 * (p.1 - base) + p.2) - (8 * (cur_byte - base) + cur_bit)),
                )
            },
            Err(e) => decode_sym(
                *node,
                bits_of(data@.skip(base as int)).skip(8 * (cur_byte - base) + cur_bit),
            ) == Err::<(Token, int), _>(e),
        },
    decreases *node,
{
    let ghost bits0 = bits_of(data@.skip(base as int));
    let ghost pos = 8 * (cur_byte - base) + cur_bit;
    proof {
        lemma_bits_of_len(data@.skip(base as int));
    }
    match node {
        HuffmanNode::Leaf(tk) => Ok((*tk, cur_byte, cur_bit)),
        HuffmanNode::Internal(l, r) => {
            if cur_byte >= data.len() {
                proof {
                    assert(bits0.skip(pos) =~= Seq::<bool>::empty());
                }
                return Err(DecodeError::TruncatedInput);
            }
            let bit = get_bit(data[cur_byte], cur_bit);
            proof {
                lemma_bits_of_index(data@.skip(base as int), pos);
                assert(data@.skip(base as int)[pos / 8] == data@[cur_byte as int]);
                assert(pos % 8 == cur_bit);
                assert(bits0.skip(pos).len() > 0);
                assert(bits0.skip(pos)[0] == bits0[pos]);
                assert(bits0[pos] == bit);
                assert(bits0.skip(pos).drop_first() =~= bits0.skip(pos + 1));
            }
            let nb: usize;
            let nbit: usize;
            if cur_bit == 7 {
                nb = cur_byte + 1;
                nbit = 0;
            } else {
                nb = cur_byte;
                nbit = cur_bit + 1;
            }
            assert(8 * (nb - base) + nbit == pos + 1);
            if bit {
                match walk_sym(data, r, base, nb, nbit) {
                    Ok(p) => Ok(p),
                    Err(e) => Err(e),
                }
            } else {
                match walk_sym(data, l, base, nb, nbit) {
                    Ok(p) => Ok(p),
                    Err(e) => Err(e),
                }
            }
        },
    }
}

/// Decode a serialized tree plus bit-packed token stream back to the tokens:
/// exactly [`tokens_unapply`], reporting truncation or unrecognized tags.
pub fn decode_huffman(data: &[u8]) -> (result: Result<Vec<Token>, DecodeError>)
    ensures
        lift_result(result) == tokens_unapply(data@),
{
    proof {
        assert(data@.skip(0) =~= data@);
    }
    let (root, used) = match parse_node_exec(data, 0) {
        Ok(p) => p,
        Err(e) => {
            return Err(e);
        },
    };
    if data.len() - used < 4 {
        return Err(DecodeError::TruncatedInput);
    }
    let count_u32 = u32_from_le_bytes(&data[used..used + 4]);
    proof {
        assert(data@.subrange(used as int, used as int + 4) =~= (data@.skip(0)).subrange(
            used as int,
            used as int + 4,
        ));
    }
    let count = count_u32 as usize;
    let base = used + 4;
    let ghost bits0 = bits_of(data@.skip(base as int));
    proof {
        lemma_bits_of_len(data@.skip(base as int));
        assert(bits0.skip(0) =~= bits0);
        if decode_syms(root, bits0, count as nat) is Ok {
            assert(Seq::<Token>::empty() + decode_syms(root, bits0, count as nat)->Ok_0
                =~= decode_syms(root, bits0, count as nat)->Ok_0);
        }
    }
    let mut result: Vec<Token> = Vec::new();
    let mut cur_byte = base;
    let mut cur_bit: usize = 0;
    let mut i: usize = 0;
    while i < count
        invariant
            base <= cur_byte <= data@.len(),
            cur_bit < 8,
            cur_byte == data@.len() ==> cur_bit == 0,
            i <= count,
            parse_node(data@) == Ok::<_, DecodeError>((root, used as int)),
            used + 4 <= data@.len(),
            base == used + 4,
            count == spec_u32_from_le_bytes(data@.subrange(used as int, used as int + 4)),
            bits0 == bits_of(data@.skip(base as int)),
            bits0.len() == 8 * (data@.len() - base),
            decode_syms(root, bits0, count as nat) == match decode_syms(
                root,
                bits0.skip(8 * (cur_byte - base) + cur_bit),
                (count - i) as nat,
            ) {
                Ok(rest) => Ok::<_, DecodeError>(result@ + rest),
                Err(e) => Err(e),
            },
        decreases count - i,
    {
        let ghost pos = 8 * (cur_byte - base) + cur_bit;
        match walk_sym(data, &root, base, cur_byte, cur_bit) {
            Err(e) => {
                proof {
                    assert(decode_syms(root, bits0.skip(pos), (count - i) as nat) == Err::<
                        Seq<Token>,
                        _,
                    >(e));
                }
                return Err(e);
            },
            Ok((tk, nb, nbit)) => {
                let ghost npos = 8 * (nb - base) + nbit;
                let ghost c = npos - pos;
                proof {
                    assert(decode_sym(root, bits0.skip(pos)) == Ok::<_, DecodeError>((tk, c)));
                    assert(c <= bits0.skip(pos).len());
                    assert(bits0.skip(pos).skip(c) =~= bits0.skip(npos));
                    if decode_syms(root, bits0.skip(npos), (count - i - 1) as nat) is Ok {
                        let rest = decode_syms(root, bits0.skip(npos), (count - i - 1) as nat)->Ok_0;
                        assert(decode_syms(root, bits0.skip(pos), (count - i) as nat) == Ok::<
                            _,
                            DecodeError,
                        >(seq![tk] + rest));
                        assert(result@ + (seq![tk] + rest) =~= result@.push(tk) + rest);
                    }
                }
                result.push(tk);
                cur_byte = nb;
                cur_bit = nbit;
                i = i + 1;
            },
        }
    }
    proof {
        let ghost pos = 8 * (cur_byte - base) + cur_bit;
        assert(decode_syms(root, bits0.skip(pos), 0) == Ok::<_, DecodeError>(
            Seq::<Token>::empty(),
        ));
        assert(result@ + Seq::<Token>::empty() =~= result@);
    }
    Ok(result)
}

} // verus!
