//! The LZ match finder: a hash-indexed sliding-window search that turns raw
//! bytes into a token stream. Candidate positions sharing a three-byte prefix
//! hash are kept as most-recent-first chains; each candidate is extended
//! forward byte by byte, and the first strictly longest match wins, so ties
//! in length prefer the nearest candidate.

use vstd::prelude::*;
use std::collections::HashMap;
use crate::constants::{MAX_MATCH_LEN, MIN_MATCH_LEN, WINDOW_SIZE};
use crate::outcome::DecodeError;
use crate::token::{copy_back, expand_tokens, lemma_expand_tokens_push, Token};

verus! {

broadcast use vstd::std_specs::hash::group_hash_axioms;

/// Copying `len` bytes from `off` back extends a prefix of `d` to a longer
/// prefix of `d` whenever the source and target ranges agree byte for byte
/// (which also covers copies that overlap the bytes they append).
pub proof fn lemma_copy_back_matches(d: Seq<u8>, i: int, off: int, len: int)
    requires
        1 <= off <= i,
        0 <= len,
        i + len <= d.len(),
        forall|k: int| 0 <= k < len ==> d[i - off + k] == #[trigger] d[i + k],
    ensures
        copy_back(d.subrange(0, i), off as nat, len as nat) == d.subrange(0, i + len),
    decreases len,
{
    if len == 0 {
        assert(d.subrange(0, i) =~= d.subrange(0, i + 0));
    } else {
        let out = d.subrange(0, i);
        assert(d[i - off + 0] == d[i + 0]);
        assert(out[out.len() - off] == d[i - off]);
        assert(out.push(d[i]) =~= d.subrange(0, i + 1));
        assert forall|k: int| 0 <= k < len - 1 implies d[(i + 1) - off + k] == #[trigger] d[(i + 1)
            + k] by {
            assert(d[i - off + (k + 1)] == d[i + (k + 1)]);
        }
        lemma_copy_back_matches(d, i + 1, off, len - 1);
    }
}

/// The candidate-chain bookkeeping: `head` maps a prefix hash to the most
/// recent position carrying it, each position's predecessor chain lives in
/// `prev`, and every link points strictly backward.
pub open spec fn chains_wf(head: Map<u32, usize>, prev: Seq<usize>, bound: int) -> bool {
    &&& forall|h: u32| head.contains_key(h) ==> #[trigger] head[h] < bound
    &&& forall|p: int|
        0 <= p < prev.len() ==> #[trigger] prev[p] == usize::MAX || prev[p] < p
}

/// The prefix hash: the three bytes at `pos` packed into one word, so two
/// positions share a hash exactly when they share a three-byte prefix.
fn calc_hash(data: &[u8], pos: usize) -> (h: u32)
    requires
        pos + MIN_MATCH_LEN <= data@.len(),
    ensures
        h == ((data@[pos as int] as u32) << 16u32) | ((data@[pos as int + 1] as u32) << 8u32) | (
        data@[pos as int + 2] as u32),
{
    ((data[pos] as u32) << 16) | ((data[pos + 1] as u32) << 8) | (data[pos + 2] as u32)
}

/// The prefix hash is injective: equal hashes mean equal three-byte
/// prefixes, so every candidate a chain offers really shares the prefix.
pub proof fn lemma_hash_injective(a0: u8, a1: u8, a2: u8, b0: u8, b1: u8, b2: u8)
    requires
        ((a0 as u32) << 16u32) | ((a1 as u32) << 8u32) | (a2 as u32) == ((b0 as u32) << 16u32) | ((
        b1 as u32) << 8u32) | (b2 as u32),
    ensures
        a0 == b0 && a1 == b1 && a2 == b2,
{
    assert(a0 == b0 && a1 == b1 && a2 == b2) by (bit_vector)
        requires
            ((a0 as u32) << 16u32) | ((a1 as u32) << 8u32) | (a2 as u32) == ((b0 as u32)
                << 16u32) | ((b1 as u32) << 8u32) | (b2 as u32),
    ;
}

/// Record position `pos` in the candidate chains (a position too close to
/// the end to carry a full prefix is skipped).
fn update_hash_table(
    data: &[u8],
    pos: usize,
    head: &mut HashMap<u32, usize>,
    prev: &mut Vec<usize>,
)
    requires
        pos < data@.len(),
        old(prev)@.len() == data@.len(),
        chains_wf(old(head)@, old(prev)@, pos as int),
    ensures
        final(prev)@.len() == data@.len(),
        chains_wf(final(head)@, final(prev)@, pos + 1),
{
    if data.len() - pos >= MIN_MATCH_LEN {
        let h = calc_hash(data, pos);
        let old_head = head.insert(h, pos);
        let link = match old_head {
            Some(p) => p,
            None => usize::MAX,
        };
        prev.set(pos, link);
        assert(forall|hh: u32|
            final(head)@.contains_key(hh) ==> #[trigger] final(head)@[hh] < pos + 1);
        assert(forall|p: int|
            0 <= p < prev@.len() ==> #[trigger] prev@[p] == usize::MAX || prev@[p] < p);
    } else {
        assert(chains_wf(head@, prev@, pos + 1));
    }
}

/// Search the window before `pos` for the longest match against the bytes at
/// `pos`. Either no usable match exists (`length == 0`), or the returned
/// back-reference is in range, at most the window wide, and byte-for-byte
/// equal to the bytes it stands for (a match may overlap its own copy).
fn find_match(data: &[u8], pos: usize, head: &HashMap<u32, usize>, prev: &Vec<usize>) -> (m: (
    usize,
    usize,
))
    requires
        pos < data@.len(),
        prev@.len() == data@.len(),
        chains_wf(head@, prev@, pos as int),
    ensures
        m.1 == 0 || {
            &&& MIN_MATCH_LEN <= m.1 <= MAX_MATCH_LEN
            &&& 0 < m.0 <= pos
            &&& m.0 <= WINDOW_SIZE
            &&& pos + m.1 <= data@.len()
            &&& forall|k: int| 0 <= k < m.1 ==> data@[pos - m.0 + k] == #[trigger] data@[pos + k]
        },
{
    let n = data.len();
    if n - pos < MIN_MATCH_LEN {
        return (0, 0);
    }
    let h = calc_hash(data, pos);
    let window_start = if pos > WINDOW_SIZE {
        pos - WINDOW_SIZE
    } else {
        0
    };
    let first = match head.get(&h) {
        Some(c) => *c,
        None => {
            return (0, 0);
        },
    };
    let mut cand = first;
    let mut more = true;
    let mut best_len: usize = 0;
    let mut best_off: usize = 0;
    while more
        invariant
            n == data@.len(),
            pos < n,
            prev@.len() == n,
            chains_wf(head@, prev@, pos as int),
            cand < pos,
            window_start <= pos,
            pos <= window_start + WINDOW_SIZE,
            best_len == 0 || {
                &&& best_len <= MAX_MATCH_LEN
                &&& 0 < best_off <= pos
                &&& best_off <= WINDOW_SIZE
                &&& pos + best_len <= n
                &&& forall|k: int| 0 <= k < best_len ==> data@[pos - best_off + k] == #[trigger] data@[pos + k]
            },
        decreases (if more {
            cand as int + 1
        } else {
            0int
        }),
    {
        if cand < window_start {
            more = false;
        } else {
            let mut len: usize = 0;
            while pos + len < n && data[cand + len] == data[pos + len] && len < MAX_MATCH_LEN
                invariant
                    n == data@.len(),
                    cand < pos < n,
                    len <= MAX_MATCH_LEN,
                    pos + len <= n,
                    forall|k: int| 0 <= k < len ==> data@[cand + k] == #[trigger] data@[pos + k],
                decreases MAX_MATCH_LEN - len,
            {
                len = len + 1;
            }
            if len > best_len {
                best_len = len;
                best_off = pos - cand;
            }
            if len >= MAX_MATCH_LEN {
                more = false;
            } else {
                let nxt = prev[cand];
                if nxt == usize::MAX {
                    more = false;
                } else {
                    assert(nxt < cand);
                    cand = nxt;
                }
            }
        }
    }
    if best_len >= MIN_MATCH_LEN {
        (best_off, best_len)
    } else {
        (0, 0)
    }
}

/// Turn `data` into an LZ token stream. The stream expands back to exactly
/// the input; matches are in range, within the window, at least
/// [`MIN_MATCH_LEN`] and at most [`MAX_MATCH_LEN`] long, and may overlap
/// the bytes they stand for.
pub fn find_matches(data: &[u8]) -> (tokens: Vec<Token>)
    ensures
        expand_tokens(Seq::empty(), tokens@) == Ok::<_, DecodeError>(data@),
        tokens@.len() <= data@.len(),
        forall|t: int|
            0 <= t < tokens@.len() ==> match #[trigger] tokens@[t] {
                Token::Literal(_) => true,
                Token::Match(o, l) => {
                    &&& MIN_MATCH_LEN <= l <= MAX_MATCH_LEN
                    &&& 0 < o <= WINDOW_SIZE
                },
            },
{
    let n = data.len();
    let mut tokens: Vec<Token> = Vec::new();
    let mut head: HashMap<u32, usize> = HashMap::new();
    let mut prev: Vec<usize> = Vec::new();
    let mut p: usize = 0;
    while p < n
        invariant
            n == data@.len(),
            p <= n,
            prev@.len() == p,
            forall|k: int| 0 <= k < p ==> prev@[k] == usize::MAX,
        decreases n - p,
    {
        prev.push(usize::MAX);
        p = p + 1;
    }
    assert(chains_wf(head@, prev@, 0));
    let mut i: usize = 0;
    proof {
        assert(data@.subrange(0, 0) =~= Seq::<u8>::empty());
        assert(tokens@ =~= Seq::<Token>::empty());
    }
    while i < n
        invariant
            n == data@.len(),
            i <= n,
            tokens@.len() <= i,
            prev@.len() == n,
            chains_wf(head@, prev@, i as int),
            expand_tokens(Seq::empty(), tokens@) == Ok::<_, DecodeError>(
                data@.subrange(0, i as int),
            ),
            forall|t: int|
                0 <= t < tokens@.len() ==> match #[trigger] tokens@[t] {
                    Token::Literal(_) => true,
                    Token::Match(o, l) => {
                        &&& MIN_MATCH_LEN <= l <= MAX_MATCH_LEN
                        &&& 0 < o <= WINDOW_SIZE
                    },
                },
        decreases n - i,
    {
        let (off, len) = find_match(data, i, &head, &prev);
        if len >= MIN_MATCH_LEN {
            let tok = Token::Match(off as u16, len as u16);
            proof {
                lemma_expand_tokens_push(Seq::empty(), tokens@, tok);
                lemma_copy_back_matches(data@, i as int, off as int, len as int);
            }
            tokens.push(tok);
            let mut j: usize = 0;
            while j < len
                invariant
                    n == data@.len(),
                    i + len <= n,
                    j <= len,
                    prev@.len() == n,
                    chains_wf(head@, prev@, i + j),
                decreases len - j,
            {
                update_hash_table(data, i + j, &mut head, &mut prev);
                j = j + 1;
            }
            i = i + len;
        } else {
            let tok = Token::Literal(data[i]);
            proof {
                lemma_expand_tokens_push(Seq::empty(), tokens@, tok);
                assert(data@.subrange(0, i as int).push(data@[i as int]) =~= data@.subrange(
                    0,
                    i as int + 1,
                ));
            }
            tokens.push(tok);
            update_hash_table(data, i, &mut head, &mut prev);
            i = i + 1;
        }
    }
    assert(data@.subrange(0, n as int) =~= data@);
    tokens
}

/// The single-strategy tokenizer entry: the same window, length bounds and
/// expansion guarantee as [`find_matches`].
pub fn lz_tokenize(data: &[u8]) -> (tokens: Vec<Token>)
    ensures
        expand_tokens(Seq::empty(), tokens@) == Ok::<_, DecodeError>(data@),
        tokens@.len() <= data@.len(),
        forall|t: int|
            0 <= t < tokens@.len() ==> match #[trigger] tokens@[t] {
                Token::Literal(_) => true,
                Token::Match(o, l) => {
                    &&& MIN_MATCH_LEN <= l <= MAX_MATCH_LEN
                    &&& 0 < o <= WINDOW_SIZE
                },
            },
{
    find_matches(data)
}

} // verus!
