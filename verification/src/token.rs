//! The LZ intermediate representation: a stream of literal bytes and
//! back-references, together with the mathematical account of what such a
//! stream expands to.

use vstd::prelude::*;
use crate::outcome::DecodeError;

verus! {

/// One unit of the LZ token stream: a literal byte, or a back-reference
/// `Match(offset, length)` where `offset` is the distance backward from the
/// current position (1 = previous byte) and `length` the number of bytes to
/// copy.
#[derive(Clone, Copy, Debug, PartialEq, Eq, Hash, Structural)]
pub enum Token {
    Literal(u8),
    Match(u16, u16),
}

/// `out` extended with `len` bytes copied from `offset` positions back,
/// one byte at a time, so that a copy may overlap the bytes it appends.
pub open spec fn copy_back(out: Seq<u8>, offset: nat, len: nat) -> Seq<u8>
    recommends
        1 <= offset <= out.len(),
    decreases len,
{
    if len == 0 {
        out
    } else {
        copy_back(out.push(out[out.len() - offset]), offset, (len - 1) as nat)
    }
}

/// What one token appends to the bytes decoded so far; a back-reference
/// reaching behind the start of the output is rejected. A zero-length match
/// appends nothing whatever its offset: the encoder never emits one, and
/// decoding tolerates it rather than rejecting streams foreign encoders
/// might produce.
pub open spec fn expand_token(out: Seq<u8>, t: Token) -> Result<Seq<u8>, DecodeError> {
    match t {
        Token::Literal(b) => Ok(out.push(b)),
        Token::Match(offset, len) => {
            if len == 0 {
                Ok(out)
            } else if offset == 0 || offset > out.len() {
                Err(DecodeError::InvalidIndex)
            } else {
                Ok(copy_back(out, offset as nat, len as nat))
            }
        },
    }
}

/// The bytes a whole token stream decodes to, starting from `out`.
pub open spec fn expand_tokens(out: Seq<u8>, toks: Seq<Token>) -> Result<Seq<u8>, DecodeError>
    decreases toks.len(),
{
    if toks.len() == 0 {
        Ok(out)
    } else {
        match expand_token(out, toks[0]) {
            Ok(out2) => expand_tokens(out2, toks.drop_first()),
            Err(e) => Err(e),
        }
    }
}

/// Expansion processes the token stream left to right: appending one token
/// expands the stream so far and then that token.
pub proof fn lemma_expand_tokens_push(out: Seq<u8>, toks: Seq<Token>, t: Token)
    ensures
        expand_tokens(out, toks.push(t)) == match expand_tokens(out, toks) {
            Ok(mid) => expand_token(mid, t),
            Err(e) => Err(e),
        },
    decreases toks.len(),
{
    let pushed = toks.push(t);
    if toks.len() == 0 {
        assert(pushed[0] == t);
        assert(pushed.drop_first() =~= Seq::<Token>::empty());
        match expand_token(out, t) {
            Ok(out2) => {
                assert(expand_tokens(out2, pushed.drop_first()) == Ok::<Seq<u8>, DecodeError>(
                    out2,
                ));
            },
            Err(_) => {},
        }
    } else {
        assert(pushed[0] == toks[0]);
        assert(pushed.drop_first() =~= toks.drop_first().push(t));
        match expand_token(out, toks[0]) {
            Ok(out2) => {
                lemma_expand_tokens_push(out2, toks.drop_first(), t);
            },
            Err(_) => {},
        }
    }
}

/// Expansion can be split at any point: expand a prefix of the stream, then
/// the rest from where it left off.
pub proof fn lemma_expand_tokens_split(out: Seq<u8>, toks: Seq<Token>, i: int)
    requires
        0 <= i <= toks.len(),
    ensures
        expand_tokens(out, toks) == match expand_tokens(out, toks.take(i)) {
            Ok(mid) => expand_tokens(mid, toks.skip(i)),
            Err(e) => Err(e),
        },
    decreases i,
{
    if i == 0 {
        assert(toks.take(0) =~= Seq::<Token>::empty());
        assert(toks.skip(0) =~= toks);
    } else {
        lemma_expand_tokens_split(out, toks, i - 1);
        lemma_expand_tokens_push(out, toks.take(i - 1), toks[i - 1]);
        assert(toks.take(i - 1).push(toks[i - 1]) =~= toks.take(i));
        match expand_tokens(out, toks.take(i)) {
            Ok(mid) => {
                match expand_tokens(out, toks.take(i - 1)) {
                    Ok(mid0) => {
                        assert(expand_tokens(out, toks) == expand_tokens(mid0, toks.skip(i - 1)));
                        assert(toks.skip(i - 1).len() > 0);
                        assert(toks.skip(i - 1)[0] == toks[i - 1]);
                        assert(toks.skip(i - 1).drop_first() =~= toks.skip(i));
                    },
                    Err(_) => {},
                }
            },
            Err(e) => {
                match expand_tokens(out, toks.take(i - 1)) {
                    Ok(mid0) => {
                        assert(toks.skip(i - 1).len() > 0);
                        assert(toks.skip(i - 1)[0] == toks[i - 1]);
                        assert(toks.skip(i - 1).drop_first() =~= toks.skip(i));
                    },
                    Err(_) => {},
                }
            },
        }
    }
}

} // verus!
