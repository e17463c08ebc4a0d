//! The container framer: one leading flag byte names the strategy (or raw
//! storage), the rest is that strategy's payload. Compression never fails
//! and never grows the input by more than the flag byte: whenever the chosen
//! strategy does not beat the raw size, the input is stored raw. Every frame
//! the compressor emits decodes back to the original input exactly, and
//! decoding reports truncation, invalid indices and unknown flags instead of
//! passing bytes through.

use vstd::prelude::*;
use crate::bwt::{bwt_unapply, compress_bwt, decompress_bwt};
use crate::chunked::{chunked_unapply, compress_chunked, decompress_chunked};
use crate::config::Algorithm;
use crate::constants::{BWT_FLAG, CHUNKED_FLAG, COMPRESSED_FLAG, DELTA_FLAG, MIN_FILE_SIZE, RLE_FLAG, UNCOMPRESSED_FLAG};
use crate::delta::{compress_delta, decompress_delta, delta_unapply};
use crate::lz::{compress_lz, decompress_lz_huffman, lz_unapply};
use crate::outcome::{lift_result, CompressionResult, DecodeError};
use crate::rle::{compress_rle, decompress_rle, rle_apply, rle_unapply};
use crate::util::{push_all, sub_vec};

verus! {

/// What a full frame decodes to: dispatch on the leading flag byte. An
/// empty frame is truncation; an unrecognized flag is an error, never a
/// passthrough.
pub open spec fn frame_unapply(b: Seq<u8>) -> Result<Seq<u8>, DecodeError> {
    if b.len() < 1 {
        Err(DecodeError::TruncatedInput)
    } else {
        let flag = b[0];
        let payload = b.skip(1);
        if flag == UNCOMPRESSED_FLAG {
            Ok(payload)
        } else if flag == CHUNKED_FLAG {
            chunked_unapply(payload)
        } else if flag == COMPRESSED_FLAG {
            lz_unapply(payload)
        } else if flag == RLE_FLAG {
            rle_unapply(payload)
        } else if flag == DELTA_FLAG {
            Ok(delta_unapply(payload))
        } else if flag == BWT_FLAG {
            bwt_unapply(payload)
        } else {
            Err(DecodeError::UnknownMethodFlag)
        }
    }
}

/// `[flag] ++ payload`.
fn flagged(flag: u8, payload: &[u8]) -> (result: Vec<u8>)
    ensures
        result@ == seq![flag] + payload@,
{
    let mut result: Vec<u8> = Vec::new();
    result.push(flag);
    push_all(&mut result, payload);
    assert(result@ =~= seq![flag] + payload@);
    result
}

/// Wrap a strategy's output behind its flag exactly when it beats the raw
/// size, else store the input raw.
fn wrap_or_store(input: &[u8], out: Vec<u8>, flag: u8) -> (result: Vec<u8>)
    requires
        flag == RLE_FLAG || flag == DELTA_FLAG || flag == COMPRESSED_FLAG || flag == BWT_FLAG,
        out@.len() < input@.len() ==> crate::chunked::method_unapply(flag, out@) == Ok::<
            _,
            DecodeError,
        >(input@),
    ensures
        frame_unapply(result@) == Ok::<_, DecodeError>(input@),
        result@.len() <= input@.len() + 1,
        result@.len() >= 1 && (result@[0] == flag || result@[0] == UNCOMPRESSED_FLAG),
        out@.len() < input@.len() ==> result@ == seq![flag] + out@,
        out@.len() >= input@.len() ==> result@ == seq![UNCOMPRESSED_FLAG] + input@,
{
    if out.len() < input.len() {
        let result = flagged(flag, out.as_slice());
        assert(result@.skip(1) =~= out@);
        result
    } else {
        let result = flagged(UNCOMPRESSED_FLAG, input);
        assert(result@.skip(1) =~= input@);
        result
    }
}

/// Compress `input` with the selected strategy (or the chunked orchestrator
/// for [`Algorithm::Best`]) and frame the result. Inputs shorter than
/// [`MIN_FILE_SIZE`], and inputs no strategy beats, are stored raw: the raw
/// flag always carries the input itself, a strategy flag is used only when
/// its payload is strictly smaller than the input, the run-length flag
/// appears exactly when the canonical run-length encoding wins, and delta
/// coding never shrinks, so that algorithm always stores raw. The frame
/// always decodes back to `input` exactly and is never more than one byte
/// longer than the input.
pub fn compress(input: &[u8], algorithm: Algorithm) -> (result: Vec<u8>)
    requires
        input@.len() < 0x1_0000_0000,
    ensures
        frame_unapply(result@) == Ok::<_, DecodeError>(input@),
        result@.len() <= input@.len() + 1,
        result@.len() >= 1,
        result@[0] == UNCOMPRESSED_FLAG || result@[0] == (match algorithm {
            Algorithm::Rle => RLE_FLAG,
            Algorithm::Delta => DELTA_FLAG,
            Algorithm::Lz => COMPRESSED_FLAG,
            Algorithm::Bwt => BWT_FLAG,
            Algorithm::Best => CHUNKED_FLAG,
        }),
        input@.len() < MIN_FILE_SIZE ==> result@ == seq![UNCOMPRESSED_FLAG] + input@,
        result@[0] == UNCOMPRESSED_FLAG ==> result@ == seq![UNCOMPRESSED_FLAG] + input@,
        result@[0] != UNCOMPRESSED_FLAG ==> result@.len() <= input@.len(),
        algorithm == Algorithm::Delta ==> result@ == seq![UNCOMPRESSED_FLAG] + input@,
        algorithm == Algorithm::Rle && input@.len() >= MIN_FILE_SIZE ==> {
            &&& (result@[0] == RLE_FLAG <==> rle_apply(input@).len() < input@.len())
            &&& (rle_apply(input@).len() < input@.len() ==> result@ == seq![RLE_FLAG]
                + rle_apply(input@))
        },
{
    if input.len() < MIN_FILE_SIZE {
        let result = flagged(UNCOMPRESSED_FLAG, input);
        assert(result@.skip(1) =~= input@);
        return result;
    }
    match algorithm {
        Algorithm::Rle => {
            let out = compress_rle(input);
            wrap_or_store(input, out, RLE_FLAG)
        },
        Algorithm::Delta => {
            let out = compress_delta(input);
            wrap_or_store(input, out, DELTA_FLAG)
        },
        Algorithm::Lz => {
            let out = compress_lz(input);
            wrap_or_store(input, out, COMPRESSED_FLAG)
        },
        Algorithm::Bwt => {
            let out = compress_bwt(input);
            wrap_or_store(input, out, BWT_FLAG)
        },
        Algorithm::Best => {
            match compress_chunked(input) {
                CompressionResult::Compressed(d, f) => {
                    let result = flagged(f, d.as_slice());
                    assert(result@.skip(1) =~= d@);
                    result
                },
                CompressionResult::Uncompressed(d) => {
                    let result = flagged(UNCOMPRESSED_FLAG, d.as_slice());
                    assert(result@.skip(1) =~= d@);
                    result
                },
            }
        },
    }
}

/// Decode a frame: exactly [`frame_unapply`]. The round trip with
/// [`compress`] holds for every input and every algorithm: `compress`
/// guarantees `frame_unapply(compress(input, a)) == Ok(input)`, and this
/// function returns precisely that decoding.
pub fn decompress(input: &[u8]) -> (result: Result<Vec<u8>, DecodeError>)
    ensures
        lift_result(result) == frame_unapply(input@),
{
    let n = input.len();
    if n < 1 {
        return Err(DecodeError::TruncatedInput);
    }
    let flag = input[0];
    proof {
        assert(input@.subrange(1, n as int) =~= input@.skip(1));
    }
    if flag == UNCOMPRESSED_FLAG {
        Ok(sub_vec(input, 1, n))
    } else if flag == CHUNKED_FLAG {
        decompress_chunked(&input[1..n])
    } else if flag == COMPRESSED_FLAG {
        decompress_lz_huffman(&input[1..n])
    } else if flag == RLE_FLAG {
        decompress_rle(&input[1..n])
    } else if flag == DELTA_FLAG {
        Ok(decompress_delta(&input[1..n]))
    } else if flag == BWT_FLAG {
        decompress_bwt(&input[1..n])
    } else {
        Err(DecodeError::UnknownMethodFlag)
    }
}

} // verus!
