//! The strategy selector and chunk orchestrator: split the input into
//! fixed-size chunks, repeatedly run every not-yet-used strategy on each
//! chunk's current bytes, adopt the smallest result while it keeps at least
//! a tenth of the size, and frame each chunk with its payload length and the
//! ordered list of methods applied. Decoding applies the inverses in
//! reverse order and concatenates the chunks.

use vstd::prelude::*;
use crate::bwt::{bwt_unapply, compress_bwt, decompress_bwt};
use crate::constants::{BWT_FLAG, CHUNKED_FLAG, CHUNK_SIZE, COMPRESSED_FLAG, DELTA_FLAG, MAX_METHODS, RLE_FLAG};
use crate::delta::{compress_delta, decompress_delta, delta_unapply};
use crate::lz::{compress_lz, decompress_lz_huffman, lz_unapply};
use crate::outcome::{lift_result, CompressionResult, DecodeError};
use crate::rle::{compress_rle, decompress_rle, rle_apply, rle_unapply};
use crate::util::{push_all, sub_vec};
use vstd::bytes::{lemma_auto_spec_u32_to_from_le_bytes, spec_u32_from_le_bytes, spec_u32_to_le_bytes, u32_from_le_bytes, u32_to_le_bytes};

verus! {

/// Undo one strategy application, by its method flag.
pub open spec fn method_unapply(flag: u8, b: Seq<u8>) -> Result<Seq<u8>, DecodeError> {
    if flag == COMPRESSED_FLAG {
        lz_unapply(b)
    } else if flag == RLE_FLAG {
        rle_unapply(b)
    } else if flag == DELTA_FLAG {
        Ok(delta_unapply(b))
    } else if flag == BWT_FLAG {
        bwt_unapply(b)
    } else {
        Err(DecodeError::UnknownMethodFlag)
    }
}

/// Undo a chunk's chained methods, most recently applied first.
pub open spec fn inverse_chain(methods: Seq<u8>, b: Seq<u8>) -> Result<Seq<u8>, DecodeError>
    decreases methods.len(),
{
    if methods.len() == 0 {
        Ok(b)
    } else {
        match method_unapply(methods.last(), b) {
            Ok(prev) => inverse_chain(methods.drop_last(), prev),
            Err(e) => Err(e),
        }
    }
}

/// Parse `count` chunk records from the front of `b`: each record is a
/// four-byte little-endian payload length, a method count byte, the method
/// flags in application order, and the payload. The result is the
/// concatenation of the decoded chunks and the number of bytes consumed.
pub open spec fn parse_records(b: Seq<u8>, count: nat) -> Result<(Seq<u8>, int), DecodeError>
    decreases count,
{
    if count == 0 {
        Ok((Seq::empty(), 0))
    } else if b.len() < 5 {
        Err(DecodeError::TruncatedInput)
    } else {
        let plen = spec_u32_from_le_bytes(b.subrange(0, 4)) as int;
        let mcount = b[4] as int;
        if b.len() < 5 + mcount + plen {
            Err(DecodeError::TruncatedInput)
        } else {
            let methods = b.subrange(5, 5 + mcount);
            let payload = b.subrange(5 + mcount, 5 + mcount + plen);
            match inverse_chain(methods, payload) {
                Ok(chunk) => match parse_records(b.skip(5 + mcount + plen), (count - 1) as nat) {
                    Ok(rest) => Ok((chunk + rest.0, 5 + mcount + plen + rest.1)),
                    Err(e) => Err(e),
                },
                Err(e) => Err(e),
            }
        }
    }
}

/// What a chunked payload decodes to: a chunk count, the original total
/// size, and that many records, decoded and concatenated in order.
pub open spec fn chunked_unapply(b: Seq<u8>) -> Result<Seq<u8>, DecodeError> {
    if b.len() < 8 {
        Err(DecodeError::TruncatedInput)
    } else {
        match parse_records(b.skip(8), spec_u32_from_le_bytes(b.subrange(0, 4)) as nat) {
            Ok(p) => Ok(p.0),
            Err(e) => Err(e),
        }
    }
}

/// Records parse independently: a stream of whole records followed by one
/// more record parses to the first chunks followed by the new one.
pub proof fn lemma_parse_records_snoc(a: Seq<u8>, k: nat, rec: Seq<u8>, y: Seq<u8>)
    requires
        parse_records(a, k) is Ok,
        parse_records(a, k)->Ok_0.1 == a.len(),
        parse_records(rec, 1) == Ok::<_, DecodeError>((y, rec.len() as int)),
        records_bounded(a, k),
        rec.len() >= 5 && rec[4] <= MAX_METHODS,
    ensures
        parse_records(a + rec, (k + 1) as nat) == Ok::<_, DecodeError>(
            (parse_records(a, k)->Ok_0.0 + y, (a.len() + rec.len()) as int),
        ),
        records_bounded(a + rec, (k + 1) as nat),
    decreases k,
{
    if k == 0 {
        assert(a.len() == 0);
        assert(a + rec =~= rec);
        assert(parse_records(a, k)->Ok_0.0 + y =~= y);
        let c1 = 5 + rec[4] as int + spec_u32_from_le_bytes(rec.subrange(0, 4)) as int;
        assert(parse_records(rec.skip(c1), 0) == Ok::<_, DecodeError>((Seq::<u8>::empty(), 0int)));
        assert(parse_records(rec, 1)->Ok_0.1 == c1);
        assert(c1 == rec.len());
        assert(records_bounded(rec.skip(c1), 0));
    } else {
        let ab = a + rec;
        let plen = spec_u32_from_le_bytes(a.subrange(0, 4)) as int;
        let mcount = a[4] as int;
        let c1 = 5 + mcount + plen;
        assert(a.len() >= c1);
        assert(ab.subrange(0, 4) =~= a.subrange(0, 4));
        assert(ab[4] == a[4]);
        assert(ab.subrange(5, 5 + mcount) =~= a.subrange(5, 5 + mcount));
        assert(ab.subrange(5 + mcount, c1) =~= a.subrange(5 + mcount, c1));
        assert(ab.skip(c1) =~= a.skip(c1) + rec);
        let tail = parse_records(a.skip(c1), (k - 1) as nat);
        assert(tail is Ok);
        assert(tail->Ok_0.1 == a.skip(c1).len());
        assert(records_bounded(a.skip(c1), (k - 1) as nat));
        lemma_parse_records_snoc(a.skip(c1), (k - 1) as nat, rec, y);
        let chunk = inverse_chain(a.subrange(5, 5 + mcount), a.subrange(5 + mcount, c1))->Ok_0;
        assert(chunk + (tail->Ok_0.0 + y) =~= (chunk + tail->Ok_0.0) + y);
        assert(records_bounded(ab, (k + 1) as nat));
    }
}

/// Whether `methods` already holds `f`.
fn has_flag(methods: &Vec<u8>, f: u8) -> (r: bool)
    ensures
        r == methods@.contains(f),
{
    let mut i: usize = 0;
    while i < methods.len()
        invariant
            i <= methods@.len(),
            forall|q: int| 0 <= q < i ==> methods@[q] != f,
        decreases methods@.len() - i,
    {
        if methods[i] == f {
            assert(methods@.contains(f));
            return true;
        }
        i = i + 1;
    }
    assert(!methods@.contains(f));
    false
}

/// Integer powers, for the geometric bound the chain threshold yields.
pub open spec fn pow_int(b: int, e: nat) -> int
    decreases e,
{
    if e == 0 {
        1
    } else {
        b * pow_int(b, (e - 1) as nat)
    }
}

pub proof fn lemma_pow_int_pos(b: int, e: nat)
    requires
        b >= 1,
    ensures
        pow_int(b, e) >= 1,
    decreases e,
{
    if e > 0 {
        lemma_pow_int_pos(b, (e - 1) as nat);
        assert(pow_int(b, e) == b * pow_int(b, (e - 1) as nat));
        assert(b * pow_int(b, (e - 1) as nat) >= 1) by (nonlinear_arith)
            requires
                b >= 1,
                pow_int(b, (e - 1) as nat) >= 1,
        ;
    }
}

pub proof fn lemma_pow9_le_pow10(e: nat)
    ensures
        pow_int(9, e) <= pow_int(10, e),
    decreases e,
{
    if e > 0 {
        lemma_pow9_le_pow10((e - 1) as nat);
        lemma_pow_int_pos(9, (e - 1) as nat);
        lemma_pow_int_pos(10, (e - 1) as nat);
        assert(9 * pow_int(9, (e - 1) as nat) <= 10 * pow_int(10, (e - 1) as nat))
            by (nonlinear_arith)
            requires
                pow_int(9, (e - 1) as nat) <= pow_int(10, (e - 1) as nat),
                pow_int(9, (e - 1) as nat) >= 1,
        ;
    }
}

/// A payload within the geometric bound for at least one applied method is
/// within the plain nine-tenths bound.
pub proof fn lemma_geometric_step(p: int, c: int, m: nat)
    requires
        m >= 1,
        p >= 0,
        c >= 0,
        p * pow_int(10, m) <= c * pow_int(9, m),
    ensures
        10 * p <= 9 * c,
{
    let m1 = (m - 1) as nat;
    lemma_pow_int_pos(10, m1);
    lemma_pow_int_pos(9, m1);
    lemma_pow9_le_pow10(m1);
    assert(p * pow_int(10, m) == (10 * p) * pow_int(10, m1)) by (nonlinear_arith)
        requires
            pow_int(10, m) == 10 * pow_int(10, m1),
    ;
    assert(c * pow_int(9, m) == (9 * c) * pow_int(9, m1)) by (nonlinear_arith)
        requires
            pow_int(9, m) == 9 * pow_int(9, m1),
    ;
    assert((9 * c) * pow_int(9, m1) <= (9 * c) * pow_int(10, m1)) by (nonlinear_arith)
        requires
            c >= 0,
            pow_int(9, m1) <= pow_int(10, m1),
    ;
    assert(10 * p <= 9 * c) by (nonlinear_arith)
        requires
            (10 * p) * pow_int(10, m1) <= (9 * c) * pow_int(10, m1),
            pow_int(10, m1) >= 1,
    ;
}

/// Whether a byte is one of the four strategy flags.
pub open spec fn is_strategy_flag(f: u8) -> bool {
    f == COMPRESSED_FLAG || f == RLE_FLAG || f == DELTA_FLAG || f == BWT_FLAG
}

/// Compress one chunk: run every not-yet-used strategy against the chunk's
/// current bytes, adopt the smallest result while it is at most nine tenths
/// of the current size, and stop after [`MAX_METHODS`] applications. The
/// returned method list (in application order) holds pairwise distinct
/// strategy flags and undoes, in reverse, to the chunk exactly; each adopted
/// method shrank the bytes to at most nine tenths, so the payload is within
/// `(9/10)^methods` of the chunk; and whenever run-length coding alone would
/// reach the threshold on a nonempty chunk, at least one method is applied.
#[verifier::rlimit(100)]
fn compress_chunk(chunk: &[u8]) -> (r: (Vec<u8>, Vec<u8>))
    requires
        chunk@.len() < 0x1_0000_0000,
    ensures
        r.0@.len() <= MAX_METHODS,
        inverse_chain(r.0@, r.1@) == Ok::<_, DecodeError>(chunk@),
        r.1@.len() <= chunk@.len(),
        forall|q: int| 0 <= q < r.0@.len() ==> is_strategy_flag(#[trigger] r.0@[q]),
        forall|q1: int, q2: int| 0 <= q1 < q2 < r.0@.len() ==> r.0@[q1] != r.0@[q2],
        r.1@.len() * pow_int(10, r.0@.len() as nat) <= chunk@.len() * pow_int(
            9,
            r.0@.len() as nat,
        ),
        chunk@.len() > 0 && 10 * rle_apply(chunk@).len() <= 9 * chunk@.len() ==> r.0@.len() >= 1,
{
    let mut methods: Vec<u8> = Vec::new();
    let mut current = sub_vec(chunk, 0, chunk.len());
    assert(chunk@.subrange(0, chunk@.len() as int) =~= chunk@);
    let mut done = false;
    while !done && methods.len() < MAX_METHODS
        invariant
            methods@.len() <= MAX_METHODS,
            current@.len() <= chunk@.len(),
            chunk@.len() < 0x1_0000_0000,
            inverse_chain(methods@, current@) == Ok::<_, DecodeError>(chunk@),
            forall|q: int| 0 <= q < methods@.len() ==> is_strategy_flag(#[trigger] methods@[q]),
            forall|q1: int, q2: int| 0 <= q1 < q2 < methods@.len() ==> methods@[q1] != methods@[q2],
            current@.len() * pow_int(10, methods@.len() as nat) <= chunk@.len() * pow_int(
                9,
                methods@.len() as nat,
            ),
            methods@.len() == 0 ==> current@ == chunk@,
            done && methods@.len() == 0 ==> 10 * rle_apply(chunk@).len() > 9 * chunk@.len(),
        decreases MAX_METHODS - methods@.len() + (if done {
            0int
        } else {
            1int
        }),
    {
        let ghost mut rle_len: int = 0;
        let mut best: Option<(Vec<u8>, u8)> = None;
        if !has_flag(&methods, COMPRESSED_FLAG) {
            let out = compress_lz(current.as_slice());
            best = Some((out, COMPRESSED_FLAG));
        }
        if !has_flag(&methods, RLE_FLAG) {
            let out = compress_rle(current.as_slice());
            proof {
                rle_len = out@.len() as int;
            }
            let better = match best {
                Some((ref d, _)) => out.len() < d.len(),
                None => true,
            };
            if better {
                best = Some((out, RLE_FLAG));
            }
            assert(best is Some && best->Some_0.0@.len() <= rle_len);
        }
        if !has_flag(&methods, DELTA_FLAG) {
            let out = compress_delta(current.as_slice());
            let better = match best {
                Some((ref d, _)) => out.len() < d.len(),
                None => true,
            };
            if better {
                best = Some((out, DELTA_FLAG));
            }
        }
        if !has_flag(&methods, BWT_FLAG) {
            let out = compress_bwt(current.as_slice());
            if out.len() < current.len() {
                let better = match best {
                    Some((ref d, _)) => out.len() < d.len(),
                    None => true,
                };
                if better {
                    best = Some((out, BWT_FLAG));
                }
            }
        }
        proof {
            if methods@.len() == 0 {
                assert(!methods@.contains(RLE_FLAG));
                assert(best is Some && best->Some_0.0@.len() <= rle_len);
                assert(rle_len == rle_apply(chunk@).len());
            }
        }
        match best {
            None => {
                done = true;
            },
            Some((bdata, bflag)) => {
                assert(method_unapply(bflag, bdata@) == Ok::<_, DecodeError>(current@));
                assert(!methods@.contains(bflag));
                assert(is_strategy_flag(bflag));
                if (bdata.len() as u128) * 10 > (current.len() as u128) * 9 {
                    proof {
                        if methods@.len() == 0 {
                            assert(bdata@.len() <= rle_len);
                            assert(10 * rle_apply(chunk@).len() > 9 * chunk@.len());
                        }
                    }
                    done = true;
                } else {
                    let ghost old_methods = methods@;
                    let ghost old_current = current@;
                    let ghost m = methods@.len() as nat;
                    methods.push(bflag);
                    current = bdata;
                    proof {
                        assert(methods@.drop_last() =~= old_methods);
                        assert(methods@.last() == bflag);
                        assert(inverse_chain(methods@, current@) == Ok::<_, DecodeError>(
                            chunk@,
                        ));
                        assert forall|q1: int, q2: int|
                            0 <= q1 < q2 < methods@.len() implies methods@[q1] != methods@[q2] by {
                            if q2 == methods@.len() - 1 {
                                assert(old_methods[q1] == methods@[q1]);
                                assert(old_methods.contains(methods@[q1]));
                            }
                        }
                        let p10 = pow_int(10, m);
                        let p9 = pow_int(9, m);
                        lemma_pow_int_pos(10, m);
                        lemma_pow_int_pos(9, m);
                        assert(current@.len() * 10 <= old_current.len() * 9);
                        assert(pow_int(10, (m + 1) as nat) == 10 * p10);
                        assert(pow_int(9, (m + 1) as nat) == 9 * p9);
                        assert(current@.len() * (10 * p10) <= old_current.len() * (9 * p10))
                            by (nonlinear_arith)
                            requires
                                current@.len() * 10 <= old_current.len() * 9,
                                p10 >= 1,
                        ;
                        assert(old_current.len() * (9 * p10) == 9 * (old_current.len() * p10))
                            by (nonlinear_arith);
                        assert(9 * (old_current.len() * p10) <= 9 * (chunk@.len() * p9));
                        assert(chunk@.len() * (9 * p9) == 9 * (chunk@.len() * p9))
                            by (nonlinear_arith);
                    }
                }
            },
        }
    }
    (methods, current)
}

/// The number of chunks a buffer of length `len` splits into.
pub open spec fn chunk_count_of(len: nat) -> nat {
    if len == 0 {
        0
    } else {
        ((len - 1) as int / (CHUNK_SIZE as int) + 1) as nat
    }
}

/// The bytes of the `ci`-th input chunk: a full [`CHUNK_SIZE`] piece, or the
/// shorter final piece.
pub open spec fn chunk_slice(data: Seq<u8>, ci: int) -> Seq<u8> {
    let start = ci * CHUNK_SIZE;
    let end = if start + CHUNK_SIZE <= data.len() {
        start + CHUNK_SIZE
    } else {
        data.len() as int
    };
    data.subrange(start, end)
}

/// Whether run-length coding alone reaches the chain threshold on every
/// input chunk: a simple sufficient condition under which the orchestrator
/// provably beats raw storage on large enough inputs.
pub open spec fn all_chunks_rle_compressible(data: Seq<u8>) -> bool {
    forall|ci: int|
        0 <= ci < chunk_count_of(data.len() as nat) ==> 10 * rle_apply(
            #[trigger] chunk_slice(data, ci),
        ).len() <= 9 * chunk_slice(data, ci).len()
}

/// Every record in a stream of `count` records lists at most
/// [`MAX_METHODS`] method flags.
pub open spec fn records_bounded(b: Seq<u8>, count: nat) -> bool
    decreases count,
{
    count == 0 || (b.len() >= 5 && b[4] <= MAX_METHODS && records_bounded(
        b.skip(5 + b[4] as int + spec_u32_from_le_bytes(b.subrange(0, 4)) as int),
        (count - 1) as nat,
    ))
}

/// Compress `data` chunk by chunk. Either the framed result is strictly
/// smaller than the input and decodes back to it exactly, or the unchanged
/// input is handed back for raw storage. A compressed frame declares one
/// record per input chunk and the input's total size in its header, holds
/// exactly those records and nothing after them, and lists at most
/// [`MAX_METHODS`] methods per record; and whenever run-length coding alone
/// reaches the chain threshold on every chunk and the input is long enough
/// to amortize the per-chunk headers, the compressed frame is chosen.
#[verifier::rlimit(100)]
pub fn compress_chunked(data: &[u8]) -> (r: CompressionResult)
    requires
        data@.len() < 0x1_0000_0000,
    ensures
        r matches CompressionResult::Compressed(d, f) ==> {
            &&& f == CHUNKED_FLAG
            &&& chunked_unapply(d@) == Ok::<_, DecodeError>(data@)
            &&& d@.len() < data@.len()
            &&& d@.len() >= 8
            &&& d@.subrange(0, 4) == spec_u32_to_le_bytes(
                chunk_count_of(data@.len() as nat) as u32,
            )
            &&& d@.subrange(4, 8) == spec_u32_to_le_bytes(data@.len() as u32)
            &&& parse_records(d@.skip(8), chunk_count_of(data@.len() as nat)) == Ok::<
                _,
                DecodeError,
            >((data@, d@.len() - 8))
            &&& records_bounded(d@.skip(8), chunk_count_of(data@.len() as nat))
        },
        r matches CompressionResult::Uncompressed(d) ==> d@ == data@,
        all_chunks_rle_compressible(data@) && 80 + 80 * chunk_count_of(data@.len() as nat) + 9
            * data@.len() < 10 * data@.len() ==> r is Compressed,
{
    let n = data.len();
    let chunk_count: usize = if n == 0 {
        0
    } else {
        (n - 1) / CHUNK_SIZE + 1
    };
    assert(chunk_count as nat == chunk_count_of(n as nat));
    let mut out = u32_to_le_bytes(chunk_count as u32);
    let total_bytes = u32_to_le_bytes(n as u32);
    push_all(&mut out, total_bytes.as_slice());
    let ghost header = out@;
    assert(header.len() == 8);
    assert(header.subrange(0, 4) =~= spec_u32_to_le_bytes(chunk_count as u32));
    assert(header.subrange(4, 8) =~= spec_u32_to_le_bytes(n as u32));
    let mut pos: usize = 0;
    let mut chunks_done: usize = 0;
    proof {
        assert(out@.skip(8) =~= Seq::<u8>::empty());
        assert(parse_records(out@.skip(8), 0) == Ok::<_, DecodeError>((Seq::<u8>::empty(), 0int)));
        assert(Seq::<u8>::empty() + data@.subrange(0, 0) =~= data@.subrange(0, 0));
        assert(data@.subrange(0, 0) =~= Seq::<u8>::empty());
    }
    while pos < n
        invariant
            n == data@.len(),
            n < 0x1_0000_0000,
            pos <= n,
            chunks_done <= chunk_count,
            chunk_count as nat == chunk_count_of(n as nat),
            pos < n ==> pos == chunks_done * CHUNK_SIZE,
            pos == n ==> chunks_done == chunk_count,
            out@.len() >= 8,
            out@.subrange(0, 8) == header,
            parse_records(out@.skip(8), chunks_done as nat) == Ok::<_, DecodeError>(
                (data@.subrange(0, pos as int), out@.len() - 8),
            ),
            records_bounded(out@.skip(8), chunks_done as nat),
            all_chunks_rle_compressible(data@) ==> 10 * out@.len() <= 80 + 80 * chunks_done + 9
                * pos,
        decreases n - pos,
    {
        let end = if n - pos > CHUNK_SIZE {
            pos + CHUNK_SIZE
        } else {
            n
        };
        let chunk = sub_vec(data, pos, end);
        let (methods, payload) = compress_chunk(chunk.as_slice());
        let ghost pre = out@;
        let plen_bytes = u32_to_le_bytes(payload.len() as u32);
        push_all(&mut out, plen_bytes.as_slice());
        out.push(methods.len() as u8);
        push_all(&mut out, methods.as_slice());
        push_all(&mut out, payload.as_slice());
        proof {
            let rec = spec_u32_to_le_bytes(payload@.len() as u32) + seq![
                methods@.len() as u8,
            ] + methods@ + payload@;
            assert(out@ =~= pre + rec);
            let mcount = methods@.len() as int;
            let plen = payload@.len() as int;
            lemma_auto_spec_u32_to_from_le_bytes();
            assert(rec.subrange(0, 4) =~= spec_u32_to_le_bytes(payload@.len() as u32));
            assert(rec[4] == methods@.len() as u8);
            assert(rec.len() == 5 + mcount + plen);
            assert(rec.subrange(5, 5 + mcount) =~= methods@);
            assert(rec.subrange(5 + mcount, 5 + mcount + plen) =~= payload@);
            assert(rec.skip(5 + mcount + plen) =~= Seq::<u8>::empty());
            assert(parse_records(Seq::<u8>::empty(), 0) == Ok::<_, DecodeError>(
                (Seq::<u8>::empty(), 0int),
            ));
            let chunk_seq = data@.subrange(pos as int, end as int);
            assert(inverse_chain(methods@, payload@) == Ok::<_, DecodeError>(chunk_seq));
            assert(chunk_seq + Seq::<u8>::empty() =~= chunk_seq);
            assert(parse_records(rec, 1) == Ok::<_, DecodeError>((chunk_seq, rec.len() as int)));
            assert(pre.skip(8).len() == pre.len() - 8);
            assert((pre + rec).skip(8) =~= pre.skip(8) + rec);
            assert(rec[4] <= MAX_METHODS);
            lemma_parse_records_snoc(pre.skip(8), chunks_done as nat, rec, chunk_seq);
            assert(data@.subrange(0, pos as int) + chunk_seq =~= data@.subrange(0, end as int));
            assert(out@.subrange(0, 8) =~= pre.subrange(0, 8));
            if all_chunks_rle_compressible(data@) {
                assert(chunks_done < chunk_count) by (nonlinear_arith)
                    requires
                        CHUNK_SIZE == 32768,
                        pos == chunks_done * CHUNK_SIZE,
                        pos < n,
                        chunks_done >= 0,
                        chunk_count == (n - 1) / (CHUNK_SIZE as int) + 1,
                ;
                assert(chunk_slice(data@, chunks_done as int) =~= chunk_seq);
                assert(10 * rle_apply(chunk_seq).len() <= 9 * chunk_seq.len());
                assert(chunk_seq.len() > 0);
                assert(methods@.len() >= 1);
                lemma_geometric_step(
                    payload@.len() as int,
                    chunk_seq.len() as int,
                    methods@.len() as nat,
                );
                assert(10 * payload@.len() <= 9 * chunk_seq.len());
                assert(10 * out@.len() <= 80 + 80 * (chunks_done + 1) + 9 * end);
            }
        }
        proof {
            if end < n {
                assert(end == chunks_done * CHUNK_SIZE + CHUNK_SIZE);
                assert(end == (chunks_done + 1) * CHUNK_SIZE) by (nonlinear_arith)
                    requires
                        end == chunks_done * CHUNK_SIZE + CHUNK_SIZE,
                ;
            } else {
                assert(pos == chunks_done * CHUNK_SIZE);
                assert(n > chunks_done * CHUNK_SIZE);
                assert(n <= chunks_done * CHUNK_SIZE + CHUNK_SIZE);
                assert((n - 1) / (CHUNK_SIZE as int) == chunks_done) by (nonlinear_arith)
                    requires
                        CHUNK_SIZE == 32768,
                        n > chunks_done * CHUNK_SIZE,
                        n <= chunks_done * CHUNK_SIZE + CHUNK_SIZE,
                        chunks_done >= 0,
                ;
                assert(chunks_done + 1 == chunk_count);
            }
        }
        pos = end;
        chunks_done = chunks_done + 1;
    }
    assert(data@.subrange(0, n as int) =~= data@);
    if out.len() < n {
        proof {
            lemma_auto_spec_u32_to_from_le_bytes();
            assert(out@.subrange(0, 4) =~= out@.subrange(0, 8).subrange(0, 4));
            assert(out@.subrange(4, 8) =~= out@.subrange(0, 8).subrange(4, 8));
            assert(out@.subrange(0, 4) =~= spec_u32_to_le_bytes(chunk_count as u32));
            assert(out@.subrange(4, 8) =~= spec_u32_to_le_bytes(n as u32));
            assert(spec_u32_from_le_bytes(out@.subrange(0, 4)) == chunk_count as u32);
            assert(chunked_unapply(out@) == Ok::<_, DecodeError>(data@));
        }
        CompressionResult::Compressed(out, CHUNKED_FLAG)
    } else {
        proof {
            if all_chunks_rle_compressible(data@) && 80 + 80 * chunk_count_of(n as nat) + 9 * n
                < 10 * n {
                assert(10 * out@.len() <= 80 + 80 * chunk_count + 9 * n);
                assert(false);
            }
        }
        let copy = sub_vec(data, 0, n);
        CompressionResult::Uncompressed(copy)
    }
}

/// Decode a chunked payload: exactly [`chunked_unapply`], applying each
/// record's method inverses in reverse order and concatenating the chunks.
#[verifier::rlimit(100)]
pub fn decompress_chunked(data: &[u8]) -> (result: Result<Vec<u8>, DecodeError>)
    ensures
        lift_result(result) == chunked_unapply(data@),
{
    let n = data.len();
    if n < 8 {
        return Err(DecodeError::TruncatedInput);
    }
    let count_u32 = u32_from_le_bytes(&data[0..4]);
    let count = count_u32 as usize;
    let ghost total_records = count as nat;
    let mut out: Vec<u8> = Vec::new();
    let mut pos: usize = 8;
    let mut done: usize = 0;
    proof {
        assert(data@.subrange(0, 4) =~= data@.subrange(0, 4));
        if parse_records(data@.skip(8), total_records) is Ok {
            let p = parse_records(data@.skip(8), total_records)->Ok_0;
            assert(Seq::<u8>::empty() + p.0 =~= p.0);
        }
    }
    while done < count
        invariant
            n == data@.len(),
            8 <= pos <= n,
            done <= count,
            count == spec_u32_from_le_bytes(data@.subrange(0, 4)) as int,
            match parse_records(data@.skip(pos as int), (count - done) as nat) {
                Ok(p) => parse_records(data@.skip(8), count as nat) == Ok::<_, DecodeError>(
                    (out@ + p.0, (pos - 8) + p.1),
                ),
                Err(e) => parse_records(data@.skip(8), count as nat) == Err::<(Seq<u8>, int), _>(
                    e,
                ),
            },
        decreases count - done,
    {
        let ghost tail = data@.skip(pos as int);
        if n - pos < 5 {
            assert(tail.len() < 5);
            return Err(DecodeError::TruncatedInput);
        }
        let plen_u32 = u32_from_le_bytes(&data[pos..pos + 4]);
        let plen = plen_u32 as usize;
        let mcount = data[pos + 4] as usize;
        proof {
            assert(tail.subrange(0, 4) =~= data@.subrange(pos as int, pos as int + 4));
            assert(tail[4] == data@[pos as int + 4]);
        }
        if ((n - pos) as u64) < 5 + (mcount as u64) + (plen as u64) {
            assert(tail.len() < 5 + mcount + plen);
            return Err(DecodeError::TruncatedInput);
        }
        let mstart = pos + 5;
        let pstart = mstart + mcount;
        let pend = pstart + plen;
        let methods = sub_vec(data, mstart, pstart);
        let payload = sub_vec(data, pstart, pend);
        proof {
            assert(tail.subrange(5, 5 + mcount as int) =~= data@.subrange(
                mstart as int,
                pstart as int,
            ));
            assert(tail.subrange(5 + mcount as int, 5 + mcount as int + plen as int)
                =~= data@.subrange(pstart as int, pend as int));
        }
        let mut cur = payload;
        let mut mi: usize = mcount;
        proof {
            assert(methods@.take(mcount as int) =~= methods@);
        }
        while mi > 0
            invariant
                mi <= methods@.len(),
                methods@.len() == mcount,
                n == data@.len(),
                8 <= pos <= n,
                done < count,
                count == spec_u32_from_le_bytes(data@.subrange(0, 4)) as int,
                tail == data@.skip(pos as int),
                tail.len() >= 5 + mcount + plen,
                mstart == pos + 5,
                pstart == mstart + mcount,
                pend == pstart + plen,
                spec_u32_from_le_bytes(tail.subrange(0, 4)) as int == plen,
                tail[4] as int == mcount,
                methods@ == tail.subrange(5, 5 + mcount as int),
                data@.subrange(pstart as int, pend as int) == tail.subrange(
                    5 + mcount as int,
                    5 + mcount as int + plen as int,
                ),
                inverse_chain(methods@.take(mi as int), cur@) == inverse_chain(
                    methods@,
                    data@.subrange(pstart as int, pend as int),
                ),
                match parse_records(data@.skip(pos as int), (count - done) as nat) {
                    Ok(p) => parse_records(data@.skip(8), count as nat) == Ok::<_, DecodeError>(
                        (out@ + p.0, (pos - 8) + p.1),
                    ),
                    Err(e) => parse_records(data@.skip(8), count as nat) == Err::<
                        (Seq<u8>, int),
                        _,
                    >(e),
                },
            decreases mi,
        {
            let f = methods[mi - 1];
            let ghost sub = methods@.take(mi as int);
            proof {
                assert(sub.last() == f);
                assert(sub.drop_last() =~= methods@.take(mi as int - 1));
            }
            let step = if f == COMPRESSED_FLAG {
                decompress_lz_huffman(cur.as_slice())
            } else if f == RLE_FLAG {
                decompress_rle(cur.as_slice())
            } else if f == DELTA_FLAG {
                Ok(decompress_delta(cur.as_slice()))
            } else if f == BWT_FLAG {
                decompress_bwt(cur.as_slice())
            } else {
                Err(DecodeError::UnknownMethodFlag)
            };
            match step {
                Ok(prev) => {
                    assert(method_unapply(f, cur@) == Ok::<_, DecodeError>(prev@));
                    cur = prev;
                },
                Err(e) => {
                    proof {
                        assert(method_unapply(f, cur@) == Err::<Seq<u8>, _>(e));
                        assert(inverse_chain(
                            methods@,
                            data@.subrange(pstart as int, pend as int),
                        ) == Err::<Seq<u8>, _>(e));
                        assert(parse_records(tail, (count - done) as nat) == Err::<
                            (Seq<u8>, int),
                            _,
                        >(e));
                    }
                    return Err(e);
                },
            }
            mi = mi - 1;
        }
        proof {
            assert(methods@.take(0) =~= Seq::<u8>::empty());
            assert(inverse_chain(methods@, data@.subrange(pstart as int, pend as int)) == Ok::<
                _,
                DecodeError,
            >(cur@));
        }
        let ghost pre_out = out@;
        push_all(&mut out, cur.as_slice());
        proof {
            assert(tail.skip(5 + mcount as int + plen as int) =~= data@.skip(pend as int));
            if parse_records(data@.skip(pend as int), (count - done - 1) as nat) is Ok {
                let rest = parse_records(data@.skip(pend as int), (count - done - 1) as nat)->Ok_0;
                assert(parse_records(tail, (count - done) as nat) == Ok::<_, DecodeError>(
                    (cur@ + rest.0, 5 + mcount + plen + rest.1),
                ));
                assert(pre_out + (cur@ + rest.0) =~= (pre_out + cur@) + rest.0);
            }
        }
        pos = pend;
        done = done + 1;
    }
    proof {
        assert(parse_records(data@.skip(pos as int), 0) == Ok::<_, DecodeError>(
            (Seq::<u8>::empty(), 0int),
        ));
        assert(out@ + Seq::<u8>::empty() =~= out@);
    }
    Ok(out)
}

} // verus!
