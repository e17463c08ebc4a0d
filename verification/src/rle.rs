//! Run-length coding with literal batching. A run of at least [`MIN_RUN`]
//! equal bytes becomes `[0xFF, count, value]`; everything else is grouped
//! into `[0xFE, length, bytes...]` blocks, so the marker bytes are never
//! emitted bare and cannot collide with literal data.

use vstd::prelude::*;
use crate::outcome::{lift_result, DecodeError};

verus! {

/// Marker byte opening a `[marker, count, value]` run block.
pub const RUN_MARKER: u8 = 0xFF;

/// Marker byte opening a `[marker, length, bytes...]` literal block.
pub const LITERAL_MARKER: u8 = 0xFE;

/// Shortest run that is emitted as a run block.
pub const MIN_RUN: usize = 4;

/// Largest count or length one block can carry (stored in one byte).
pub const MAX_BLOCK: usize = 255;

/// What a run-length coded buffer decodes to. A run block expands to `count`
/// copies of its value, a literal block to its counted bytes, and any other
/// leading byte passes through as a literal; a block whose marker promises
/// more bytes than remain is reported as truncation.
pub open spec fn rle_unapply(b: Seq<u8>) -> Result<Seq<u8>, DecodeError>
    decreases b.len(),
{
    if b.len() == 0 {
        Ok(Seq::empty())
    } else if b[0] == RUN_MARKER {
        if b.len() < 3 {
            Err(DecodeError::TruncatedInput)
        } else {
            match rle_unapply(b.skip(3)) {
                Ok(rest) => Ok(Seq::new(b[1] as nat, |j: int| b[2]) + rest),
                Err(e) => Err(e),
            }
        }
    } else if b[0] == LITERAL_MARKER {
        if b.len() < 2 || b.len() < 2 + b[1] as int {
            Err(DecodeError::TruncatedInput)
        } else {
            match rle_unapply(b.skip(2 + b[1] as int)) {
                Ok(rest) => Ok(b.subrange(2, 2 + b[1] as int) + rest),
                Err(e) => Err(e),
            }
        }
    } else {
        match rle_unapply(b.skip(1)) {
            Ok(rest) => Ok(seq![b[0]] + rest),
            Err(e) => Err(e),
        }
    }
}

/// Blocks decode independently: decoding a buffer that starts with whole
/// blocks decodes those blocks and then the remainder.
pub proof fn lemma_rle_unapply_append(a: Seq<u8>, b: Seq<u8>)
    requires
        rle_unapply(a) is Ok,
    ensures
        rle_unapply(a + b) == match rle_unapply(b) {
            Ok(y) => Ok(rle_unapply(a)->Ok_0 + y),
            Err(e) => Err(e),
        },
    decreases a.len(),
{
    if a.len() == 0 {
        assert(a + b =~= b);
        if rle_unapply(b) is Ok {
            assert(rle_unapply(a)->Ok_0 + rle_unapply(b)->Ok_0 =~= rle_unapply(b)->Ok_0);
        }
    } else {
        let ab = a + b;
        assert(ab[0] == a[0]);
        if a[0] == RUN_MARKER {
            assert(a.len() >= 3);
            assert(ab.skip(3) =~= a.skip(3) + b);
            lemma_rle_unapply_append(a.skip(3), b);
            if rle_unapply(b) is Ok {
                assert(Seq::new(a[1] as nat, |j: int| a[2]) + (rle_unapply(a.skip(3))->Ok_0
                    + rle_unapply(b)->Ok_0) =~= (Seq::new(a[1] as nat, |j: int| a[2])
                    + rle_unapply(a.skip(3))->Ok_0) + rle_unapply(b)->Ok_0);
            }
        } else if a[0] == LITERAL_MARKER {
            assert(a.len() >= 2 + a[1] as int);
            let k = 2 + a[1] as int;
            assert(ab[1] == a[1]);
            assert(ab.skip(k) =~= a.skip(k) + b);
            assert(ab.subrange(2, k) =~= a.subrange(2, k));
            lemma_rle_unapply_append(a.skip(k), b);
            if rle_unapply(b) is Ok {
                assert(a.subrange(2, k) + (rle_unapply(a.skip(k))->Ok_0 + rle_unapply(b)->Ok_0)
                    =~= (a.subrange(2, k) + rle_unapply(a.skip(k))->Ok_0) + rle_unapply(
                    b,
                )->Ok_0);
            }
        } else {
            assert(ab.skip(1) =~= a.skip(1) + b);
            lemma_rle_unapply_append(a.skip(1), b);
            if rle_unapply(b) is Ok {
                assert(seq![a[0]] + (rle_unapply(a.skip(1))->Ok_0 + rle_unapply(b)->Ok_0) =~= (
                seq![a[0]] + rle_unapply(a.skip(1))->Ok_0) + rle_unapply(b)->Ok_0);
            }
        }
    }
}

/// Length of the run of equal bytes at `i`, capped at [`MAX_BLOCK`],
/// given that the first `k` bytes already matched.
pub open spec fn run_extent(d: Seq<u8>, i: int, k: int) -> int
    decreases (if k < MAX_BLOCK as int {
        MAX_BLOCK as int - k
    } else {
        0int
    }),
{
    if k >= MAX_BLOCK || i + k >= d.len() || d[i + k] != d[i] {
        k
    } else {
        run_extent(d, i, k + 1)
    }
}

/// Where the literal block that started at `start` ends, scanning from `j`:
/// at the end of the data, after [`MAX_BLOCK`] bytes, or where a run worth a
/// run block begins.
pub open spec fn lit_end(d: Seq<u8>, start: int, j: int) -> int
    decreases (if j < d.len() {
        d.len() - j
    } else {
        0int
    }),
{
    if j >= d.len() || j - start >= MAX_BLOCK || run_extent(d, j, 1) >= MIN_RUN {
        j
    } else {
        lit_end(d, start, j + 1)
    }
}

/// The canonical run-length encoding of `d` from position `i`: a maximal run
/// of at least [`MIN_RUN`] equal bytes becomes one `[0xFF, count, value]`
/// block, everything else is grouped into `[0xFE, length, bytes...]` blocks,
/// so the marker bytes are never emitted bare.
pub open spec fn rle_apply_at(d: Seq<u8>, i: int) -> Seq<u8>
    decreases d.len() - i,
{
    if i < 0 || i >= d.len() {
        Seq::empty()
    } else {
        let r = run_extent(d, i, 1);
        if r >= MIN_RUN {
            if i + r > d.len() {
                Seq::empty()
            } else {
                seq![RUN_MARKER, r as u8, d[i]] + rle_apply_at(d, i + r)
            }
        } else {
            let e = lit_end(d, i, i + 1);
            if e <= i || e > d.len() {
                Seq::empty()
            } else {
                seq![LITERAL_MARKER, (e - i) as u8] + d.subrange(i, e) + rle_apply_at(d, e)
            }
        }
    }
}

/// The canonical run-length encoding of a whole buffer.
pub open spec fn rle_apply(d: Seq<u8>) -> Seq<u8> {
    rle_apply_at(d, 0)
}

/// Length of the run of equal bytes starting at `i`, capped at [`MAX_BLOCK`]:
/// exactly [`run_extent`] from one matched byte.
fn run_len(data: &[u8], i: usize) -> (r: usize)
    requires
        i < data@.len(),
    ensures
        1 <= r <= MAX_BLOCK,
        i + r <= data@.len(),
        r == run_extent(data@, i as int, 1),
        forall|k: int| i <= k < i + r ==> data@[k] == data@[i as int],
        (r < MAX_BLOCK && i + r < data@.len()) ==> data@[i as int + r] != data@[i as int],
{
    let n = data.len();
    let mut r: usize = 1;
    while i + r < n && r < MAX_BLOCK && data[i + r] == data[i]
        invariant
            1 <= r <= MAX_BLOCK,
            i < data@.len(),
            n == data@.len(),
            i + r <= data@.len(),
            run_extent(data@, i as int, 1) == run_extent(data@, i as int, r as int),
            forall|k: int| i <= k < i + r ==> data@[k] == data@[i as int],
        decreases data@.len() - i - r,
    {
        r = r + 1;
    }
    assert(run_extent(data@, i as int, r as int) == r);
    r
}

/// Run-length encode `data`: exactly the canonical encoding [`rle_apply`],
/// which decodes back to the input exactly.
pub fn compress_rle(data: &[u8]) -> (result: Vec<u8>)
    ensures
        result@ == rle_apply(data@),
        rle_unapply(result@) == Ok::<_, DecodeError>(data@),
{
    let mut result: Vec<u8> = Vec::new();
    let mut i: usize = 0;
    proof {
        assert(result@ =~= Seq::<u8>::empty());
        assert(data@.subrange(0, 0) =~= Seq::<u8>::empty());
        assert(rle_unapply(result@) == Ok::<_, DecodeError>(data@.subrange(0, 0)));
    }
    while i < data.len()
        invariant
            i <= data@.len(),
            rle_unapply(result@) == Ok::<_, DecodeError>(data@.subrange(0, i as int)),
            rle_apply(data@) == result@ + rle_apply_at(data@, i as int),
        decreases data@.len() - i,
    {
        let ghost pre_block = result@;
        let r = run_len(data, i);
        if r >= MIN_RUN {
            let ghost pre = result@;
            result.push(RUN_MARKER);
            result.push(r as u8);
            result.push(data[i]);
            proof {
                let block = seq![RUN_MARKER, r as u8, data@[i as int]];
                assert(result@ =~= pre + block);
                assert(block.skip(3) =~= Seq::<u8>::empty());
                assert(rle_unapply(block.skip(3)) == Ok::<_, DecodeError>(Seq::<u8>::empty()));
                assert(block[1] as nat == r as nat);
                assert(rle_unapply(block) == Ok::<_, DecodeError>(
                    Seq::new(r as nat, |j: int| data@[i as int]) + Seq::<u8>::empty(),
                ));
                lemma_rle_unapply_append(pre, block);
                assert(Seq::new(r as nat, |j: int| data@[i as int]) + Seq::<u8>::empty()
                    =~= data@.subrange(i as int, i as int + r));
                assert(data@.subrange(0, i as int) + data@.subrange(i as int, i as int + r)
                    =~= data@.subrange(0, i as int + r));
                assert(rle_apply_at(data@, i as int) == block + rle_apply_at(
                    data@,
                    i as int + r,
                ));
                assert(pre_block + (block + rle_apply_at(data@, i as int + r)) =~= (pre_block
                    + block) + rle_apply_at(data@, i as int + r));
            }
            i = i + r;
        } else {
            let start = i;
            let mut j = i + 1;
            let mut stop = false;
            while !stop
                invariant
                    start < j <= data@.len(),
                    j - start <= MAX_BLOCK,
                    i == start,
                    lit_end(data@, start as int, start as int + 1) == lit_end(
                        data@,
                        start as int,
                        j as int,
                    ),
                    stop ==> lit_end(data@, start as int, j as int) == j,
                decreases data@.len() - j + (if stop { 0int } else { 1int }),
            {
                if j >= data.len() || j - start >= MAX_BLOCK {
                    stop = true;
                } else {
                    let rr = run_len(data, j);
                    if rr >= MIN_RUN {
                        stop = true;
                    } else {
                        j = j + 1;
                    }
                }
            }
            assert(j == lit_end(data@, start as int, start as int + 1));
            let n = j - start;
            let ghost pre = result@;
            result.push(LITERAL_MARKER);
            result.push(n as u8);
            crate::util::push_all(&mut result, &data[start..j]);
            proof {
                let block = seq![LITERAL_MARKER, n as u8] + data@.subrange(
                    start as int,
                    j as int,
                );
                assert(result@ =~= pre + block);
                assert(block.len() == 2 + n);
                assert(block[0] == LITERAL_MARKER && block[1] == n as u8);
                assert(block[1] as int == n);
                assert(block.skip(2 + n) =~= Seq::<u8>::empty());
                assert(rle_unapply(block.skip(2 + n)) == Ok::<_, DecodeError>(
                    Seq::<u8>::empty(),
                ));
                assert(block.subrange(2, 2 + n) =~= data@.subrange(start as int, j as int));
                assert(rle_unapply(block) == Ok::<_, DecodeError>(
                    data@.subrange(start as int, j as int) + Seq::<u8>::empty(),
                ));
                lemma_rle_unapply_append(pre, block);
                assert(data@.subrange(start as int, j as int) + Seq::<u8>::empty()
                    =~= data@.subrange(start as int, j as int));
                assert(data@.subrange(0, start as int) + data@.subrange(start as int, j as int)
                    =~= data@.subrange(0, j as int));
                assert(rle_apply_at(data@, start as int) == block + rle_apply_at(
                    data@,
                    j as int,
                ));
                assert(pre_block + (block + rle_apply_at(data@, j as int)) =~= (pre_block + block)
                    + rle_apply_at(data@, j as int));
            }
            i = j;
        }
    }
    proof {
        assert(data@.subrange(0, data@.len() as int) =~= data@);
        assert(rle_apply_at(data@, data@.len() as int) =~= Seq::<u8>::empty());
        assert(result@ + Seq::<u8>::empty() =~= result@);
    }
    result
}

/// Decode a run-length coded buffer: exactly [`rle_unapply`], reporting
/// truncation when a block promises more bytes than remain.
pub fn decompress_rle(data: &[u8]) -> (result: Result<Vec<u8>, DecodeError>)
    ensures
        lift_result(result) == rle_unapply(data@),
{
    let mut out: Vec<u8> = Vec::new();
    let mut pos: usize = 0;
    proof {
        assert(data@.skip(0) =~= data@);
        if rle_unapply(data@) is Ok {
            assert(Seq::<u8>::empty() + rle_unapply(data@)->Ok_0 =~= rle_unapply(data@)->Ok_0);
        }
    }
    while pos < data.len()
        invariant
            pos <= data@.len(),
            match rle_unapply(data@.skip(pos as int)) {
                Ok(rest) => rle_unapply(data@) == Ok::<_, DecodeError>(out@ + rest),
                Err(e) => rle_unapply(data@) == Err::<Seq<u8>, _>(e),
            },
        decreases data@.len() - pos,
    {
        let ghost tail = data@.skip(pos as int);
        assert(tail[0] == data@[pos as int]);
        let b0 = data[pos];
        if b0 == RUN_MARKER {
            if data.len() - pos < 3 {
                assert(tail.len() < 3);
                return Err(DecodeError::TruncatedInput);
            }
            let count = data[pos + 1];
            let v = data[pos + 2];
            proof {
                assert(tail[1] == count && tail[2] == v);
                assert(tail.skip(3) =~= data@.skip(pos as int + 3));
            }
            let ghost pre = out@;
            crate::util::push_repeat(&mut out, v, count as usize);
            proof {
                if rle_unapply(data@.skip(pos as int + 3)) is Ok {
                    let r2 = rle_unapply(data@.skip(pos as int + 3))->Ok_0;
                    assert(rle_unapply(tail) == Ok::<_, DecodeError>(
                        Seq::new(count as nat, |j: int| v) + r2,
                    ));
                    assert(pre + (Seq::new(count as nat, |j: int| v) + r2) =~= (pre + Seq::new(
                        count as nat,
                        |j: int| v,
                    )) + r2);
                }
            }
            pos = pos + 3;
        } else if b0 == LITERAL_MARKER {
            if data.len() - pos < 2 {
                assert(tail.len() < 2);
                return Err(DecodeError::TruncatedInput);
            }
            let n = data[pos + 1] as usize;
            assert(tail[1] as int == n);
            if data.len() - pos < 2 + n {
                assert(tail.len() < 2 + n);
                return Err(DecodeError::TruncatedInput);
            }
            proof {
                assert(tail.skip(2 + n) =~= data@.skip(pos as int + 2 + n));
                assert(tail.subrange(2, 2 + n) =~= data@.subrange(
                    pos as int + 2,
                    pos as int + 2 + n,
                ));
            }
            let ghost pre = out@;
            crate::util::push_all(&mut out, &data[pos + 2..pos + 2 + n]);
            proof {
                if rle_unapply(data@.skip(pos as int + 2 + n)) is Ok {
                    let r2 = rle_unapply(data@.skip(pos as int + 2 + n))->Ok_0;
                    assert(rle_unapply(tail) == Ok::<_, DecodeError>(
                        data@.subrange(pos as int + 2, pos as int + 2 + n) + r2,
                    ));
                    assert(pre + (data@.subrange(pos as int + 2, pos as int + 2 + n) + r2) =~= (
                    pre + data@.subrange(pos as int + 2, pos as int + 2 + n)) + r2);
                }
            }
            pos = pos + 2 + n;
        } else {
            let ghost pre = out@;
            out.push(b0);
            proof {
                assert(tail.skip(1) =~= data@.skip(pos as int + 1));
                if rle_unapply(data@.skip(pos as int + 1)) is Ok {
                    let r2 = rle_unapply(data@.skip(pos as int + 1))->Ok_0;
                    assert(rle_unapply(tail) == Ok::<_, DecodeError>(seq![tail[0]] + r2));
                    assert(pre + (seq![tail[0]] + r2) =~= (pre + seq![tail[0]]) + r2);
                    assert(pre + seq![tail[0]] =~= out@);
                }
            }
            pos = pos + 1;
        }
    }
    proof {
        assert(data@.skip(data@.len() as int) =~= Seq::<u8>::empty());
        assert(rle_unapply(Seq::<u8>::empty()) == Ok::<_, DecodeError>(Seq::<u8>::empty()));
        assert(out@ + Seq::<u8>::empty() =~= out@);
    }
    Ok(out)
}

} // verus!
