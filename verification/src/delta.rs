//! Byte-wise differencing: the first byte is kept, every later byte is
//! replaced by its wrapping difference from the previous input byte. The
//! transform never fails, keeps the length, and is an exact inverse pair
//! with [`decompress_delta`] for every input, including the empty one.

use vstd::prelude::*;

verus! {

/// `a + b` modulo 256.
pub open spec fn wrap_add(a: u8, b: u8) -> u8 {
    (((a as int) + (b as int)) % 256) as u8
}

/// `a - b` modulo 256.
pub open spec fn wrap_sub(a: u8, b: u8) -> u8 {
    (((a as int) - (b as int) + 256) % 256) as u8
}

/// The bytes that follow a decoded byte `prev` when the remaining deltas are
/// `rest`: a running wrapping sum.
pub open spec fn undelta_from(prev: u8, rest: Seq<u8>) -> Seq<u8>
    decreases rest.len(),
{
    if rest.len() == 0 {
        Seq::empty()
    } else {
        seq![wrap_add(prev, rest[0])] + undelta_from(wrap_add(prev, rest[0]), rest.drop_first())
    }
}

/// What a delta-coded buffer decodes to: the first byte as stored, then the
/// running wrapping sum of the deltas. Total: delta decoding cannot fail.
pub open spec fn delta_unapply(b: Seq<u8>) -> Seq<u8> {
    if b.len() == 0 {
        Seq::empty()
    } else {
        seq![b[0]] + undelta_from(b[0], b.drop_first())
    }
}

pub proof fn lemma_undelta_len(prev: u8, rest: Seq<u8>)
    ensures
        undelta_from(prev, rest).len() == rest.len(),
    decreases rest.len(),
{
    if rest.len() > 0 {
        lemma_undelta_len(wrap_add(prev, rest[0]), rest.drop_first());
    }
}

pub proof fn lemma_undelta_push(prev: u8, rest: Seq<u8>, x: u8)
    ensures
        undelta_from(prev, rest.push(x)) == undelta_from(prev, rest).push(
            wrap_add(if rest.len() == 0 { prev } else { undelta_from(prev, rest).last() }, x),
        ),
    decreases rest.len(),
{
    lemma_undelta_len(prev, rest);
    if rest.len() == 0 {
        let pushed = rest.push(x);
        assert(pushed[0] == x);
        assert(pushed.drop_first() =~= Seq::<u8>::empty());
        assert(undelta_from(wrap_add(prev, x), Seq::<u8>::empty()) =~= Seq::<u8>::empty());
        assert(undelta_from(prev, pushed) == seq![wrap_add(prev, x)] + undelta_from(
            wrap_add(prev, x),
            pushed.drop_first(),
        ));
        assert(undelta_from(prev, rest.push(x)) =~= undelta_from(prev, rest).push(
            wrap_add(prev, x),
        ));
    } else {
        let pushed = rest.push(x);
        assert(pushed[0] == rest[0]);
        assert(pushed.drop_first() =~= rest.drop_first().push(x));
        let prev2 = wrap_add(prev, rest[0]);
        lemma_undelta_push(prev2, rest.drop_first(), x);
        lemma_undelta_len(prev2, rest.drop_first());
        assert(undelta_from(prev, pushed) == seq![prev2] + undelta_from(
            prev2,
            rest.drop_first().push(x),
        ));
        assert(undelta_from(prev, rest) == seq![prev2] + undelta_from(prev2, rest.drop_first()));
        if rest.len() == 1 {
            assert(rest.drop_first().len() == 0);
            assert(undelta_from(prev2, rest.drop_first()) =~= Seq::<u8>::empty());
            assert(undelta_from(prev, rest) =~= seq![prev2]);
            assert(undelta_from(prev, rest).last() == prev2);
        } else {
            assert(undelta_from(prev, rest).last() == undelta_from(
                prev2,
                rest.drop_first(),
            ).last());
        }
        assert(undelta_from(prev, rest.push(x)) =~= undelta_from(prev, rest).push(
            wrap_add(undelta_from(prev, rest).last(), x),
        ));
    }
}

/// Decoding one more delta byte extends the decoded bytes by the wrapping sum
/// of the last decoded byte and the new delta.
pub proof fn lemma_delta_unapply_push(b: Seq<u8>, x: u8)
    requires
        b.len() >= 1,
    ensures
        delta_unapply(b).len() == b.len(),
        delta_unapply(b.push(x)) == delta_unapply(b).push(wrap_add(delta_unapply(b).last(), x)),
{
    lemma_undelta_len(b[0], b.drop_first());
    assert(b.push(x)[0] == b[0]);
    assert(b.push(x).drop_first() =~= b.drop_first().push(x));
    lemma_undelta_push(b[0], b.drop_first(), x);
    if b.len() == 1 {
        assert(delta_unapply(b).last() == b[0]);
    } else {
        assert(delta_unapply(b).last() == undelta_from(b[0], b.drop_first()).last());
    }
    assert(delta_unapply(b.push(x)) =~= delta_unapply(b).push(
        wrap_add(delta_unapply(b).last(), x),
    ));
}

/// Wrapping subtraction undoes wrapping addition.
proof fn lemma_wrap_cancel(a: u8, b: u8)
    ensures
        wrap_add(a, wrap_sub(b, a)) == b,
        wrap_sub(wrap_add(a, b), a) == b,
{
}

/// Delta-encode `data`: the first byte unchanged, then each byte's wrapping
/// difference from its predecessor. The output has the input's length,
/// the stated bytes, and decodes back to the input exactly.
pub fn compress_delta(data: &[u8]) -> (result: Vec<u8>)
    ensures
        result@.len() == data@.len(),
        data@.len() > 0 ==> result@[0] == data@[0],
        forall|k: int| 1 <= k < data@.len() ==> result@[k] == wrap_sub(data@[k], data@[k - 1]),
        delta_unapply(result@) == data@,
{
    let mut result: Vec<u8> = Vec::new();
    if data.len() == 0 {
        assert(delta_unapply(result@) =~= data@);
        return result;
    }
    result.push(data[0]);
    assert(delta_unapply(result@) =~= data@.subrange(0, 1));
    let mut i: usize = 1;
    while i < data.len()
        invariant
            1 <= i <= data@.len(),
            result@.len() == i,
            result@[0] == data@[0],
            forall|k: int| 1 <= k < i ==> result@[k] == wrap_sub(data@[k], data@[k - 1]),
            delta_unapply(result@) == data@.subrange(0, i as int),
        decreases data@.len() - i,
    {
        let prev = data[i - 1];
        let cur = data[i];
        let d = (((cur as u16) + 256 - (prev as u16)) % 256) as u8;
        assert(d == wrap_sub(cur, prev));
        proof {
            lemma_delta_unapply_push(result@, d);
            lemma_wrap_cancel(prev, cur);
            assert(delta_unapply(result@).last() == data@[i - 1]);
            assert(data@.subrange(0, i as int).push(data@[i as int]) =~= data@.subrange(
                0,
                i as int + 1,
            ));
        }
        result.push(d);
        i = i + 1;
    }
    assert(data@.subrange(0, data@.len() as int) =~= data@);
    result
}

/// Decode a delta-coded buffer: the first byte as stored, then the running
/// wrapping sum. Exactly [`delta_unapply`]; never fails.
pub fn decompress_delta(data: &[u8]) -> (result: Vec<u8>)
    ensures
        result@ == delta_unapply(data@),
        result@.len() == data@.len(),
{
    let mut result: Vec<u8> = Vec::new();
    if data.len() == 0 {
        assert(result@ =~= delta_unapply(data@));
        return result;
    }
    result.push(data[0]);
    assert(result@ =~= delta_unapply(data@.subrange(0, 1)));
    let mut i: usize = 1;
    let mut prev = data[0];
    while i < data.len()
        invariant
            1 <= i <= data@.len(),
            result@.len() == i,
            result@ == delta_unapply(data@.subrange(0, i as int)),
            prev == result@.last(),
        decreases data@.len() - i,
    {
        let next = (((prev as u16) + (data[i] as u16)) % 256) as u8;
        assert(next == wrap_add(prev, data@[i as int]));
        proof {
            let sub = data@.subrange(0, i as int);
            lemma_delta_unapply_push(sub, data@[i as int]);
            assert(sub.push(data@[i as int]) =~= data@.subrange(0, i as int + 1));
        }
        result.push(next);
        prev = next;
        i = i + 1;
    }
    assert(data@.subrange(0, data@.len() as int) =~= data@);
    proof {
        lemma_undelta_len(data@[0], data@.drop_first());
    }
    result
}

} // verus!
