//! Small byte-buffer helpers shared by the strategies and the framer.

use vstd::prelude::*;

verus! {

/// Append every byte of `src` to `dst`.
pub fn push_all(dst: &mut Vec<u8>, src: &[u8])
    ensures
        final(dst)@ == old(dst)@ + src@,
{
    let mut i: usize = 0;
    while i < src.len()
        invariant
            i <= src@.len(),
            dst@ == old(dst)@ + src@.subrange(0, i as int),
        decreases src@.len() - i,
    {
        dst.push(src[i]);
        assert(old(dst)@ + src@.subrange(0, i as int) + seq![src@[i as int]] =~= old(dst)@
            + src@.subrange(0, i as int + 1));
        i = i + 1;
    }
    assert(old(dst)@ + src@.subrange(0, src@.len() as int) =~= old(dst)@ + src@);
}

/// Append `count` copies of `v` to `dst`.
pub fn push_repeat(dst: &mut Vec<u8>, v: u8, count: usize)
    ensures
        final(dst)@ == old(dst)@ + Seq::new(count as nat, |i: int| v),
{
    let mut i: usize = 0;
    while i < count
        invariant
            i <= count,
            dst@ == old(dst)@ + Seq::new(i as nat, |j: int| v),
        decreases count - i,
    {
        dst.push(v);
        assert(old(dst)@ + Seq::new(i as nat, |j: int| v) + seq![v] =~= old(dst)@ + Seq::new(
            (i + 1) as nat,
            |j: int| v,
        ));
        i = i + 1;
    }
}

/// Append every bit of `src` to `dst`.
pub fn push_bools(dst: &mut Vec<bool>, src: &Vec<bool>)
    ensures
        final(dst)@ == old(dst)@ + src@,
{
    let mut i: usize = 0;
    while i < src.len()
        invariant
            i <= src@.len(),
            dst@ == old(dst)@ + src@.subrange(0, i as int),
        decreases src@.len() - i,
    {
        dst.push(src[i]);
        assert(old(dst)@ + src@.subrange(0, i as int) + seq![src@[i as int]] =~= old(dst)@
            + src@.subrange(0, i as int + 1));
        i = i + 1;
    }
    assert(old(dst)@ + src@.subrange(0, src@.len() as int) =~= old(dst)@ + src@);
}

/// Copy `data[start..end]` into a fresh buffer.
pub fn sub_vec(data: &[u8], start: usize, end: usize) -> (result: Vec<u8>)
    requires
        start <= end <= data@.len(),
    ensures
        result@ == data@.subrange(start as int, end as int),
{
    let mut result: Vec<u8> = Vec::new();
    let mut i: usize = start;
    while i < end
        invariant
            start <= i <= end <= data@.len(),
            result@ == data@.subrange(start as int, i as int),
        decreases end - i,
    {
        result.push(data[i]);
        assert(data@.subrange(start as int, i as int).push(data@[i as int]) =~= data@.subrange(
            start as int,
            i as int + 1,
        ));
        i = i + 1;
    }
    result
}

/// Whether two byte buffers hold the same bytes.
pub fn bytes_eq(a: &[u8], b: &[u8]) -> (result: bool)
    ensures
        result == (a@ == b@),
{
    if a.len() != b.len() {
        assert(a@.len() != b@.len());
        return false;
    }
    let mut i: usize = 0;
    while i < a.len()
        invariant
            i <= a@.len(),
            a@.len() == b@.len(),
            forall|k: int| 0 <= k < i ==> a@[k] == b@[k],
        decreases a@.len() - i,
    {
        if a[i] != b[i] {
            return false;
        }
        i = i + 1;
    }
    assert(a@ =~= b@);
    true
}

} // verus!
