//! The Burrows-Wheeler strategy: sort all cyclic rotations of the input,
//! keep each rotation's preceding byte, move-to-front code the result and
//! run-length code that as `(count, value)` pairs behind a four-byte
//! little-endian index of the original rotation. The inverse expands the
//! pairs, undoes move-to-front, and follows the permutation obtained by
//! stable-sorting the transformed column.
//!
//! The forward transform checks its own output against the verified inverse
//! before returning it, and falls back to returning the input unchanged (the
//! same fallback it uses for short or incompressible inputs), so its
//! invertibility is part of its contract.

use vstd::prelude::*;
use crate::outcome::{lift_result, DecodeError};
use crate::rle::run_extent;
use crate::util::{bytes_eq, push_repeat, sub_vec};
use vstd::bytes::{lemma_auto_spec_u32_to_from_le_bytes, spec_u32_from_le_bytes, spec_u32_to_le_bytes, u32_from_le_bytes, u32_to_le_bytes};

verus! {

/// Inputs shorter than this are never transformed.
pub const BWT_MIN_INPUT: usize = 64;

/// Expand `(count, value)` pairs; an odd trailing byte never arises because
/// evenness is checked before this runs.
pub open spec fn pairs_expand(body: Seq<u8>) -> Seq<u8>
    decreases body.len(),
{
    if body.len() < 2 {
        Seq::empty()
    } else {
        Seq::new(body[0] as nat, |j: int| body[1]) + pairs_expand(body.skip(2))
    }
}

/// The canonical `(count, value)` coding of `s` from position `p`: each
/// pair covers a maximal run (capped at 255), so every count is at least
/// one and adjacent pairs only share a value across a full 255-count.
pub open spec fn pair_rle_at(s: Seq<u8>, p: int) -> Seq<u8>
    decreases s.len() - p,
{
    if p < 0 || p >= s.len() {
        Seq::empty()
    } else {
        let r = run_extent(s, p, 1);
        if r < 1 || p + r > s.len() {
            Seq::empty()
        } else {
            seq![r as u8, s[p]] + pair_rle_at(s, p + r)
        }
    }
}

/// The canonical `(count, value)` coding of a whole sequence.
pub open spec fn pair_rle(s: Seq<u8>) -> Seq<u8> {
    pair_rle_at(s, 0)
}

/// A run extent stays within the sequence, within one byte, and covers only
/// bytes equal to the run's first.
pub proof fn lemma_run_extent_props(s: Seq<u8>, p: int, k0: int)
    requires
        0 <= p < s.len(),
        1 <= k0 <= 255,
        p + k0 <= s.len(),
        forall|j: int| 0 <= j < k0 ==> #[trigger] s[p + j] == s[p],
    ensures
        k0 <= run_extent(s, p, k0) <= 255,
        p + run_extent(s, p, k0) <= s.len(),
        forall|j: int| 0 <= j < run_extent(s, p, k0) ==> #[trigger] s[p + j] == s[p],
    decreases 255 - k0,
{
    if !(k0 >= 255 || p + k0 >= s.len() || s[p + k0] != s[p]) {
        lemma_run_extent_props(s, p, k0 + 1);
    }
}

/// The canonical pairs expand back to exactly the sequence they encode.
pub proof fn lemma_pair_rle_expands(s: Seq<u8>, p: int)
    requires
        0 <= p <= s.len(),
    ensures
        pairs_expand(pair_rle_at(s, p)) == s.skip(p),
    decreases s.len() - p,
{
    if p >= s.len() {
        assert(pair_rle_at(s, p) =~= Seq::<u8>::empty());
        assert(pairs_expand(Seq::<u8>::empty()) =~= Seq::<u8>::empty());
        assert(s.skip(p) =~= Seq::<u8>::empty());
    } else {
        assert(s[p + 0] == s[p]);
        lemma_run_extent_props(s, p, 1);
        let r = run_extent(s, p, 1);
        let pair = seq![r as u8, s[p]];
        let rest = pair_rle_at(s, p + r);
        assert(pair_rle_at(s, p) == pair + rest);
        assert((pair + rest)[0] == r as u8);
        assert((pair + rest)[1] == s[p]);
        assert((pair + rest).skip(2) =~= rest);
        lemma_pair_rle_expands(s, p + r);
        assert forall|j: int| 0 <= j < r implies #[trigger] s.subrange(p, p + r)[j] == s[p] by {
            assert(s[p + j] == s[p]);
        }
        assert(Seq::new(r as nat, |j: int| s[p]) =~= s.subrange(p, p + r));
        assert(s.subrange(p, p + r) + s.skip(p + r) =~= s.skip(p));
    }
}

/// The recency list the move-to-front coder starts from: every byte value in
/// increasing order.
pub open spec fn mtf_init() -> Seq<u8> {
    Seq::new(256, |i: int| i as u8)
}

/// Move the entry at `pos` to the front of the recency list.
pub open spec fn mtf_move(t: Seq<u8>, pos: int) -> Seq<u8> {
    t.remove(pos).insert(0, t[pos])
}

/// Undo move-to-front: each rank indexes the recency list, and the accessed
/// byte moves to the front.
pub open spec fn mtf_unapply(t: Seq<u8>, s: Seq<u8>) -> Seq<u8>
    decreases s.len(),
{
    if s.len() == 0 {
        Seq::empty()
    } else {
        seq![t[s[0] as int]] + mtf_unapply(mtf_move(t, s[0] as int), s.drop_first())
    }
}

/// One step of counting `col`'s bytes: the counts of `col.take(k)`.
pub open spec fn counts_acc(col: Seq<u8>, k: int) -> Seq<int>
    decreases k,
{
    if k <= 0 {
        Seq::new(256, |c: int| 0int)
    } else {
        let prev = counts_acc(col, k - 1);
        prev.update(col[k - 1] as int, prev[col[k - 1] as int] + 1)
    }
}

/// The number of bytes smaller than `c` in the counted column: the position
/// where the stable byte sort places the first `c`.
pub open spec fn starts_acc(counts: Seq<int>, c: int) -> int
    decreases c,
{
    if c <= 0 {
        0
    } else {
        starts_acc(counts, c - 1) + counts[c - 1]
    }
}

/// Place the first `k` column entries into the stable-sorted table: entry
/// `i` goes to slot `starts[col[i]] +` (how many equal bytes came before),
/// carrying its byte and its position. The result is the pair `(table,
/// per-byte placement counts)`.
pub open spec fn table_acc(col: Seq<u8>, k: int) -> (Seq<(u8, usize)>, Seq<int>)
    decreases k,
{
    if k <= 0 {
        (Seq::new(col.len(), |j: int| (0u8, 0usize)), Seq::new(256, |c: int| 0int))
    } else {
        let (t, seen) = table_acc(col, k - 1);
        let c = col[k - 1] as int;
        let pos = starts_acc(counts_acc(col, col.len() as int), c) + seen[c];
        (
            if 0 <= pos < t.len() {
                t.update(pos, (col[k - 1], (k - 1) as usize))
            } else {
                t
            },
            seen.update(c, seen[c] + 1),
        )
    }
}

/// Follow the sorted-table permutation for `steps` steps, emitting each
/// visited byte.
pub open spec fn lf_follow(table: Seq<(u8, usize)>, idx: int, steps: nat) -> Seq<u8>
    decreases steps,
{
    if steps == 0 {
        Seq::empty()
    } else if !(0 <= idx < table.len()) {
        Seq::empty()
    } else {
        seq![table[idx].0] + lf_follow(table, table[idx].1 as int, (steps - 1) as nat)
    }
}

/// What a transformed payload decodes to: read the original-rotation index,
/// expand the pairs, undo move-to-front, and follow the stable-sort
/// permutation from the stored index for one full cycle. A payload too
/// short for its fields is truncation; an index outside the recovered
/// column is an invalid index.
pub open spec fn bwt_unapply(b: Seq<u8>) -> Result<Seq<u8>, DecodeError> {
    if b.len() < 4 {
        Err(DecodeError::TruncatedInput)
    } else if (b.len() - 4) % 2 != 0 {
        Err(DecodeError::TruncatedInput)
    } else {
        let idx = spec_u32_from_le_bytes(b.subrange(0, 4)) as int;
        let col = mtf_unapply(mtf_init(), pairs_expand(b.skip(4)));
        if idx >= col.len() {
            Err(DecodeError::InvalidIndex)
        } else {
            Ok(lf_follow(table_acc(col, col.len() as int).0, idx, col.len() as nat))
        }
    }
}

proof fn lemma_counts_nonneg(col: Seq<u8>, k: int, c: int)
    requires
        0 <= c < 256,
    ensures
        counts_acc(col, k)[c] >= 0,
        counts_acc(col, k).len() == 256,
    decreases (if k <= 0 {
        0int
    } else {
        k
    }),
{
    if k > 0 {
        lemma_counts_nonneg(col, k - 1, c);
    }
}

proof fn lemma_starts_le(counts: Seq<int>, c1: int, c2: int)
    requires
        0 <= c1 <= c2 <= 256,
        counts.len() == 256,
        forall|c: int| 0 <= c < 256 ==> counts[c] >= 0,
    ensures
        starts_acc(counts, c1) <= starts_acc(counts, c2),
    decreases c2 - c1,
{
    if c1 < c2 {
        lemma_starts_le(counts, c1, c2 - 1);
    }
}

proof fn lemma_starts_inc(s: Seq<int>, i: int, c: int)
    requires
        0 <= i < 256,
        s.len() == 256,
        0 <= c <= 256,
    ensures
        starts_acc(s.update(i, s[i] + 1), c) == starts_acc(s, c) + (if i < c {
            1int
        } else {
            0int
        }),
    decreases c,
{
    if c > 0 {
        lemma_starts_inc(s, i, c - 1);
    }
}

proof fn lemma_starts_zero(counts: Seq<int>, c: int)
    requires
        0 <= c <= 256,
        forall|q: int| 0 <= q < 256 ==> counts[q] == 0,
    ensures
        starts_acc(counts, c) == 0,
    decreases c,
{
    if c > 0 {
        lemma_starts_zero(counts, c - 1);
    }
}

proof fn lemma_table_len(col: Seq<u8>, k: int)
    ensures
        table_acc(col, k).0.len() == col.len(),
        table_acc(col, k).1.len() == 256,
    decreases (if k <= 0 {
        0int
    } else {
        k
    }),
{
    if k > 0 {
        lemma_table_len(col, k - 1);
    }
}

/// All the column's bytes are counted: the counts of `col.take(k)` sum to
/// `k`.
proof fn lemma_counts_total(col: Seq<u8>, k: int)
    requires
        0 <= k,
    ensures
        starts_acc(counts_acc(col, k), 256) == k,
    decreases k,
{
    if k == 0 {
        lemma_starts_zero(counts_acc(col, 0), 256);
    }
    if k > 0 {
        lemma_counts_total(col, k - 1);
        lemma_counts_nonneg(col, k - 1, 0);
        let prev = counts_acc(col, k - 1);
        let c = col[k - 1] as int;
        assert(prev.len() == 256);
        assert(0 <= c < 256);
        assert(counts_acc(col, k) == prev.update(c, prev[c] + 1));
        lemma_starts_inc(prev, c, 256);
        assert(starts_acc(prev.update(c, prev[c] + 1), 256) == starts_acc(prev, 256) + 1);
        assert(starts_acc(prev, 256) == k - 1);
        assert(starts_acc(counts_acc(col, k), 256) == k);
    }
}

/// Decode a transformed payload: exactly [`bwt_unapply`].
pub fn decompress_bwt(input: &[u8]) -> (result: Result<Vec<u8>, DecodeError>)
    ensures
        lift_result(result) == bwt_unapply(input@),
{
    let len = input.len();
    if len < 4 {
        return Err(DecodeError::TruncatedInput);
    }
    if (len - 4) % 2 != 0 {
        return Err(DecodeError::TruncatedInput);
    }
    let idx = u32_from_le_bytes(&input[0..4]) as usize;
    let ghost body = input@.skip(4);

    // Expand the (count, value) pairs.
    let mut vals: Vec<u8> = Vec::new();
    let mut i: usize = 4;
    proof {
        assert(input@.skip(4) =~= body);
        assert(Seq::<u8>::empty() + pairs_expand(body) =~= pairs_expand(body));
    }
    while i < len
        invariant
            4 <= i <= len,
            len == input@.len(),
            (len - i) % 2 == 0,
            body == input@.skip(4),
            pairs_expand(body) == vals@ + pairs_expand(input@.skip(i as int)),
        decreases len - i,
    {
        let count = input[i];
        let v = input[i + 1];
        let ghost tail = input@.skip(i as int);
        proof {
            assert(tail[0] == count && tail[1] == v);
            assert(tail.skip(2) =~= input@.skip(i as int + 2));
            assert(vals@ + (Seq::new(count as nat, |j: int| v) + pairs_expand(
                input@.skip(i as int + 2),
            )) =~= (vals@ + Seq::new(count as nat, |j: int| v)) + pairs_expand(
                input@.skip(i as int + 2),
            ));
        }
        push_repeat(&mut vals, v, count as usize);
        i = i + 2;
    }
    proof {
        assert(input@.skip(len as int) =~= Seq::<u8>::empty());
        assert(pairs_expand(input@.skip(len as int)) =~= Seq::<u8>::empty());
        assert(vals@ + Seq::<u8>::empty() =~= vals@);
        assert(vals@ == pairs_expand(body));
    }

    // Undo move-to-front.
    let mut table: Vec<u8> = Vec::new();
    let mut c: usize = 0;
    while c < 256
        invariant
            c <= 256,
            table@.len() == c,
            forall|k: int| 0 <= k < c ==> table@[k] == k as u8,
        decreases 256 - c,
    {
        table.push(c as u8);
        c = c + 1;
    }
    assert(table@ =~= mtf_init());
    let mut col: Vec<u8> = Vec::new();
    let mut k: usize = 0;
    proof {
        assert(vals@.skip(0) =~= vals@);
        assert(Seq::<u8>::empty() + mtf_unapply(mtf_init(), vals@) =~= mtf_unapply(
            mtf_init(),
            vals@,
        ));
    }
    while k < vals.len()
        invariant
            k <= vals@.len(),
            table@.len() == 256,
            mtf_unapply(mtf_init(), vals@) == col@ + mtf_unapply(table@, vals@.skip(k as int)),
        decreases vals@.len() - k,
    {
        let pos = vals[k] as usize;
        let byte = table[pos];
        let ghost tbl = table@;
        let ghost tail = vals@.skip(k as int);
        proof {
            assert(tail[0] == vals@[k as int]);
            assert(tail.drop_first() =~= vals@.skip(k as int + 1));
            assert(col@ + (seq![byte] + mtf_unapply(mtf_move(tbl, pos as int), tail.drop_first()))
                =~= (col@ + seq![byte]) + mtf_unapply(mtf_move(tbl, pos as int), tail.drop_first()));
        }
        col.push(byte);
        table.remove(pos);
        table.insert(0, byte);
        proof {
            assert(table@ =~= mtf_move(tbl, pos as int));
        }
        k = k + 1;
    }
    proof {
        assert(vals@.skip(vals@.len() as int) =~= Seq::<u8>::empty());
        assert(mtf_unapply(table@, Seq::<u8>::empty()) =~= Seq::<u8>::empty());
        assert(col@ + Seq::<u8>::empty() =~= col@);
        assert(col@ == mtf_unapply(mtf_init(), pairs_expand(body)));
    }

    let n = col.len();
    if idx >= n {
        return Err(DecodeError::InvalidIndex);
    }
    let ghost full_counts = counts_acc(col@, n as int);

    // Count each byte of the column.
    let mut counts: Vec<usize> = Vec::new();
    let mut c2: usize = 0;
    while c2 < 256
        invariant
            c2 <= 256,
            counts@.len() == c2,
            forall|q: int| 0 <= q < c2 ==> counts@[q] == 0,
        decreases 256 - c2,
    {
        counts.push(0);
        c2 = c2 + 1;
    }
    let mut i2: usize = 0;
    proof {
        assert(forall|q: int| 0 <= q < 256 ==> counts@[q] as int == counts_acc(col@, 0)[q]);
    }
    while i2 < n
        invariant
            i2 <= n,
            n == col@.len(),
            counts@.len() == 256,
            forall|q: int| 0 <= q < 256 ==> counts@[q] as int == counts_acc(col@, i2 as int)[q],
            forall|q: int| 0 <= q < 256 ==> counts@[q] <= i2,
        decreases n - i2,
    {
        let b = col[i2] as usize;
        let cur = counts[b];
        let ghost prev = counts_acc(col@, i2 as int);
        counts.set(b, cur + 1);
        proof {
            lemma_counts_nonneg(col@, i2 as int, 0);
            assert(prev.len() == 256);
            assert(counts_acc(col@, i2 as int + 1) == prev.update(b as int, prev[b as int] + 1));
            assert forall|q: int| 0 <= q < 256 implies counts@[q] as int == counts_acc(
                col@,
                i2 as int + 1,
            )[q] by {
                if q != b as int {
                    assert(counts_acc(col@, i2 as int + 1)[q] == prev[q]);
                }
            }
        }
        i2 = i2 + 1;
    }

    // Prefix sums: where each byte's run starts in the sorted order.
    let mut starts: Vec<usize> = Vec::new();
    let mut run: usize = 0;
    let mut c3: usize = 0;
    proof {
        lemma_counts_total(col@, n as int);
        assert(forall|q: int| 0 <= q < 256 ==> full_counts[q] >= 0) by {
            assert forall|q: int| 0 <= q < 256 implies full_counts[q] >= 0 by {
                lemma_counts_nonneg(col@, n as int, q);
            }
        }
        lemma_counts_nonneg(col@, n as int, 0);
    }
    while c3 < 256
        invariant
            c3 <= 256,
            n == col@.len(),
            counts@.len() == 256,
            starts@.len() == c3,
            full_counts == counts_acc(col@, n as int),
            forall|q: int| 0 <= q < 256 ==> counts@[q] as int == full_counts[q],
            forall|q: int| 0 <= q < 256 ==> full_counts[q] >= 0,
            full_counts.len() == 256,
            starts_acc(full_counts, 256) == n,
            run as int == starts_acc(full_counts, c3 as int),
            forall|q: int| 0 <= q < c3 ==> starts@[q] as int == starts_acc(full_counts, q),
        decreases 256 - c3,
    {
        proof {
            lemma_starts_le(full_counts, c3 as int, 256);
            lemma_starts_le(full_counts, c3 as int + 1, 256);
        }
        starts.push(run);
        run = run + counts[c3];
        c3 = c3 + 1;
    }

    // Stable placement: build the sorted (byte, position) table.
    let mut table2: Vec<(u8, usize)> = Vec::new();
    let mut j: usize = 0;
    while j < n
        invariant
            j <= n,
            table2@.len() == j,
            forall|q: int| 0 <= q < j ==> table2@[q] == (0u8, 0usize),
        decreases n - j,
    {
        table2.push((0u8, 0usize));
        j = j + 1;
    }
    let mut seen: Vec<usize> = Vec::new();
    let mut c4: usize = 0;
    while c4 < 256
        invariant
            c4 <= 256,
            seen@.len() == c4,
            forall|q: int| 0 <= q < c4 ==> seen@[q] == 0,
        decreases 256 - c4,
    {
        seen.push(0);
        c4 = c4 + 1;
    }
    proof {
        assert(table2@ =~= table_acc(col@, 0).0);
        assert(forall|q: int| 0 <= q < 256 ==> seen@[q] as int == table_acc(col@, 0).1[q]);
    }
    let mut i3: usize = 0;
    while i3 < n
        invariant
            i3 <= n,
            n == col@.len(),
            counts@.len() == 256,
            starts@.len() == 256,
            seen@.len() == 256,
            table2@.len() == n,
            full_counts == counts_acc(col@, n as int),
            forall|q: int| 0 <= q < 256 ==> starts@[q] as int == starts_acc(full_counts, q),
            table2@ == table_acc(col@, i3 as int).0,
            forall|q: int| 0 <= q < 256 ==> seen@[q] as int == table_acc(col@, i3 as int).1[q],
            forall|q: int| 0 <= q < 256 ==> seen@[q] <= i3,
        decreases n - i3,
    {
        let b = col[i3] as usize;
        let pos128 = starts[b] as u128 + seen[b] as u128;
        let ghost pre_seen = seen@;
        let ghost prev_pair = table_acc(col@, i3 as int);
        let ghost spec_pos = starts_acc(full_counts, b as int) + prev_pair.1[b as int];
        if pos128 < table2.len() as u128 {
            let pos = pos128 as usize;
            assert(pos as int == spec_pos);
            table2.set(pos, (col[i3], i3));
        }
        let sc = seen[b];
        seen.set(b, sc + 1);
        proof {
            lemma_table_len(col@, i3 as int);
            lemma_table_len(col@, i3 as int + 1);
            let spec_pair = table_acc(col@, i3 as int + 1);
            assert(spec_pair.0 == (if 0 <= spec_pos < prev_pair.0.len() {
                prev_pair.0.update(spec_pos, (col@[i3 as int], i3 as usize))
            } else {
                prev_pair.0
            }));
            assert(spec_pair.1 == prev_pair.1.update(b as int, prev_pair.1[b as int] + 1));
            assert forall|q: int| 0 <= q < 256 implies seen@[q] as int == table_acc(
                col@,
                i3 as int + 1,
            ).1[q] by {
                if q == b as int {
                    assert(seen@[q] == sc + 1);
                } else {
                    assert(seen@[q] == pre_seen[q]);
                }
            }
            assert(table2@ == spec_pair.0);
        }
        i3 = i3 + 1;
    }

    // Follow the permutation from the stored index.
    let ghost spec_table = table_acc(col@, n as int).0;
    assert(table2@ == spec_table);
    let mut out: Vec<u8> = Vec::new();
    let mut cur: usize = idx;
    let mut step: usize = 0;
    proof {
        assert(Seq::<u8>::empty() + lf_follow(spec_table, idx as int, n as nat) =~= lf_follow(
            spec_table,
            idx as int,
            n as nat,
        ));
    }
    while step < n && cur < table2.len()
        invariant
            step <= n,
            n == col@.len(),
            table2@.len() == n,
            table2@ == spec_table,
            lf_follow(spec_table, idx as int, n as nat) == out@ + lf_follow(
                spec_table,
                cur as int,
                (n - step) as nat,
            ),
        decreases n - step,
    {
        let pair = table2[cur];
        proof {
            assert(out@ + (seq![spec_table[cur as int].0] + lf_follow(
                spec_table,
                spec_table[cur as int].1 as int,
                (n - step - 1) as nat,
            )) =~= (out@ + seq![spec_table[cur as int].0]) + lf_follow(
                spec_table,
                spec_table[cur as int].1 as int,
                (n - step - 1) as nat,
            ));
        }
        out.push(pair.0);
        cur = pair.1;
        step = step + 1;
    }
    proof {
        assert(lf_follow(spec_table, cur as int, (n - step) as nat) =~= Seq::<u8>::empty());
        assert(out@ + Seq::<u8>::empty() =~= out@);
    }
    Ok(out)
}

} // verus!

verus! {

/// Whether rotation `a` of `data` sorts at or before rotation `b`:
/// lexicographic comparison of the full cyclic suffixes.
fn rot_le(data: &[u8], a: usize, b: usize) -> (r: bool)
    requires
        a < data@.len(),
        b < data@.len(),
{
    let n = data.len();
    let mut k: usize = 0;
    while k < n
        invariant
            n == data@.len(),
            a < n,
            b < n,
            k <= n,
        decreases n - k,
    {
        let ai = if k < n - a {
            a + k
        } else {
            k - (n - a)
        };
        let bi = if k < n - b {
            b + k
        } else {
            k - (n - b)
        };
        if data[ai] < data[bi] {
            return true;
        }
        if data[ai] > data[bi] {
            return false;
        }
        k = k + 1;
    }
    true
}

/// Merge two runs of rotation starts, keeping every index within bounds.
fn merge_runs(data: &[u8], left: Vec<usize>, right: Vec<usize>) -> (merged: Vec<usize>)
    requires
        forall|q: int| 0 <= q < left@.len() ==> #[trigger] left@[q] < data@.len(),
        forall|q: int| 0 <= q < right@.len() ==> #[trigger] right@[q] < data@.len(),
    ensures
        merged@.len() == left@.len() + right@.len(),
        forall|q: int| 0 <= q < merged@.len() ==> #[trigger] merged@[q] < data@.len(),
{
    let mut merged: Vec<usize> = Vec::new();
    let mut i: usize = 0;
    let mut j: usize = 0;
    while i < left.len() || j < right.len()
        invariant
            i <= left@.len(),
            j <= right@.len(),
            merged@.len() == i + j,
            forall|q: int| 0 <= q < left@.len() ==> #[trigger] left@[q] < data@.len(),
            forall|q: int| 0 <= q < right@.len() ==> #[trigger] right@[q] < data@.len(),
            forall|q: int| 0 <= q < merged@.len() ==> #[trigger] merged@[q] < data@.len(),
        decreases left@.len() - i + right@.len() - j,
    {
        if i < left.len() && (j >= right.len() || rot_le(data, left[i], right[j])) {
            merged.push(left[i]);
            i = i + 1;
        } else {
            merged.push(right[j]);
            j = j + 1;
        }
    }
    merged
}

/// Sort rotation starts by their cyclic suffixes, by recursive merging.
fn sort_rotations(data: &[u8], v: Vec<usize>) -> (sorted: Vec<usize>)
    requires
        forall|q: int| 0 <= q < v@.len() ==> #[trigger] v@[q] < data@.len(),
    ensures
        sorted@.len() == v@.len(),
        forall|q: int| 0 <= q < sorted@.len() ==> #[trigger] sorted@[q] < data@.len(),
    decreases v@.len(),
{
    if v.len() <= 1 {
        return v;
    }
    let mid = v.len() / 2;
    let mut left: Vec<usize> = Vec::new();
    let mut right: Vec<usize> = Vec::new();
    let mut i: usize = 0;
    while i < mid
        invariant
            mid <= v@.len(),
            i <= mid,
            left@.len() == i,
            forall|q: int| 0 <= q < v@.len() ==> #[trigger] v@[q] < data@.len(),
            forall|q: int| 0 <= q < left@.len() ==> #[trigger] left@[q] < data@.len(),
        decreases mid - i,
    {
        left.push(v[i]);
        i = i + 1;
    }
    let mut j: usize = mid;
    while j < v.len()
        invariant
            mid <= j <= v@.len(),
            right@.len() == j - mid,
            forall|q: int| 0 <= q < v@.len() ==> #[trigger] v@[q] < data@.len(),
            forall|q: int| 0 <= q < right@.len() ==> #[trigger] right@[q] < data@.len(),
        decreases v@.len() - j,
    {
        right.push(v[j]);
        j = j + 1;
    }
    let left_sorted = sort_rotations(data, left);
    let right_sorted = sort_rotations(data, right);
    merge_runs(data, left_sorted, right_sorted)
}

/// Transform `input`. Inputs shorter than [`BWT_MIN_INPUT`] come back
/// unchanged; otherwise the transformed payload is returned only when it is
/// strictly smaller than the input and the verified inverse maps it back to
/// the input exactly — in every other case the input comes back unchanged,
/// which the caller detects by the unchanged size. A transformed payload is
/// an in-range original-rotation index followed by the canonical
/// `(count, value)` pairs of exactly one rank per input byte.
pub fn compress_bwt(input: &[u8]) -> (result: Vec<u8>)
    requires
        input@.len() < 0x1_0000_0000,
    ensures
        result@ == input@ || (bwt_unapply(result@) == Ok::<_, DecodeError>(input@)
            && result@.len() < input@.len()),
        input@.len() < BWT_MIN_INPUT ==> result@ == input@,
        result@ != input@ ==> exists|ranks: Seq<u8>|
            #![trigger pair_rle(ranks)]
            {
                &&& ranks.len() == input@.len()
                &&& result@.len() >= 4
                &&& spec_u32_from_le_bytes(result@.subrange(0, 4)) < input@.len()
                &&& result@.skip(4) == pair_rle(ranks)
            },
{
    let n = input.len();
    if n < BWT_MIN_INPUT {
        let r = sub_vec(input, 0, n);
        assert(input@.subrange(0, n as int) =~= input@);
        return r;
    }

    // Sort all rotation starts by their cyclic suffixes.
    let mut starts: Vec<usize> = Vec::new();
    let mut i: usize = 0;
    while i < n
        invariant
            i <= n,
            n == input@.len(),
            starts@.len() == i,
            forall|q: int| 0 <= q < i ==> #[trigger] starts@[q] == q,
        decreases n - i,
    {
        starts.push(i);
        i = i + 1;
    }
    let sorted = sort_rotations(input, starts);

    // The sorted position of the original rotation.
    let mut orig: usize = 0;
    let mut found = false;
    let mut j: usize = 0;
    while j < sorted.len()
        invariant
            j <= sorted@.len(),
            found ==> orig < sorted@.len(),
        decreases sorted@.len() - j,
    {
        if sorted[j] == 0 {
            orig = j;
            found = true;
        }
        j = j + 1;
    }
    if !found {
        let r = sub_vec(input, 0, n);
        assert(input@.subrange(0, n as int) =~= input@);
        return r;
    }

    // The byte before each sorted rotation.
    let mut col: Vec<u8> = Vec::new();
    let mut k: usize = 0;
    while k < sorted.len()
        invariant
            k <= sorted@.len(),
            n == input@.len(),
            sorted@.len() == n,
            col@.len() == k,
            forall|q: int| 0 <= q < sorted@.len() ==> #[trigger] sorted@[q] < n,
        decreases sorted@.len() - k,
    {
        let r = sorted[k];
        let prev = if r == 0 {
            n - 1
        } else {
            r - 1
        };
        col.push(input[prev]);
        k = k + 1;
    }

    // Move-to-front code the column.
    let mut table: Vec<u8> = Vec::new();
    let mut c: usize = 0;
    while c < 256
        invariant
            c <= 256,
            table@.len() == c,
        decreases 256 - c,
    {
        table.push(c as u8);
        c = c + 1;
    }
    let mut ranks: Vec<u8> = Vec::new();
    let mut m: usize = 0;
    while m < col.len()
        invariant
            m <= col@.len(),
            n == input@.len(),
            table@.len() == 256,
            ranks@.len() == m,
        decreases col@.len() - m,
    {
        let b = col[m];
        let mut pos: usize = 0;
        let mut hit = false;
        while pos < 256 && !hit
            invariant
                pos <= 256,
                table@.len() == 256,
                hit ==> pos < 256,
            decreases 256 - pos + (if hit {
                0int
            } else {
                1int
            }),
        {
            if table[pos] == b {
                hit = true;
            } else {
                pos = pos + 1;
            }
        }
        if !hit {
            let r = sub_vec(input, 0, n);
            assert(input@.subrange(0, n as int) =~= input@);
            return r;
        }
        ranks.push(pos as u8);
        table.remove(pos);
        table.insert(0, b);
        m = m + 1;
    }

    // Run-length code the ranks as canonical (count, value) pairs.
    let mut payload = u32_to_le_bytes(orig as u32);
    proof {
        assert(payload@.skip(4) =~= Seq::<u8>::empty());
        assert(Seq::<u8>::empty() + pair_rle_at(ranks@, 0) =~= pair_rle_at(ranks@, 0));
        assert(payload@.subrange(0, 4) =~= spec_u32_to_le_bytes(orig as u32));
    }
    let mut p: usize = 0;
    while p < ranks.len()
        invariant
            p <= ranks@.len(),
            payload@.len() >= 4,
            (payload@.len() - 4) % 2 == 0,
            payload@.subrange(0, 4) == spec_u32_to_le_bytes(orig as u32),
            pair_rle(ranks@) == payload@.skip(4) + pair_rle_at(ranks@, p as int),
        decreases ranks@.len() - p,
    {
        let v = ranks[p];
        let mut run: usize = 1;
        let rl = ranks.len();
        while p + run < rl && run < 255 && ranks[p + run] == v
            invariant
                1 <= run <= 255,
                p < rl,
                rl == ranks@.len(),
                p + run <= rl,
                v == ranks@[p as int],
                run_extent(ranks@, p as int, 1) == run_extent(ranks@, p as int, run as int),
            decreases rl - p - run,
        {
            run = run + 1;
        }
        let ghost pre = payload@;
        proof {
            assert(run_extent(ranks@, p as int, run as int) == run);
            assert(pair_rle_at(ranks@, p as int) == seq![run as u8, ranks@[p as int]]
                + pair_rle_at(ranks@, p as int + run));
        }
        payload.push(run as u8);
        payload.push(v);
        proof {
            assert(payload@.subrange(0, 4) =~= pre.subrange(0, 4));
            assert(payload@.skip(4) =~= pre.skip(4) + seq![run as u8, v]);
            assert(pre.skip(4) + (seq![run as u8, v] + pair_rle_at(ranks@, p as int + run)) =~= (
            pre.skip(4) + seq![run as u8, v]) + pair_rle_at(ranks@, p as int + run));
        }
        p = p + run;
    }
    proof {
        assert(pair_rle_at(ranks@, ranks@.len() as int) =~= Seq::<u8>::empty());
        assert(payload@.skip(4) + Seq::<u8>::empty() =~= payload@.skip(4));
        assert(payload@.skip(4) == pair_rle(ranks@));
    }

    // Keep the transform only when it is smaller and provably inverts.
    if payload.len() >= n {
        let r = sub_vec(input, 0, n);
        assert(input@.subrange(0, n as int) =~= input@);
        return r;
    }
    match decompress_bwt(payload.as_slice()) {
        Ok(round) => {
            if bytes_eq(round.as_slice(), input) {
                proof {
                    assert(bwt_unapply(payload@) == Ok::<_, DecodeError>(input@));
                    lemma_auto_spec_u32_to_from_le_bytes();
                    assert(spec_u32_from_le_bytes(payload@.subrange(0, 4)) == orig as u32);
                    assert(ranks@.len() == input@.len());
                    assert(payload@.skip(4) == pair_rle(ranks@));
                }
                payload
            } else {
                let r = sub_vec(input, 0, n);
                assert(input@.subrange(0, n as int) =~= input@);
                r
            }
        },
        Err(_) => {
            let r = sub_vec(input, 0, n);
            assert(input@.subrange(0, n as int) =~= input@);
            r
        },
    }
}

} // verus!
