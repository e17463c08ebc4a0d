//! Bit-level packing for the entropy coder: a byte stream seen as a stream
//! of bits, least-significant bit of each byte first.

use vstd::prelude::*;

verus! {

/// The eight bits of one byte, least-significant first.
pub open spec fn byte_bits(b: u8) -> Seq<bool> {
    let n = b as int;
    seq![
        n % 2 == 1,
        n / 2 % 2 == 1,
        n / 4 % 2 == 1,
        n / 8 % 2 == 1,
        n / 16 % 2 == 1,
        n / 32 % 2 == 1,
        n / 64 % 2 == 1,
        n / 128 % 2 == 1,
    ]
}

/// The bits of a whole byte stream, in stream order.
pub open spec fn bits_of(s: Seq<u8>) -> Seq<bool>
    decreases s.len(),
{
    if s.len() == 0 {
        Seq::empty()
    } else {
        byte_bits(s[0]) + bits_of(s.drop_first())
    }
}

/// Zero-bit padding that rounds a bit count up to whole bytes.
pub open spec fn pad_len(n: nat) -> int {
    (8 - (n % 8)) % 8
}

pub proof fn lemma_bits_of_len(s: Seq<u8>)
    ensures
        bits_of(s).len() == 8 * s.len(),
    decreases s.len(),
{
    if s.len() > 0 {
        lemma_bits_of_len(s.drop_first());
    }
}

/// Bit `j` of the stream is bit `j % 8` of byte `j / 8`.
pub proof fn lemma_bits_of_index(s: Seq<u8>, j: int)
    requires
        0 <= j < 8 * s.len(),
    ensures
        bits_of(s).len() == 8 * s.len(),
        bits_of(s)[j] == byte_bits(s[j / 8])[j % 8],
    decreases s.len(),
{
    lemma_bits_of_len(s);
    if j < 8 {
        lemma_bits_of_len(s.drop_first());
    } else {
        lemma_bits_of_index(s.drop_first(), j - 8);
        assert(s.drop_first()[(j - 8) / 8] == s[j / 8]);
        assert((j - 8) % 8 == j % 8);
    }
}

/// Appending one byte appends its eight bits.
pub proof fn lemma_bits_of_push(s: Seq<u8>, b: u8)
    ensures
        bits_of(s.push(b)) == bits_of(s) + byte_bits(b),
    decreases s.len(),
{
    if s.len() == 0 {
        assert(s.push(b)[0] == b);
        assert(s.push(b).drop_first() =~= Seq::<u8>::empty());
        assert(bits_of(Seq::<u8>::empty()) =~= Seq::<bool>::empty());
        assert(bits_of(s) =~= Seq::<bool>::empty());
        assert(bits_of(s.push(b)) =~= bits_of(s) + byte_bits(b));
    } else {
        assert(s.push(b)[0] == s[0]);
        assert(s.push(b).drop_first() =~= s.drop_first().push(b));
        lemma_bits_of_push(s.drop_first(), b);
        assert(bits_of(s.push(b)) =~= bits_of(s) + byte_bits(b));
    }
}

/// Read bit `k` of byte `b`.
pub fn get_bit(b: u8, k: usize) -> (r: bool)
    requires
        k < 8,
    ensures
        r == byte_bits(b)[k as int],
{
    if k == 0 {
        b % 2 == 1
    } else if k == 1 {
        (b / 2) % 2 == 1
    } else if k == 2 {
        (b / 4) % 2 == 1
    } else if k == 3 {
        (b / 8) % 2 == 1
    } else if k == 4 {
        (b / 16) % 2 == 1
    } else if k == 5 {
        (b / 32) % 2 == 1
    } else if k == 6 {
        (b / 64) % 2 == 1
    } else {
        (b / 128) % 2 == 1
    }
}

/// Assemble one byte from its eight bits, least-significant first.
fn assemble_byte(x0: u8, x1: u8, x2: u8, x3: u8, x4: u8, x5: u8, x6: u8, x7: u8) -> (b: u8)
    requires
        x0 <= 1,
        x1 <= 1,
        x2 <= 1,
        x3 <= 1,
        x4 <= 1,
        x5 <= 1,
        x6 <= 1,
        x7 <= 1,
    ensures
        (b as int % 2 == 1 <==> x0 == 1),
        (b as int / 2 % 2 == 1 <==> x1 == 1),
        (b as int / 4 % 2 == 1 <==> x2 == 1),
        (b as int / 8 % 2 == 1 <==> x3 == 1),
        (b as int / 16 % 2 == 1 <==> x4 == 1),
        (b as int / 32 % 2 == 1 <==> x5 == 1),
        (b as int / 64 % 2 == 1 <==> x6 == 1),
        (b as int / 128 % 2 == 1 <==> x7 == 1),
{
    let b = x0 + 2 * x1 + 4 * x2 + 8 * x3 + 16 * x4 + 32 * x5 + 64 * x6 + 128 * x7;
    proof {
        assert((b % 2 == 1 <==> x0 == 1) && ((b / 2) % 2 == 1 <==> x1 == 1) && ((b / 4) % 2 == 1
            <==> x2 == 1) && ((b / 8) % 2 == 1 <==> x3 == 1) && ((b / 16) % 2 == 1 <==> x4 == 1)
            && ((b / 32) % 2 == 1 <==> x5 == 1) && ((b / 64) % 2 == 1 <==> x6 == 1) && ((b / 128)
            % 2 == 1 <==> x7 == 1)) by (bit_vector)
            requires
                x0 <= 1 && x1 <= 1 && x2 <= 1 && x3 <= 1 && x4 <= 1 && x5 <= 1 && x6 <= 1 && x7
                    <= 1 && b == x0 + 2 * x1 + 4 * x2 + 8 * x3 + 16 * x4 + 32 * x5 + 64 * x6 + 128
                    * x7,
        ;
    }
    b
}

/// Pack the bits at `bits[i..]` (at most eight of them) into one byte,
/// padding with zero bits past the end.
#[verifier::rlimit(50)]
pub fn make_byte(bits: &Vec<bool>, i: usize) -> (b: u8)
    requires
        i < bits@.len(),
    ensures
        byte_bits(b) == bits@.subrange(
            i as int,
            if i + 8 <= bits@.len() {
                i + 8
            } else {
                bits@.len() as int
            },
        ) + Seq::new(
            if i + 8 <= bits@.len() {
                0nat
            } else {
                ((i + 8) - bits@.len()) as nat
            },
            |j: int| false,
        ),
{
    let n = bits.len();
    let x0: u8 = if bits[i] {
        1
    } else {
        0
    };
    let x1: u8 = if n - i > 1 && bits[i + 1] {
        1
    } else {
        0
    };
    let x2: u8 = if n - i > 2 && bits[i + 2] {
        1
    } else {
        0
    };
    let x3: u8 = if n - i > 3 && bits[i + 3] {
        1
    } else {
        0
    };
    let x4: u8 = if n - i > 4 && bits[i + 4] {
        1
    } else {
        0
    };
    let x5: u8 = if n - i > 5 && bits[i + 5] {
        1
    } else {
        0
    };
    let x6: u8 = if n - i > 6 && bits[i + 6] {
        1
    } else {
        0
    };
    let x7: u8 = if n - i > 7 && bits[i + 7] {
        1
    } else {
        0
    };
    let b = assemble_byte(x0, x1, x2, x3, x4, x5, x6, x7);
    proof {
        let target = bits@.subrange(
            i as int,
            if i + 8 <= bits@.len() {
                i + 8
            } else {
                bits@.len() as int
            },
        ) + Seq::new(
            if i + 8 <= bits@.len() {
                0nat
            } else {
                ((i + 8) - bits@.len()) as nat
            },
            |j: int| false,
        );
        assert(target.len() == 8);
        assert(byte_bits(b).len() == 8);
        assert(byte_bits(b)[0] == target[0]);
        assert(byte_bits(b)[1] == target[1]);
        assert(byte_bits(b)[2] == target[2]);
        assert(byte_bits(b)[3] == target[3]);
        assert(byte_bits(b)[4] == target[4]);
        assert(byte_bits(b)[5] == target[5]);
        assert(byte_bits(b)[6] == target[6]);
        assert(byte_bits(b)[7] == target[7]);
        assert(byte_bits(b) =~= target);
    }
    b
}

} // verus!
