//! Messages as bit vectors: one bit per ring coefficient, most significant
//! bit of each byte first.

use vstd::prelude::*;

verus! {

/// The weight of bit `p` of a byte, counting from the most significant.
pub open spec fn bit_weight(p: int) -> int {
    if p == 0 {
        128
    } else if p == 1 {
        64
    } else if p == 2 {
        32
    } else if p == 3 {
        16
    } else if p == 4 {
        8
    } else if p == 5 {
        4
    } else if p == 6 {
        2
    } else {
        1
    }
}

/// Bit `p` of `byte`, counting from the most significant.
pub open spec fn bit_of(byte: u8, p: int) -> int {
    (byte as int / bit_weight(p)) % 2
}

/// The bits of `bytes`, eight per byte, most significant first.
pub open spec fn bits_of_bytes(bytes: Seq<u8>) -> Seq<i64> {
    Seq::new(8 * bytes.len(), |k: int| bit_of(bytes[k / 8], k % 8) as i64)
}

/// The byte that eight coefficients encode: each counts for its parity.
pub open spec fn byte_of_bits(bits: Seq<i64>, at: int) -> int {
    (bits[at] as int % 2) * 128 + (bits[at + 1] as int % 2) * 64 + (bits[at + 2] as int % 2) * 32
        + (bits[at + 3] as int % 2) * 16 + (bits[at + 4] as int % 2) * 8 + (bits[at + 5] as int
        % 2) * 4 + (bits[at + 6] as int % 2) * 2 + (bits[at + 7] as int % 2)
}

/// The bytes that the first `8 * count` coefficients encode.
pub open spec fn bytes_of_bits(bits: Seq<i64>, count: nat) -> Seq<u8> {
    Seq::new(count, |b: int| byte_of_bits(bits, 8 * b) as u8)
}

/// The bits of a byte, weighted, sum to the byte.
pub proof fn lemma_byte_from_bits(x: u8)
    ensures
        bit_of(x, 0) * 128 + bit_of(x, 1) * 64 + bit_of(x, 2) * 32 + bit_of(x, 3) * 16 + bit_of(x, 4)
            * 8 + bit_of(x, 5) * 4 + bit_of(x, 6) * 2 + bit_of(x, 7) == x,
{
    let v = x as int;
    let q1 = v / 2;
    let q2 = v / 4;
    let q3 = v / 8;
    let q4 = v / 16;
    let q5 = v / 32;
    let q6 = v / 64;
    let q7 = v / 128;
    assert(q2 == q1 / 2 && q3 == q2 / 2 && q4 == q3 / 2);
    assert(q5 == q4 / 2 && q6 == q5 / 2 && q7 == q6 / 2);
    assert(q7 < 2);
    assert(v == 2 * q1 + v % 2);
    assert(q1 == 2 * q2 + q1 % 2);
    assert(q2 == 2 * q3 + q2 % 2);
    assert(q3 == 2 * q4 + q3 % 2);
    assert(q4 == 2 * q5 + q4 % 2);
    assert(q5 == 2 * q6 + q5 % 2);
    assert(q6 == 2 * q7 + q6 % 2);
}

/// Packing the bits of a byte string gives the byte string back.
pub proof fn lemma_bits_round_trip(bytes: Seq<u8>)
    ensures
        bytes_of_bits(bits_of_bytes(bytes), bytes.len()) == bytes,
{
    let bits = bits_of_bytes(bytes);
    assert forall|b: int| 0 <= b < bytes.len() implies byte_of_bits(bits, 8 * b) == bytes[b] by {
        assert forall|p: int| 0 <= p < 8 implies #[trigger] bits[8 * b + p] == bit_of(
            bytes[b],
            p,
        ) && (bits[8 * b + p] as int) % 2 == bit_of(bytes[b], p) by {
            assert((8 * b + p) / 8 == b);
            assert((8 * b + p) % 8 == p);
        }
        assert(bits[8 * b + 0] as int % 2 == bit_of(bytes[b], 0));
        assert(bits[8 * b + 1] as int % 2 == bit_of(bytes[b], 1));
        assert(bits[8 * b + 2] as int % 2 == bit_of(bytes[b], 2));
        assert(bits[8 * b + 3] as int % 2 == bit_of(bytes[b], 3));
        assert(bits[8 * b + 4] as int % 2 == bit_of(bytes[b], 4));
        assert(bits[8 * b + 5] as int % 2 == bit_of(bytes[b], 5));
        assert(bits[8 * b + 6] as int % 2 == bit_of(bytes[b], 6));
        assert(bits[8 * b + 7] as int % 2 == bit_of(bytes[b], 7));
        lemma_byte_from_bits(bytes[b]);
    }
    assert(bytes_of_bits(bits, bytes.len()) =~= bytes);
}

/// The bits of `bytes`, eight per byte, most significant first.
pub fn message_bits(bytes: &[u8]) -> (bits: Vec<i64>)
    ensures
        bits@ == bits_of_bytes(bytes@),
{
    let mut bits: Vec<i64> = Vec::new();
    let mut i: usize = 0;
    while i < bytes.len()
        invariant
            i <= bytes.len(),
            bits@.len() == 8 * i,
            forall|k: int| 0 <= k < 8 * i ==> bits@[k] == bit_of(bytes@[k / 8], k % 8) as i64,
        decreases bytes.len() - i,
    {
        let x = bytes[i];
        let ghost before = bits@;
        bits.push(((x / 128) % 2) as i64);
        bits.push(((x / 64) % 2) as i64);
        bits.push(((x / 32) % 2) as i64);
        bits.push(((x / 16) % 2) as i64);
        bits.push(((x / 8) % 2) as i64);
        bits.push(((x / 4) % 2) as i64);
        bits.push(((x / 2) % 2) as i64);
        bits.push((x % 2) as i64);
        assert forall|k: int| 0 <= k < 8 * (i + 1) implies bits@[k] == bit_of(
            bytes@[k / 8],
            k % 8,
        ) as i64 by {
            if k < 8 * i {
                assert(bits@[k] == before[k]);
            } else {
                assert(k / 8 == i as int);
            }
        }
        i += 1;
    }
    assert(bits@ =~= bits_of_bytes(bytes@));
    bits
}

/// The parity of a coefficient, as a bit.
fn parity(x: i64) -> (b: u8)
    ensures
        b == (x as int) % 2,
{
    if x % 2 == 0 {
        0
    } else {
        1
    }
}

/// The bytes that the coefficients encode, eight coefficients per byte,
/// most significant bit first; coefficients past the last whole byte are
/// ignored.
pub fn bits_to_bytes(bits: &[i64]) -> (bytes: Vec<u8>)
    ensures
        bytes@ == bytes_of_bits(bits@, (bits@.len() / 8) as nat),
{
    let count = bits.len() / 8;
    let mut bytes: Vec<u8> = Vec::new();
    let mut b: usize = 0;
    while b < count
        invariant
            count == bits@.len() / 8,
            bits@.len() <= usize::MAX,
            b <= count,
            bytes@.len() == b,
            forall|i: int| 0 <= i < b ==> bytes@[i] == byte_of_bits(bits@, 8 * i) as u8,
        decreases count - b,
    {
        assert(8 * b + 8 <= bits@.len());
        let at = 8 * b;
        let byte: u8 = parity(bits[at]) * 128 + parity(bits[at + 1]) * 64 + parity(bits[at + 2])
            * 32 + parity(bits[at + 3]) * 16 + parity(bits[at + 4]) * 8 + parity(bits[at + 5]) * 4
            + parity(bits[at + 6]) * 2 + parity(bits[at + 7]);
        bytes.push(byte);
        b += 1;
    }
    assert(bytes@ =~= bytes_of_bits(bits@, (bits@.len() / 8) as nat));
    bytes
}

} // verus!
