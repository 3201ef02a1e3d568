//! Content hashes: BLAKE3 digests of byte strings and of integer sequences.

use vstd::prelude::*;

verus! {

/// The 32-byte BLAKE3 digest of a byte string.
pub uninterp spec fn blake3_digest(data: Seq<u8>) -> Seq<u8>;

/// Compute the BLAKE3 hash of `data`.
///
/// Trusted: calls `blake3::hash`, the crate's default hash function, and
/// copies its 32 output bytes. The contract only names that output: the same
/// bytes always hash to the same digest.
#[verifier::external_body]
pub fn compute_blake3(data: &[u8]) -> (digest: [u8; 32])
    ensures
        digest@ == blake3_digest(data@),
{
    *blake3::hash(data).as_bytes()
}

/// Whether two digests hold the same bytes.
pub fn digest_eq(a: &[u8; 32], b: &[u8; 32]) -> (same: bool)
    ensures
        same == (a@ == b@),
{
    let mut i: usize = 0;
    while i < 32
        invariant
            i <= 32,
            forall|k: int| 0 <= k < i ==> a@[k] == b@[k],
        decreases 32 - i,
    {
        if a[i] != b[i] {
            return false;
        }
        i += 1;
    }
    assert(a@ =~= b@);
    true
}

/// Whether `expected` is the BLAKE3 hash of `data`.
pub fn validate_blake3(data: &[u8], expected: &[u8; 32]) -> (ok: bool)
    ensures
        ok == (blake3_digest(data@) == expected@),
{
    let computed = compute_blake3(data);
    digest_eq(&computed, expected)
}

/// The eight little-endian bytes of an unsigned 64-bit integer.
#[verifier::opaque]
pub open spec fn u64_le_bytes(x: u64) -> Seq<u8> {
    seq![
        (x % 256) as u8,
        ((x / 0x100) % 256) as u8,
        ((x / 0x1_0000) % 256) as u8,
        ((x / 0x100_0000) % 256) as u8,
        ((x / 0x1_0000_0000) % 256) as u8,
        ((x / 0x100_0000_0000) % 256) as u8,
        ((x / 0x1_0000_0000_0000) % 256) as u8,
        ((x / 0x100_0000_0000_0000) % 256) as u8,
    ]
}

/// The unsigned integer that eight little-endian bytes encode.
#[verifier::opaque]
pub open spec fn u64_from_le_bytes(b: Seq<u8>) -> int {
    b[0] + b[1] * 0x100 + b[2] * 0x1_0000 + b[3] * 0x100_0000 + b[4] * 0x1_0000_0000 + b[5]
        * 0x100_0000_0000 + b[6] * 0x1_0000_0000_0000 + b[7] * 0x100_0000_0000_0000
}

/// The two's-complement image of a signed 64-bit integer.
pub open spec fn twos_complement(x: i64) -> u64 {
    if x >= 0 {
        x as u64
    } else {
        (x + 0x1_0000_0000_0000_0000) as u64
    }
}

/// The little-endian bytes of a sequence of signed 64-bit integers, eight per item.
pub open spec fn i64_seq_le_bytes(values: Seq<i64>) -> Seq<u8> {
    Seq::new(8 * values.len(), |k: int| u64_le_bytes(twos_complement(values[k / 8]))[k % 8])
}

/// Decoding the little-endian bytes of an integer gives the integer back.
pub proof fn lemma_u64_le_round_trip(x: u64)
    ensures
        u64_le_bytes(x).len() == 8,
        u64_from_le_bytes(u64_le_bytes(x)) == x,
{
    reveal(u64_le_bytes);
    reveal(u64_from_le_bytes);
    let q1 = x / 0x100;
    let q2 = x / 0x1_0000;
    let q3 = x / 0x100_0000;
    let q4 = x / 0x1_0000_0000;
    let q5 = x / 0x100_0000_0000;
    let q6 = x / 0x1_0000_0000_0000;
    let q7 = x / 0x100_0000_0000_0000;
    assert(q2 == q1 / 0x100);
    assert(q3 == q2 / 0x100);
    assert(q4 == q3 / 0x100);
    assert(q5 == q4 / 0x100);
    assert(q6 == q5 / 0x100);
    assert(q7 == q6 / 0x100);
    assert(q7 < 0x100);
    assert(x == q1 * 0x100 + x % 256);
    assert(q1 == q2 * 0x100 + q1 % 256);
    assert(q2 == q3 * 0x100 + q2 % 256);
    assert(q3 == q4 * 0x100 + q3 % 256);
    assert(q4 == q5 * 0x100 + q4 % 256);
    assert(q5 == q6 * 0x100 + q5 % 256);
    assert(q6 == q7 * 0x100 + q6 % 256);
}

/// Append the eight little-endian bytes of `x` to `out`.
pub fn push_u64_le(out: &mut Vec<u8>, x: u64)
    ensures
        final(out)@ == old(out)@ + u64_le_bytes(x),
{
    out.push((x % 256) as u8);
    out.push(((x / 0x100) % 256) as u8);
    out.push(((x / 0x1_0000) % 256) as u8);
    out.push(((x / 0x100_0000) % 256) as u8);
    out.push(((x / 0x1_0000_0000) % 256) as u8);
    out.push(((x / 0x100_0000_0000) % 256) as u8);
    out.push(((x / 0x1_0000_0000_0000) % 256) as u8);
    out.push(((x / 0x100_0000_0000_0000) % 256) as u8);
    reveal(u64_le_bytes);
    assert(out@ =~= old(out)@ + u64_le_bytes(x));
}

/// Read the unsigned integer stored little-endian in `bytes[at..at + 8]`.
pub fn read_u64_le(bytes: &[u8], at: usize) -> (x: u64)
    requires
        at + 8 <= bytes.len(),
    ensures
        x == u64_from_le_bytes(bytes@.subrange(at as int, at + 8)),
{
    proof {
        reveal(u64_from_le_bytes);
    }
    let b0 = bytes[at] as u64;
    let b1 = bytes[at + 1] as u64;
    let b2 = bytes[at + 2] as u64;
    let b3 = bytes[at + 3] as u64;
    let b4 = bytes[at + 4] as u64;
    let b5 = bytes[at + 5] as u64;
    let b6 = bytes[at + 6] as u64;
    let b7 = bytes[at + 7] as u64;
    b0 + b1 * 0x100 + b2 * 0x1_0000 + b3 * 0x100_0000 + b4 * 0x1_0000_0000 + b5 * 0x100_0000_0000
        + b6 * 0x1_0000_0000_0000 + b7 * 0x100_0000_0000_0000
}

/// The two's-complement image of `x`, as the machine stores it.
pub fn to_twos_complement(x: i64) -> (u: u64)
    ensures
        u == twos_complement(x),
{
    if x >= 0 {
        x as u64
    } else {
        ((x + i64::MAX) + 1) as u64 + 0x8000_0000_0000_0000
    }
}

/// The little-endian bytes of `values`, eight per item.
pub fn i64_slice_le_bytes(values: &[i64]) -> (bytes: Vec<u8>)
    ensures
        bytes@ == i64_seq_le_bytes(values@),
{
    let mut bytes: Vec<u8> = Vec::new();
    let mut i: usize = 0;
    while i < values.len()
        invariant
            i <= values.len(),
            bytes@.len() == 8 * i,
            forall|k: int|
                0 <= k < 8 * i ==> bytes@[k] == #[trigger] u64_le_bytes(
                    twos_complement(values@[k / 8]),
                )[k % 8],
        decreases values.len() - i,
    {
        let ghost before = bytes@;
        let u = to_twos_complement(values[i]);
        push_u64_le(&mut bytes, u);
        proof {
            lemma_u64_le_round_trip(u);
        }
        assert forall|k: int| 0 <= k < 8 * (i + 1) implies bytes@[k] == #[trigger] u64_le_bytes(
            twos_complement(values@[k / 8]),
        )[k % 8] by {
            if k < 8 * i {
                assert(bytes@[k] == before[k]);
            } else {
                assert(k / 8 == i as int);
                assert(bytes@[k] == u64_le_bytes(u)[k - 8 * i]);
            }
        }
        i += 1;
    }
    assert(bytes@ =~= i64_seq_le_bytes(values@));
    bytes
}

/// Checksum of a vector of residues: BLAKE3 over its little-endian bytes.
pub fn compute_crt_checksum(values: &[i64]) -> (digest: [u8; 32])
    ensures
        digest@ == blake3_digest(i64_seq_le_bytes(values@)),
{
    let bytes = i64_slice_le_bytes(values);
    compute_blake3(bytes.as_slice())
}

/// Checksum of a sequence of integers: BLAKE3 over its little-endian bytes.
pub fn integer_sequence_checksum(values: &[i64]) -> (digest: [u8; 32])
    ensures
        digest@ == blake3_digest(i64_seq_le_bytes(values@)),
{
    let bytes = i64_slice_le_bytes(values);
    compute_blake3(bytes.as_slice())
}

/// Number of windows that `rolling_checksum` hashes.
pub open spec fn rolling_count(len: int, window_size: int) -> int {
    if len > window_size {
        len - window_size + 1
    } else {
        1
    }
}

/// The `i`-th window of `data`: `window_size` bytes from `i`, cut at the end of `data`.
pub open spec fn rolling_window(data: Seq<u8>, window_size: int, i: int) -> Seq<u8> {
    if window_size <= data.len() - i {
        data.subrange(i, i + window_size)
    } else {
        data.subrange(i, data.len() as int)
    }
}

/// BLAKE3 of every window of `window_size` bytes, one per start offset.
///
/// Data no longer than the window gives one checksum, of all of it.
pub fn rolling_checksum(data: &[u8], window_size: usize) -> (checksums: Vec<[u8; 32]>)
    ensures
        checksums@.len() == rolling_count(data@.len() as int, window_size as int),
        forall|i: int|
            0 <= i < checksums@.len() ==> (#[trigger] checksums@[i])@ == blake3_digest(
                rolling_window(data@, window_size as int, i),
            ),
{
    let mut checksums: Vec<[u8; 32]> = Vec::new();
    let last: usize = if data.len() > window_size {
        data.len() - window_size
    } else {
        0
    };
    let mut i: usize = 0;
    loop
        invariant_except_break
            i <= last,
            checksums@.len() == i,
        invariant
            last == (if data@.len() > window_size {
                data@.len() - window_size
            } else {
                0
            }),
            forall|k: int|
                0 <= k < checksums@.len() ==> (#[trigger] checksums@[k])@ == blake3_digest(
                    rolling_window(data@, window_size as int, k),
                ),
        ensures
            checksums@.len() == last + 1,
        decreases last - i,
    {
        let remaining: usize = data.len() - i;
        let width: usize = if window_size < remaining {
            window_size
        } else {
            remaining
        };
        let window = vstd::slice::slice_subrange(data, i, i + width);
        let digest = compute_blake3(window);
        checksums.push(digest);
        if i == last {
            break;
        }
        i += 1;
    }
    checksums
}

/// The lower-case hexadecimal digit of a value below sixteen.
pub open spec fn hex_digit(n: int) -> char {
    if n == 0 {
        '0'
    } else if n == 1 {
        '1'
    } else if n == 2 {
        '2'
    } else if n == 3 {
        '3'
    } else if n == 4 {
        '4'
    } else if n == 5 {
        '5'
    } else if n == 6 {
        '6'
    } else if n == 7 {
        '7'
    } else if n == 8 {
        '8'
    } else if n == 9 {
        '9'
    } else if n == 10 {
        'a'
    } else if n == 11 {
        'b'
    } else if n == 12 {
        'c'
    } else if n == 13 {
        'd'
    } else if n == 14 {
        'e'
    } else {
        'f'
    }
}

/// Two lower-case hexadecimal digits per byte, high nibble first.
pub open spec fn hex_of(bytes: Seq<u8>) -> Seq<char> {
    Seq::new(
        2 * bytes.len(),
        |k: int|
            if k % 2 == 0 {
                hex_digit(bytes[k / 2] as int / 16)
            } else {
                hex_digit(bytes[k / 2] as int % 16)
            },
    )
}

fn hex_digit_char(n: u8) -> (c: char)
    requires
        n < 16,
    ensures
        c == hex_digit(n as int),
{
    match n {
        0 => '0',
        1 => '1',
        2 => '2',
        3 => '3',
        4 => '4',
        5 => '5',
        6 => '6',
        7 => '7',
        8 => '8',
        9 => '9',
        10 => 'a',
        11 => 'b',
        12 => 'c',
        13 => 'd',
        14 => 'e',
        _ => 'f',
    }
}

/// Collect characters into a `String`.
///
/// Trusted: `String::from_iter` over the characters, which keeps their order.
#[verifier::external_body]
pub(crate) fn string_from_chars(chars: &Vec<char>) -> (s: String)
    ensures
        s@ == chars@,
{
    String::from_iter(chars.iter())
}

/// Format a digest as 64 lower-case hexadecimal digits.
pub fn hash_to_hex(hash: &[u8; 32]) -> (hex: String)
    ensures
        hex@ == hex_of(hash@),
{
    let mut chars: Vec<char> = Vec::new();
    let mut i: usize = 0;
    while i < 32
        invariant
            i <= 32,
            chars@.len() == 2 * i,
            forall|k: int|
                0 <= k < 2 * i ==> chars@[k] == (if k % 2 == 0 {
                    hex_digit(hash@[k / 2] as int / 16)
                } else {
                    hex_digit(hash@[k / 2] as int % 16)
                }),
        decreases 32 - i,
    {
        let b = hash[i];
        chars.push(hex_digit_char(b / 16));
        chars.push(hex_digit_char(b % 16));
        i += 1;
    }
    assert(chars@ =~= hex_of(hash@));
    string_from_chars(&chars)
}

} // verus!
