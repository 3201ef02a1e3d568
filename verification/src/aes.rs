//! AES-128: key schedule, block cipher, ECB and CBC modes, PKCS#7 padding.

use vstd::prelude::*;
use vstd::string::StringSliceAdditionalSpecFns;
use crate::entropy::random_block;

verus! {

/// The AES substitution box.
pub const AES_SBOX: [u8; 256] = [
    0x63, 0x7c, 0x77, 0x7b, 0xf2, 0x6b, 0x6f, 0xc5, 0x30, 0x01, 0x67, 0x2b, 0xfe, 0xd7, 0xab, 0x76,
    0xca, 0x82, 0xc9, 0x7d, 0xfa, 0x59, 0x47, 0xf0, 0xad, 0xd4, 0xa2, 0xaf, 0x9c, 0xa4, 0x72, 0xc0,
    0xb7, 0xfd, 0x93, 0x26, 0x36, 0x3f, 0xf7, 0xcc, 0x34, 0xa5, 0xe5, 0xf1, 0x71, 0xd8, 0x31, 0x15,
    0x04, 0xc7, 0x23, 0xc3, 0x18, 0x96, 0x05, 0x9a, 0x07, 0x12, 0x80, 0xe2, 0xeb, 0x27, 0xb2, 0x75,
    0x09, 0x83, 0x2c, 0x1a, 0x1b, 0x6e, 0x5a, 0xa0, 0x52, 0x3b, 0xd6, 0xb3, 0x29, 0xe3, 0x2f, 0x84,
    0x53, 0xd1, 0x00, 0xed, 0x20, 0xfc, 0xb1, 0x5b, 0x6a, 0xcb, 0xbe, 0x39, 0x4a, 0x4c, 0x58, 0xcf,
    0xd0, 0xef, 0xaa, 0xfb, 0x43, 0x4d, 0x33, 0x85, 0x45, 0xf9, 0x02, 0x7f, 0x50, 0x3c, 0x9f, 0xa8,
    0x51, 0xa3, 0x40, 0x8f, 0x92, 0x9d, 0x38, 0xf5, 0xbc, 0xb6, 0xda, 0x21, 0x10, 0xff, 0xf3, 0xd2,
    0xcd, 0x0c, 0x13, 0xec, 0x5f, 0x97, 0x44, 0x17, 0xc4, 0xa7, 0x7e, 0x3d, 0x64, 0x5d, 0x19, 0x73,
    0x60, 0x81, 0x4f, 0xdc, 0x22, 0x2a, 0x90, 0x88, 0x46, 0xee, 0xb8, 0x14, 0xde, 0x5e, 0x0b, 0xdb,
    0xe0, 0x32, 0x3a, 0x0a, 0x49, 0x06, 0x24, 0x5c, 0xc2, 0xd3, 0xac, 0x62, 0x91, 0x95, 0xe4, 0x79,
    0xe7, 0xc8, 0x37, 0x6d, 0x8d, 0xd5, 0x4e, 0xa9, 0x6c, 0x56, 0xf4, 0xea, 0x65, 0x7a, 0xae, 0x08,
    0xba, 0x78, 0x25, 0x2e, 0x1c, 0xa6, 0xb4, 0xc6, 0xe8, 0xdd, 0x74, 0x1f, 0x4b, 0xbd, 0x8b, 0x8a,
    0x70, 0x3e, 0xb5, 0x66, 0x48, 0x03, 0xf6, 0x0e, 0x61, 0x35, 0x57, 0xb9, 0x86, 0xc1, 0x1d, 0x9e,
    0xe1, 0xf8, 0x98, 0x11, 0x69, 0xd9, 0x8e, 0x94, 0x9b, 0x1e, 0x87, 0xe9, 0xce, 0x55, 0x28, 0xdf,
    0x8c, 0xa1, 0x89, 0x0d, 0xbf, 0xe6, 0x42, 0x68, 0x41, 0x99, 0x2d, 0x0f, 0xb0, 0x54, 0xbb, 0x16,
];

/// The inverse of the AES substitution box.
pub const INVERSE_AES_SBOX: [u8; 256] = [
    0x52, 0x09, 0x6a, 0xd5, 0x30, 0x36, 0xa5, 0x38, 0xbf, 0x40, 0xa3, 0x9e, 0x81, 0xf3, 0xd7, 0xfb,
    0x7c, 0xe3, 0x39, 0x82, 0x9b, 0x2f, 0xff, 0x87, 0x34, 0x8e, 0x43, 0x44, 0xc4, 0xde, 0xe9, 0xcb,
    0x54, 0x7b, 0x94, 0x32, 0xa6, 0xc2, 0x23, 0x3d, 0xee, 0x4c, 0x95, 0x0b, 0x42, 0xfa, 0xc3, 0x4e,
    0x08, 0x2e, 0xa1, 0x66, 0x28, 0xd9, 0x24, 0xb2, 0x76, 0x5b, 0xa2, 0x49, 0x6d, 0x8b, 0xd1, 0x25,
    0x72, 0xf8, 0xf6, 0x64, 0x86, 0x68, 0x98, 0x16, 0xd4, 0xa4, 0x5c, 0xcc, 0x5d, 0x65, 0xb6, 0x92,
    0x6c, 0x70, 0x48, 0x50, 0xfd, 0xed, 0xb9, 0xda, 0x5e, 0x15, 0x46, 0x57, 0xa7, 0x8d, 0x9d, 0x84,
    0x90, 0xd8, 0xab, 0x00, 0x8c, 0xbc, 0xd3, 0x0a, 0xf7, 0xe4, 0x58, 0x05, 0xb8, 0xb3, 0x45, 0x06,
    0xd0, 0x2c, 0x1e, 0x8f, 0xca, 0x3f, 0x0f, 0x02, 0xc1, 0xaf, 0xbd, 0x03, 0x01, 0x13, 0x8a, 0x6b,
    0x3a, 0x91, 0x11, 0x41, 0x4f, 0x67, 0xdc, 0xea, 0x97, 0xf2, 0xcf, 0xce, 0xf0, 0xb4, 0xe6, 0x73,
    0x96, 0xac, 0x74, 0x22, 0xe7, 0xad, 0x35, 0x85, 0xe2, 0xf9, 0x37, 0xe8, 0x1c, 0x75, 0xdf, 0x6e,
    0x47, 0xf1, 0x1a, 0x71, 0x1d, 0x29, 0xc5, 0x89, 0x6f, 0xb7, 0x62, 0x0e, 0xaa, 0x18, 0xbe, 0x1b,
    0xfc, 0x56, 0x3e, 0x4b, 0xc6, 0xd2, 0x79, 0x20, 0x9a, 0xdb, 0xc0, 0xfe, 0x78, 0xcd, 0x5a, 0xf4,
    0x1f, 0xdd, 0xa8, 0x33, 0x88, 0x07, 0xc7, 0x31, 0xb1, 0x12, 0x10, 0x59, 0x27, 0x80, 0xec, 0x5f,
    0x60, 0x51, 0x7f, 0xa9, 0x19, 0xb5, 0x4a, 0x0d, 0x2d, 0xe5, 0x7a, 0x9f, 0x93, 0xc9, 0x9c, 0xef,
    0xa0, 0xe0, 0x3b, 0x4d, 0xae, 0x2a, 0xf5, 0xb0, 0xc8, 0xeb, 0xbb, 0x3c, 0x83, 0x53, 0x99, 0x61,
    0x17, 0x2b, 0x04, 0x7e, 0xba, 0x77, 0xd6, 0x26, 0xe1, 0x69, 0x14, 0x63, 0x55, 0x21, 0x0c, 0x7d,
];

/// The round constants of the key schedule.
pub const RC: [u8; 11] = [0x00, 0x01, 0x02, 0x04, 0x08, 0x10, 0x20, 0x40, 0x80, 0x1B, 0x36];

/// Multiplication by `x` in GF(2^8) modulo `x^8 + x^4 + x^3 + x + 1`.
pub open spec fn xtime(a: u8) -> u8 {
    if a & 0x80 != 0 {
        ((a << 1) ^ 0x1b) as u8
    } else {
        (a << 1) as u8
    }
}

/// The product in GF(2^8) of `a` and the lowest `n` bits of `b`.
pub open spec fn gf_mul_bits(a: u8, b: u8, n: nat) -> u8
    decreases n,
{
    if n == 0 {
        0
    } else {
        (if b & 1 != 0 {
            a
        } else {
            0u8
        }) ^ gf_mul_bits(xtime(a), b >> 1, (n - 1) as nat)
    }
}

/// The product of `a` and `b` in GF(2^8).
#[verifier::opaque]
pub open spec fn gf_mul(a: u8, b: u8) -> u8 {
    gf_mul_bits(a, b, 8)
}

/// Multiplication in GF(2^8).
pub fn galois_multiplication(a: u8, b: u8) -> (p: u8)
    ensures
        p == gf_mul(a, b),
{
    let ghost a0 = a;
    let ghost b0 = b;
    let mut p: u8 = 0;
    let mut a: u8 = a;
    let mut b: u8 = b;
    let mut counter: u8 = 0;
    proof {
        reveal(gf_mul);
        let g = gf_mul_bits(a, b, 8);
        assert(0u8 ^ g == g) by (bit_vector);
    }
    while counter < 8
        invariant
            counter <= 8,
            p ^ gf_mul_bits(a, b, (8 - counter) as nat) == gf_mul(a0, b0),
        decreases 8 - counter,
    {
        let ghost rest = gf_mul_bits(xtime(a), b >> 1, (8 - counter - 1) as nat);
        let ghost term: u8 = if b & 1 != 0 {
            a
        } else {
            0
        };
        proof {
            assert(p ^ (term ^ rest) == (p ^ term) ^ rest) by (bit_vector);
            assert(p ^ 0u8 == p) by (bit_vector);
        }
        if (b & 1) != 0 {
            p ^= a;
        }
        let hi_bit_set = (a & 0x80) != 0;
        a <<= 1;
        if hi_bit_set {
            a ^= 0x1b;
        }
        b >>= 1;
        counter += 1;
    }
    assert(p ^ 0u8 == p) by (bit_vector);
    p
}

/// The table of products of every byte with `multiplier`.
pub fn generate_mul_table(multiplier: u8) -> (table: [u8; 256])
    ensures
        forall|i: int| 0 <= i < 256 ==> table[i] == gf_mul(i as u8, multiplier),
{
    let mut table = [0u8; 256];
    let mut i: usize = 0;
    while i < 256
        invariant
            i <= 256,
            forall|k: int| 0 <= k < i ==> table[k] == gf_mul(k as u8, multiplier),
        decreases 256 - i,
    {
        table[i] = galois_multiplication(i as u8, multiplier);
        i += 1;
    }
    table
}

/// The substitution of a byte: through the S-box, or through its inverse.
pub open spec fn substituted(byte: u8, encryption: bool) -> u8 {
    if encryption {
        AES_SBOX[byte as int]
    } else {
        INVERSE_AES_SBOX[byte as int]
    }
}

/// Substitute a byte using the S-box or the inverse S-box.
pub fn substitute(byte: u8, encryption: bool) -> (res: u8)
    ensures
        res == substituted(byte, encryption),
{
    if encryption {
        AES_SBOX[byte as usize]
    } else {
        INVERSE_AES_SBOX[byte as usize]
    }
}

/// Rotate a four-byte word left by one byte.
pub fn rot_word(word: &[u8; 4]) -> (res: [u8; 4])
    ensures
        res@ == seq![word[1], word[2], word[3], word[0]],
{
    let res = [word[1], word[2], word[3], word[0]];
    assert(res@ =~= seq![word[1], word[2], word[3], word[0]]);
    res
}

/// Apply the S-box to each byte of a word.
pub fn sub_word(word: &[u8; 4]) -> (res: [u8; 4])
    ensures
        forall|i: int| 0 <= i < 4 ==> res[i] == substituted(word[i], true),
{
    [
        substitute(word[0], true),
        substitute(word[1], true),
        substitute(word[2], true),
        substitute(word[3], true),
    ]
}

/// XOR two four-byte words.
pub fn xor_words(word1: &[u8; 4], word2: &[u8; 4]) -> (res: [u8; 4])
    ensures
        forall|i: int| 0 <= i < 4 ==> res[i] == word1[i] ^ word2[i],
{
    [word1[0] ^ word2[0], word1[1] ^ word2[1], word1[2] ^ word2[2], word1[3] ^ word2[3]]
}

/// Byte `j` of word `i` of the expanded key, from the words before it.
pub open spec fn schedule_byte(key: Seq<u8>, i: int, j: int) -> u8
    decreases i,
{
    if i < 0 || i >= 44 {
        0
    } else if i < 4 {
        key[4 * i + j]
    } else if i % 4 == 0 {
        let rotated = schedule_byte(key, i - 1, (j + 1) % 4);
        let rcon: u8 = if j == 0 {
            RC[i / 4]
        } else {
            0
        };
        (schedule_byte(key, i - 4, j) ^ substituted(rotated, true)) ^ rcon
    } else {
        schedule_byte(key, i - 4, j) ^ schedule_byte(key, i - 1, j)
    }
}

/// `words` is the expanded key of `key`.
pub open spec fn is_key_schedule(words: [[u8; 4]; 44], key: Seq<u8>) -> bool {
    forall|i: int, j: int|
        0 <= i < 44 && 0 <= j < 4 ==> #[trigger] words[i][j] == schedule_byte(key, i, j)
}

/// The expanded key of `key`.
pub open spec fn expanded_key_of(key: Seq<u8>) -> [[u8; 4]; 44] {
    choose|words: [[u8; 4]; 44]| is_key_schedule(words, key)
}

/// A key has one expanded key.
pub proof fn lemma_key_schedule_unique(a: [[u8; 4]; 44], b: [[u8; 4]; 44], key: Seq<u8>)
    requires
        is_key_schedule(a, key),
        is_key_schedule(b, key),
    ensures
        a == b,
{
    assert forall|i: int| 0 <= i < 44 implies a[i] == b[i] by {
        assert forall|j: int| 0 <= j < 4 implies a[i][j] == b[i][j] by {
            assert(a[i][j] == schedule_byte(key, i, j));
            assert(b[i][j] == schedule_byte(key, i, j));
        }
        assert(a[i] =~= b[i]);
    }
    assert(a =~= b);
}

/// The key schedule of AES-128: 44 words from 16 key bytes.
pub fn key_schedule_aes128(key_bytes: &[u8; 16]) -> (expanded_key: [[u8; 4]; 44])
    ensures
        is_key_schedule(expanded_key, key_bytes@),
        expanded_key == expanded_key_of(key_bytes@),
{
    let mut expanded_key = [[0u8; 4]; 44];
    let mut i: usize = 0;
    while i < 44
        invariant
            i <= 44,
            forall|r: int, j: int|
                0 <= r < i && 0 <= j < 4 ==> #[trigger] expanded_key[r][j] == schedule_byte(
                    key_bytes@,
                    r,
                    j,
                ),
        decreases 44 - i,
    {
        let word: [u8; 4] = if i < 4 {
            [key_bytes[4 * i], key_bytes[4 * i + 1], key_bytes[4 * i + 2], key_bytes[4 * i + 3]]
        } else {
            let prev = expanded_key[i - 1];
            let back = expanded_key[i - 4];
            proof {
                assert(expanded_key[i - 1][0] == schedule_byte(key_bytes@, i - 1, 0));
                assert(expanded_key[i - 1][1] == schedule_byte(key_bytes@, i - 1, 1));
                assert(expanded_key[i - 1][2] == schedule_byte(key_bytes@, i - 1, 2));
                assert(expanded_key[i - 1][3] == schedule_byte(key_bytes@, i - 1, 3));
                assert(expanded_key[i - 4][0] == schedule_byte(key_bytes@, i - 4, 0));
                assert(expanded_key[i - 4][1] == schedule_byte(key_bytes@, i - 4, 1));
                assert(expanded_key[i - 4][2] == schedule_byte(key_bytes@, i - 4, 2));
                assert(expanded_key[i - 4][3] == schedule_byte(key_bytes@, i - 4, 3));
            }
            if i % 4 == 0 {
                let mut rcon = [0u8; 4];
                rcon[0] = RC[i / 4];
                let rotated = rot_word(&prev);
                let mixed = xor_words(&back, &sub_word(&rotated));
                proof {
                    assert(rotated@[0] == prev[1] && rotated@[1] == prev[2] && rotated@[2]
                        == prev[3] && rotated@[3] == prev[0]);
                    assert forall|x: u8| #[trigger] (x ^ 0u8) == x by {
                        assert(x ^ 0u8 == x) by (bit_vector);
                    }
                }
                xor_words(&mixed, &rcon)
            } else {
                xor_words(&back, &prev)
            }
        };
        expanded_key[i] = word;
        i += 1;
    }
    proof {
        assert(is_key_schedule(expanded_key, key_bytes@));
        lemma_key_schedule_unique(expanded_key, expanded_key_of(key_bytes@), key_bytes@);
    }
    expanded_key
}

/// The state as sixteen bytes, row by row.
pub open spec fn state_seq(s: [[u8; 4]; 4]) -> Seq<u8> {
    Seq::new(16, |k: int| s[k / 4][k % 4])
}

/// `SubBytes`, or its inverse: each byte through the S-box.
pub open spec fn sub_bytes_spec(s: Seq<u8>, encryption: bool) -> Seq<u8> {
    Seq::new(16, |k: int| substituted(s[k], encryption))
}

/// `ShiftRows`: row `i` rotated left by `i`.
pub open spec fn shift_rows_spec(s: Seq<u8>) -> Seq<u8> {
    Seq::new(16, |k: int| s[4 * (k / 4) + (k % 4 + k / 4) % 4])
}

/// The inverse of `ShiftRows`: row `i` rotated right by `i`.
pub open spec fn inv_shift_rows_spec(s: Seq<u8>) -> Seq<u8> {
    Seq::new(16, |k: int| s[4 * (k / 4) + (k % 4 + 4 - k / 4) % 4])
}

/// One byte of `MixColumns`: row `r` of the column `(s0, s1, s2, s3)`.
pub open spec fn mixed_byte(r: int, s0: u8, s1: u8, s2: u8, s3: u8) -> u8 {
    if r == 0 {
        gf_mul(s0, 2) ^ gf_mul(s1, 3) ^ s2 ^ s3
    } else if r == 1 {
        s0 ^ gf_mul(s1, 2) ^ gf_mul(s2, 3) ^ s3
    } else if r == 2 {
        s0 ^ s1 ^ gf_mul(s2, 2) ^ gf_mul(s3, 3)
    } else {
        gf_mul(s0, 3) ^ s1 ^ s2 ^ gf_mul(s3, 2)
    }
}

/// One byte of the inverse of `MixColumns`.
pub open spec fn inv_mixed_byte(r: int, s0: u8, s1: u8, s2: u8, s3: u8) -> u8 {
    if r == 0 {
        gf_mul(s0, 14) ^ gf_mul(s1, 11) ^ gf_mul(s2, 13) ^ gf_mul(s3, 9)
    } else if r == 1 {
        gf_mul(s0, 9) ^ gf_mul(s1, 14) ^ gf_mul(s2, 11) ^ gf_mul(s3, 13)
    } else if r == 2 {
        gf_mul(s0, 13) ^ gf_mul(s1, 9) ^ gf_mul(s2, 14) ^ gf_mul(s3, 11)
    } else {
        gf_mul(s0, 11) ^ gf_mul(s1, 13) ^ gf_mul(s2, 9) ^ gf_mul(s3, 14)
    }
}

/// `MixColumns`: each column multiplied by the fixed matrix.
pub open spec fn mix_columns_spec(s: Seq<u8>) -> Seq<u8> {
    Seq::new(16, |k: int| mixed_byte(k / 4, s[k % 4], s[4 + k % 4], s[8 + k % 4], s[12 + k % 4]))
}

/// The inverse of `MixColumns`.
pub open spec fn inv_mix_columns_spec(s: Seq<u8>) -> Seq<u8> {
    Seq::new(
        16,
        |k: int| inv_mixed_byte(k / 4, s[k % 4], s[4 + k % 4], s[8 + k % 4], s[12 + k % 4]),
    )
}

/// `AddRoundKey`: the state XOR the four words of round `round`, column by column.
pub open spec fn add_round_key_spec(s: Seq<u8>, ks: [[u8; 4]; 44], round: int) -> Seq<u8> {
    Seq::new(16, |k: int| s[k] ^ ks[4 * round + k % 4][k / 4])
}

/// A block loaded into the state, column by column.
pub open spec fn load_spec(block: Seq<u8>) -> Seq<u8> {
    Seq::new(16, |k: int| block[4 * (k % 4) + k / 4])
}

/// The state after the initial key addition and `r` full rounds of encryption.
pub open spec fn enc_state(block: Seq<u8>, ks: [[u8; 4]; 44], r: nat) -> Seq<u8>
    decreases r,
{
    if r == 0 {
        add_round_key_spec(load_spec(block), ks, 0)
    } else {
        add_round_key_spec(
            mix_columns_spec(
                shift_rows_spec(sub_bytes_spec(enc_state(block, ks, (r - 1) as nat), true)),
            ),
            ks,
            r as int,
        )
    }
}

/// The AES-128 encryption of one block under an expanded key.
pub open spec fn encrypt_block_spec(ks: [[u8; 4]; 44], block: Seq<u8>) -> Seq<u8> {
    load_spec(
        add_round_key_spec(shift_rows_spec(sub_bytes_spec(enc_state(block, ks, 9), true)), ks, 10),
    )
}

/// The state after the initial key addition and `r` full rounds of decryption.
pub open spec fn dec_state(block: Seq<u8>, ks: [[u8; 4]; 44], r: nat) -> Seq<u8>
    decreases r,
{
    if r == 0 {
        add_round_key_spec(load_spec(block), ks, 10)
    } else {
        inv_mix_columns_spec(
            add_round_key_spec(
                sub_bytes_spec(inv_shift_rows_spec(dec_state(block, ks, (r - 1) as nat)), false),
                ks,
                10 - r,
            ),
        )
    }
}

/// The AES-128 decryption of one block under an expanded key.
pub open spec fn decrypt_block_spec(ks: [[u8; 4]; 44], block: Seq<u8>) -> Seq<u8> {
    load_spec(
        add_round_key_spec(sub_bytes_spec(inv_shift_rows_spec(dec_state(block, ks, 9)), false), ks, 0),
    )
}

/// The state that holds `f(k)` at flat position `k`.
fn state_from(v: &[u8; 16]) -> (s: [[u8; 4]; 4])
    ensures
        state_seq(s) == v@,
{
    let s = [
        [v[0], v[1], v[2], v[3]],
        [v[4], v[5], v[6], v[7]],
        [v[8], v[9], v[10], v[11]],
        [v[12], v[13], v[14], v[15]],
    ];
    assert(state_seq(s) =~= v@);
    s
}

/// The sixteen bytes of a state, row by row.
fn state_bytes(s: &[[u8; 4]; 4]) -> (v: [u8; 16])
    ensures
        v@ == state_seq(*s),
{
    let v = [
        s[0][0],
        s[0][1],
        s[0][2],
        s[0][3],
        s[1][0],
        s[1][1],
        s[1][2],
        s[1][3],
        s[2][0],
        s[2][1],
        s[2][2],
        s[2][3],
        s[3][0],
        s[3][1],
        s[3][2],
        s[3][3],
    ];
    assert(v@ =~= state_seq(*s));
    v
}

/// Add the key of round `round` to the state.
pub fn add_round_key(state: &mut [[u8; 4]; 4], expanded_key: &[[u8; 4]; 44], round: usize)
    requires
        round <= 10,
    ensures
        state_seq(*final(state)) == add_round_key_spec(
            state_seq(*old(state)),
            *expanded_key,
            round as int,
        ),
{
    let o = state_bytes(state);
    let k0 = expanded_key[4 * round];
    let k1 = expanded_key[4 * round + 1];
    let k2 = expanded_key[4 * round + 2];
    let k3 = expanded_key[4 * round + 3];
    let n: [u8; 16] = [
        o[0] ^ k0[0],
        o[1] ^ k1[0],
        o[2] ^ k2[0],
        o[3] ^ k3[0],
        o[4] ^ k0[1],
        o[5] ^ k1[1],
        o[6] ^ k2[1],
        o[7] ^ k3[1],
        o[8] ^ k0[2],
        o[9] ^ k1[2],
        o[10] ^ k2[2],
        o[11] ^ k3[2],
        o[12] ^ k0[3],
        o[13] ^ k1[3],
        o[14] ^ k2[3],
        o[15] ^ k3[3],
    ];
    assert(n@ =~= add_round_key_spec(o@, *expanded_key, round as int));
    *state = state_from(&n);
}

/// Substitute every byte of the state through the S-box.
pub fn sub_bytes(state: &mut [[u8; 4]; 4])
    ensures
        state_seq(*final(state)) == sub_bytes_spec(state_seq(*old(state)), true),
{
    substitute_state(state, true);
}

/// Substitute every byte of the state through the inverse S-box.
pub fn inv_sub_bytes(state: &mut [[u8; 4]; 4])
    ensures
        state_seq(*final(state)) == sub_bytes_spec(state_seq(*old(state)), false),
{
    substitute_state(state, false);
}

fn substitute_state(state: &mut [[u8; 4]; 4], encryption: bool)
    ensures
        state_seq(*final(state)) == sub_bytes_spec(state_seq(*old(state)), encryption),
{
    let o = state_bytes(state);
    let mut n = [0u8; 16];
    let mut k: usize = 0;
    while k < 16
        invariant
            k <= 16,
            forall|c: int| 0 <= c < k ==> n[c] == substituted(o[c], encryption),
        decreases 16 - k,
    {
        n[k] = substitute(o[k], encryption);
        k += 1;
    }
    assert(n@ =~= sub_bytes_spec(o@, encryption));
    *state = state_from(&n);
}

/// Rotate row `i` of the state left by `i`.
pub fn shift_rows(state: &mut [[u8; 4]; 4])
    ensures
        state_seq(*final(state)) == shift_rows_spec(state_seq(*old(state))),
{
    let o = state_bytes(state);
    let n: [u8; 16] = [
        o[0],
        o[1],
        o[2],
        o[3],
        o[5],
        o[6],
        o[7],
        o[4],
        o[10],
        o[11],
        o[8],
        o[9],
        o[15],
        o[12],
        o[13],
        o[14],
    ];
    assert(n@ =~= shift_rows_spec(o@));
    *state = state_from(&n);
}

/// Rotate row `i` of the state right by `i`.
pub fn inv_shift_rows(state: &mut [[u8; 4]; 4])
    ensures
        state_seq(*final(state)) == inv_shift_rows_spec(state_seq(*old(state))),
{
    let o = state_bytes(state);
    let n: [u8; 16] = [
        o[0],
        o[1],
        o[2],
        o[3],
        o[7],
        o[4],
        o[5],
        o[6],
        o[10],
        o[11],
        o[8],
        o[9],
        o[13],
        o[14],
        o[15],
        o[12],
    ];
    assert(n@ =~= inv_shift_rows_spec(o@));
    *state = state_from(&n);
}

/// One column through the fixed matrix.
fn mix_column(s0: u8, s1: u8, s2: u8, s3: u8) -> (r: [u8; 4])
    ensures
        r[0] == mixed_byte(0, s0, s1, s2, s3),
        r[1] == mixed_byte(1, s0, s1, s2, s3),
        r[2] == mixed_byte(2, s0, s1, s2, s3),
        r[3] == mixed_byte(3, s0, s1, s2, s3),
{
    let a0 = galois_multiplication(s0, 2);
    let a1 = galois_multiplication(s1, 2);
    let a2 = galois_multiplication(s2, 2);
    let a3 = galois_multiplication(s3, 2);
    let b0 = galois_multiplication(s0, 3);
    let b1 = galois_multiplication(s1, 3);
    let b2 = galois_multiplication(s2, 3);
    let b3 = galois_multiplication(s3, 3);
    [a0 ^ b1 ^ s2 ^ s3, s0 ^ a1 ^ b2 ^ s3, s0 ^ s1 ^ a2 ^ b3, b0 ^ s1 ^ s2 ^ a3]
}

/// One column through the inverse matrix.
fn inv_mix_column(s0: u8, s1: u8, s2: u8, s3: u8) -> (r: [u8; 4])
    ensures
        r[0] == inv_mixed_byte(0, s0, s1, s2, s3),
        r[1] == inv_mixed_byte(1, s0, s1, s2, s3),
        r[2] == inv_mixed_byte(2, s0, s1, s2, s3),
        r[3] == inv_mixed_byte(3, s0, s1, s2, s3),
{
    let e0 = galois_multiplication(s0, 14);
    let e1 = galois_multiplication(s1, 14);
    let e2 = galois_multiplication(s2, 14);
    let e3 = galois_multiplication(s3, 14);
    let b0 = galois_multiplication(s0, 11);
    let b1 = galois_multiplication(s1, 11);
    let b2 = galois_multiplication(s2, 11);
    let b3 = galois_multiplication(s3, 11);
    let d0 = galois_multiplication(s0, 13);
    let d1 = galois_multiplication(s1, 13);
    let d2 = galois_multiplication(s2, 13);
    let d3 = galois_multiplication(s3, 13);
    let n0 = galois_multiplication(s0, 9);
    let n1 = galois_multiplication(s1, 9);
    let n2 = galois_multiplication(s2, 9);
    let n3 = galois_multiplication(s3, 9);
    [e0 ^ b1 ^ d2 ^ n3, n0 ^ e1 ^ b2 ^ d3, d0 ^ n1 ^ e2 ^ b3, b0 ^ d1 ^ n2 ^ e3]
}

/// Multiply each column of the state by the fixed matrix.
pub fn mix_columns(state: &mut [[u8; 4]; 4])
    ensures
        state_seq(*final(state)) == mix_columns_spec(state_seq(*old(state))),
{
    let o = state_bytes(state);
    let c0 = mix_column(o[0], o[4], o[8], o[12]);
    let c1 = mix_column(o[1], o[5], o[9], o[13]);
    let c2 = mix_column(o[2], o[6], o[10], o[14]);
    let c3 = mix_column(o[3], o[7], o[11], o[15]);
    let n: [u8; 16] = [
        c0[0],
        c1[0],
        c2[0],
        c3[0],
        c0[1],
        c1[1],
        c2[1],
        c3[1],
        c0[2],
        c1[2],
        c2[2],
        c3[2],
        c0[3],
        c1[3],
        c2[3],
        c3[3],
    ];
    assert(n@ =~= mix_columns_spec(o@));
    *state = state_from(&n);
}

/// Multiply each column of the state by the inverse matrix.
pub fn inv_mix_columns(state: &mut [[u8; 4]; 4])
    ensures
        state_seq(*final(state)) == inv_mix_columns_spec(state_seq(*old(state))),
{
    let o = state_bytes(state);
    let c0 = inv_mix_column(o[0], o[4], o[8], o[12]);
    let c1 = inv_mix_column(o[1], o[5], o[9], o[13]);
    let c2 = inv_mix_column(o[2], o[6], o[10], o[14]);
    let c3 = inv_mix_column(o[3], o[7], o[11], o[15]);
    let n: [u8; 16] = [
        c0[0],
        c1[0],
        c2[0],
        c3[0],
        c0[1],
        c1[1],
        c2[1],
        c3[1],
        c0[2],
        c1[2],
        c2[2],
        c3[2],
        c0[3],
        c1[3],
        c2[3],
        c3[3],
    ];
    assert(n@ =~= inv_mix_columns_spec(o@));
    *state = state_from(&n);
}

/// The block with rows and columns exchanged: how a block fills the state,
/// and how the state is written back.
fn transposed(v: &[u8; 16]) -> (t: [u8; 16])
    ensures
        t@ == load_spec(v@),
{
    let t = [
        v[0],
        v[4],
        v[8],
        v[12],
        v[1],
        v[5],
        v[9],
        v[13],
        v[2],
        v[6],
        v[10],
        v[14],
        v[3],
        v[7],
        v[11],
        v[15],
    ];
    assert(t@ =~= load_spec(v@));
    t
}

/// An AES-128 cipher for one key.
pub struct AES128 {
    pub expanded_key: [[u8; 4]; 44],
}

/// Encrypt one block.
pub fn encrypt_block_aes128(aes: &AES128, bytes: &[u8; 16]) -> (res: [u8; 16])
    ensures
        res@ == encrypt_block_spec(aes.expanded_key, bytes@),
{
    let loaded = transposed(bytes);
    let mut state = state_from(&loaded);
    add_round_key(&mut state, &aes.expanded_key, 0);
    let mut round: usize = 1;
    while round < 10
        invariant
            1 <= round <= 10,
            state_seq(state) == enc_state(bytes@, aes.expanded_key, (round - 1) as nat),
        decreases 10 - round,
    {
        sub_bytes(&mut state);
        shift_rows(&mut state);
        mix_columns(&mut state);
        add_round_key(&mut state, &aes.expanded_key, round);
        round += 1;
    }
    sub_bytes(&mut state);
    shift_rows(&mut state);
    add_round_key(&mut state, &aes.expanded_key, 10);
    let flat = state_bytes(&state);
    transposed(&flat)
}

/// Decrypt one block.
pub fn decrypt_block_aes128(aes: &AES128, bytes: &[u8; 16]) -> (res: [u8; 16])
    ensures
        res@ == decrypt_block_spec(aes.expanded_key, bytes@),
{
    let loaded = transposed(bytes);
    let mut state = state_from(&loaded);
    add_round_key(&mut state, &aes.expanded_key, 10);
    let mut done: usize = 0;
    while done < 9
        invariant
            done <= 9,
            state_seq(state) == dec_state(bytes@, aes.expanded_key, done as nat),
        decreases 9 - done,
    {
        inv_shift_rows(&mut state);
        inv_sub_bytes(&mut state);
        add_round_key(&mut state, &aes.expanded_key, 9 - done);
        inv_mix_columns(&mut state);
        done += 1;
    }
    inv_shift_rows(&mut state);
    inv_sub_bytes(&mut state);
    add_round_key(&mut state, &aes.expanded_key, 0);
    let flat = state_bytes(&state);
    transposed(&flat)
}

/// Block `i` of a byte string: its sixteen bytes from `16 * i`.
pub open spec fn block_of(bytes: Seq<u8>, i: int) -> Seq<u8> {
    bytes.subrange(16 * i, 16 * i + 16)
}

/// ECB encryption: each block on its own.
pub open spec fn ecb_encrypt_spec(ks: [[u8; 4]; 44], bytes: Seq<u8>) -> Seq<u8> {
    Seq::new(bytes.len(), |k: int| encrypt_block_spec(ks, block_of(bytes, k / 16))[k % 16])
}

/// ECB decryption: each block on its own.
pub open spec fn ecb_decrypt_spec(ks: [[u8; 4]; 44], bytes: Seq<u8>) -> Seq<u8> {
    Seq::new(bytes.len(), |k: int| decrypt_block_spec(ks, block_of(bytes, k / 16))[k % 16])
}

/// The bytes of two blocks XORed.
pub open spec fn xor_block(a: Seq<u8>, b: Seq<u8>) -> Seq<u8> {
    Seq::new(16, |j: int| a[j] ^ b[j])
}

/// Cipher block `i` of a CBC encryption with initial vector `iv`.
pub open spec fn cbc_cipher_block(ks: [[u8; 4]; 44], iv: Seq<u8>, padded: Seq<u8>, i: int) -> Seq<u8>
    decreases i + 1,
{
    if i < 0 {
        iv
    } else {
        encrypt_block_spec(
            ks,
            xor_block(block_of(padded, i), cbc_cipher_block(ks, iv, padded, i - 1)),
        )
    }
}

/// CBC encryption: the initial vector, then the chained cipher blocks.
pub open spec fn cbc_encrypt_spec(ks: [[u8; 4]; 44], iv: Seq<u8>, padded: Seq<u8>) -> Seq<u8> {
    iv + Seq::new(padded.len(), |k: int| cbc_cipher_block(ks, iv, padded, k / 16)[k % 16])
}

/// CBC decryption of everything after the initial vector, padding included.
pub open spec fn cbc_decrypt_spec(ks: [[u8; 4]; 44], ciphertext: Seq<u8>) -> Seq<u8> {
    Seq::new(
        (ciphertext.len() - 16) as nat,
        |k: int| decrypt_block_spec(ks, block_of(ciphertext, k / 16 + 1))[k % 16] ^ ciphertext[k],
    )
}

/// `data` with PKCS#7 padding up to a multiple of `block_size`.
pub open spec fn padded_spec(data: Seq<u8>, block_size: int) -> Seq<u8> {
    let pad = block_size - (data.len() as int) % block_size;
    data + Seq::new(pad as nat, |i: int| pad as u8)
}

/// `data` without its PKCS#7 padding, if the padding is valid for blocks of sixteen.
pub open spec fn unpadded_spec(data: Seq<u8>) -> Option<Seq<u8>> {
    if data.len() == 0 {
        None
    } else {
        let pad = data.last() as int;
        if pad == 0 || pad > 16 || pad > data.len() {
            None
        } else if forall|i: int| data.len() - pad <= i < data.len() ==> data[i] == pad {
            Some(data.subrange(0, data.len() - pad))
        } else {
            None
        }
    }
}

/// Removing the padding that was added gives the data back.
pub proof fn lemma_unpad_pad(data: Seq<u8>)
    ensures
        unpadded_spec(padded_spec(data, 16)) == Some(data),
{
    let padded = padded_spec(data, 16);
    let pad = 16 - data.len() % 16;
    assert(padded.len() == data.len() + pad);
    assert(padded.last() == pad as u8);
    assert(padded.subrange(0, padded.len() - pad) =~= data);
}

/// Pad data with PKCS#7 padding.
pub fn pad_pkcs7(data: &[u8], block_size: usize) -> (padded: Vec<u8>)
    requires
        0 < block_size <= 255,
    ensures
        padded@ == padded_spec(data@, block_size as int),
        (padded@.len() as int) % (block_size as int) == 0,
{
    let padding_len = block_size - (data.len() % block_size);
    let mut padded: Vec<u8> = Vec::new();
    let mut i: usize = 0;
    while i < data.len()
        invariant
            i <= data.len(),
            padded@.len() == i,
            forall|k: int| 0 <= k < i ==> padded@[k] == data@[k],
        decreases data.len() - i,
    {
        padded.push(data[i]);
        i += 1;
    }
    let mut j: usize = 0;
    while j < padding_len
        invariant
            j <= padding_len,
            padding_len <= 255,
            padded@.len() == data@.len() + j,
            forall|k: int| 0 <= k < data@.len() ==> padded@[k] == data@[k],
            forall|k: int| data@.len() <= k < data@.len() + j ==> padded@[k] == padding_len as u8,
        decreases padding_len - j,
    {
        padded.push(padding_len as u8);
        j += 1;
    }
    proof {
        assert(padded@ =~= padded_spec(data@, block_size as int));
        let (l, b) = (data@.len() as int, block_size as int);
        vstd::arithmetic::div_mod::lemma_fundamental_div_mod(l, b);
        vstd::arithmetic::div_mod::lemma_mod_multiples_basic(l / b + 1, b);
        assert(l + (b - l % b) == (l / b + 1) * b) by (nonlinear_arith)
            requires
                l == b * (l / b) + l % b,
        ;
    }
    padded
}

/// Remove PKCS#7 padding from data.
pub fn unpad_pkcs7(data: &[u8]) -> (res: Option<Vec<u8>>)
    ensures
        match res {
            Some(v) => unpadded_spec(data@) == Some(v@),
            None => unpadded_spec(data@) is None,
        },
{
    if data.len() == 0 {
        return None;
    }
    let padding_len = data[data.len() - 1] as usize;
    if padding_len == 0 || padding_len > 16 || padding_len > data.len() {
        return None;
    }
    let keep = data.len() - padding_len;
    let mut i: usize = keep;
    while i < data.len()
        invariant
            keep <= i <= data.len(),
            keep == data@.len() - padding_len,
            0 < padding_len <= 16,
            padding_len == data@.last(),
            forall|k: int| keep <= k < i ==> data@[k] == padding_len,
        decreases data.len() - i,
    {
        if data[i] != padding_len as u8 {
            assert(data@[i as int] != padding_len);
            return None;
        }
        i += 1;
    }
    let mut out: Vec<u8> = Vec::new();
    let mut j: usize = 0;
    while j < keep
        invariant
            j <= keep,
            keep <= data@.len(),
            out@.len() == j,
            forall|k: int| 0 <= k < j ==> out@[k] == data@[k],
        decreases keep - j,
    {
        out.push(data[j]);
        j += 1;
    }
    assert(out@ =~= data@.subrange(0, keep as int));
    Some(out)
}

/// The sixteen bytes of `bytes` from `at`.
fn block_at(bytes: &[u8], at: usize) -> (block: [u8; 16])
    requires
        at + 16 <= bytes@.len(),
    ensures
        block@ == bytes@.subrange(at as int, at + 16),
{
    let block = [
        bytes[at],
        bytes[at + 1],
        bytes[at + 2],
        bytes[at + 3],
        bytes[at + 4],
        bytes[at + 5],
        bytes[at + 6],
        bytes[at + 7],
        bytes[at + 8],
        bytes[at + 9],
        bytes[at + 10],
        bytes[at + 11],
        bytes[at + 12],
        bytes[at + 13],
        bytes[at + 14],
        bytes[at + 15],
    ];
    assert(block@ =~= bytes@.subrange(at as int, at + 16));
    block
}

/// Append a block to `out`.
fn push_block(out: &mut Vec<u8>, block: &[u8; 16])
    ensures
        final(out)@ == old(out)@ + block@,
{
    let mut j: usize = 0;
    while j < 16
        invariant
            j <= 16,
            out@ == old(out)@ + block@.subrange(0, j as int),
        decreases 16 - j,
    {
        out.push(block[j]);
        assert(out@ =~= old(out)@ + block@.subrange(0, j + 1));
        j += 1;
    }
    assert(block@.subrange(0, 16) =~= block@);
}

/// The XOR of two blocks.
fn xor_blocks(a: &[u8; 16], b: &[u8; 16]) -> (res: [u8; 16])
    ensures
        res@ == xor_block(a@, b@),
{
    let mut res = [0u8; 16];
    let mut j: usize = 0;
    while j < 16
        invariant
            j <= 16,
            forall|k: int| 0 <= k < j ==> res[k] == a[k] ^ b[k],
        decreases 16 - j,
    {
        res[j] = a[j] ^ b[j];
        j += 1;
    }
    assert(res@ =~= xor_block(a@, b@));
    res
}

/// Encrypt data in ECB mode; the length is a multiple of sixteen.
pub fn encrypt_aes128(aes: &AES128, bytes: &[u8]) -> (res: Vec<u8>)
    requires
        bytes@.len() % 16 == 0,
    ensures
        res@ == ecb_encrypt_spec(aes.expanded_key, bytes@),
{
    let mut res: Vec<u8> = Vec::new();
    let blocks = bytes.len() / 16;
    let mut i: usize = 0;
    while i < blocks
        invariant
            bytes@.len() == 16 * blocks,
            bytes@.len() <= usize::MAX,
            i <= blocks,
            res@.len() == 16 * i,
            forall|k: int|
                0 <= k < 16 * i ==> res@[k] == encrypt_block_spec(
                    aes.expanded_key,
                    block_of(bytes@, k / 16),
                )[k % 16],
        decreases blocks - i,
    {
        let block = block_at(bytes, 16 * i);
        let encrypted = encrypt_block_aes128(aes, &block);
        let ghost before = res@;
        push_block(&mut res, &encrypted);
        proof {
            assert forall|k: int| 0 <= k < 16 * (i + 1) implies res@[k] == encrypt_block_spec(
                aes.expanded_key,
                block_of(bytes@, k / 16),
            )[k % 16] by {
                if k >= 16 * i {
                    assert(k / 16 == i as int);
                    assert(res@[k] == encrypted@[k - 16 * i]);
                } else {
                    assert(res@[k] == before[k]);
                }
            }
        }
        i += 1;
    }
    assert(res@ =~= ecb_encrypt_spec(aes.expanded_key, bytes@));
    res
}

/// Decrypt data in ECB mode; the length is a multiple of sixteen.
pub fn decrypt_aes128(aes: &AES128, bytes: &[u8]) -> (res: Vec<u8>)
    requires
        bytes@.len() % 16 == 0,
    ensures
        res@ == ecb_decrypt_spec(aes.expanded_key, bytes@),
{
    let mut res: Vec<u8> = Vec::new();
    let blocks = bytes.len() / 16;
    let mut i: usize = 0;
    while i < blocks
        invariant
            bytes@.len() == 16 * blocks,
            bytes@.len() <= usize::MAX,
            i <= blocks,
            res@.len() == 16 * i,
            forall|k: int|
                0 <= k < 16 * i ==> res@[k] == decrypt_block_spec(
                    aes.expanded_key,
                    block_of(bytes@, k / 16),
                )[k % 16],
        decreases blocks - i,
    {
        let block = block_at(bytes, 16 * i);
        let decrypted = decrypt_block_aes128(aes, &block);
        let ghost before = res@;
        push_block(&mut res, &decrypted);
        proof {
            assert forall|k: int| 0 <= k < 16 * (i + 1) implies res@[k] == decrypt_block_spec(
                aes.expanded_key,
                block_of(bytes@, k / 16),
            )[k % 16] by {
                if k >= 16 * i {
                    assert(k / 16 == i as int);
                    assert(res@[k] == decrypted@[k - 16 * i]);
                } else {
                    assert(res@[k] == before[k]);
                }
            }
        }
        i += 1;
    }
    assert(res@ =~= ecb_decrypt_spec(aes.expanded_key, bytes@));
    res
}

impl AES128 {
    /// A cipher for a key given as a string of sixteen bytes.
    pub fn new_from_str(key: &str) -> (aes: AES128)
        requires
            key.spec_bytes().len() == 16,
        ensures
            is_key_schedule(aes.expanded_key, key.spec_bytes()),
            aes.expanded_key == expanded_key_of(key.spec_bytes()),
    {
        let key_bytes = key.as_bytes();
        let block = block_at(key_bytes, 0);
        assert(block@ =~= key.spec_bytes());
        AES128 { expanded_key: key_schedule_aes128(&block) }
    }

    /// A cipher for a sixteen-byte key.
    pub fn new(key: &[u8; 16]) -> (aes: AES128)
        ensures
            is_key_schedule(aes.expanded_key, key@),
            aes.expanded_key == expanded_key_of(key@),
    {
        AES128 { expanded_key: key_schedule_aes128(key) }
    }

    /// A random sixteen-byte key.
    pub fn generate_key() -> (key: [u8; 16]) {
        random_block()
    }

    /// Encrypt data in ECB mode; the length is a multiple of sixteen.
    pub fn encrypt(&self, bytes: &[u8]) -> (res: Vec<u8>)
        requires
            bytes@.len() % 16 == 0,
        ensures
            res@ == ecb_encrypt_spec(self.expanded_key, bytes@),
    {
        encrypt_aes128(self, bytes)
    }

    /// Decrypt data in ECB mode; the length is a multiple of sixteen.
    pub fn decrypt(&self, bytes: &[u8]) -> (res: Vec<u8>)
        requires
            bytes@.len() % 16 == 0,
        ensures
            res@ == ecb_decrypt_spec(self.expanded_key, bytes@),
    {
        decrypt_aes128(self, bytes)
    }

    /// Encrypt one block.
    pub fn encrypt_block(&self, bytes: &[u8; 16]) -> (res: [u8; 16])
        ensures
            res@ == encrypt_block_spec(self.expanded_key, bytes@),
    {
        encrypt_block_aes128(self, bytes)
    }

    /// Decrypt one block.
    pub fn decrypt_block(&self, bytes: &[u8; 16]) -> (res: [u8; 16])
        ensures
            res@ == decrypt_block_spec(self.expanded_key, bytes@),
    {
        decrypt_block_aes128(self, bytes)
    }

    /// Encrypt data in CBC mode under the given initial vector, returning
    /// the vector followed by the ciphertext.
    pub fn encrypt_cbc_with_iv(&self, plaintext: &[u8], iv: &[u8; 16]) -> (res: Vec<u8>)
        ensures
            res@ == cbc_encrypt_spec(self.expanded_key, iv@, padded_spec(plaintext@, 16)),
    {
        let padded = pad_pkcs7(plaintext, 16);
        let mut ciphertext: Vec<u8> = Vec::new();
        push_block(&mut ciphertext, iv);
        let blocks = padded.len() / 16;
        let mut previous: [u8; 16] = *iv;
        let mut i: usize = 0;
        while i < blocks
            invariant
                padded@.len() == 16 * blocks,
                padded@.len() <= usize::MAX,
                i <= blocks,
                ciphertext@.len() == 16 + 16 * i,
                forall|p: int| 0 <= p < 16 ==> ciphertext@[p] == iv@[p],
                previous@ == cbc_cipher_block(self.expanded_key, iv@, padded@, i - 1),
                forall|p: int|
                    16 <= p < 16 + 16 * i ==> ciphertext@[p] == cbc_cipher_block(
                        self.expanded_key,
                        iv@,
                        padded@,
                        (p - 16) / 16,
                    )[(p - 16) % 16],
            decreases blocks - i,
        {
            let block = block_at(padded.as_slice(), 16 * i);
            let xor_in = xor_blocks(&block, &previous);
            let encrypted = encrypt_block_aes128(self, &xor_in);
            let ghost before = ciphertext@;
            push_block(&mut ciphertext, &encrypted);
            proof {
                assert(encrypted@ == cbc_cipher_block(self.expanded_key, iv@, padded@, i as int));
                assert forall|p: int| 16 <= p < 16 + 16 * (i + 1) implies ciphertext@[p]
                    == cbc_cipher_block(
                    self.expanded_key,
                    iv@,
                    padded@,
                    (p - 16) / 16,
                )[(p - 16) % 16] by {
                    if p >= 16 + 16 * i {
                        assert((p - 16) / 16 == i as int);
                        assert(ciphertext@[p] == encrypted@[p - 16 - 16 * i]);
                    } else {
                        assert(ciphertext@[p] == before[p]);
                    }
                }
                assert forall|p: int| 0 <= p < 16 implies ciphertext@[p] == iv@[p] by {
                    assert(ciphertext@[p] == before[p]);
                }
            }
            previous = encrypted;
            i += 1;
        }
        proof {
            let want = cbc_encrypt_spec(self.expanded_key, iv@, padded@);
            assert forall|p: int| 0 <= p < ciphertext@.len() implies ciphertext@[p] == want[p] by {
                if p >= 16 {
                    let k = p - 16;
                    assert(want[p] == cbc_cipher_block(self.expanded_key, iv@, padded@, k / 16)[k
                        % 16]);
                }
            }
            assert(ciphertext@ =~= want);
        }
        ciphertext
    }

    /// Encrypt data in CBC mode under a fresh random initial vector,
    /// returning the vector followed by the ciphertext.
    pub fn encrypt_cbc(&self, plaintext: &[u8]) -> (res: Vec<u8>)
        ensures
            exists|iv: Seq<u8>|
                iv.len() == 16 && res@ == #[trigger] cbc_encrypt_spec(
                    self.expanded_key,
                    iv,
                    padded_spec(plaintext@, 16),
                ),
    {
        let iv = random_block();
        let res = self.encrypt_cbc_with_iv(plaintext, &iv);
        assert(res@ == cbc_encrypt_spec(self.expanded_key, iv@, padded_spec(plaintext@, 16)));
        res
    }

    /// Decrypt data in CBC mode; the initial vector is the first sixteen
    /// bytes. `None` for a length that is not sixteen plus whole blocks,
    /// or for invalid padding.
    pub fn decrypt_cbc(&self, ciphertext: &[u8]) -> (res: Option<Vec<u8>>)
        ensures
            match res {
                Some(v) => ciphertext@.len() >= 16 && ciphertext@.len() % 16 == 0 && unpadded_spec(
                    cbc_decrypt_spec(self.expanded_key, ciphertext@),
                ) == Some(v@),
                None => ciphertext@.len() < 16 || ciphertext@.len() % 16 != 0 || unpadded_spec(
                    cbc_decrypt_spec(self.expanded_key, ciphertext@),
                ) is None,
            },
    {
        if ciphertext.len() < 16 || (ciphertext.len() - 16) % 16 != 0 {
            return None;
        }
        let plaintext = self.cbc_plain(ciphertext);
        unpad_pkcs7(plaintext.as_slice())
    }

    /// CBC decryption of everything after the initial vector, padding included.
    fn cbc_plain(&self, ciphertext: &[u8]) -> (plaintext: Vec<u8>)
        requires
            ciphertext@.len() >= 16,
            ciphertext@.len() % 16 == 0,
        ensures
            plaintext@ == cbc_decrypt_spec(self.expanded_key, ciphertext@),
    {
        let blocks = (ciphertext.len() - 16) / 16;
        let mut plaintext: Vec<u8> = Vec::new();
        let mut i: usize = 0;
        while i < blocks
            invariant
                ciphertext@.len() == 16 + 16 * blocks,
                ciphertext@.len() <= usize::MAX,
                i <= blocks,
                plaintext@.len() == 16 * i,
                forall|k: int|
                    0 <= k < 16 * i ==> plaintext@[k] == decrypt_block_spec(
                        self.expanded_key,
                        block_of(ciphertext@, k / 16 + 1),
                    )[k % 16] ^ ciphertext@[k],
            decreases blocks - i,
        {
            let block = block_at(ciphertext, 16 + 16 * i);
            let previous = block_at(ciphertext, 16 * i);
            let decrypted = decrypt_block_aes128(self, &block);
            let plain = xor_blocks(&decrypted, &previous);
            let ghost before = plaintext@;
            push_block(&mut plaintext, &plain);
            proof {
                assert(block@ == block_of(ciphertext@, i + 1));
                assert forall|k: int| 0 <= k < 16 * (i + 1) implies plaintext@[k]
                    == decrypt_block_spec(
                    self.expanded_key,
                    block_of(ciphertext@, k / 16 + 1),
                )[k % 16] ^ ciphertext@[k] by {
                    if k >= 16 * i {
                        assert(k / 16 == i as int);
                        assert(plaintext@[k] == plain@[k - 16 * i]);
                        assert(previous@[k - 16 * i] == ciphertext@[k]);
                    } else {
                        assert(plaintext@[k] == before[k]);
                    }
                }
            }
            i += 1;
        }
        assert(plaintext@ =~= cbc_decrypt_spec(self.expanded_key, ciphertext@));
        plaintext
    }
}

} // verus!
