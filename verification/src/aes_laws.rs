//! Decryption undoes encryption, step by step and as a whole.

use vstd::prelude::*;
use crate::aes::{
    add_round_key_spec, block_of, dec_state, decrypt_block_spec, ecb_decrypt_spec,
    ecb_encrypt_spec, enc_state, encrypt_block_spec, gf_mul, gf_mul_bits, inv_mix_columns_spec,
    inv_mixed_byte, inv_shift_rows_spec, load_spec, mix_columns_spec, mixed_byte, shift_rows_spec,
    sub_bytes_spec, substituted, xtime, AES_SBOX, INVERSE_AES_SBOX,
};

verus! {

/// The inverse S-box undoes the S-box, on sixteen bytes at a time.
proof fn lemma_sbox_row(hi: u8)
    requires
        hi < 16,
    ensures
        forall|lo: u8|
            lo < 16 ==> INVERSE_AES_SBOX[#[trigger] AES_SBOX[16 * hi + lo] as int] == 16 * hi + lo,
{
    assert forall|lo: u8| lo < 16 implies INVERSE_AES_SBOX[#[trigger] AES_SBOX[16 * hi
        + lo] as int] == 16 * hi + lo by {
        let b = (16 * hi + lo) as int;
        assert(0 <= b < 256);
    }
}

/// The inverse S-box undoes the S-box.
pub proof fn lemma_sbox_inverse(b: u8)
    ensures
        substituted(substituted(b, true), false) == b,
{
    let hi = b / 16;
    let lo = b % 16;
    lemma_sbox_row(hi);
    assert(AES_SBOX[16 * hi + lo] == AES_SBOX[b as int]);
}

/// Two, three, nine, eleven, thirteen and fourteen times `a` in GF(2^8),
/// as shifts and sums.
pub open spec fn times2(a: u8) -> u8 {
    xtime(a)
}

pub open spec fn times3(a: u8) -> u8 {
    xtime(a) ^ a
}

pub open spec fn times9(a: u8) -> u8 {
    xtime(xtime(xtime(a))) ^ a
}

pub open spec fn times11(a: u8) -> u8 {
    xtime(xtime(xtime(a))) ^ xtime(a) ^ a
}

pub open spec fn times13(a: u8) -> u8 {
    xtime(xtime(xtime(a))) ^ xtime(xtime(a)) ^ a
}

pub open spec fn times14(a: u8) -> u8 {
    xtime(xtime(xtime(a))) ^ xtime(xtime(a)) ^ xtime(a)
}

/// A product by zero is zero.
proof fn lemma_mul_bits_zero(a: u8, n: nat)
    ensures
        gf_mul_bits(a, 0, n) == 0,
    decreases n,
{
    if n > 0 {
        lemma_mul_bits_zero(xtime(a), (n - 1) as nat);
        assert(0u8 & 1 == 0) by (bit_vector);
        assert(0u8 >> 1 == 0) by (bit_vector);
        assert(0u8 ^ 0u8 == 0) by (bit_vector);
    }
}

/// A product by a four-bit constant is the sum of the shifted copies that
/// its bits select.
proof fn lemma_mul_four_bits(a: u8, b: u8)
    requires
        b < 16,
    ensures
        gf_mul(a, b) == (if b & 1 != 0 {
            a
        } else {
            0u8
        }) ^ ((if b & 2 != 0 {
            xtime(a)
        } else {
            0u8
        }) ^ ((if b & 4 != 0 {
            xtime(xtime(a))
        } else {
            0u8
        }) ^ (if b & 8 != 0 {
            xtime(xtime(xtime(a)))
        } else {
            0u8
        }))),
{
    reveal(gf_mul);
    let b1 = b >> 1;
    let b2 = b1 >> 1;
    let b3 = b2 >> 1;
    let b4 = b3 >> 1;
    assert(b4 == 0 && (b1 & 1 != 0) == (b & 2 != 0) && (b2 & 1 != 0) == (b & 4 != 0) && (b3 & 1
        != 0) == (b & 8 != 0)) by (bit_vector)
        requires
            b < 16,
            b1 == b >> 1,
            b2 == b1 >> 1,
            b3 == b2 >> 1,
            b4 == b3 >> 1,
    ;
    let a1 = xtime(a);
    let a2 = xtime(a1);
    let a3 = xtime(a2);
    lemma_mul_bits_zero(xtime(a3), 4);
    assert(gf_mul_bits(a, b, 8) == (if b & 1 != 0 {
        a
    } else {
        0u8
    }) ^ gf_mul_bits(a1, b1, 7));
    assert(gf_mul_bits(a1, b1, 7) == (if b1 & 1 != 0 {
        a1
    } else {
        0u8
    }) ^ gf_mul_bits(a2, b2, 6));
    assert(gf_mul_bits(a2, b2, 6) == (if b2 & 1 != 0 {
        a2
    } else {
        0u8
    }) ^ gf_mul_bits(a3, b3, 5));
    assert(gf_mul_bits(a3, b3, 5) == (if b3 & 1 != 0 {
        a3
    } else {
        0u8
    }) ^ gf_mul_bits(xtime(a3), b4, 4));
    assert forall|x: u8| #[trigger] (x ^ 0u8) == x by {
        assert(x ^ 0u8 == x) by (bit_vector);
    }
}

/// The products by the constants of the two matrices.
pub proof fn lemma_times(a: u8)
    ensures
        gf_mul(a, 2) == times2(a),
        gf_mul(a, 3) == times3(a),
        gf_mul(a, 9) == times9(a),
        gf_mul(a, 11) == times11(a),
        gf_mul(a, 13) == times13(a),
        gf_mul(a, 14) == times14(a),
{
    lemma_mul_four_bits(a, 2);
    lemma_mul_four_bits(a, 3);
    lemma_mul_four_bits(a, 9);
    lemma_mul_four_bits(a, 11);
    lemma_mul_four_bits(a, 13);
    lemma_mul_four_bits(a, 14);
    assert(2u8 & 1 == 0 && 2u8 & 2 != 0 && 2u8 & 4 == 0 && 2u8 & 8 == 0) by (bit_vector);
    assert(3u8 & 1 != 0 && 3u8 & 2 != 0 && 3u8 & 4 == 0 && 3u8 & 8 == 0) by (bit_vector);
    assert(9u8 & 1 != 0 && 9u8 & 2 == 0 && 9u8 & 4 == 0 && 9u8 & 8 != 0) by (bit_vector);
    assert(11u8 & 1 != 0 && 11u8 & 2 != 0 && 11u8 & 4 == 0 && 11u8 & 8 != 0) by (bit_vector);
    assert(13u8 & 1 != 0 && 13u8 & 2 == 0 && 13u8 & 4 != 0 && 13u8 & 8 != 0) by (bit_vector);
    assert(14u8 & 1 == 0 && 14u8 & 2 != 0 && 14u8 & 4 != 0 && 14u8 & 8 != 0) by (bit_vector);
    let (x1, x2, x3) = (xtime(a), xtime(xtime(a)), xtime(xtime(xtime(a))));
    assert(0u8 ^ (x1 ^ (0u8 ^ 0u8)) == x1) by (bit_vector);
    assert(a ^ (x1 ^ (0u8 ^ 0u8)) == x1 ^ a) by (bit_vector);
    assert(a ^ (0u8 ^ (0u8 ^ x3)) == x3 ^ a) by (bit_vector);
    assert(a ^ (x1 ^ (0u8 ^ x3)) == x3 ^ x1 ^ a) by (bit_vector);
    assert(a ^ (0u8 ^ (x2 ^ x3)) == x3 ^ x2 ^ a) by (bit_vector);
    assert(0u8 ^ (x1 ^ (x2 ^ x3)) == x3 ^ x2 ^ x1) by (bit_vector);
}

/// Each product of the inverse matrix with the matrix: the identity on the
/// diagonal, zero off it.
proof fn lemma_matrix_product(a: u8)
    by (bit_vector)
    ensures
        times14(times2(a)) ^ times11(a) ^ times13(a) ^ times9(times3(a)) == a,
        times14(times3(a)) ^ times11(times2(a)) ^ times13(a) ^ times9(a) == 0u8,
        times14(a) ^ times11(times3(a)) ^ times13(times2(a)) ^ times9(a) == 0u8,
        times14(a) ^ times11(a) ^ times13(times3(a)) ^ times9(times2(a)) == 0u8,
        times9(times2(a)) ^ times14(a) ^ times11(a) ^ times13(times3(a)) == 0u8,
        times9(times3(a)) ^ times14(times2(a)) ^ times11(a) ^ times13(a) == a,
        times9(a) ^ times14(times3(a)) ^ times11(times2(a)) ^ times13(a) == 0u8,
        times9(a) ^ times14(a) ^ times11(times3(a)) ^ times13(times2(a)) == 0u8,
        times13(times2(a)) ^ times9(a) ^ times14(a) ^ times11(times3(a)) == 0u8,
        times13(times3(a)) ^ times9(times2(a)) ^ times14(a) ^ times11(a) == 0u8,
        times13(a) ^ times9(times3(a)) ^ times14(times2(a)) ^ times11(a) == a,
        times13(a) ^ times9(a) ^ times14(times3(a)) ^ times11(times2(a)) == 0u8,
        times11(times2(a)) ^ times13(a) ^ times9(a) ^ times14(times3(a)) == 0u8,
        times11(times3(a)) ^ times13(times2(a)) ^ times9(a) ^ times14(a) == 0u8,
        times11(a) ^ times13(times3(a)) ^ times9(times2(a)) ^ times14(a) == 0u8,
        times11(a) ^ times13(a) ^ times9(times3(a)) ^ times14(times2(a)) == a,
{
}

/// The products by the constants distribute over sums.
proof fn lemma_times_linear(x: u8, y: u8)
    by (bit_vector)
    ensures
        times9(x ^ y) == times9(x) ^ times9(y),
        times11(x ^ y) == times11(x) ^ times11(y),
        times13(x ^ y) == times13(x) ^ times13(y),
        times14(x ^ y) == times14(x) ^ times14(y),
{
}

/// A sum of four sums of four, regrouped by position.
proof fn lemma_regroup(
    p0: u8,
    p1: u8,
    p2: u8,
    p3: u8,
    q0: u8,
    q1: u8,
    q2: u8,
    q3: u8,
    r0: u8,
    r1: u8,
    r2: u8,
    r3: u8,
    w0: u8,
    w1: u8,
    w2: u8,
    w3: u8,
)
    by (bit_vector)
    ensures
        (p0 ^ p1 ^ p2 ^ p3) ^ (q0 ^ q1 ^ q2 ^ q3) ^ (r0 ^ r1 ^ r2 ^ r3) ^ (w0 ^ w1 ^ w2 ^ w3) == (p0
            ^ q0 ^ r0 ^ w0) ^ (p1 ^ q1 ^ r1 ^ w1) ^ (p2 ^ q2 ^ r2 ^ w2) ^ (p3 ^ q3 ^ r3 ^ w3),
{
}

/// Sums with zero.
proof fn lemma_xor_zero(x: u8)
    by (bit_vector)
    ensures
        x ^ 0u8 ^ 0u8 ^ 0u8 == x,
        0u8 ^ x ^ 0u8 ^ 0u8 == x,
        0u8 ^ 0u8 ^ x ^ 0u8 == x,
        0u8 ^ 0u8 ^ 0u8 ^ x == x,
{
}

/// A product by a constant of a sum of four is the sum of the products.
proof fn lemma_times_sum(a: u8, b: u8, c: u8, d: u8)
    ensures
        times9(a ^ b ^ c ^ d) == times9(a) ^ times9(b) ^ times9(c) ^ times9(d),
        times11(a ^ b ^ c ^ d) == times11(a) ^ times11(b) ^ times11(c) ^ times11(d),
        times13(a ^ b ^ c ^ d) == times13(a) ^ times13(b) ^ times13(c) ^ times13(d),
        times14(a ^ b ^ c ^ d) == times14(a) ^ times14(b) ^ times14(c) ^ times14(d),
{
    lemma_times_linear(a, b);
    lemma_times_linear(a ^ b, c);
    lemma_times_linear(a ^ b ^ c, d);
}

/// The inverse matrix undoes the matrix, on one column.
pub proof fn lemma_column_inverse(s0: u8, s1: u8, s2: u8, s3: u8)
    ensures
        ({
            let m0 = mixed_byte(0, s0, s1, s2, s3);
            let m1 = mixed_byte(1, s0, s1, s2, s3);
            let m2 = mixed_byte(2, s0, s1, s2, s3);
            let m3 = mixed_byte(3, s0, s1, s2, s3);
            &&& inv_mixed_byte(0, m0, m1, m2, m3) == s0
            &&& inv_mixed_byte(1, m0, m1, m2, m3) == s1
            &&& inv_mixed_byte(2, m0, m1, m2, m3) == s2
            &&& inv_mixed_byte(3, m0, m1, m2, m3) == s3
        }),
{
    lemma_times(s0);
    lemma_times(s1);
    lemma_times(s2);
    lemma_times(s3);
    let m0 = mixed_byte(0, s0, s1, s2, s3);
    let m1 = mixed_byte(1, s0, s1, s2, s3);
    let m2 = mixed_byte(2, s0, s1, s2, s3);
    let m3 = mixed_byte(3, s0, s1, s2, s3);
    lemma_times(m0);
    lemma_times(m1);
    lemma_times(m2);
    lemma_times(m3);
    lemma_matrix_product(s0);
    lemma_matrix_product(s1);
    lemma_matrix_product(s2);
    lemma_matrix_product(s3);
    lemma_xor_zero(s0);
    lemma_xor_zero(s1);
    lemma_xor_zero(s2);
    lemma_xor_zero(s3);
    lemma_times_sum(times2(s0), times3(s1), s2, s3);
    assert(m0 == times2(s0) ^ times3(s1) ^ s2 ^ s3);
    lemma_times_sum(s0, times2(s1), times3(s2), s3);
    assert(m1 == s0 ^ times2(s1) ^ times3(s2) ^ s3);
    lemma_times_sum(s0, s1, times2(s2), times3(s3));
    assert(m2 == s0 ^ s1 ^ times2(s2) ^ times3(s3));
    lemma_times_sum(times3(s0), s1, s2, times2(s3));
    assert(m3 == times3(s0) ^ s1 ^ s2 ^ times2(s3));
    lemma_regroup(
        times14(times2(s0)),
        times14(times3(s1)),
        times14(s2),
        times14(s3),
        times11(s0),
        times11(times2(s1)),
        times11(times3(s2)),
        times11(s3),
        times13(s0),
        times13(s1),
        times13(times2(s2)),
        times13(times3(s3)),
        times9(times3(s0)),
        times9(s1),
        times9(s2),
        times9(times2(s3)),
    );
    assert(inv_mixed_byte(0, m0, m1, m2, m3) == times14(m0) ^ times11(m1) ^ times13(m2) ^ times9(m3));
    lemma_regroup(
        times9(times2(s0)),
        times9(times3(s1)),
        times9(s2),
        times9(s3),
        times14(s0),
        times14(times2(s1)),
        times14(times3(s2)),
        times14(s3),
        times11(s0),
        times11(s1),
        times11(times2(s2)),
        times11(times3(s3)),
        times13(times3(s0)),
        times13(s1),
        times13(s2),
        times13(times2(s3)),
    );
    assert(inv_mixed_byte(1, m0, m1, m2, m3) == times9(m0) ^ times14(m1) ^ times11(m2) ^ times13(m3));
    lemma_regroup(
        times13(times2(s0)),
        times13(times3(s1)),
        times13(s2),
        times13(s3),
        times9(s0),
        times9(times2(s1)),
        times9(times3(s2)),
        times9(s3),
        times14(s0),
        times14(s1),
        times14(times2(s2)),
        times14(times3(s3)),
        times11(times3(s0)),
        times11(s1),
        times11(s2),
        times11(times2(s3)),
    );
    assert(inv_mixed_byte(2, m0, m1, m2, m3) == times13(m0) ^ times9(m1) ^ times14(m2) ^ times11(m3));
    lemma_regroup(
        times11(times2(s0)),
        times11(times3(s1)),
        times11(s2),
        times11(s3),
        times13(s0),
        times13(times2(s1)),
        times13(times3(s2)),
        times13(s3),
        times9(s0),
        times9(s1),
        times9(times2(s2)),
        times9(times3(s3)),
        times14(times3(s0)),
        times14(s1),
        times14(s2),
        times14(times2(s3)),
    );
    assert(inv_mixed_byte(3, m0, m1, m2, m3) == times11(m0) ^ times13(m1) ^ times9(m2) ^ times14(m3));
}

/// The inverse substitution undoes the substitution of a state.
pub proof fn lemma_sub_bytes_inverse(s: Seq<u8>)
    requires
        s.len() == 16,
    ensures
        sub_bytes_spec(sub_bytes_spec(s, true), false) == s,
{
    assert forall|k: int| 0 <= k < 16 implies sub_bytes_spec(sub_bytes_spec(s, true), false)[k]
        == s[k] by {
        lemma_sbox_inverse(s[k]);
    }
    assert(sub_bytes_spec(sub_bytes_spec(s, true), false) =~= s);
}

/// Rotating the rows back undoes rotating them.
pub proof fn lemma_shift_rows_inverse(s: Seq<u8>)
    requires
        s.len() == 16,
    ensures
        inv_shift_rows_spec(shift_rows_spec(s)) == s,
{
    assert forall|k: int| 0 <= k < 16 implies inv_shift_rows_spec(shift_rows_spec(s))[k]
        == s[k] by {
        let j = 4 * (k / 4) + (k % 4 + 4 - k / 4) % 4;
        assert(0 <= j < 16);
        assert(j / 4 == k / 4);
        assert(4 * (j / 4) + (j % 4 + j / 4) % 4 == k);
    }
    assert(inv_shift_rows_spec(shift_rows_spec(s)) =~= s);
}

/// The inverse matrix undoes the matrix on every column of a state.
pub proof fn lemma_mix_columns_inverse(s: Seq<u8>)
    requires
        s.len() == 16,
    ensures
        inv_mix_columns_spec(mix_columns_spec(s)) == s,
{
    let m = mix_columns_spec(s);
    assert forall|k: int| 0 <= k < 16 implies inv_mix_columns_spec(m)[k] == s[k] by {
        let c = k % 4;
        lemma_column_inverse(s[c], s[4 + c], s[8 + c], s[12 + c]);
        assert(m[c] == mixed_byte(0, s[c], s[4 + c], s[8 + c], s[12 + c]));
        assert(m[4 + c] == mixed_byte(1, s[c], s[4 + c], s[8 + c], s[12 + c]));
        assert(m[8 + c] == mixed_byte(2, s[c], s[4 + c], s[8 + c], s[12 + c]));
        assert(m[12 + c] == mixed_byte(3, s[c], s[4 + c], s[8 + c], s[12 + c]));
        assert(k == 4 * (k / 4) + c);
    }
    assert(inv_mix_columns_spec(m) =~= s);
}

/// Adding a round key twice adds nothing.
pub proof fn lemma_add_round_key_twice(s: Seq<u8>, ks: [[u8; 4]; 44], round: int)
    requires
        s.len() == 16,
    ensures
        add_round_key_spec(add_round_key_spec(s, ks, round), ks, round) == s,
{
    assert forall|k: int| 0 <= k < 16 implies add_round_key_spec(
        add_round_key_spec(s, ks, round),
        ks,
        round,
    )[k] == s[k] by {
        let x = s[k];
        let key = ks[4 * round + k % 4][k / 4];
        assert((x ^ key) ^ key == x) by (bit_vector);
    }
    assert(add_round_key_spec(add_round_key_spec(s, ks, round), ks, round) =~= s);
}

/// Exchanging rows and columns twice changes nothing.
pub proof fn lemma_load_twice(b: Seq<u8>)
    requires
        b.len() == 16,
    ensures
        load_spec(load_spec(b)) == b,
{
    assert forall|k: int| 0 <= k < 16 implies load_spec(load_spec(b))[k] == b[k] by {
        let j = 4 * (k % 4) + k / 4;
        assert(0 <= j < 16);
        assert(4 * (j % 4) + j / 4 == k);
    }
    assert(load_spec(load_spec(b)) =~= b);
}

/// After `r` rounds, decryption has undone the last `r` rounds of
/// encryption and the final round.
pub proof fn lemma_rounds_undone(ks: [[u8; 4]; 44], block: Seq<u8>, r: nat)
    requires
        block.len() == 16,
        r <= 9,
    ensures
        dec_state(encrypt_block_spec(ks, block), ks, r) == shift_rows_spec(
            sub_bytes_spec(enc_state(block, ks, (9 - r) as nat), true),
        ),
    decreases r,
{
    let cipher = encrypt_block_spec(ks, block);
    if r == 0 {
        let last = shift_rows_spec(sub_bytes_spec(enc_state(block, ks, 9), true));
        lemma_load_twice(add_round_key_spec(last, ks, 10));
        lemma_add_round_key_twice(last, ks, 10);
    } else {
        lemma_rounds_undone(ks, block, (r - 1) as nat);
        let before = enc_state(block, ks, (10 - r) as nat);
        let inner = enc_state(block, ks, (9 - r) as nat);
        let mixed_in = shift_rows_spec(sub_bytes_spec(inner, true));
        // the state decryption starts this round from
        let start = shift_rows_spec(sub_bytes_spec(before, true));
        assert(dec_state(cipher, ks, (r - 1) as nat) == start);
        lemma_shift_rows_inverse(sub_bytes_spec(before, true));
        lemma_sub_bytes_inverse(before);
        assert(before == add_round_key_spec(mix_columns_spec(mixed_in), ks, 10 - r));
        lemma_add_round_key_twice(mix_columns_spec(mixed_in), ks, 10 - r);
        lemma_mix_columns_inverse(mixed_in);
    }
}

/// Decrypting an encrypted block gives the block back.
pub proof fn lemma_block_round_trip(ks: [[u8; 4]; 44], block: Seq<u8>)
    requires
        block.len() == 16,
    ensures
        decrypt_block_spec(ks, encrypt_block_spec(ks, block)) == block,
        encrypt_block_spec(ks, block).len() == 16,
{
    lemma_rounds_undone(ks, block, 9);
    let first = enc_state(block, ks, 0);
    lemma_shift_rows_inverse(sub_bytes_spec(first, true));
    lemma_sub_bytes_inverse(first);
    lemma_add_round_key_twice(load_spec(block), ks, 0);
    lemma_load_twice(block);
}

/// Decrypting in ECB mode undoes encrypting in ECB mode.
pub proof fn lemma_ecb_round_trip(ks: [[u8; 4]; 44], bytes: Seq<u8>)
    requires
        bytes.len() % 16 == 0,
    ensures
        ecb_decrypt_spec(ks, ecb_encrypt_spec(ks, bytes)) == bytes,
{
    let enc = ecb_encrypt_spec(ks, bytes);
    assert forall|k: int| 0 <= k < bytes.len() implies ecb_decrypt_spec(ks, enc)[k] == bytes[k] by {
        let i = k / 16;
        let plain = block_of(bytes, i);
        lemma_block_round_trip(ks, plain);
        assert(block_of(enc, i) =~= encrypt_block_spec(ks, plain)) by {
            assert forall|j: int| 0 <= j < 16 implies block_of(enc, i)[j] == encrypt_block_spec(
                ks,
                plain,
            )[j] by {
                assert((16 * i + j) / 16 == i);
                assert((16 * i + j) % 16 == j);
            }
        }
        assert(plain[k % 16] == bytes[k]);
    }
    assert(ecb_decrypt_spec(ks, enc) =~= bytes);
}

} // verus!
