//! When decryption recovers the message: what an encryption hides is the
//! message plus twice a noise polynomial, and the white-box decryptor
//! reads the message off wherever that noise stays within the margin.

use vstd::prelude::*;
use vstd::arithmetic::div_mod::*;
use vstd::arithmetic::power::*;
use vstd::arithmetic::power2::*;
use crate::convolution::{
    coefficients, lemma_odd_powers_are_roots, lemma_poly_eval_of_product, lemma_poly_eval_of_sum,
    lemma_series_combination, lemma_series_congruent, lemma_series_is_poly,
    lemma_series_of_product, product_coefficients, product_sum, series, shifted,
};
use crate::create_wb::masked_plain;
use crate::bits::bits_of_bytes;
use crate::encrypt::{
    ciphertext_a1, ciphertext_a2, doubled, padded_bits, public_b, EncryptionNoise,
};
use crate::text::{bit_digits, lemma_text_of_message_bits, text_of_binary, text_of_bytes};
use crate::generate::{
    first_message, generated, production_beta_p_view, production_beta_view, second_message,
    unit_vector, WhiteBoxSeed, DEGREE, MODULUS, ROTATE_MASK, SLOTS,
};
use crate::decrypt::{decrypted_bits, demasked_bit};
use crate::decrypt_laws::{
    folded_polynomial, lemma_generated_data_decrypts, read_bits, seeded_polynomial,
};
use crate::lattice::{negacyclic_mul, reduce_all, reduced, ring_add, ring_neg, PubEncData};
use crate::montgomery::{
    lemma_mod_inverse_exists, lemma_production_parameters_fit, quotient_fits,
};
use crate::ntt::lemma_poly_eval_reduced;
use crate::ntt_laws::lemma_ntt_round_trip;
use crate::ntt_spec::{
    forward_ntt, is_negacyclic_root, lemma_cong_add, lemma_cong_mul, poly_eval,
};
use crate::whitebox::{scheme_of_selector, Scheme, WhiteData};

verus! {

/// The value of a negated polynomial is minus the value.
pub proof fn lemma_poly_eval_of_neg(a: Seq<i64>, x: int, q: int, upto: nat)
    requires
        0 < q <= i64::MAX,
        upto <= a.len(),
    ensures
        poly_eval(ring_neg(a, q), x, upto) % q == (-poly_eval(a, x, upto)) % q,
    decreases upto,
{
    if upto > 0 {
        let m = (upto - 1) as nat;
        lemma_poly_eval_of_neg(a, x, q, m);
        let (am, p) = (a[m as int] as int, pow(x, m));
        let nm = ring_neg(a, q)[m as int] as int;
        assert(nm == (-am) % q);
        lemma_mod_twice(-am, q);
        lemma_cong_mul(nm, -am, p, p, q);
        lemma_cong_add(
            poly_eval(ring_neg(a, q), x, m),
            -poly_eval(a, x, m),
            nm * p,
            (-am) * p,
            q,
        );
        assert(-poly_eval(a, x, m) + (-am) * p == -(poly_eval(a, x, m) + am * p))
            by (nonlinear_arith);
    }
}

/// The value of a doubled polynomial is twice the value.
pub proof fn lemma_poly_eval_of_doubled(e: Seq<i64>, x: int, q: int, upto: nat)
    requires
        0 < q <= i64::MAX,
        upto <= e.len(),
    ensures
        poly_eval(doubled(e, q), x, upto) % q == (2 * poly_eval(e, x, upto)) % q,
    decreases upto,
{
    if upto > 0 {
        let m = (upto - 1) as nat;
        lemma_poly_eval_of_doubled(e, x, q, m);
        let (em, p) = (e[m as int] as int, pow(x, m));
        let dm = doubled(e, q)[m as int] as int;
        assert(dm == (2 * em) % q);
        lemma_mod_twice(2 * em, q);
        lemma_cong_mul(dm, 2 * em, p, p, q);
        lemma_cong_add(
            poly_eval(doubled(e, q), x, m),
            2 * poly_eval(e, x, m),
            dm * p,
            (2 * em) * p,
            q,
        );
        assert(2 * poly_eval(e, x, m) + (2 * em) * p == 2 * (poly_eval(e, x, m) + em * p))
            by (nonlinear_arith);
    }
}

/// The noise of an encryption, over the integers: `e2 + e1 * sk - e * u`,
/// for a key made with the secret `sk` and the error `e`, and an
/// encryption made with `u`, `e1` and `e2`.
pub open spec fn noise_of(
    u: Seq<i64>,
    e1: Seq<i64>,
    e2: Seq<i64>,
    sk: Seq<i64>,
    e: Seq<i64>,
) -> spec_fn(int) -> int {
    let n = sk.len();
    |j: int|
        e2[j] + product_coefficients(coefficients(e1), coefficients(sk), n as int, n)(j)
            - product_coefficients(coefficients(e), coefficients(u), n as int, n)(j)
}

/// What an encryption hides, over the integers: the message plus twice
/// the noise.
pub open spec fn noisy_plain(
    m: Seq<i64>,
    u: Seq<i64>,
    e1: Seq<i64>,
    e2: Seq<i64>,
    sk: Seq<i64>,
    e: Seq<i64>,
) -> spec_fn(int) -> int {
    |j: int| m[j] + 2 * noise_of(u, e1, e2, sk, e)(j)
}

/// The value that an encryption hides, from the values of its parts.
pub open spec fn hidden_value(m: int, u: int, e1: int, e2: int, s: int, e: int) -> int {
    m + 2 * (e2 + e1 * s - e * u)
}

/// The value of the hidden integer polynomial at a root of `X^n + 1`.
pub proof fn lemma_value_of_noisy(
    m: Seq<i64>,
    u: Seq<i64>,
    e1: Seq<i64>,
    e2: Seq<i64>,
    sk: Seq<i64>,
    e: Seq<i64>,
    x: int,
    q: int,
)
    requires
        q > 0,
        (pow(x, sk.len()) + 1) % q == 0,
    ensures
        series(noisy_plain(m, u, e1, e2, sk, e), x, sk.len()) % q == hidden_value(
            poly_eval(m, x, sk.len()),
            poly_eval(u, x, sk.len()),
            poly_eval(e1, x, sk.len()),
            poly_eval(e2, x, sk.len()),
            poly_eval(sk, x, sk.len()),
            poly_eval(e, x, sk.len()),
        ) % q,
{
    let n = sk.len();
    let (fm, fu, f1, f2, fs, fe) = (
        coefficients(m),
        coefficients(u),
        coefficients(e1),
        coefficients(e2),
        coefficients(sk),
        coefficients(e),
    );
    let p1 = product_coefficients(f1, fs, n as int, n);
    let p2 = product_coefficients(fe, fu, n as int, n);
    let h1 = |j: int| f2(j) + 1 * p1(j);
    let h2 = |j: int| h1(j) + (-1) * p2(j);
    let whole = noisy_plain(m, u, e1, e2, sk, e);
    lemma_series_combination(f2, p1, 1, h1, x, n);
    lemma_series_combination(h1, p2, -1, h2, x, n);
    let noise = noise_of(u, e1, e2, sk, e);
    assert forall|j: int| 0 <= j < n implies #[trigger] whole(j) == fm(j) + 2 * h2(j) by {
        assert(noise(j) == h2(j));
    }
    lemma_series_combination(fm, h2, 2, whole, x, n);
    lemma_series_is_poly(fm, m, x, n);
    lemma_series_is_poly(fu, u, x, n);
    lemma_series_is_poly(f1, e1, x, n);
    lemma_series_is_poly(f2, e2, x, n);
    lemma_series_is_poly(fs, sk, x, n);
    lemma_series_is_poly(fe, e, x, n);
    lemma_series_of_product(f1, fs, n, x, q);
    lemma_series_of_product(fe, fu, n, x, q);
    let (vm, vu, v1, v2, vs, ve) = (
        poly_eval(m, x, n),
        poly_eval(u, x, n),
        poly_eval(e1, x, n),
        poly_eval(e2, x, n),
        poly_eval(sk, x, n),
        poly_eval(e, x, n),
    );
    let (s1, s2) = (series(p1, x, n), series(p2, x, n));
    assert(series(whole, x, n) == vm + 2 * ((v2 + 1 * s1) + (-1) * s2));
    lemma_cong_add(v2, v2, s1, v1 * vs, q);
    lemma_cong_add(v2 + s1, v2 + v1 * vs, s2, ve * vu, q);
    lemma_cong_mul(2, 2, v2 + s1 - s2, v2 + v1 * vs - ve * vu, q);
    lemma_cong_add(vm, vm, 2 * (v2 + s1 - s2), 2 * (v2 + v1 * vs - ve * vu), q);
}

/// What the secret key recovers from an encryption made under its
/// public key, `a2 + a1 * sk`, has at a root of `X^n + 1` the value that
/// the encryption hides: the products with the public key cancel.
pub proof fn lemma_value_of_masked_plain(
    m: Seq<i64>,
    u: Seq<i64>,
    e1: Seq<i64>,
    e2: Seq<i64>,
    sk: Seq<i64>,
    pka: Seq<i64>,
    e: Seq<i64>,
    x: int,
    q: int,
)
    requires
        0 < q <= i64::MAX,
        m.len() == sk.len(),
        u.len() == sk.len(),
        e1.len() == sk.len(),
        e2.len() == sk.len(),
        pka.len() == sk.len(),
        e.len() == sk.len(),
        (pow(x, sk.len()) + 1) % q == 0,
    ensures
        poly_eval(
            masked_plain(
                reduce_all(sk, q),
                ciphertext_a1(reduce_all(pka, q), u, e1, q),
                ciphertext_a2(public_b(sk, pka, e, q), u, e2, m, q),
                q,
            ),
            x,
            sk.len(),
        ) % q == hidden_value(
            poly_eval(m, x, sk.len()),
            poly_eval(u, x, sk.len()),
            poly_eval(e1, x, sk.len()),
            poly_eval(e2, x, sk.len()),
            poly_eval(sk, x, sk.len()),
            poly_eval(e, x, sk.len()),
        ) % q,
{
    let n = sk.len();
    let (vm, vu, v1, v2, vs, va, ve) = (
        poly_eval(m, x, n),
        poly_eval(u, x, n),
        poly_eval(e1, x, n),
        poly_eval(e2, x, n),
        poly_eval(sk, x, n),
        poly_eval(pka, x, n),
        poly_eval(e, x, n),
    );
    let (rs, ra, ru, rm) = (reduce_all(sk, q), reduce_all(pka, q), reduce_all(u, q), reduce_all(m, q));
    lemma_poly_eval_reduced(sk, x, q, n);
    lemma_poly_eval_reduced(pka, x, q, n);
    lemma_poly_eval_reduced(u, x, q, n);
    lemma_poly_eval_reduced(m, x, q, n);
    // the public key: pkb = -(2 e + pka * sk)
    let as_ = negacyclic_mul(ra, rs, q);
    let inner = ring_add(doubled(e, q), as_, q);
    let pkb = ring_neg(inner, q);
    assert(pkb == public_b(sk, pka, e, q));
    lemma_poly_eval_of_doubled(e, x, q, n);
    lemma_poly_eval_of_product(ra, rs, x, q);
    lemma_cong_mul(poly_eval(ra, x, n), va, poly_eval(rs, x, n), vs, q);
    lemma_poly_eval_of_sum(doubled(e, q), as_, x, q, n);
    lemma_cong_add(poly_eval(doubled(e, q), x, n), 2 * ve, poly_eval(as_, x, n), va * vs, q);
    lemma_poly_eval_of_neg(inner, x, q, n);
    let vb = -(2 * ve + va * vs);
    lemma_cong_add(0, 0, poly_eval(inner, x, n), 2 * ve + va * vs, q);
    assert(poly_eval(pkb, x, n) % q == vb % q);
    // the first half: a1 = pka * u + 2 e1
    let au = negacyclic_mul(ra, ru, q);
    let a1 = ring_add(au, doubled(e1, q), q);
    assert(a1 == ciphertext_a1(ra, u, e1, q));
    lemma_poly_eval_of_product(ra, ru, x, q);
    lemma_cong_mul(poly_eval(ra, x, n), va, poly_eval(ru, x, n), vu, q);
    lemma_poly_eval_of_doubled(e1, x, q, n);
    lemma_poly_eval_of_sum(au, doubled(e1, q), x, q, n);
    lemma_cong_add(poly_eval(au, x, n), va * vu, poly_eval(doubled(e1, q), x, n), 2 * v1, q);
    let w1 = va * vu + 2 * v1;
    assert(poly_eval(a1, x, n) % q == w1 % q);
    // the second half: a2 = pkb * u + 2 e2 + m
    let bu = negacyclic_mul(pkb, ru, q);
    let bue = ring_add(bu, doubled(e2, q), q);
    let a2 = ring_add(bue, rm, q);
    assert(a2 == ciphertext_a2(pkb, u, e2, m, q));
    lemma_poly_eval_of_product(pkb, ru, x, q);
    lemma_cong_mul(poly_eval(pkb, x, n), vb, poly_eval(ru, x, n), vu, q);
    lemma_poly_eval_of_doubled(e2, x, q, n);
    lemma_poly_eval_of_sum(bu, doubled(e2, q), x, q, n);
    lemma_cong_add(poly_eval(bu, x, n), vb * vu, poly_eval(doubled(e2, q), x, n), 2 * v2, q);
    lemma_poly_eval_of_sum(bue, rm, x, q, n);
    lemma_cong_add(poly_eval(bue, x, n), vb * vu + 2 * v2, poly_eval(rm, x, n), vm, q);
    let w2 = vb * vu + 2 * v2 + vm;
    assert(poly_eval(a2, x, n) % q == w2 % q);
    // a2 + a1 * sk
    let a1s = negacyclic_mul(a1, rs, q);
    let plain = ring_add(a2, a1s, q);
    assert(plain == masked_plain(rs, a1, a2, q));
    lemma_poly_eval_of_product(a1, rs, x, q);
    lemma_cong_mul(poly_eval(a1, x, n), w1, poly_eval(rs, x, n), vs, q);
    lemma_poly_eval_of_sum(a2, a1s, x, q, n);
    lemma_cong_add(poly_eval(a2, x, n), w2, poly_eval(a1s, x, n), w1 * vs, q);
    assert(w2 + w1 * vs == hidden_value(vm, vu, v1, v2, vs, ve)) by (nonlinear_arith)
        requires
            w1 == va * vu + 2 * v1,
            w2 == vb * vu + 2 * v2 + vm,
            vb == -(2 * ve + va * vs),
    ;
}

/// The transform tells reduced polynomials apart: two with the same
/// transform are the same.
pub proof fn lemma_equal_by_transform(
    a: Seq<i64>,
    b: Seq<i64>,
    psi: int,
    unroot: int,
    ninv: int,
    q: int,
    levels: nat,
)
    requires
        0 < q <= i64::MAX,
        a.len() == pow2(levels),
        b.len() == pow2(levels),
        reduced(a, q),
        reduced(b, q),
        is_negacyclic_root(psi, pow2(levels), q),
        (psi * unroot) % q == 1int % q,
        (pow2(levels) * ninv) % q == 1int % q,
        forward_ntt(a, psi, q) == forward_ntt(b, psi, q),
    ensures
        a == b,
{
    lemma_ntt_round_trip(a, psi, unroot, ninv, q, levels);
    lemma_ntt_round_trip(b, psi, unroot, ninv, q, levels);
    assert forall|i: int| 0 <= i < a.len() implies a[i] == b[i] by {
        lemma_small_mod(a[i] as nat, q as nat);
        lemma_small_mod(b[i] as nat, q as nat);
        assert(reduce_all(a, q)[i] == a[i]);
        assert(reduce_all(b, q)[i] == b[i]);
    }
    assert(a =~= b);
}

/// The value of a folded polynomial from the values of its parts: of the
/// two halves of the ciphertext, of the secret, and of the two masked
/// plaintexts `x` and `y`.
pub open spec fn folded_value(scheme: Scheme, v1: int, v2: int, vs: int, vx: int, vy: int) -> int {
    match scheme {
        Scheme::MM3 => vx * ((v2 + v1 * vs) + vy),
        Scheme::MM2 => (vx + vy) * (v2 + v1 * vs),
        Scheme::MM => v2 + v1 * vs,
    }
}

/// The value of `a1 (s x) + a2 x`, the part that the two encoding
/// schemes share.
proof fn lemma_value_of_shared_part(
    a1: Seq<i64>,
    a2: Seq<i64>,
    s: Seq<i64>,
    x: Seq<i64>,
    at: int,
    q: int,
)
    requires
        0 < q <= i64::MAX,
        a1.len() == s.len(),
        a2.len() == s.len(),
        x.len() == s.len(),
        (pow(at, s.len()) + 1) % q == 0,
    ensures
        poly_eval(
            ring_add(
                negacyclic_mul(a1, negacyclic_mul(s, x, q), q),
                negacyclic_mul(a2, x, q),
                q,
            ),
            at,
            s.len(),
        ) % q == (poly_eval(x, at, s.len()) * (poly_eval(a2, at, s.len()) + poly_eval(
            a1,
            at,
            s.len(),
        ) * poly_eval(s, at, s.len()))) % q,
{
    let n = s.len();
    let (v1, v2, vs, vx) = (
        poly_eval(a1, at, n),
        poly_eval(a2, at, n),
        poly_eval(s, at, n),
        poly_eval(x, at, n),
    );
    let sx = negacyclic_mul(s, x, q);
    let p1 = negacyclic_mul(a1, sx, q);
    let p2 = negacyclic_mul(a2, x, q);
    lemma_poly_eval_of_product(s, x, at, q);
    lemma_poly_eval_of_product(a1, sx, at, q);
    lemma_cong_mul(v1, v1, poly_eval(sx, at, n), vs * vx, q);
    lemma_poly_eval_of_product(a2, x, at, q);
    lemma_poly_eval_of_sum(p1, p2, at, q, n);
    lemma_cong_add(poly_eval(p1, at, n), v1 * (vs * vx), poly_eval(p2, at, n), v2 * vx, q);
    assert(v1 * (vs * vx) + v2 * vx == vx * (v2 + v1 * vs)) by (nonlinear_arith);
}

/// The value of a folded polynomial at a root of `X^n + 1`.
pub proof fn lemma_value_of_folded(
    scheme: Scheme,
    q: int,
    s: Seq<i64>,
    a1_x: Seq<i64>,
    a2_x: Seq<i64>,
    a1_y: Seq<i64>,
    a2_y: Seq<i64>,
    a1: Seq<i64>,
    a2: Seq<i64>,
    at: int,
)
    requires
        0 < q <= i64::MAX,
        a1.len() == s.len(),
        a2.len() == s.len(),
        a2_x.len() == s.len(),
        a2_y.len() == s.len(),
        (pow(at, s.len()) + 1) % q == 0,
    ensures
        poly_eval(folded_polynomial(scheme, q, s, a1_x, a2_x, a1_y, a2_y, a1, a2), at, s.len()) % q
            == folded_value(
            scheme,
            poly_eval(a1, at, s.len()),
            poly_eval(a2, at, s.len()),
            poly_eval(s, at, s.len()),
            poly_eval(masked_plain(s, a1_x, a2_x, q), at, s.len()),
            poly_eval(ring_neg(masked_plain(s, a1_y, a2_y, q), q), at, s.len()),
        ) % q,
{
    let n = s.len();
    let x = masked_plain(s, a1_x, a2_x, q);
    let y = ring_neg(masked_plain(s, a1_y, a2_y, q), q);
    let (v1, v2, vs, vx, vy) = (
        poly_eval(a1, at, n),
        poly_eval(a2, at, n),
        poly_eval(s, at, n),
        poly_eval(x, at, n),
        poly_eval(y, at, n),
    );
    let first = ring_add(
        negacyclic_mul(a1, negacyclic_mul(s, x, q), q),
        negacyclic_mul(a2, x, q),
        q,
    );
    match scheme {
        Scheme::MM3 => {
            let p3 = negacyclic_mul(x, y, q);
            lemma_value_of_shared_part(a1, a2, s, x, at, q);
            lemma_poly_eval_of_product(x, y, at, q);
            lemma_poly_eval_of_sum(first, p3, at, q, n);
            lemma_cong_add(
                poly_eval(first, at, n),
                vx * (v2 + v1 * vs),
                poly_eval(p3, at, n),
                vx * vy,
                q,
            );
            assert(vx * (v2 + v1 * vs) + vx * vy == vx * ((v2 + v1 * vs) + vy))
                by (nonlinear_arith);
        },
        Scheme::MM2 => {
            let sy = negacyclic_mul(s, y, q);
            let p3 = negacyclic_mul(a1, sy, q);
            let p4 = negacyclic_mul(a2, y, q);
            let second = ring_add(first, p3, q);
            lemma_value_of_shared_part(a1, a2, s, x, at, q);
            lemma_poly_eval_of_product(s, y, at, q);
            lemma_poly_eval_of_product(a1, sy, at, q);
            lemma_cong_mul(v1, v1, poly_eval(sy, at, n), vs * vy, q);
            lemma_poly_eval_of_product(a2, y, at, q);
            lemma_poly_eval_of_sum(first, p3, at, q, n);
            lemma_cong_add(
                poly_eval(first, at, n),
                vx * (v2 + v1 * vs),
                poly_eval(p3, at, n),
                v1 * (vs * vy),
                q,
            );
            lemma_poly_eval_of_sum(second, p4, at, q, n);
            lemma_cong_add(
                poly_eval(second, at, n),
                vx * (v2 + v1 * vs) + v1 * (vs * vy),
                poly_eval(p4, at, n),
                v2 * vy,
                q,
            );
            assert(vx * (v2 + v1 * vs) + v1 * (vs * vy) + v2 * vy == (vx + vy) * (v2 + v1 * vs))
                by (nonlinear_arith);
        },
        Scheme::MM => {
            let p = negacyclic_mul(a1, s, q);
            lemma_poly_eval_of_product(a1, s, at, q);
            lemma_poly_eval_of_sum(p, a2, at, q, n);
            lemma_cong_add(poly_eval(p, at, n), v1 * vs, v2, v2, q);
        },
    }
}

/// The difference of two integer polynomials.
pub open spec fn difference(c: spec_fn(int) -> int, y: spec_fn(int) -> int) -> spec_fn(int) -> int {
    |j: int| c(j) - y(j)
}

/// What the first known encryption of a scheme hides: the rotation
/// monomial, or one, and its noise.
pub open spec fn hidden_first(scheme: Scheme, seed: &WhiteBoxSeed) -> spec_fn(int) -> int {
    noisy_plain(
        first_message(scheme, seed.sk@.len(), seed.rotate as int),
        seed.x_noise.u@,
        seed.x_noise.e1@,
        seed.x_noise.e2@,
        seed.sk@,
        seed.e@,
    )
}

/// What the second known encryption hides: the mask, or zero, and its noise.
pub open spec fn hidden_second(scheme: Scheme, seed: &WhiteBoxSeed) -> spec_fn(int) -> int {
    noisy_plain(
        second_message(scheme, seed.sk@.len(), seed.mask@),
        seed.y_noise.u@,
        seed.y_noise.e1@,
        seed.y_noise.e2@,
        seed.sk@,
        seed.e@,
    )
}

/// What the encryption of `m` with `noise` hides.
pub open spec fn hidden_message(seed: &WhiteBoxSeed, m: Seq<i64>, noise: &EncryptionNoise) -> spec_fn(
    int,
) -> int {
    noisy_plain(m, noise.u@, noise.e1@, noise.e2@, seed.sk@, seed.e@)
}

/// The polynomial that decryption reads, over the integers. Under the
/// rotate/mask scheme: the hidden rotation times the difference of the
/// hidden message and the hidden mask. Under the one/zero scheme: the
/// difference of the hidden one and the hidden zero, times the hidden
/// message. Under the bare scheme: the hidden message.
pub open spec fn residue(
    scheme: Scheme,
    seed: &WhiteBoxSeed,
    m: Seq<i64>,
    noise: &EncryptionNoise,
) -> spec_fn(int) -> int {
    let n = seed.sk@.len();
    let hx = hidden_first(scheme, seed);
    let hy = hidden_second(scheme, seed);
    let hc = hidden_message(seed, m, noise);
    match scheme {
        Scheme::MM3 => product_coefficients(hx, difference(hc, hy), n as int, n),
        Scheme::MM2 => product_coefficients(difference(hx, hy), hc, n as int, n),
        Scheme::MM => hc,
    }
}

/// The residue, coefficient by coefficient modulo `q`.
pub open spec fn reduced_residue(
    scheme: Scheme,
    seed: &WhiteBoxSeed,
    m: Seq<i64>,
    noise: &EncryptionNoise,
    q: int,
) -> Seq<i64> {
    Seq::new(seed.sk@.len(), |j: int| (residue(scheme, seed, m, noise)(j) % q) as i64)
}

/// The seed and the noise of an encryption hold polynomials of one degree.
pub open spec fn degrees_agree(seed: &WhiteBoxSeed, m: Seq<i64>, noise: &EncryptionNoise) -> bool {
    let n = seed.sk@.len();
    &&& seed.pka@.len() == n && seed.e@.len() == n && seed.mask@.len() == n
    &&& seed.x_noise.u@.len() == n && seed.x_noise.e1@.len() == n && seed.x_noise.e2@.len() == n
    &&& seed.y_noise.u@.len() == n && seed.y_noise.e1@.len() == n && seed.y_noise.e2@.len() == n
    &&& noise.u@.len() == n && noise.e1@.len() == n && noise.e2@.len() == n
    &&& m.len() == n
}

/// The folded polynomial of an encryption of `m` under the key of the
/// seed, for the tables that the seed determines.
pub open spec fn folded_encryption(
    scheme: Scheme,
    seed: &WhiteBoxSeed,
    m: Seq<i64>,
    noise: &EncryptionNoise,
    q: int,
) -> Seq<i64> {
    let n = seed.sk@.len();
    let pka = reduce_all(seed.pka@, q);
    let pkb = public_b(seed.sk@, seed.pka@, seed.e@, q);
    folded_polynomial(
        scheme,
        q,
        reduce_all(seed.sk@, q),
        ciphertext_a1(pka, seed.x_noise.u@, seed.x_noise.e1@, q),
        ciphertext_a2(
            pkb,
            seed.x_noise.u@,
            seed.x_noise.e2@,
            first_message(scheme, n, seed.rotate as int),
            q,
        ),
        ciphertext_a1(pka, seed.y_noise.u@, seed.y_noise.e1@, q),
        ciphertext_a2(
            pkb,
            seed.y_noise.u@,
            seed.y_noise.e2@,
            second_message(scheme, n, seed.mask@),
            q,
        ),
        ciphertext_a1(pka, noise.u@, noise.e1@, q),
        ciphertext_a2(pkb, noise.u@, noise.e2@, m, q),
    )
}

/// The value of the residue from the values of the three hidden polynomials.
pub open spec fn residue_value(scheme: Scheme, xi: int, yi: int, ci: int) -> int {
    match scheme {
        Scheme::MM3 => xi * (ci + (-1) * yi),
        Scheme::MM2 => (xi + (-1) * yi) * ci,
        Scheme::MM => ci,
    }
}

/// The value of the residue at a root of `X^n + 1`.
proof fn lemma_value_of_residue(
    scheme: Scheme,
    seed: &WhiteBoxSeed,
    m: Seq<i64>,
    noise: &EncryptionNoise,
    at: int,
    q: int,
)
    requires
        q > 0,
        (pow(at, seed.sk@.len()) + 1) % q == 0,
    ensures
        series(residue(scheme, seed, m, noise), at, seed.sk@.len()) % q == residue_value(
            scheme,
            series(hidden_first(scheme, seed), at, seed.sk@.len()),
            series(hidden_second(scheme, seed), at, seed.sk@.len()),
            series(hidden_message(seed, m, noise), at, seed.sk@.len()),
        ) % q,
{
    let n = seed.sk@.len();
    let hx = hidden_first(scheme, seed);
    let hy = hidden_second(scheme, seed);
    let hc = hidden_message(seed, m, noise);
    match scheme {
        Scheme::MM3 => {
            let z = difference(hc, hy);
            assert forall|j: int| 0 <= j < n implies #[trigger] z(j) == hc(j) + (-1) * hy(j) by {}
            lemma_series_combination(hc, hy, -1, z, at, n);
            lemma_series_of_product(hx, z, n, at, q);
        },
        Scheme::MM2 => {
            let z = difference(hx, hy);
            assert forall|j: int| 0 <= j < n implies #[trigger] z(j) == hx(j) + (-1) * hy(j) by {}
            lemma_series_combination(hx, hy, -1, z, at, n);
            lemma_series_of_product(z, hc, n, at, q);
        },
        Scheme::MM => {},
    }
}

/// At a root of `X^n + 1` the folded polynomial of an encryption and the
/// residue have the same value modulo `q`.
pub proof fn lemma_folded_value_is_residue_value(
    scheme: Scheme,
    seed: &WhiteBoxSeed,
    m: Seq<i64>,
    noise: &EncryptionNoise,
    at: int,
    q: int,
)
    requires
        0 < q <= i64::MAX,
        degrees_agree(seed, m, noise),
        (pow(at, seed.sk@.len()) + 1) % q == 0,
    ensures
        poly_eval(folded_encryption(scheme, seed, m, noise, q), at, seed.sk@.len()) % q
            == poly_eval(reduced_residue(scheme, seed, m, noise, q), at, seed.sk@.len()) % q,
{
    let n = seed.sk@.len();
    let (sk, pka_raw, e) = (seed.sk@, seed.pka@, seed.e@);
    let rs = reduce_all(sk, q);
    let pka = reduce_all(pka_raw, q);
    let pkb = public_b(sk, pka_raw, e, q);
    let mx = first_message(scheme, n, seed.rotate as int);
    let my = second_message(scheme, n, seed.mask@);
    let (ux, e1x, e2x) = (seed.x_noise.u@, seed.x_noise.e1@, seed.x_noise.e2@);
    let (uy, e1y, e2y) = (seed.y_noise.u@, seed.y_noise.e1@, seed.y_noise.e2@);
    let (u, e1, e2) = (noise.u@, noise.e1@, noise.e2@);
    let a1 = ciphertext_a1(pka, u, e1, q);
    let a2 = ciphertext_a2(pkb, u, e2, m, q);
    let (a1_x, a2_x) = (ciphertext_a1(pka, ux, e1x, q), ciphertext_a2(pkb, ux, e2x, mx, q));
    let (a1_y, a2_y) = (ciphertext_a1(pka, uy, e1y, q), ciphertext_a2(pkb, uy, e2y, my, q));
    let x = masked_plain(rs, a1_x, a2_x, q);
    let py = masked_plain(rs, a1_y, a2_y, q);
    let y = ring_neg(py, q);
    let pc = masked_plain(rs, a1, a2, q);
    assert(mx.len() == n && my.len() == n) by {
        match scheme {
            Scheme::MM3 => {},
            Scheme::MM2 => {},
            Scheme::MM => {},
        }
    }
    // the three hidden polynomials and their values
    let hx = hidden_first(scheme, seed);
    let hy = hidden_second(scheme, seed);
    let hc = hidden_message(seed, m, noise);
    let (xi, yi, ci) = (series(hx, at, n), series(hy, at, n), series(hc, at, n));
    lemma_value_of_masked_plain(mx, ux, e1x, e2x, sk, pka_raw, e, at, q);
    lemma_value_of_noisy(mx, ux, e1x, e2x, sk, e, at, q);
    lemma_value_of_masked_plain(my, uy, e1y, e2y, sk, pka_raw, e, at, q);
    lemma_value_of_noisy(my, uy, e1y, e2y, sk, e, at, q);
    lemma_value_of_masked_plain(m, u, e1, e2, sk, pka_raw, e, at, q);
    lemma_value_of_noisy(m, u, e1, e2, sk, e, at, q);
    let (vx, vpy, vpc) = (poly_eval(x, at, n), poly_eval(py, at, n), poly_eval(pc, at, n));
    assert(vx % q == xi % q);
    assert(vpy % q == yi % q);
    assert(vpc % q == ci % q);
    // the folded polynomial
    let (v1, v2, vs, vy) = (
        poly_eval(a1, at, n),
        poly_eval(a2, at, n),
        poly_eval(rs, at, n),
        poly_eval(y, at, n),
    );
    lemma_poly_eval_of_neg(py, at, q, n);
    lemma_cong_add(0, 0, vpy, yi, q);
    assert(vy % q == ((-1) * yi) % q);
    let a1s = negacyclic_mul(a1, rs, q);
    lemma_poly_eval_of_product(a1, rs, at, q);
    lemma_poly_eval_of_sum(a2, a1s, at, q, n);
    lemma_cong_add(v2, v2, poly_eval(a1s, at, n), v1 * vs, q);
    let vc = v2 + v1 * vs;
    assert(vc % q == ci % q);
    lemma_value_of_folded(scheme, q, rs, a1_x, a2_x, a1_y, a2_y, a1, a2, at);
    match scheme {
        Scheme::MM3 => {
            lemma_cong_add(vc, ci, vy, (-1) * yi, q);
            lemma_cong_mul(vx, xi, vc + vy, ci + (-1) * yi, q);
        },
        Scheme::MM2 => {
            lemma_cong_add(vx, xi, vy, (-1) * yi, q);
            lemma_cong_mul(vx + vy, xi + (-1) * yi, vc, ci, q);
        },
        Scheme::MM => {},
    }
    // the residue
    lemma_value_of_residue(scheme, seed, m, noise, at, q);
    let v = residue(scheme, seed, m, noise);
    let rv = reduced_residue(scheme, seed, m, noise, q);
    let frv = coefficients(rv);
    assert forall|j: int| 0 <= j < n implies #[trigger] frv(j) % q == v(j) % q by {
        lemma_mod_twice(v(j), q);
    }
    lemma_series_congruent(frv, v, at, n, q);
    lemma_series_is_poly(frv, rv, at, n);
}

/// The folded polynomial of an encryption is the residue modulo `q`.
pub proof fn lemma_folded_is_residue(
    scheme: Scheme,
    seed: &WhiteBoxSeed,
    m: Seq<i64>,
    noise: &EncryptionNoise,
    psi: int,
    unroot: int,
    ninv: int,
    q: int,
    levels: nat,
)
    requires
        0 < q <= i64::MAX,
        seed.sk@.len() == pow2(levels),
        degrees_agree(seed, m, noise),
        is_negacyclic_root(psi, pow2(levels), q),
        (psi * unroot) % q == 1int % q,
        (pow2(levels) * ninv) % q == 1int % q,
    ensures
        folded_encryption(scheme, seed, m, noise, q) == reduced_residue(scheme, seed, m, noise, q),
{
    let n = seed.sk@.len();
    let a = folded_encryption(scheme, seed, m, noise, q);
    let b = reduced_residue(scheme, seed, m, noise, q);
    assert(a.len() == n && reduced(a, q)) by {
        match scheme {
            Scheme::MM3 => {},
            Scheme::MM2 => {},
            Scheme::MM => {},
        }
    }
    assert(reduced(b, q)) by {
        assert forall|j: int| 0 <= j < b.len() implies 0 <= #[trigger] b[j] < q by {
            lemma_mod_bound(residue(scheme, seed, m, noise)(j), q);
        }
    }
    assert forall|k: int| 0 <= k < n implies forward_ntt(a, psi, q)[k] == forward_ntt(b, psi, q)[k] by {
        lemma_odd_powers_are_roots(psi, n, k as nat, q);
        lemma_folded_value_is_residue_value(scheme, seed, m, noise, pow(psi, (2 * k + 1) as nat), q);
    }
    assert(forward_ntt(a, psi, q) =~= forward_ntt(b, psi, q));
    lemma_equal_by_transform(a, b, psi, unroot, ninv, q, levels);
}

/// A product is linear in its first factor.
pub proof fn lemma_product_sum_combination(
    f: spec_fn(int) -> int,
    g: spec_fn(int) -> int,
    c: int,
    h: spec_fn(int) -> int,
    z: spec_fn(int) -> int,
    n: int,
    d: int,
    upto: nat,
)
    requires
        forall|j: int| 0 <= j < upto ==> #[trigger] h(j) == f(j) + c * g(j),
    ensures
        product_sum(h, z, n, d, upto) == product_sum(f, z, n, d, upto) + c * product_sum(
            g,
            z,
            n,
            d,
            upto,
        ),
    decreases upto,
{
    if upto > 0 {
        let k = (upto - 1) as nat;
        lemma_product_sum_combination(f, g, c, h, z, n, d, k);
        let (fk, gk, hk) = (f(k as int), g(k as int), h(k as int));
        assert(hk == fk + c * gk);
        let w = if k <= d {
            z(d - k)
        } else {
            z(d - k + n)
        };
        let (sf, sg) = (product_sum(f, z, n, d, k), product_sum(g, z, n, d, k));
        assert(hk * w == fk * w + c * (gk * w)) by (nonlinear_arith)
            requires
                hk == fk + c * gk,
        ;
        assert(sf + c * sg + hk * w == (sf + fk * w) + c * (sg + gk * w)) by (nonlinear_arith)
            requires
                hk * w == fk * w + c * (gk * w),
        ;
        assert(sf + c * sg - hk * w == (sf - fk * w) + c * (sg - gk * w)) by (nonlinear_arith)
            requires
                hk * w == fk * w + c * (gk * w),
        ;
    }
}

/// The product of a monomial `X^r` with `z` is `z` moved up by `r` places.
pub proof fn lemma_product_with_monomial(
    unit: Seq<i64>,
    r: int,
    z: spec_fn(int) -> int,
    d: int,
    upto: nat,
)
    requires
        0 <= r < unit.len(),
        unit == unit_vector(unit.len(), r),
        upto <= unit.len(),
    ensures
        product_sum(coefficients(unit), z, unit.len() as int, d, upto) == (if r < upto {
            shifted(z, unit.len() as int, r)(d)
        } else {
            0
        }),
    decreases upto,
{
    if upto > 0 {
        let k = (upto - 1) as nat;
        lemma_product_with_monomial(unit, r, z, d, k);
        let f = coefficients(unit);
        let n = unit.len() as int;
        let w = if k <= d {
            z(d - k)
        } else {
            z(d - k + n)
        };
        if k == r {
            assert(f(k as int) == 1);
            assert(1 * w == w);
        } else {
            assert(f(k as int) == 0);
            assert(0 * w == 0);
        }
    }
}

/// The bit read off a coefficient within the margin. For an odd modulus,
/// a value `v` with `|2 v| < q` that is the bit minus the mask bit, up
/// to sign and an even number, decodes to the bit.
pub proof fn lemma_decode(v: int, bit: int, mask_bit: int, even: int, q: int)
    requires
        q > 0,
        q % 2 == 1,
        -q < 2 * v < q,
        bit == 0 || bit == 1,
        v == (bit - mask_bit) + 2 * even || v == -(bit - mask_bit) + 2 * even,
    ensures
        demasked_bit(v % q, mask_bit, q) == bit,
{
    lemma_mod_twice(v, q);
    if v >= 0 {
        lemma_small_mod(v as nat, q as nat);
    } else {
        lemma_mod_add_multiples_vanish(v, q);
        lemma_small_mod((v + q) as nat, q as nat);
        assert(v % q == v + q);
    }
}

/// The noise of a key, of the two known encryptions and of one more
/// encryption stays within the margin: every coefficient of the residue
/// is less than half the modulus in absolute value.
pub open spec fn within_margin(
    scheme: Scheme,
    seed: &WhiteBoxSeed,
    m: Seq<i64>,
    noise: &EncryptionNoise,
    q: int,
) -> bool {
    forall|j: int|
        0 <= j < seed.sk@.len() ==> -q < 2 * #[trigger] residue(scheme, seed, m, noise)(j) < q
}

/// The place of the decrypted polynomial that holds bit `i`.
pub open spec fn place_of(scheme: Scheme, seed: &WhiteBoxSeed, i: int) -> int {
    if scheme == Scheme::MM3 {
        (i + seed.rotate) % (seed.sk@.len() as int)
    } else {
        i
    }
}

/// The mask bit added to the coefficient that holds bit `i`.
pub open spec fn mask_bit_of(scheme: Scheme, seed: &WhiteBoxSeed, i: int) -> int {
    if scheme == Scheme::MM3 {
        seed.mask@[i] as int
    } else {
        0
    }
}

/// The coefficient of the residue that holds bit `i`: the bit minus the
/// mask bit, up to sign and an even number.
pub proof fn lemma_residue_holds_bit(
    scheme: Scheme,
    seed: &WhiteBoxSeed,
    m: Seq<i64>,
    noise: &EncryptionNoise,
    i: int,
) -> (even: int)
    requires
        degrees_agree(seed, m, noise),
        seed.rotate < seed.sk@.len(),
        0 <= i < seed.sk@.len(),
    ensures
        ({
            let v = residue(scheme, seed, m, noise)(place_of(scheme, seed, i));
            let b = m[i] - mask_bit_of(scheme, seed, i);
            v == b + 2 * even || v == -b + 2 * even
        }),
{
    let n = seed.sk@.len() as int;
    let hx = hidden_first(scheme, seed);
    let hy = hidden_second(scheme, seed);
    let hc = hidden_message(seed, m, noise);
    let nx = noise_of(seed.x_noise.u@, seed.x_noise.e1@, seed.x_noise.e2@, seed.sk@, seed.e@);
    let ny = noise_of(seed.y_noise.u@, seed.y_noise.e1@, seed.y_noise.e2@, seed.sk@, seed.e@);
    let nc = noise_of(noise.u@, noise.e1@, noise.e2@, seed.sk@, seed.e@);
    assert(hc(i) == m[i] + 2 * nc(i));
    match scheme {
        Scheme::MM3 => {
            let r = seed.rotate as int;
            let d = (i + r) % n;
            let unit = unit_vector(n as nat, r);
            let fu = coefficients(unit);
            let z = difference(hc, hy);
            assert forall|j: int| 0 <= j < n implies #[trigger] hx(j) == fu(j) + 2 * nx(j) by {}
            lemma_product_sum_combination(fu, nx, 2, hx, z, n, d, n as nat);
            lemma_product_with_monomial(unit, r, z, d, n as nat);
            let w = product_sum(nx, z, n, d, n as nat);
            let moved = shifted(z, n, r)(d);
            assert(residue(scheme, seed, m, noise)(d) == moved + 2 * w);
            assert(hy(i) == seed.mask@[i] + 2 * ny(i));
            let b = m[i] - seed.mask@[i];
            assert(z(i) == b + 2 * (nc(i) - ny(i)));
            if i + r < n {
                lemma_small_mod((i + r) as nat, n as nat);
                assert(moved == z(i));
                w + (nc(i) - ny(i))
            } else {
                lemma_mod_sub_multiples_vanish(i + r, n);
                lemma_small_mod((i + r - n) as nat, n as nat);
                assert(d == i + r - n);
                assert(moved == -z(i));
                w - (nc(i) - ny(i))
            }
        },
        Scheme::MM2 => {
            let unit = unit_vector(n as nat, 0);
            let fu = coefficients(unit);
            let z = difference(hx, hy);
            let nz = difference(nx, ny);
            assert forall|j: int| 0 <= j < n implies #[trigger] z(j) == fu(j) + 2 * nz(j) by {}
            lemma_product_sum_combination(fu, nz, 2, z, hc, n, i, n as nat);
            lemma_product_with_monomial(unit, 0, hc, i, n as nat);
            let w = product_sum(nz, hc, n, i, n as nat);
            assert(shifted(hc, n, 0)(i) == hc(i));
            assert(residue(scheme, seed, m, noise)(i) == hc(i) + 2 * w);
            w + nc(i)
        },
        Scheme::MM => nc(i),
    }
}

/// Decryption recovers the message wherever the noise stays within the
/// margin. For white-box data that the generator made from a seed, an
/// odd modulus and bases that fit it: the white-box decryption of an
/// encryption of the bits `m` under the public key is `m`, for all noise
/// within the margin.
pub proof fn lemma_decryption_recovers_message(
    p: &PubEncData,
    w: &WhiteData,
    degree: usize,
    modulus: i64,
    beta: Seq<i64>,
    beta_p: Seq<i64>,
    k: usize,
    chal: u8,
    seed: &WhiteBoxSeed,
    m: Seq<i64>,
    noise: &EncryptionNoise,
)
    requires
        generated(p, w, degree, modulus, beta, beta_p, k, chal, seed),
        quotient_fits(modulus as int, beta, beta_p),
        modulus % 2 == 1,
        m.len() == degree,
        forall|i: int| 0 <= i < degree ==> #[trigger] m[i] == 0 || m[i] == 1,
        noise.u@.len() == degree,
        noise.e1@.len() == degree,
        noise.e2@.len() == degree,
        within_margin(scheme_of_selector(chal)->0, seed, m, noise, modulus as int),
    ensures
        decrypted_bits(
            w,
            ciphertext_a1(p.pka.vector@, noise.u@, noise.e1@, modulus as int),
            ciphertext_a2(p.pkb.vector@, noise.u@, noise.e2@, m, modulus as int),
            modulus as int,
        ) == m,
{
    let q = modulus as int;
    let n = degree as int;
    let scheme = scheme_of_selector(chal)->0;
    let a1 = ciphertext_a1(p.pka.vector@, noise.u@, noise.e1@, q);
    let a2 = ciphertext_a2(p.pkb.vector@, noise.u@, noise.e2@, m, q);
    assert(a1.len() == n && a2.len() == n);
    lemma_generated_data_decrypts(p, w, degree, modulus, beta, beta_p, k, chal, seed, a1, a2);
    let t = seeded_polynomial(p, seed, scheme, a1, a2);
    assert(t == folded_encryption(scheme, seed, m, noise, q));
    let levels = choose|e: nat| n == pow2(e);
    lemma_mod_inverse_exists(w.root as nat, modulus as nat);
    lemma_mod_inverse_exists(degree as nat, modulus as nat);
    assert((w.root * w.unroot) % q == 1int % q) by (nonlinear_arith)
        requires
            (w.unroot * w.root) % q == 1int % q,
    ;
    assert((n * w.ninv) % q == 1int % q) by (nonlinear_arith)
        requires
            (w.ninv * n) % q == 1int % q,
    ;
    lemma_folded_is_residue(
        scheme,
        seed,
        m,
        noise,
        w.root as int,
        w.unroot as int,
        w.ninv as int,
        q,
        levels,
    );
    let bits = read_bits(t, scheme, w.rotate as int, w.mask@, q);
    assert forall|i: int| 0 <= i < n implies bits[i] == m[i] by {
        let d = place_of(scheme, seed, i);
        lemma_mod_bound(i + seed.rotate, n);
        let v = residue(scheme, seed, m, noise)(d);
        let even = lemma_residue_holds_bit(scheme, seed, m, noise, i);
        lemma_decode(v, m[i] as int, mask_bit_of(scheme, seed, i), even, q);
        assert(t[d] == v % q);
    }
    assert(bits =~= m);
}

/// The same for the production parameters, whose modulus is odd and
/// whose bases fit it.
pub proof fn lemma_production_decryption_recovers_message(
    p: &PubEncData,
    w: &WhiteData,
    seed: &WhiteBoxSeed,
    m: Seq<i64>,
    noise: &EncryptionNoise,
)
    requires
        generated(
            p,
            w,
            DEGREE,
            MODULUS,
            production_beta_view(),
            production_beta_p_view(),
            SLOTS,
            ROTATE_MASK,
            seed,
        ),
        m.len() == DEGREE,
        forall|i: int| 0 <= i < DEGREE ==> #[trigger] m[i] == 0 || m[i] == 1,
        noise.u@.len() == DEGREE,
        noise.e1@.len() == DEGREE,
        noise.e2@.len() == DEGREE,
        within_margin(Scheme::MM3, seed, m, noise, MODULUS as int),
    ensures
        decrypted_bits(
            w,
            ciphertext_a1(p.pka.vector@, noise.u@, noise.e1@, MODULUS as int),
            ciphertext_a2(p.pkb.vector@, noise.u@, noise.e2@, m, MODULUS as int),
            MODULUS as int,
        ) == m,
{
    lemma_production_parameters_fit();
    lemma_decryption_recovers_message(
        p,
        w,
        DEGREE,
        MODULUS,
        production_beta_view(),
        production_beta_p_view(),
        SLOTS,
        ROTATE_MASK,
        seed,
        m,
        noise,
    );
}

/// End to end: the text that decryption yields for an encrypted message
/// is the message, followed by NUL characters. For generated data, a
/// degree that is a whole number of bytes, and noise within the margin,
/// what `decrypt_to_text` reads from what `encrypt_message` made of the
/// bytes `message` is those bytes as text.
pub proof fn lemma_decrypted_text_is_message(
    p: &PubEncData,
    w: &WhiteData,
    degree: usize,
    modulus: i64,
    beta: Seq<i64>,
    beta_p: Seq<i64>,
    k: usize,
    chal: u8,
    seed: &WhiteBoxSeed,
    message: Seq<u8>,
    noise: &EncryptionNoise,
)
    requires
        generated(p, w, degree, modulus, beta, beta_p, k, chal, seed),
        quotient_fits(modulus as int, beta, beta_p),
        modulus % 2 == 1,
        8 * message.len() <= degree,
        degree % 8 == 0,
        noise.u@.len() == degree,
        noise.e1@.len() == degree,
        noise.e2@.len() == degree,
        within_margin(
            scheme_of_selector(chal)->0,
            seed,
            padded_bits(bits_of_bytes(message), degree as nat),
            noise,
            modulus as int,
        ),
    ensures
        text_of_binary(
            bit_digits(
                decrypted_bits(
                    w,
                    ciphertext_a1(p.pka.vector@, noise.u@, noise.e1@, modulus as int),
                    ciphertext_a2(
                        p.pkb.vector@,
                        noise.u@,
                        noise.e2@,
                        padded_bits(bits_of_bytes(message), degree as nat),
                        modulus as int,
                    ),
                    modulus as int,
                ),
            ),
        ) == text_of_bytes(message, (degree / 8) as nat),
{
    let m = padded_bits(bits_of_bytes(message), degree as nat);
    assert forall|i: int| 0 <= i < degree implies #[trigger] m[i] == 0 || m[i] == 1 by {}
    lemma_decryption_recovers_message(p, w, degree, modulus, beta, beta_p, k, chal, seed, m, noise);
    lemma_text_of_message_bits(message, degree as nat);
}

} // verus!
