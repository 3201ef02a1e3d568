//! What white-box decryption computes: the tables multiply in the
//! transform domain, so the decryptor obtains a fixed polynomial of the
//! ring in the ciphertext, the secret and the two known encryptions.

use vstd::prelude::*;
use vstd::arithmetic::div_mod::*;
use vstd::arithmetic::power2::*;
use crate::convolution::{lemma_transform_of_product, lemma_transform_of_sum};
use crate::create_wb::masked_plain;
use crate::crt::seq_product;
use crate::decrypt::{
    decrypt_error, decrypted_bits, demasked_bit, mont_mult_value, whitebox_product,
};
use crate::encrypt::{ciphertext_a1, ciphertext_a2};
use crate::generate::{
    first_message, generated, production_beta_p_view, production_beta_view, second_message,
    tables_are, WhiteBoxSeed, DEGREE, MODULUS, ROTATE_MASK, SLOTS,
};
use crate::lattice::{negacyclic_mul, reduce_all, ring_add, ring_neg, NTRUVector, PubEncData};
use crate::modular::coprime;
use crate::montgomery::{
    folded_term, lemma_mod_inverse_exists, lemma_production_parameters_fit,
    lemma_whitebox_product_is_term, quotient_fits,
};
use crate::ntt_laws::{lemma_inverse_root, lemma_ntt_round_trip};
use crate::ntt_spec::{forward_ntt, inverse_ntt, is_negacyclic_root, lemma_cong_add};
use crate::whitebox::{scheme_of_selector, small_base, Scheme, WhiteData};

verus! {

/// The polynomial that the tables of a scheme compute from a ciphertext
/// `(a1, a2)`. With `x` and `y` the masked plaintexts of the two known
/// encryptions (the second negated) and `s` the secret:
/// `a1 (s x) + a2 x + x y` under `MM3`, `a1 (s x) + a2 x + a1 (s y) + a2 y`
/// under `MM2`, and `a1 s + a2` under `MM`.
pub open spec fn folded_polynomial(
    scheme: Scheme,
    q: int,
    sk: Seq<i64>,
    a1_x: Seq<i64>,
    a2_x: Seq<i64>,
    a1_y: Seq<i64>,
    a2_y: Seq<i64>,
    a1: Seq<i64>,
    a2: Seq<i64>,
) -> Seq<i64> {
    let x = masked_plain(sk, a1_x, a2_x, q);
    let y = ring_neg(masked_plain(sk, a1_y, a2_y, q), q);
    let first = ring_add(
        negacyclic_mul(a1, negacyclic_mul(sk, x, q), q),
        negacyclic_mul(a2, x, q),
        q,
    );
    match scheme {
        Scheme::MM3 => ring_add(first, negacyclic_mul(x, y, q), q),
        Scheme::MM2 => ring_add(
            ring_add(first, negacyclic_mul(a1, negacyclic_mul(sk, y, q), q), q),
            negacyclic_mul(a2, y, q),
            q,
        ),
        Scheme::MM => ring_add(negacyclic_mul(a1, sk, q), a2, q),
    }
}

/// The transform of the folded polynomial is, dimension by dimension,
/// the folded term of the transformed ciphertext.
pub proof fn lemma_transform_of_folded(
    scheme: Scheme,
    q: int,
    sk: Seq<i64>,
    a1_x: Seq<i64>,
    a2_x: Seq<i64>,
    a1_y: Seq<i64>,
    a2_y: Seq<i64>,
    a1: Seq<i64>,
    a2: Seq<i64>,
    root: i64,
    d: int,
)
    requires
        0 < q <= i64::MAX,
        a1.len() == sk.len(),
        a2.len() == sk.len(),
        a2_x.len() == sk.len(),
        a2_y.len() == sk.len(),
        is_negacyclic_root(root as int, sk.len(), q),
        0 <= d < sk.len(),
    ensures
        forward_ntt(folded_polynomial(scheme, q, sk, a1_x, a2_x, a1_y, a2_y, a1, a2), root as int, q)[d]
            == folded_term(
            scheme,
            q,
            sk,
            a1_x,
            a2_x,
            a1_y,
            a2_y,
            root,
            forward_ntt(a1, root as int, q)[d] as int,
            forward_ntt(a2, root as int, q)[d] as int,
            d,
        ) % q,
{
    let psi = root as int;
    let x = masked_plain(sk, a1_x, a2_x, q);
    let y = ring_neg(masked_plain(sk, a1_y, a2_y, q), q);
    let sx = negacyclic_mul(sk, x, q);
    let sy = negacyclic_mul(sk, y, q);
    let a = forward_ntt(a1, psi, q)[d] as int;
    let b = forward_ntt(a2, psi, q)[d] as int;
    let fx = forward_ntt(x, psi, q)[d] as int;
    let fy = forward_ntt(y, psi, q)[d] as int;
    let fsx = forward_ntt(sx, psi, q)[d] as int;
    let fsy = forward_ntt(sy, psi, q)[d] as int;
    let fs = forward_ntt(sk, psi, q)[d] as int;
    match scheme {
        Scheme::MM => {
            let p = negacyclic_mul(a1, sk, q);
            lemma_transform_of_product(a1, sk, psi, q);
            lemma_transform_of_sum(p, a2, psi, q);
            assert(forward_ntt(p, psi, q)[d] == (a * fs) % q);
            lemma_mod_twice(a * fs, q);
            lemma_cong_add((a * fs) % q, a * fs, b, b, q);
        },
        _ => {
            let p1 = negacyclic_mul(a1, sx, q);
            let p2 = negacyclic_mul(a2, x, q);
            let first = ring_add(p1, p2, q);
            lemma_transform_of_product(a1, sx, psi, q);
            lemma_transform_of_product(a2, x, psi, q);
            lemma_transform_of_sum(p1, p2, psi, q);
            assert(forward_ntt(p1, psi, q)[d] == (a * fsx) % q);
            assert(forward_ntt(p2, psi, q)[d] == (b * fx) % q);
            lemma_mod_twice(a * fsx, q);
            lemma_mod_twice(b * fx, q);
            lemma_cong_add((a * fsx) % q, a * fsx, (b * fx) % q, b * fx, q);
            let f1 = forward_ntt(first, psi, q)[d] as int;
            assert(f1 == (a * fsx + b * fx) % q);
            lemma_mod_twice(a * fsx + b * fx, q);
            if scheme == Scheme::MM3 {
                let p3 = negacyclic_mul(x, y, q);
                lemma_transform_of_product(x, y, psi, q);
                lemma_transform_of_sum(first, p3, psi, q);
                assert(forward_ntt(p3, psi, q)[d] == (fx * fy) % q);
                lemma_mod_twice(fx * fy, q);
                lemma_cong_add(f1, a * fsx + b * fx, (fx * fy) % q, fx * fy, q);
            } else {
                let p3 = negacyclic_mul(a1, sy, q);
                let p4 = negacyclic_mul(a2, y, q);
                let second = ring_add(first, p3, q);
                lemma_transform_of_product(a1, sy, psi, q);
                lemma_transform_of_product(a2, y, psi, q);
                lemma_transform_of_sum(first, p3, psi, q);
                lemma_transform_of_sum(second, p4, psi, q);
                assert(forward_ntt(p3, psi, q)[d] == (a * fsy) % q);
                assert(forward_ntt(p4, psi, q)[d] == (b * fy) % q);
                lemma_mod_twice(a * fsy, q);
                lemma_mod_twice(b * fy, q);
                lemma_cong_add(f1, a * fsx + b * fx, (a * fsy) % q, a * fsy, q);
                let f2 = forward_ntt(second, psi, q)[d] as int;
                assert(f2 == (a * fsx + b * fx + a * fsy) % q);
                lemma_mod_twice(a * fsx + b * fx + a * fsy, q);
                lemma_cong_add(f2, a * fsx + b * fx + a * fsy, (b * fy) % q, b * fy, q);
            }
        },
    }
}

/// White-box decryption computes the folded polynomial. For tables built
/// from a secret and two known encryptions, over a ring with transform
/// parameters and bases that fit the modulus, transforming a ciphertext,
/// multiplying through the tables and transforming back gives exactly
/// that polynomial of the ciphertext.
pub proof fn lemma_whitebox_computes_polynomial(
    w: &WhiteData,
    scheme: Scheme,
    q: int,
    sk: Seq<i64>,
    a1_x: Seq<i64>,
    a2_x: Seq<i64>,
    a1_y: Seq<i64>,
    a2_y: Seq<i64>,
    a1: Seq<i64>,
    a2: Seq<i64>,
    levels: nat,
)
    requires
        0 < q <= i64::MAX,
        sk.len() == pow2(levels),
        a1.len() == sk.len(),
        a2.len() == sk.len(),
        a2_x.len() == sk.len(),
        a2_y.len() == sk.len(),
        is_negacyclic_root(w.root as int, sk.len(), q),
        (w.root * w.unroot) % q == 1int % q,
        (sk.len() * w.ninv) % q == 1int % q,
        small_base(w.beta@),
        small_base(w.beta_p@),
        coprime(q as nat, seq_product(w.beta@) as nat),
        coprime(seq_product(w.beta@) as nat, seq_product(w.beta_p@) as nat),
        quotient_fits(q, w.beta@, w.beta_p@),
        tables_are(w.fb@, w.sb@, scheme, q, sk, a1_x, a2_x, a1_y, a2_y, w.root, w.beta@, w.beta_p@),
    ensures
        inverse_ntt(
            whitebox_product(
                w,
                forward_ntt(a1, w.root as int, q),
                forward_ntt(a2, w.root as int, q),
                q,
            ),
            w.unroot as int,
            w.ninv as int,
            q,
        ) == folded_polynomial(scheme, q, sk, a1_x, a2_x, a1_y, a2_y, a1, a2),
{
    let psi = w.root as int;
    let fa = forward_ntt(a1, psi, q);
    let fb = forward_ntt(a2, psi, q);
    let z = whitebox_product(w, fa, fb, q);
    let c = folded_polynomial(scheme, q, sk, a1_x, a2_x, a1_y, a2_y, a1, a2);
    let fc = forward_ntt(c, psi, q);
    assert(c.len() == sk.len());
    assert forall|d: int| 0 <= d < sk.len() implies z[d] == fc[d] by {
        lemma_whitebox_product_is_term(
            w.fb@,
            w.sb@,
            scheme,
            q,
            sk,
            a1_x,
            a2_x,
            a1_y,
            a2_y,
            w.root,
            w.beta@,
            w.beta_p@,
            fa[d] as int,
            fb[d] as int,
            d,
        );
        lemma_transform_of_folded(scheme, q, sk, a1_x, a2_x, a1_y, a2_y, a1, a2, w.root, d);
        assert(z[d] == mont_mult_value(
            w.fb@[d]@,
            w.sb@[d]@,
            fa[d] as int,
            fb[d] as int,
            q,
            w.beta@,
            w.beta_p@,
        ) as i64);
    }
    assert(z =~= fc);
    lemma_ntt_round_trip(c, psi, w.unroot as int, w.ninv as int, q, levels);
    assert forall|i: int| 0 <= i < c.len() implies reduce_all(c, q)[i] == c[i] by {
        match scheme {
            Scheme::MM3 => {},
            Scheme::MM2 => {},
            Scheme::MM => {},
        }
        assert(0 <= c[i] < q);
        lemma_small_mod(c[i] as nat, q as nat);
    }
    assert(reduce_all(c, q) =~= c);
}

/// The bits read off a decrypted polynomial `t`: the demasked parities
/// of its coefficients, taken `rotate` places on and with the mask bit
/// added under `MM3`.
pub open spec fn read_bits(t: Seq<i64>, scheme: Scheme, rotate: int, mask: Seq<i64>, q: int) -> Seq<
    i64,
> {
    Seq::new(
        t.len(),
        |i: int|
            if scheme == Scheme::MM3 {
                demasked_bit(t[(i + rotate) % (t.len() as int)] as int, mask[i] as int, q) as i64
            } else {
                demasked_bit(t[i] as int, 0, q) as i64
            },
    )
}

/// The folded polynomial of a ciphertext under the tables that a seed
/// determines: the known encryptions are those of the rotation monomial
/// and of the mask, made with the seed's noise under the public key.
pub open spec fn seeded_polynomial(
    p: &PubEncData,
    seed: &WhiteBoxSeed,
    scheme: Scheme,
    a1: Seq<i64>,
    a2: Seq<i64>,
) -> Seq<i64> {
    let q = p.modulus as int;
    folded_polynomial(
        scheme,
        q,
        reduce_all(seed.sk@, q),
        ciphertext_a1(p.pka.vector@, seed.x_noise.u@, seed.x_noise.e1@, q),
        ciphertext_a2(
            p.pkb.vector@,
            seed.x_noise.u@,
            seed.x_noise.e2@,
            first_message(scheme, p.degree as nat, seed.rotate as int),
            q,
        ),
        ciphertext_a1(p.pka.vector@, seed.y_noise.u@, seed.y_noise.e1@, q),
        ciphertext_a2(
            p.pkb.vector@,
            seed.y_noise.u@,
            seed.y_noise.e2@,
            second_message(scheme, p.degree as nat, seed.mask@),
            q,
        ),
        a1,
        a2,
    )
}

/// What decryption with generated data yields. Where the bases fit the
/// modulus, the bits that the decryptor returns for a ciphertext are
/// read off the folded polynomial of that ciphertext: the tables hide
/// the secret, but compute with it exactly.
pub proof fn lemma_generated_data_decrypts(
    p: &PubEncData,
    w: &WhiteData,
    degree: usize,
    modulus: i64,
    beta: Seq<i64>,
    beta_p: Seq<i64>,
    k: usize,
    chal: u8,
    seed: &WhiteBoxSeed,
    a1: Seq<i64>,
    a2: Seq<i64>,
)
    requires
        generated(p, w, degree, modulus, beta, beta_p, k, chal, seed),
        quotient_fits(modulus as int, beta, beta_p),
        a1.len() == degree,
        a2.len() == degree,
    ensures
        decrypted_bits(w, a1, a2, modulus as int) == read_bits(
            seeded_polynomial(p, seed, scheme_of_selector(chal)->0, a1, a2),
            scheme_of_selector(chal)->0,
            w.rotate as int,
            w.mask@,
            modulus as int,
        ),
{
    let q = modulus as int;
    let scheme = scheme_of_selector(chal)->0;
    let levels = choose|e: nat| degree as int == pow2(e);
    lemma_mod_inverse_exists(w.root as nat, modulus as nat);
    lemma_mod_inverse_exists(degree as nat, modulus as nat);
    let sk = reduce_all(seed.sk@, q);
    let a1_x = ciphertext_a1(p.pka.vector@, seed.x_noise.u@, seed.x_noise.e1@, q);
    let a2_x = ciphertext_a2(
        p.pkb.vector@,
        seed.x_noise.u@,
        seed.x_noise.e2@,
        first_message(scheme, degree as nat, seed.rotate as int),
        q,
    );
    let a1_y = ciphertext_a1(p.pka.vector@, seed.y_noise.u@, seed.y_noise.e1@, q);
    let a2_y = ciphertext_a2(
        p.pkb.vector@,
        seed.y_noise.u@,
        seed.y_noise.e2@,
        second_message(scheme, degree as nat, seed.mask@),
        q,
    );
    assert(p.pkb.vector@.len() == degree);
    assert(a2_x.len() == degree && a2_y.len() == degree);
    assert((w.root * w.unroot) % q == 1int % q) by (nonlinear_arith)
        requires
            (w.unroot * w.root) % q == 1int % q,
    ;
    assert((degree * w.ninv) % q == 1int % q) by (nonlinear_arith)
        requires
            (w.ninv * degree) % q == 1int % q,
    ;
    lemma_whitebox_computes_polynomial(w, scheme, q, sk, a1_x, a2_x, a1_y, a2_y, a1, a2, levels);
    let c = seeded_polynomial(p, seed, scheme, a1, a2);
    assert(c.len() == degree);
    assert(decrypted_bits(w, a1, a2, q) =~= read_bits(c, scheme, w.rotate as int, w.mask@, q));
}

/// The same for the production parameters: their bases fit the modulus.
pub proof fn lemma_production_data_decrypts(
    p: &PubEncData,
    w: &WhiteData,
    seed: &WhiteBoxSeed,
    a1: Seq<i64>,
    a2: Seq<i64>,
)
    requires
        generated(
            p,
            w,
            DEGREE,
            MODULUS,
            production_beta_view(),
            production_beta_p_view(),
            SLOTS,
            ROTATE_MASK,
            seed,
        ),
        a1.len() == DEGREE,
        a2.len() == DEGREE,
    ensures
        decrypted_bits(w, a1, a2, MODULUS as int) == read_bits(
            seeded_polynomial(p, seed, Scheme::MM3, a1, a2),
            Scheme::MM3,
            w.rotate as int,
            w.mask@,
            MODULUS as int,
        ),
{
    lemma_production_parameters_fit();
    lemma_generated_data_decrypts(
        p,
        w,
        DEGREE,
        MODULUS,
        production_beta_view(),
        production_beta_p_view(),
        SLOTS,
        ROTATE_MASK,
        seed,
        a1,
        a2,
    );
}

/// The decryptor accepts generated data: with a ciphertext of the same
/// ring whose checksums hold, no check of the decryption fails.
pub proof fn lemma_generated_data_is_accepted(
    p: &PubEncData,
    w: &WhiteData,
    degree: usize,
    modulus: i64,
    beta: Seq<i64>,
    beta_p: Seq<i64>,
    k: usize,
    chal: u8,
    seed: &WhiteBoxSeed,
    a1: &NTRUVector,
    a2: &NTRUVector,
)
    requires
        generated(p, w, degree, modulus, beta, beta_p, k, chal, seed),
        a1.wf() && a2.wf(),
        a1.checksum_ok() && a2.checksum_ok(),
        a1.degree == degree && a2.degree == degree,
        a1.modulus == modulus && a2.modulus == modulus,
        !a1.ntt && !a2.ntt,
    ensures
        decrypt_error(w, a1, a2, degree, modulus) is None,
{
    let q = modulus as int;
    lemma_mod_inverse_exists(w.root as nat, modulus as nat);
    assert((w.root * w.unroot) % q == 1int % q) by (nonlinear_arith)
        requires
            (w.unroot * w.root) % q == 1int % q,
    ;
    lemma_inverse_root(w.root as int, w.unroot as int, degree as nat, q);
}

} // verus!
