//! Key generation and public-key encryption over the ring.
//!
//! The small random polynomials (the secret, and the noise of each
//! encryption) are inputs: whoever draws them hands them over as integers.

use vstd::prelude::*;
use vstd::string::StringSliceAdditionalSpecFns;
use crate::bits::{bits_of_bytes, message_bits};
use crate::create_wb::WhiteBoxError;
use crate::entropy::random_below;
use crate::lattice::{
    negacyclic_mul, reduce_all, reduced, ring_add, ring_neg, NTRUVector, PubEncData, RingError,
};
use crate::modular::mul_mod;

verus! {

/// A secret ring element and the public pair derived from it.
#[derive(Debug)]
pub struct KeyPair {
    pub sk: NTRUVector,
    pub pka: NTRUVector,
    pub pkb: NTRUVector,
}

/// The fresh randomness of one encryption: three small polynomials.
#[derive(Debug)]
pub struct EncryptionNoise {
    pub u: Vec<i64>,
    pub e1: Vec<i64>,
    pub e2: Vec<i64>,
}

/// Twice each coefficient, modulo `q`: noise is always even.
pub open spec fn doubled(e: Seq<i64>, q: int) -> Seq<i64> {
    Seq::new(e.len(), |i: int| ((2 * e[i]) % q) as i64)
}

/// The second half of the public key: `-(2e + pka * sk)`.
pub open spec fn public_b(sk: Seq<i64>, pka: Seq<i64>, e: Seq<i64>, q: int) -> Seq<i64> {
    ring_neg(ring_add(doubled(e, q), negacyclic_mul(reduce_all(pka, q), reduce_all(sk, q), q), q), q)
}

/// The first half of a ciphertext: `pka * u + 2 e1`.
pub open spec fn ciphertext_a1(pka: Seq<i64>, u: Seq<i64>, e1: Seq<i64>, q: int) -> Seq<i64> {
    ring_add(negacyclic_mul(pka, reduce_all(u, q), q), doubled(e1, q), q)
}

/// The second half of a ciphertext: `pkb * u + 2 e2 + m`.
pub open spec fn ciphertext_a2(
    pkb: Seq<i64>,
    u: Seq<i64>,
    e2: Seq<i64>,
    m: Seq<i64>,
    q: int,
) -> Seq<i64> {
    ring_add(
        ring_add(negacyclic_mul(pkb, reduce_all(u, q), q), doubled(e2, q), q),
        reduce_all(m, q),
        q,
    )
}

/// A message of `bits` bits as ring coefficients: the bits, then zeros.
pub open spec fn padded_bits(bits: Seq<i64>, degree: nat) -> Seq<i64> {
    Seq::new(
        degree,
        |i: int|
            if i < bits.len() {
                bits[i]
            } else {
                0i64
            },
    )
}

/// The vector `2e`, in the coefficient domain.
fn doubled_vector(e: &[i64], q: i64) -> (res: NTRUVector)
    requires
        q > 0,
    ensures
        res.wf(),
        res.checksum_ok(),
        res.degree == e@.len(),
        res.modulus == q,
        !res.ntt,
        res.vector@ == doubled(e@, q as int),
{
    let mut twice: Vec<i64> = Vec::new();
    let mut i: usize = 0;
    while i < e.len()
        invariant
            q > 0,
            i <= e.len(),
            twice@.len() == i,
            forall|k: int| 0 <= k < i ==> twice@[k] == ((2 * e@[k]) % (q as int)) as i64,
        decreases e.len() - i,
    {
        twice.push(mul_mod(2, e[i], q));
        i += 1;
    }
    let res = NTRUVector::from_coefficients(twice.as_slice(), q);
    proof {
        assert forall|k: int| 0 <= k < e@.len() implies res.vector@[k] == doubled(e@, q as int)[k] by {
            vstd::arithmetic::div_mod::lemma_mod_twice(2 * e@[k], q as int);
        }
        assert(res.vector@ =~= doubled(e@, q as int));
    }
    res
}

/// Whether the material of a key pair fits a ring of `degree` coefficients modulo `q`.
pub open spec fn key_material_ok(degree: usize, q: i64, sk: Seq<i64>, pka: Seq<i64>, e: Seq<i64>) -> bool {
    &&& q > 0
    &&& sk.len() == degree
    &&& pka.len() == degree
    &&& e.len() == degree
}

/// The key pair with secret `sk`, public polynomial `pka` and noise `e`.
pub fn key_gen_from(degree: usize, q: i64, sk: &[i64], pka: &[i64], e: &[i64]) -> (res: Result<
    KeyPair,
    WhiteBoxError,
>)
    ensures
        match res {
            Ok(kp) => {
                &&& key_material_ok(degree, q, sk@, pka@, e@)
                &&& kp.sk.wf() && kp.pka.wf() && kp.pkb.wf()
                &&& kp.sk.checksum_ok() && kp.pka.checksum_ok() && kp.pkb.checksum_ok()
                &&& kp.sk.degree == degree && kp.pka.degree == degree && kp.pkb.degree == degree
                &&& kp.sk.modulus == q && kp.pka.modulus == q && kp.pkb.modulus == q
                &&& !kp.sk.ntt && !kp.pka.ntt && !kp.pkb.ntt
                &&& kp.sk.vector@ == reduce_all(sk@, q as int)
                &&& kp.pka.vector@ == reduce_all(pka@, q as int)
                &&& kp.pkb.vector@ == public_b(sk@, pka@, e@, q as int)
            },
            Err(err) => err == WhiteBoxError::InvalidSeed && !key_material_ok(
                degree,
                q,
                sk@,
                pka@,
                e@,
            ),
        },
{
    if q <= 0 || sk.len() != degree || pka.len() != degree || e.len() != degree {
        return Err(WhiteBoxError::InvalidSeed);
    }
    let sk_v = NTRUVector::from_coefficients(sk, q);
    let pka_v = NTRUVector::from_coefficients(pka, q);
    let noise = doubled_vector(e, q);
    let product = match pka_v.mul(&sk_v) {
        Ok(p) => p,
        Err(_) => {
            return Err(WhiteBoxError::InvalidSeed);
        },
    };
    let sum = match noise.add(&product) {
        Ok(s) => s,
        Err(_) => {
            return Err(WhiteBoxError::InvalidSeed);
        },
    };
    let pkb_v = sum.neg();
    Ok(KeyPair { sk: sk_v, pka: pka_v, pkb: pkb_v })
}

/// `count` uniform residues modulo `q`.
pub fn uniform_vector(count: usize, q: i64) -> (v: Vec<i64>)
    requires
        q > 0,
    ensures
        v@.len() == count,
        reduced(v@, q as int),
{
    let mut v: Vec<i64> = Vec::new();
    let mut i: usize = 0;
    while i < count
        invariant
            q > 0,
            i <= count,
            v@.len() == i,
            reduced(v@, q as int),
        decreases count - i,
    {
        v.push(random_below(q));
        i += 1;
    }
    v
}

/// A key pair for the ring of `degree` coefficients modulo `q`: the secret
/// `sk` and the noise `e` are given, the public polynomial is drawn uniformly.
pub fn key_gen(degree: usize, q: i64, sk: &[i64], e: &[i64]) -> (res: Result<
    KeyPair,
    WhiteBoxError,
>)
    ensures
        match res {
            Ok(kp) => {
                &&& q > 0 && sk@.len() == degree && e@.len() == degree
                &&& kp.sk.wf() && kp.pka.wf() && kp.pkb.wf()
                &&& kp.sk.checksum_ok() && kp.pka.checksum_ok() && kp.pkb.checksum_ok()
                &&& kp.sk.degree == degree && kp.pka.degree == degree && kp.pkb.degree == degree
                &&& kp.sk.modulus == q && kp.pka.modulus == q && kp.pkb.modulus == q
                &&& !kp.sk.ntt && !kp.pka.ntt && !kp.pkb.ntt
                &&& kp.sk.vector@ == reduce_all(sk@, q as int)
                &&& reduced(kp.pka.vector@, q as int)
                &&& kp.pkb.vector@ == public_b(sk@, kp.pka.vector@, e@, q as int)
            },
            Err(err) => err == WhiteBoxError::InvalidSeed && !(q > 0 && sk@.len() == degree
                && e@.len() == degree),
        },
{
    if q <= 0 {
        return Err(WhiteBoxError::InvalidSeed);
    }
    let pka = uniform_vector(degree, q);
    let res = key_gen_from(degree, q, sk, pka.as_slice(), e);
    proof {
        if res is Ok {
            let got = res->Ok_0.pka.vector@;
            assert forall|i: int| 0 <= i < degree implies got[i] == pka@[i] by {
                vstd::arithmetic::div_mod::lemma_small_mod(pka@[i] as nat, q as nat);
            }
            assert(got =~= pka@);
            assert(reduce_all(got, q as int) =~= got);
        }
    }
    res
}

/// Which error, if any, an encryption for the ring `(degree, modulus)` gives.
pub open spec fn encrypt_error(
    m_len: nat,
    pka: &NTRUVector,
    pkb: &NTRUVector,
    degree: usize,
    modulus: i64,
    noise: &EncryptionNoise,
) -> Option<WhiteBoxError> {
    if modulus <= 0 || m_len != degree || noise.u@.len() != degree || noise.e1@.len() != degree
        || noise.e2@.len() != degree {
        Some(WhiteBoxError::InvalidSeed)
    } else if pka.degree != degree || pkb.degree != degree {
        Some(WhiteBoxError::Ring(RingError::DegreeMismatch))
    } else if pka.modulus != modulus || pkb.modulus != modulus {
        Some(WhiteBoxError::Ring(RingError::ModulusMismatch))
    } else if pka.ntt || pkb.ntt {
        Some(WhiteBoxError::Ring(RingError::WrongDomain))
    } else {
        None
    }
}

/// Encrypt the coefficient vector `m_bits` under the public key
/// `(pka, pkb)` with the given noise: `a1 = pka * u + 2 e1` and
/// `a2 = pkb * u + 2 e2 + m`.
pub fn encrypt_func(
    m_bits: &[i64],
    pka: &NTRUVector,
    pkb: &NTRUVector,
    degree: usize,
    modulus: i64,
    noise: &EncryptionNoise,
) -> (res: Result<(NTRUVector, NTRUVector), WhiteBoxError>)
    requires
        pka.wf(),
        pkb.wf(),
    ensures
        match res {
            Ok(ct) => {
                &&& encrypt_error(m_bits@.len(), pka, pkb, degree, modulus, noise) is None
                &&& ct.0.wf() && ct.1.wf()
                &&& ct.0.checksum_ok() && ct.1.checksum_ok()
                &&& ct.0.degree == degree && ct.1.degree == degree
                &&& ct.0.modulus == modulus && ct.1.modulus == modulus
                &&& !ct.0.ntt && !ct.1.ntt
                &&& ct.0.vector@ == ciphertext_a1(pka.vector@, noise.u@, noise.e1@, modulus as int)
                &&& ct.1.vector@ == ciphertext_a2(
                    pkb.vector@,
                    noise.u@,
                    noise.e2@,
                    m_bits@,
                    modulus as int,
                )
            },
            Err(e) => encrypt_error(m_bits@.len(), pka, pkb, degree, modulus, noise) == Some(e),
        },
{
    if modulus <= 0 || m_bits.len() != degree || noise.u.len() != degree || noise.e1.len()
        != degree || noise.e2.len() != degree {
        return Err(WhiteBoxError::InvalidSeed);
    }
    if pka.degree != degree || pkb.degree != degree {
        return Err(WhiteBoxError::Ring(RingError::DegreeMismatch));
    }
    if pka.modulus != modulus || pkb.modulus != modulus {
        return Err(WhiteBoxError::Ring(RingError::ModulusMismatch));
    }
    if pka.ntt || pkb.ntt {
        return Err(WhiteBoxError::Ring(RingError::WrongDomain));
    }
    let u = NTRUVector::from_coefficients(noise.u.as_slice(), modulus);
    let e1 = doubled_vector(noise.e1.as_slice(), modulus);
    let e2 = doubled_vector(noise.e2.as_slice(), modulus);
    let m = NTRUVector::from_coefficients(m_bits, modulus);
    let pka_u = match pka.mul(&u) {
        Ok(v) => v,
        Err(e) => {
            return Err(WhiteBoxError::Ring(e));
        },
    };
    let a1 = match pka_u.add(&e1) {
        Ok(v) => v,
        Err(e) => {
            return Err(WhiteBoxError::Ring(e));
        },
    };
    let pkb_u = match pkb.mul(&u) {
        Ok(v) => v,
        Err(e) => {
            return Err(WhiteBoxError::Ring(e));
        },
    };
    let with_noise = match pkb_u.add(&e2) {
        Ok(v) => v,
        Err(e) => {
            return Err(WhiteBoxError::Ring(e));
        },
    };
    let a2 = match with_noise.add(&m) {
        Ok(v) => v,
        Err(e) => {
            return Err(WhiteBoxError::Ring(e));
        },
    };
    Ok((a1, a2))
}

/// The bit that a decrypted coefficient in `[0, q)` encodes: its parity,
/// flipped where the coefficient lies above `q / 2`.
pub open spec fn plain_bit(val: int, q: int) -> int {
    if val > q / 2 {
        1 - val % 2
    } else {
        val % 2
    }
}

/// The bits that decrypting `(a1, a2)` with the secret `sk` gives: the
/// parities of `a2 + a1 * sk`.
pub open spec fn plain_bits(a1: Seq<i64>, a2: Seq<i64>, sk: Seq<i64>, q: int) -> Seq<i64> {
    Seq::new(
        a1.len(),
        |i: int| plain_bit(ring_add(a2, negacyclic_mul(a1, sk, q), q)[i] as int, q) as i64,
    )
}

/// Which error, if any, a decryption with the secret key gives.
pub open spec fn decrypt_key_error(
    a1: &NTRUVector,
    a2: &NTRUVector,
    sk: &NTRUVector,
    degree: usize,
    modulus: i64,
) -> Option<WhiteBoxError> {
    if a1.mismatch(sk) is Some {
        Some(WhiteBoxError::Ring(a1.mismatch(sk)->0))
    } else if a2.mismatch(a1) is Some {
        Some(WhiteBoxError::Ring(a2.mismatch(a1)->0))
    } else if a1.degree != degree {
        Some(WhiteBoxError::Ring(RingError::DegreeMismatch))
    } else if a1.modulus != modulus {
        Some(WhiteBoxError::Ring(RingError::ModulusMismatch))
    } else if a1.ntt || a2.ntt || sk.ntt {
        Some(WhiteBoxError::Ring(RingError::WrongDomain))
    } else {
        None
    }
}

/// Decrypt the ciphertext `(a1, a2)` with the secret key itself.
pub fn decrypt(a1: &NTRUVector, a2: &NTRUVector, sk: &NTRUVector, degree: usize, modulus: i64) -> (res:
    Result<Vec<i64>, WhiteBoxError>)
    requires
        a1.wf(),
        a2.wf(),
        sk.wf(),
    ensures
        match res {
            Ok(m) => decrypt_key_error(a1, a2, sk, degree, modulus) is None && m@ == plain_bits(
                a1.vector@,
                a2.vector@,
                sk.vector@,
                modulus as int,
            ),
            Err(e) => decrypt_key_error(a1, a2, sk, degree, modulus) == Some(e),
        },
{
    let product = match a1.mul(sk) {
        Ok(p) => p,
        Err(e) => {
            return Err(WhiteBoxError::Ring(e));
        },
    };
    let tmp = match a2.add(&product) {
        Ok(t) => t,
        Err(e) => {
            return Err(WhiteBoxError::Ring(e));
        },
    };
    if a1.degree != degree {
        return Err(WhiteBoxError::Ring(RingError::DegreeMismatch));
    }
    if a1.modulus != modulus {
        return Err(WhiteBoxError::Ring(RingError::ModulusMismatch));
    }
    if a1.ntt || a2.ntt || sk.ntt {
        return Err(WhiteBoxError::Ring(RingError::WrongDomain));
    }
    let mut m: Vec<i64> = Vec::new();
    let mut i: usize = 0;
    while i < degree
        invariant
            modulus > 0,
            i <= degree,
            tmp.vector@.len() == degree,
            forall|k: int| 0 <= k < degree ==> 0 <= #[trigger] tmp.vector@[k] < modulus,
            m@.len() == i,
            forall|k: int|
                0 <= k < i ==> m@[k] == plain_bit(tmp.vector@[k] as int, modulus as int) as i64,
        decreases degree - i,
    {
        let val = tmp.vector[i];
        assert(0 <= tmp.vector@[i as int] < modulus);
        if val > modulus / 2 {
            m.push(1 - (val % 2));
        } else {
            m.push(val % 2);
        }
        i += 1;
    }
    assert(m@ =~= plain_bits(a1.vector@, a2.vector@, sk.vector@, modulus as int));
    Ok(m)
}

/// The message bits followed by zeros, `degree` coefficients in all.
pub fn pad_bits(bits: &[i64], degree: usize) -> (padded: Vec<i64>)
    requires
        bits@.len() <= degree,
    ensures
        padded@ == padded_bits(bits@, degree as nat),
{
    let mut padded: Vec<i64> = Vec::new();
    let mut i: usize = 0;
    while i < degree
        invariant
            bits@.len() <= degree,
            i <= degree,
            padded@.len() == i,
            forall|k: int|
                0 <= k < i ==> padded@[k] == (if k < bits@.len() {
                    bits@[k]
                } else {
                    0i64
                }),
        decreases degree - i,
    {
        if i < bits.len() {
            padded.push(bits[i]);
        } else {
            padded.push(0);
        }
        i += 1;
    }
    assert(padded@ =~= padded_bits(bits@, degree as nat));
    padded
}

/// Encrypt a text message: its bytes become bits, most significant first,
/// one per coefficient, padded with zeros to the degree of the ring.
///
/// The message has no more bits than the ring has coefficients.
pub fn encrypt_message(message: &str, pub_enc_data: &PubEncData, noise: &EncryptionNoise) -> (res:
    Result<(NTRUVector, NTRUVector), WhiteBoxError>)
    requires
        pub_enc_data.pka.wf(),
        pub_enc_data.pkb.wf(),
        8 * message.spec_bytes().len() <= pub_enc_data.degree,
    ensures
        match res {
            Ok(ct) => {
                &&& encrypt_error(
                    pub_enc_data.degree as nat,
                    &pub_enc_data.pka,
                    &pub_enc_data.pkb,
                    pub_enc_data.degree,
                    pub_enc_data.modulus,
                    noise,
                ) is None
                &&& ct.0.wf() && ct.1.wf()
                &&& ct.0.checksum_ok() && ct.1.checksum_ok()
                &&& ct.0.degree == pub_enc_data.degree && ct.1.degree == pub_enc_data.degree
                &&& ct.0.modulus == pub_enc_data.modulus && ct.1.modulus == pub_enc_data.modulus
                &&& !ct.0.ntt && !ct.1.ntt
                &&& ct.0.vector@ == ciphertext_a1(
                    pub_enc_data.pka.vector@,
                    noise.u@,
                    noise.e1@,
                    pub_enc_data.modulus as int,
                )
                &&& ct.1.vector@ == ciphertext_a2(
                    pub_enc_data.pkb.vector@,
                    noise.u@,
                    noise.e2@,
                    padded_bits(bits_of_bytes(message.spec_bytes()), pub_enc_data.degree as nat),
                    pub_enc_data.modulus as int,
                )
            },
            Err(e) => encrypt_error(
                pub_enc_data.degree as nat,
                &pub_enc_data.pka,
                &pub_enc_data.pkb,
                pub_enc_data.degree,
                pub_enc_data.modulus,
                noise,
            ) == Some(e),
        },
{
    let bits = message_bits(message.as_bytes());
    let padded = pad_bits(bits.as_slice(), pub_enc_data.degree);
    encrypt_func(
        padded.as_slice(),
        &pub_enc_data.pka,
        &pub_enc_data.pkb,
        pub_enc_data.degree,
        pub_enc_data.modulus,
        noise,
    )
}

} // verus!
