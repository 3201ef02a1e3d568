//! Generation of a complete set of white-box data: a key pair, the known
//! encryptions, the transform parameters and the two boxes of tables.

use vstd::prelude::*;
use vstd::arithmetic::div_mod::*;
use crate::checksum::{
    blake3_digest, compute_blake3, compute_crt_checksum, i64_seq_le_bytes,
};
use crate::create_wb::{
    box_is, check_negacyclic_root, checked_inverse, prepare_first_box_MM, prepare_first_box_MM2,
    prepare_first_box_MM3, prepare_second_box_MM, prepare_second_box_MM2, prepare_second_box_MM3,
    WhiteBoxError,
};
use crate::crt::seq_product;
use crate::encrypt::{
    ciphertext_a1, ciphertext_a2, encrypt_func, key_gen_from, public_b, EncryptionNoise, KeyPair,
};
use crate::encrypt::uniform_vector;
use crate::entropy::{random_below, random_index};
use crate::lattice::{reduce_all, reduced, NTRUVector, PubEncData, RingError};
use crate::modular::{coprime, mod_inverse};
use crate::ntt::log2_exact;
use crate::ntt_spec::{is_negacyclic_root, power_of_two};
use crate::roots::{find_primitive_root, generates, is_least_generator};
use crate::whitebox::{
    is_small_base, parameters_checksum, scheme_of, scheme_of_selector, small_base, Scheme,
    WhiteData,
};

verus! {

/// Ring degree of the production parameters.
pub const DEGREE: usize = 512;

/// Modulus of the production parameters.
pub const MODULUS: i64 = 1231873;

/// Number of moduli in each residue basis of the production parameters.
pub const SLOTS: usize = 5;

/// Selector of the rotate/mask scheme.
pub const ROTATE_MASK: u8 = 2;

/// All the randomness one generation consumes.
#[derive(Debug)]
pub struct WhiteBoxSeed {
    /// The secret polynomial.
    pub sk: Vec<i64>,
    /// The uniform half of the public key.
    pub pka: Vec<i64>,
    /// The noise of the public key.
    pub e: Vec<i64>,
    /// The noise of the first known encryption (of the rotation, or of one).
    pub x_noise: EncryptionNoise,
    /// The noise of the second known encryption (of the mask, or of zero).
    pub y_noise: EncryptionNoise,
    /// The rotation index.
    pub rotate: usize,
    /// The mask, one bit per coefficient.
    pub mask: Vec<i64>,
}

/// The small random polynomials of one generation, drawn by the caller.
#[derive(Debug)]
pub struct GaussianDraws {
    pub sk: Vec<i64>,
    pub e: Vec<i64>,
    pub x_noise: EncryptionNoise,
    pub y_noise: EncryptionNoise,
}

/// The decimal digits of `n`, as ASCII.
pub open spec fn decimal(n: nat) -> Seq<u8>
    decreases n,
{
    if n < 10 {
        seq![(48 + n) as u8]
    } else {
        decimal(n / 10).push((48 + n % 10) as u8)
    }
}

/// The label of a ring: `degree`, a colon, `modulus`, in decimal.
pub open spec fn ring_label(degree: nat, modulus: nat) -> Seq<u8> {
    decimal(degree) + seq![58u8] + decimal(modulus)
}

/// Append the decimal digits of `n` to `out`.
fn push_decimal(out: &mut Vec<u8>, n: u64)
    ensures
        final(out)@ == old(out)@ + decimal(n as nat),
    decreases n,
{
    if n < 10 {
        out.push((48 + n) as u8);
        assert(out@ =~= old(out)@ + decimal(n as nat));
    } else {
        push_decimal(out, n / 10);
        out.push((48 + n % 10) as u8);
        assert(out@ =~= old(out)@ + decimal(n as nat));
    }
}

/// The unit vector with a one at `at`.
pub open spec fn unit_vector(degree: nat, at: int) -> Seq<i64> {
    Seq::new(
        degree,
        |i: int|
            if i == at {
                1i64
            } else {
                0i64
            },
    )
}

fn make_unit_vector(degree: usize, at: usize) -> (v: Vec<i64>)
    ensures
        v@ == unit_vector(degree as nat, at as int),
{
    let mut v: Vec<i64> = Vec::new();
    let mut i: usize = 0;
    while i < degree
        invariant
            i <= degree,
            v@.len() == i,
            forall|j: int|
                0 <= j < i ==> v@[j] == (if j == at {
                    1i64
                } else {
                    0i64
                }),
        decreases degree - i,
    {
        v.push(if i == at {
            1
        } else {
            0
        });
        i += 1;
    }
    assert(v@ =~= unit_vector(degree as nat, at as int));
    v
}

fn zero_vector(degree: usize) -> (v: Vec<i64>)
    ensures
        v@ == Seq::new(degree as nat, |i: int| 0i64),
{
    let mut v: Vec<i64> = Vec::new();
    let mut i: usize = 0;
    while i < degree
        invariant
            i <= degree,
            v@.len() == i,
            forall|j: int| 0 <= j < i ==> v@[j] == 0,
        decreases degree - i,
    {
        v.push(0);
        i += 1;
    }
    assert(v@ =~= Seq::new(degree as nat, |i: int| 0i64));
    v
}

fn copy_of(src: &[i64]) -> (v: Vec<i64>)
    ensures
        v@ == src@,
{
    let mut v: Vec<i64> = Vec::new();
    let mut i: usize = 0;
    while i < src.len()
        invariant
            i <= src.len(),
            v@.len() == i,
            forall|j: int| 0 <= j < i ==> v@[j] == src@[j],
        decreases src.len() - i,
    {
        v.push(src[i]);
        i += 1;
    }
    assert(v@ =~= src@);
    v
}

/// The message of the first known encryption of a scheme.
pub open spec fn first_message(scheme: Scheme, degree: nat, rotate: int) -> Seq<i64> {
    match scheme {
        Scheme::MM3 => unit_vector(degree, rotate),
        _ => unit_vector(degree, 0),
    }
}

/// The message of the second known encryption of a scheme.
pub open spec fn second_message(scheme: Scheme, degree: nat, mask: Seq<i64>) -> Seq<i64> {
    match scheme {
        Scheme::MM3 => mask,
        _ => Seq::new(degree, |i: int| 0i64),
    }
}

/// Which error, if any, the checks made before any arithmetic give.
pub open spec fn precheck_error(
    degree: usize,
    modulus: i64,
    beta: Seq<i64>,
    beta_p: Seq<i64>,
    k: usize,
    chal: u8,
    seed: &WhiteBoxSeed,
) -> Option<WhiteBoxError> {
    if scheme_of_selector(chal) is None {
        Some(WhiteBoxError::InvalidScheme)
    } else if !(small_base(beta) && beta.len() == k && small_base(beta_p) && beta_p.len() == k) {
        Some(WhiteBoxError::InvalidBase)
    } else if !(modulus >= 2 && 0 < degree <= 0x3fff_ffff && seed.rotate < degree
        && seed.mask@.len() == degree && seed.sk@.len() == degree && seed.pka@.len() == degree
        && seed.e@.len() == degree && seed.x_noise.u@.len() == degree && seed.x_noise.e1@.len()
        == degree && seed.x_noise.e2@.len() == degree && seed.y_noise.u@.len() == degree
        && seed.y_noise.e1@.len() == degree && seed.y_noise.e2@.len() == degree) {
        Some(WhiteBoxError::InvalidSeed)
    } else if !power_of_two(degree as int) {
        Some(WhiteBoxError::Ring(RingError::DegreeNotPowerOfTwo))
    } else {
        None
    }
}

/// `root` is the root the search finds for the ring: the least generator
/// modulo `modulus`, raised to `(modulus - 1) / (2 * degree)`.
pub open spec fn is_found_root(root: int, degree: int, modulus: int) -> bool {
    exists|g: int|
        #[trigger] is_least_generator(g, modulus - 1, modulus) && root
            == vstd::arithmetic::power::pow(g, ((modulus - 1) / (2 * degree)) as nat) % modulus
}

/// The ring has transform parameters: the search finds a root of
/// `X^n + 1`, and the root and the degree have inverses.
pub open spec fn ring_admits(degree: usize, modulus: i64) -> bool {
    exists|root: int|
        {
            &&& #[trigger] is_found_root(root, degree as int, modulus as int)
            &&& is_negacyclic_root(root, degree as nat, modulus as int)
            &&& coprime(root as nat, modulus as nat)
            &&& coprime(degree as nat, modulus as nat)
        }
}

/// The ring and the bases admit white-box data.
pub open spec fn parameters_admit(degree: usize, modulus: i64, beta: Seq<i64>, beta_p: Seq<i64>) -> bool {
    &&& ring_admits(degree, modulus)
    &&& coprime(modulus as nat, seq_product(beta) as nat)
    &&& coprime(seq_product(beta) as nat, seq_product(beta_p) as nat)
}

/// Both boxes are the tables of `scheme` for the secret and the two known encryptions.
pub open spec fn tables_are(
    fb: Seq<Vec<Vec<i64>>>,
    sb: Seq<Vec<Vec<i64>>>,
    scheme: Scheme,
    q: int,
    sk: Seq<i64>,
    a1_x: Seq<i64>,
    a2_x: Seq<i64>,
    a1_y: Seq<i64>,
    a2_y: Seq<i64>,
    root: i64,
    beta: Seq<i64>,
    beta_p: Seq<i64>,
) -> bool {
    &&& box_is(
        fb,
        scheme,
        true,
        q,
        sk,
        a1_x,
        a2_x,
        a1_y,
        a2_y,
        root,
        mod_inverse(q, seq_product(beta)),
        beta,
    )
    &&& box_is(
        sb,
        scheme,
        false,
        q,
        sk,
        a1_x,
        a2_x,
        a1_y,
        a2_y,
        root,
        mod_inverse(seq_product(beta), seq_product(beta_p)),
        beta_p,
    )
}

/// What a successful generation returns.
pub open spec fn generated(
    p: &PubEncData,
    w: &WhiteData,
    degree: usize,
    modulus: i64,
    beta: Seq<i64>,
    beta_p: Seq<i64>,
    k: usize,
    chal: u8,
    seed: &WhiteBoxSeed,
) -> bool {
    let q = modulus as int;
    let scheme = scheme_of_selector(chal)->0;
    &&& precheck_error(degree, modulus, beta, beta_p, k, chal, seed) is None
    &&& w.wf()
    &&& w.checksums_ok()
    &&& w.degree() == degree
    &&& w.beta@ == beta
    &&& w.beta_p@ == beta_p
    &&& w.k == k
    &&& w.chal == chal
    &&& w.mask@ == seed.mask@
    &&& w.rotate == seed.rotate
    &&& is_found_root(w.root as int, degree as int, q)
    &&& is_negacyclic_root(w.root as int, degree as nat, q)
    &&& w.unroot == mod_inverse(w.root as int, q)
    &&& w.ninv == mod_inverse(degree as int, q)
    &&& 0 <= w.root < modulus
    &&& coprime(w.root as nat, modulus as nat)
    &&& coprime(degree as nat, modulus as nat)
    &&& coprime(modulus as nat, seq_product(beta) as nat)
    &&& coprime(seq_product(beta) as nat, seq_product(beta_p) as nat)
    &&& w.data_checksum@ == blake3_digest(
        i64_seq_le_bytes(
            seq![w.root, w.unroot, w.ninv, k as i64, seed.rotate as i64, chal as i64],
        ),
    )
    &&& p.degree == degree
    &&& p.modulus == modulus
    &&& p.pka.wf() && p.pkb.wf() && p.pka.checksum_ok() && p.pkb.checksum_ok()
    &&& p.pka.degree == degree && p.pkb.degree == degree
    &&& p.pka.modulus == modulus && p.pkb.modulus == modulus
    &&& !p.pka.ntt && !p.pkb.ntt
    &&& p.pka.vector@ == reduce_all(seed.pka@, q)
    &&& p.pkb.vector@ == public_b(seed.sk@, seed.pka@, seed.e@, q)
    &&& p.data_checksum@ == blake3_digest(ring_label(degree as nat, modulus as nat))
    &&& tables_are(
        w.fb@,
        w.sb@,
        scheme,
        q,
        reduce_all(seed.sk@, q),
        ciphertext_a1(p.pka.vector@, seed.x_noise.u@, seed.x_noise.e1@, q),
        ciphertext_a2(
            p.pkb.vector@,
            seed.x_noise.u@,
            seed.x_noise.e2@,
            first_message(scheme, degree as nat, seed.rotate as int),
            q,
        ),
        ciphertext_a1(p.pka.vector@, seed.y_noise.u@, seed.y_noise.e1@, q),
        ciphertext_a2(
            p.pkb.vector@,
            seed.y_noise.u@,
            seed.y_noise.e2@,
            second_message(scheme, degree as nat, seed.mask@),
            q,
        ),
        w.root,
        beta,
        beta_p,
    )
}

/// The least generator is unique, so the found root is.
pub proof fn lemma_found_root_unique(r1: int, r2: int, degree: int, modulus: int)
    requires
        is_found_root(r1, degree, modulus),
        is_found_root(r2, degree, modulus),
    ensures
        r1 == r2,
{
    let g1 = choose|g: int|
        #[trigger] is_least_generator(g, modulus - 1, modulus) && r1
            == vstd::arithmetic::power::pow(g, ((modulus - 1) / (2 * degree)) as nat) % modulus;
    let g2 = choose|g: int|
        #[trigger] is_least_generator(g, modulus - 1, modulus) && r2
            == vstd::arithmetic::power::pow(g, ((modulus - 1) / (2 * degree)) as nat) % modulus;
    if g1 < g2 {
        assert(!generates(g1, modulus - 1, modulus));
    } else if g2 < g1 {
        assert(!generates(g2, modulus - 1, modulus));
    }
}

/// The transform parameters of the ring: a root of `X^n + 1`, its inverse,
/// and the inverse of the degree.
pub fn transform_parameters(degree: usize, modulus: i64) -> (res: Result<
    (i64, i64, i64),
    WhiteBoxError,
>)
    requires
        modulus >= 2,
        0 < degree <= 0x3fff_ffff,
    ensures
        match res {
            Ok(t) => {
                &&& is_found_root(t.0 as int, degree as int, modulus as int)
                &&& is_negacyclic_root(t.0 as int, degree as nat, modulus as int)
                &&& 0 <= t.0 < modulus
                &&& coprime(t.0 as nat, modulus as nat)
                &&& t.1 == mod_inverse(t.0 as int, modulus as int)
                &&& coprime(degree as nat, modulus as nat)
                &&& t.2 == mod_inverse(degree as int, modulus as int)
            },
            Err(e) => (e == WhiteBoxError::InvalidRoot || e == WhiteBoxError::NoInverse)
                && !ring_admits(degree, modulus),
        },
{
    let ghost q = modulus as int;
    let root = match find_primitive_root(2 * degree, modulus - 1, modulus) {
        Some(r) => r,
        None => {
            proof {
                assert forall|r: int| !#[trigger] is_found_root(r, degree as int, q) by {
                    if is_found_root(r, degree as int, q) {
                        let g = choose|g: int|
                            #[trigger] is_least_generator(g, q - 1, q) && r
                                == vstd::arithmetic::power::pow(
                                g,
                                ((q - 1) / (2 * degree)) as nat,
                            ) % q;
                        assert(generates(g, q - 1, q));
                    }
                }
            }
            return Err(WhiteBoxError::InvalidRoot);
        },
    };
    assert(is_found_root(root as int, degree as int, q));
    proof {
        // any root the search could find is this one
        assert forall|r: int| #[trigger] is_found_root(r, degree as int, q) implies r == root by {
            lemma_found_root_unique(r, root as int, degree as int, q);
        }
    }
    if !check_negacyclic_root(root, degree, modulus) {
        return Err(WhiteBoxError::InvalidRoot);
    }
    let unroot = match checked_inverse(root, modulus) {
        Some(x) => x,
        None => {
            return Err(WhiteBoxError::NoInverse);
        },
    };
    let ninv = match checked_inverse(degree as i64, modulus) {
        Some(x) => x,
        None => {
            return Err(WhiteBoxError::NoInverse);
        },
    };
    Ok((root, unroot, ninv))
}

/// Both boxes of `scheme`.
pub fn build_tables(
    scheme: Scheme,
    sk: &NTRUVector,
    a1_x: &NTRUVector,
    a2_x: &NTRUVector,
    a1_y: &NTRUVector,
    a2_y: &NTRUVector,
    root: i64,
    beta: &[i64],
    beta_p: &[i64],
    k: usize,
) -> (res: Result<(Vec<Vec<Vec<i64>>>, Vec<Vec<Vec<i64>>>), WhiteBoxError>)
    requires
        sk.wf(),
        a1_x.wf(),
        a2_x.wf(),
        a1_y.wf(),
        a2_y.wf(),
        small_base(beta@) && beta@.len() == k,
        small_base(beta_p@) && beta_p@.len() == k,
        sk.mismatch(a1_x) is None,
        sk.mismatch(a2_x) is None,
        sk.mismatch(a1_y) is None,
        sk.mismatch(a2_y) is None,
        !sk.ntt && !a1_x.ntt && !a2_x.ntt && !a1_y.ntt && !a2_y.ntt,
        power_of_two(sk.degree as int),
        is_negacyclic_root(root as int, sk.degree as nat, sk.modulus as int),
    ensures
        match res {
            Ok(t) => tables_are(
                t.0@,
                t.1@,
                scheme,
                sk.modulus as int,
                sk.vector@,
                a1_x.vector@,
                a2_x.vector@,
                a1_y.vector@,
                a2_y.vector@,
                root,
                beta@,
                beta_p@,
            ) && coprime(sk.modulus as nat, seq_product(beta@) as nat) && coprime(
                seq_product(beta@) as nat,
                seq_product(beta_p@) as nat,
            ),
            Err(e) => e == WhiteBoxError::NoInverse && !(coprime(
                sk.modulus as nat,
                seq_product(beta@) as nat,
            ) && coprime(seq_product(beta@) as nat, seq_product(beta_p@) as nat)),
        },
{
    let fb_res = match scheme {
        Scheme::MM => prepare_first_box_MM(sk, root, beta, k),
        Scheme::MM2 => prepare_first_box_MM2(sk, a1_x, a2_x, a1_y, a2_y, root, beta, k),
        Scheme::MM3 => prepare_first_box_MM3(sk, a1_x, a2_x, a1_y, a2_y, root, beta, k),
    };
    let fb = match fb_res {
        Ok(t) => t,
        Err(e) => {
            return Err(e);
        },
    };
    let sb_res = match scheme {
        Scheme::MM => prepare_second_box_MM(sk, root, beta, beta_p, k),
        Scheme::MM2 => prepare_second_box_MM2(sk, a1_x, a2_x, a1_y, a2_y, root, beta, beta_p, k),
        Scheme::MM3 => prepare_second_box_MM3(sk, a1_x, a2_x, a1_y, a2_y, root, beta, beta_p, k),
    };
    let sb = match sb_res {
        Ok(t) => t,
        Err(e) => {
            return Err(e);
        },
    };
    Ok((fb, sb))
}

/// The public description of the ring and its checksum.
fn label_checksum(degree: usize, modulus: i64) -> (digest: [u8; 32])
    requires
        modulus >= 0,
    ensures
        digest@ == blake3_digest(ring_label(degree as nat, modulus as nat)),
{
    let mut label: Vec<u8> = Vec::new();
    push_decimal(&mut label, degree as u64);
    label.push(58);
    push_decimal(&mut label, modulus as u64);
    assert(label@ =~= ring_label(degree as nat, modulus as nat));
    compute_blake3(label.as_slice())
}

/// The two known encryptions of a scheme.
fn known_encryptions(
    scheme: Scheme,
    pka: &NTRUVector,
    pkb: &NTRUVector,
    degree: usize,
    modulus: i64,
    seed: &WhiteBoxSeed,
) -> (res: Result<(NTRUVector, NTRUVector, NTRUVector, NTRUVector), WhiteBoxError>)
    requires
        pka.wf(),
        pkb.wf(),
        modulus > 0,
        pka.degree == degree && pkb.degree == degree,
        pka.modulus == modulus && pkb.modulus == modulus,
        !pka.ntt && !pkb.ntt,
        seed.rotate < degree,
        seed.mask@.len() == degree,
        seed.x_noise.u@.len() == degree && seed.x_noise.e1@.len() == degree
            && seed.x_noise.e2@.len() == degree,
        seed.y_noise.u@.len() == degree && seed.y_noise.e1@.len() == degree
            && seed.y_noise.e2@.len() == degree,
    ensures
        res is Ok,
        ({
            let t = res->Ok_0;
            let q = modulus as int;
            &&& t.0.wf() && t.1.wf() && t.2.wf() && t.3.wf()
            &&& t.0.degree == degree && t.1.degree == degree && t.2.degree == degree && t.3.degree
                == degree
            &&& t.0.modulus == modulus && t.1.modulus == modulus && t.2.modulus == modulus
                && t.3.modulus == modulus
            &&& !t.0.ntt && !t.1.ntt && !t.2.ntt && !t.3.ntt
            &&& t.0.vector@ == ciphertext_a1(pka.vector@, seed.x_noise.u@, seed.x_noise.e1@, q)
            &&& t.1.vector@ == ciphertext_a2(
                pkb.vector@,
                seed.x_noise.u@,
                seed.x_noise.e2@,
                first_message(scheme, degree as nat, seed.rotate as int),
                q,
            )
            &&& t.2.vector@ == ciphertext_a1(pka.vector@, seed.y_noise.u@, seed.y_noise.e1@, q)
            &&& t.3.vector@ == ciphertext_a2(
                pkb.vector@,
                seed.y_noise.u@,
                seed.y_noise.e2@,
                second_message(scheme, degree as nat, seed.mask@),
                q,
            )
        }),
{
    let x_msg = match scheme {
        Scheme::MM3 => make_unit_vector(degree, seed.rotate),
        _ => make_unit_vector(degree, 0),
    };
    let y_msg = match scheme {
        Scheme::MM3 => copy_of(seed.mask.as_slice()),
        _ => zero_vector(degree),
    };
    let (a1_x, a2_x) = match encrypt_func(x_msg.as_slice(), pka, pkb, degree, modulus, &seed.x_noise) {
        Ok(ct) => ct,
        Err(e) => {
            return Err(e);
        },
    };
    let (a1_y, a2_y) = match encrypt_func(y_msg.as_slice(), pka, pkb, degree, modulus, &seed.y_noise) {
        Ok(ct) => ct,
        Err(e) => {
            return Err(e);
        },
    };
    Ok((a1_x, a2_x, a1_y, a2_y))
}

/// White-box data for the given ring, bases and scheme, from the given randomness.
///
/// Succeeds whenever the inputs pass the checks of `precheck_error` and the
/// ring and bases admit white-box data.
pub fn generate_whitebox_data_from(
    degree: usize,
    modulus: i64,
    beta: &[i64],
    beta_p: &[i64],
    k: usize,
    chal: u8,
    seed: &WhiteBoxSeed,
) -> (res: Result<(PubEncData, WhiteData), WhiteBoxError>)
    ensures
        match res {
            Ok(out) => generated(&out.0, &out.1, degree, modulus, beta@, beta_p@, k, chal, seed),
            Err(e) => match precheck_error(degree, modulus, beta@, beta_p@, k, chal, seed) {
                Some(pe) => e == pe,
                None => (e == WhiteBoxError::InvalidRoot || e == WhiteBoxError::NoInverse)
                    && !parameters_admit(degree, modulus, beta@, beta_p@),
            },
        },
{
    let scheme = match scheme_of(chal) {
        Some(s) => s,
        None => {
            return Err(WhiteBoxError::InvalidScheme);
        },
    };
    if !is_small_base(beta) || beta.len() != k || !is_small_base(beta_p) || beta_p.len() != k {
        return Err(WhiteBoxError::InvalidBase);
    }
    if modulus < 2 || degree == 0 || degree > 0x3fff_ffff || seed.rotate >= degree
        || seed.mask.len() != degree || seed.sk.len() != degree || seed.pka.len() != degree
        || seed.e.len() != degree || seed.x_noise.u.len() != degree || seed.x_noise.e1.len()
        != degree || seed.x_noise.e2.len() != degree || seed.y_noise.u.len() != degree
        || seed.y_noise.e1.len() != degree || seed.y_noise.e2.len() != degree {
        return Err(WhiteBoxError::InvalidSeed);
    }
    if log2_exact(degree).is_none() {
        return Err(WhiteBoxError::Ring(RingError::DegreeNotPowerOfTwo));
    }
    let keys = match key_gen_from(
        degree,
        modulus,
        seed.sk.as_slice(),
        seed.pka.as_slice(),
        seed.e.as_slice(),
    ) {
        Ok(kp) => kp,
        Err(e) => {
            return Err(e);
        },
    };
    let KeyPair { sk, pka, pkb } = keys;
    let (a1_x, a2_x, a1_y, a2_y) = match known_encryptions(scheme, &pka, &pkb, degree, modulus, seed) {
        Ok(t) => t,
        Err(e) => {
            return Err(e);
        },
    };
    let (root, unroot, ninv) = match transform_parameters(degree, modulus) {
        Ok(t) => t,
        Err(e) => {
            return Err(e);
        },
    };
    let (fb, sb) = match build_tables(scheme, &sk, &a1_x, &a2_x, &a1_y, &a2_y, root, beta, beta_p, k) {
        Ok(t) => t,
        Err(e) => {
            return Err(e);
        },
    };
    let beta_v = copy_of(beta);
    let beta_p_v = copy_of(beta_p);
    let mask = copy_of(seed.mask.as_slice());
    let beta_checksum = compute_crt_checksum(beta_v.as_slice());
    let beta_p_checksum = compute_crt_checksum(beta_p_v.as_slice());
    let mask_checksum = compute_crt_checksum(mask.as_slice());
    let data_checksum = parameters_checksum(root, unroot, ninv, k, seed.rotate, chal);
    let pub_checksum = label_checksum(degree, modulus);
    let pub_enc_data = PubEncData { degree, modulus, pka, pkb, data_checksum: pub_checksum };
    let white_data = WhiteData {
        root,
        unroot,
        ninv,
        beta: beta_v,
        beta_p: beta_p_v,
        k,
        mask,
        rotate: seed.rotate,
        chal,
        fb,
        sb,
        beta_checksum,
        beta_p_checksum,
        mask_checksum,
        data_checksum,
    };
    Ok((pub_enc_data, white_data))
}

/// How a generation with the given randomness fails.
pub open spec fn generation_failed(
    e: WhiteBoxError,
    degree: usize,
    modulus: i64,
    beta: Seq<i64>,
    beta_p: Seq<i64>,
    k: usize,
    chal: u8,
    seed: &WhiteBoxSeed,
) -> bool {
    match precheck_error(degree, modulus, beta, beta_p, k, chal, seed) {
        Some(pe) => e == pe,
        None => (e == WhiteBoxError::InvalidRoot || e == WhiteBoxError::NoInverse)
            && !parameters_admit(degree, modulus, beta, beta_p),
    }
}

/// The result of a generation is what the given randomness determines.
pub open spec fn outcome_of(
    res: Result<(PubEncData, WhiteData), WhiteBoxError>,
    degree: usize,
    modulus: i64,
    beta: Seq<i64>,
    beta_p: Seq<i64>,
    k: usize,
    chal: u8,
    seed: &WhiteBoxSeed,
) -> bool {
    match res {
        Ok(out) => generated(&out.0, &out.1, degree, modulus, beta, beta_p, k, chal, seed),
        Err(e) => generation_failed(e, degree, modulus, beta, beta_p, k, chal, seed),
    }
}

/// The seed holds the given small polynomials.
pub open spec fn seed_extends(seed: &WhiteBoxSeed, draws: &GaussianDraws) -> bool {
    &&& seed.sk@ == draws.sk@
    &&& seed.e@ == draws.e@
    &&& seed.x_noise == draws.x_noise
    &&& seed.y_noise == draws.y_noise
}

/// What a generation draws for itself is in range: a public polynomial
/// of residues, a rotation index below the degree, and a mask of bits.
pub open spec fn draws_in_range(seed: &WhiteBoxSeed, degree: usize, modulus: i64) -> bool {
    modulus > 0 && degree > 0 ==> {
        &&& seed.pka@.len() == degree
        &&& reduced(seed.pka@, modulus as int)
        &&& seed.rotate < degree
        &&& seed.mask@.len() == degree
        &&& forall|i: int| 0 <= i < degree ==> 0 <= #[trigger] seed.mask@[i] <= 1
    }
}

/// `count` uniform bits.
fn random_bits(count: usize) -> (v: Vec<i64>)
    ensures
        v@.len() == count,
        forall|i: int| 0 <= i < count ==> 0 <= #[trigger] v@[i] <= 1,
{
    let mut v: Vec<i64> = Vec::new();
    let mut i: usize = 0;
    while i < count
        invariant
            i <= count,
            v@.len() == i,
            forall|j: int| 0 <= j < i ==> 0 <= #[trigger] v@[j] <= 1,
        decreases count - i,
    {
        v.push(random_below(2));
        i += 1;
    }
    v
}

/// White-box data for the given ring, bases and scheme. The small
/// polynomials are given; the uniform public polynomial, the rotation
/// index and the mask are drawn here.
///
/// Whatever is drawn is in range, and the result is that of
/// `generate_whitebox_data_from` on the given polynomials and the drawn
/// values: with polynomials of the right length it fails only where the
/// ring and the bases admit no white-box data.
pub fn generate_whitebox_data(
    degree: usize,
    modulus: i64,
    beta: &[i64],
    beta_p: &[i64],
    k: usize,
    chal: u8,
    draws: GaussianDraws,
) -> (res: Result<(PubEncData, WhiteData), WhiteBoxError>)
    ensures
        exists|seed: WhiteBoxSeed|
            seed_extends(&seed, &draws) && draws_in_range(&seed, degree, modulus)
                && #[trigger] outcome_of(res, degree, modulus, beta@, beta_p@, k, chal, &seed),
{
    let drawable = modulus > 0 && degree > 0;
    let pka = if drawable {
        uniform_vector(degree, modulus)
    } else {
        Vec::new()
    };
    let rotate = if drawable {
        random_index(degree)
    } else {
        0
    };
    let mask = if drawable {
        random_bits(degree)
    } else {
        Vec::new()
    };
    let seed = WhiteBoxSeed {
        sk: draws.sk,
        pka,
        e: draws.e,
        x_noise: draws.x_noise,
        y_noise: draws.y_noise,
        rotate,
        mask,
    };
    let res = generate_whitebox_data_from(degree, modulus, beta, beta_p, k, chal, &seed);
    proof {
        assert(seed_extends(&seed, &draws) && draws_in_range(&seed, degree, modulus) && outcome_of(
            res,
            degree,
            modulus,
            beta@,
            beta_p@,
            k,
            chal,
            &seed,
        ));
    }
    res
}

/// The first residue basis of the production parameters.
pub open spec fn production_beta_view() -> Seq<i64> {
    seq![13i64, 16, 19, 27, 29]
}

/// The second residue basis of the production parameters.
pub open spec fn production_beta_p_view() -> Seq<i64> {
    seq![11i64, 17, 23, 25, 31]
}

/// The first residue basis of the production parameters.
pub fn production_beta() -> (beta: Vec<i64>)
    ensures
        beta@ == production_beta_view(),
{
    vec![13, 16, 19, 27, 29]
}

/// The second residue basis of the production parameters.
pub fn production_beta_p() -> (beta_p: Vec<i64>)
    ensures
        beta_p@ == production_beta_p_view(),
{
    vec![11, 17, 23, 25, 31]
}

/// White-box data for the production parameters: degree 512, modulus
/// 1231873, five moduli per basis, the rotate/mask scheme.
pub fn create_whitebox(draws: GaussianDraws) -> (res: Result<(PubEncData, WhiteData), WhiteBoxError>)
    ensures
        exists|seed: WhiteBoxSeed|
            seed_extends(&seed, &draws) && draws_in_range(&seed, DEGREE, MODULUS)
                && #[trigger] outcome_of(
                res,
                DEGREE,
                MODULUS,
                production_beta_view(),
                production_beta_p_view(),
                SLOTS,
                ROTATE_MASK,
                &seed,
            ),
{
    let beta = production_beta();
    let beta_p = production_beta_p();
    generate_whitebox_data(
        DEGREE,
        MODULUS,
        beta.as_slice(),
        beta_p.as_slice(),
        SLOTS,
        ROTATE_MASK,
        draws,
    )
}

/// White-box data for the production parameters, as `create_whitebox`
/// gives it: what a caller then writes out.
pub fn create_wb(draws: GaussianDraws) -> (res: Result<(PubEncData, WhiteData), WhiteBoxError>)
    ensures
        exists|seed: WhiteBoxSeed|
            seed_extends(&seed, &draws) && draws_in_range(&seed, DEGREE, MODULUS)
                && #[trigger] outcome_of(
                res,
                DEGREE,
                MODULUS,
                production_beta_view(),
                production_beta_p_view(),
                SLOTS,
                ROTATE_MASK,
                &seed,
            ),
{
    create_whitebox(draws)
}

} // verus!
