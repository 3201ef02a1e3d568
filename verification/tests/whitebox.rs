use rand::Rng;
use rand_distr::{Distribution, Normal};
use rpack::bits::{bits_to_bytes, message_bits};
use rpack::create_wb::{
    build_box, derive_secret_vectors, prepare_first_box_MM, prepare_first_box_MM2,
    prepare_first_box_MM3, prepare_second_box_MM, prepare_second_box_MM2, prepare_second_box_MM3,
    WhiteBoxError,
};
use rpack::decrypt::{decrypt_message, mont_mult, DecryptError};
use rpack::encrypt::{
    decrypt, encrypt_func, encrypt_message, key_gen, key_gen_from, EncryptionNoise,
};
use rpack::generate::{
    create_wb, create_whitebox, generate_whitebox_data, generate_whitebox_data_from,
    transform_parameters, GaussianDraws, WhiteBoxSeed, DEGREE, MODULUS,
};
use rpack::lattice::{NTRUVector, PubEncData, RingError};
use rpack::text::decrypt_to_text;
use rpack::whitebox::{is_small_base, scheme_of, Scheme, WhiteData};

// Small noise keeps the decoding margin wide: with a standard deviation of
// 0.7 the accumulated error stays more than ten deviations below q / 2.
fn gaussian(n: usize) -> Vec<i64> {
    let normal = Normal::new(0.0f64, 0.7).unwrap();
    let mut rng = rand::thread_rng();
    (0..n).map(|_| normal.sample(&mut rng).round() as i64).collect()
}

fn noise(n: usize) -> EncryptionNoise {
    EncryptionNoise { u: gaussian(n), e1: gaussian(n), e2: gaussian(n) }
}

fn draws(n: usize) -> GaussianDraws {
    GaussianDraws { sk: gaussian(n), e: gaussian(n), x_noise: noise(n), y_noise: noise(n) }
}

fn slot(entry: i64, i: u32) -> i64 {
    (entry >> (5 * i)) & 31
}

#[test]
fn end_to_end_meow() {
    let (pub_enc_data, white_data) = create_whitebox(draws(DEGREE)).unwrap();
    let message = "MEOW MEOW MEOW!!";
    let (a1, a2) = encrypt_message(message, &pub_enc_data, &noise(DEGREE)).unwrap();
    let bits = decrypt_message(&white_data, &a1, &a2, DEGREE, MODULUS).unwrap();
    assert_eq!(bits.len(), DEGREE);
    assert!(bits.iter().all(|&b| b == 0 || b == 1));
    let bytes = bits_to_bytes(&bits[..128]);
    assert_eq!(bytes, message.as_bytes());
    assert!(bits[128..].iter().all(|&b| b == 0));
    let mut text = decrypt_to_text(&white_data, &a1, &a2, DEGREE, MODULUS).unwrap();
    text.truncate(16);
    assert_eq!(text, message);
}

#[test]
fn decryption_recovers_random_messages() {
    let (pub_enc_data, white_data) = create_wb(draws(DEGREE)).unwrap();
    let mut rng = rand::thread_rng();
    for _ in 0..20 {
        let len = rng.gen_range(0..=DEGREE);
        let mut m = vec![0i64; DEGREE];
        for bit in m.iter_mut().take(len) {
            *bit = rng.gen_range(0..2);
        }
        let (a1, a2) = encrypt_func(
            &m,
            &pub_enc_data.pka,
            &pub_enc_data.pkb,
            DEGREE,
            MODULUS,
            &noise(DEGREE),
        )
        .unwrap();
        assert_ne!(a2.vector, m);
        let bits = decrypt_message(&white_data, &a1, &a2, DEGREE, MODULUS).unwrap();
        assert_eq!(bits, m);
    }
}

#[test]
fn the_other_schemes_decrypt_too() {
    let beta = [13i64, 16, 19, 27, 29];
    let beta_p = [11i64, 17, 23, 25, 31];
    for chal in [0u8, 1] {
        let (p, w) =
            generate_whitebox_data(DEGREE, MODULUS, &beta, &beta_p, 5, chal, draws(DEGREE)).unwrap();
        assert_eq!(w.chal, chal);
        let m: Vec<i64> = (0..DEGREE as i64).map(|i| (i * i + i / 3) % 2).collect();
        let (a1, a2) = encrypt_func(&m, &p.pka, &p.pkb, DEGREE, MODULUS, &noise(DEGREE)).unwrap();
        assert_eq!(decrypt_message(&w, &a1, &a2, DEGREE, MODULUS).unwrap(), m);
    }
}

#[test]
fn generated_tables_use_five_bit_slots() {
    let (_, w) = create_whitebox(draws(DEGREE)).unwrap();
    assert!(w.is_well_formed());
    assert_eq!(w.fb.len(), 512);
    assert_eq!(w.sb.len(), 512);
    for (family, base) in [(&w.fb, &w.beta), (&w.sb, &w.beta_p)] {
        for table in family.iter() {
            assert_eq!(table.len(), 32);
            for row in table {
                assert_eq!(row.len(), 32);
                for &entry in row {
                    assert!((0..(1i64 << 25)).contains(&entry));
                    for i in 0..5u32 {
                        assert!(slot(entry, i) < base[i as usize]);
                    }
                }
            }
        }
    }
    // entries depend only on the digits of the row and column numbers
    let t = &w.fb[3];
    assert_eq!(slot(t[1][2], 0), slot(t[14][15], 0));
    assert_eq!(slot(t[0][0], 1), slot(t[16][16], 1));
}

#[test]
fn generation_is_determined_by_its_seed() {
    let n = 8;
    let seed = WhiteBoxSeed {
        sk: vec![1, 0, -1, 0, 1, 1, 0, -1],
        pka: vec![5, 9, 2, 11, 3, 7, 16, 1],
        e: vec![0, 1, 0, -1, 0, 0, 1, 0],
        x_noise: EncryptionNoise {
            u: vec![1, 0, 0, -1, 0, 1, 0, 0],
            e1: vec![0; 8],
            e2: vec![0, 0, 1, 0, 0, 0, 0, 0],
        },
        y_noise: EncryptionNoise { u: vec![0, 1, 0, 0, 0, 0, 0, 1], e1: vec![0; 8], e2: vec![0; 8] },
        rotate: 3,
        mask: vec![1, 0, 1, 1, 0, 0, 1, 0],
    };
    let beta = [13i64, 16, 19, 27, 29];
    let beta_p = [11i64, 17, 23, 25, 31];
    let q = 1231873i64;
    let (p1, w1) = generate_whitebox_data_from(n, q, &beta, &beta_p, 5, 2, &seed).unwrap();
    let (p2, w2) = generate_whitebox_data_from(n, q, &beta, &beta_p, 5, 2, &seed).unwrap();
    assert_eq!(w1.fb, w2.fb);
    assert_eq!(w1.sb, w2.sb);
    assert_eq!(p1.pkb.vector, p2.pkb.vector);
    assert_eq!(w1.rotate, 3);
    assert_eq!(w1.mask, seed.mask);
    assert_eq!(w1.beta, beta.to_vec());
    assert_eq!(w1.k, 5);
    assert_eq!((w1.root * w1.unroot).rem_euclid(q), 1);
    assert_eq!((8 * w1.ninv).rem_euclid(q), 1);
    assert_eq!(rpack::modular::pow(w1.root, 8, q), q - 1);
    assert_eq!(p1.pka.vector, seed.pka);
    assert_eq!(p1.data_checksum, rpack::checksum::compute_blake3(b"8:1231873"));
    // the public key hides the secret: pkb + pka * sk = -2e
    let sk = NTRUVector::from_coefficients(&seed.sk, q);
    let lhs = p1.pkb.add(&p1.pka.mul(&sk).unwrap()).unwrap();
    let expected: Vec<i64> = seed.e.iter().map(|e| (-2 * e).rem_euclid(q)).collect();
    assert_eq!(lhs.vector, expected);
}

#[test]
fn generation_refuses_bad_input() {
    let beta = [13i64, 16, 19, 27, 29];
    let beta_p = [11i64, 17, 23, 25, 31];
    let d = || draws(DEGREE);
    let err = |r: Result<(PubEncData, WhiteData), WhiteBoxError>| r.unwrap_err();
    assert_eq!(
        err(generate_whitebox_data(DEGREE, MODULUS, &beta, &beta_p, 5, 3, d())),
        WhiteBoxError::InvalidScheme
    );
    assert_eq!(
        err(generate_whitebox_data(DEGREE, MODULUS, &[13, 26, 19, 27, 29], &beta_p, 5, 2, d())),
        WhiteBoxError::InvalidBase
    );
    assert_eq!(
        err(generate_whitebox_data(DEGREE, MODULUS, &beta, &beta_p, 4, 2, d())),
        WhiteBoxError::InvalidBase
    );
    assert_eq!(
        err(generate_whitebox_data(DEGREE, MODULUS, &beta, &beta_p, 5, 2, draws(100))),
        WhiteBoxError::InvalidSeed
    );
    assert_eq!(
        err(generate_whitebox_data(12, MODULUS, &beta, &beta_p, 5, 2, draws(12))),
        WhiteBoxError::Ring(RingError::DegreeNotPowerOfTwo)
    );
    // 17 has no 1024th root of unity
    assert_eq!(
        err(generate_whitebox_data(DEGREE, 17, &beta, &beta_p, 5, 2, d())),
        WhiteBoxError::InvalidRoot
    );
    // the modulus shares a factor with the first basis
    assert_eq!(
        err(generate_whitebox_data(4, 13, &beta, &beta_p, 5, 2, draws(4))),
        WhiteBoxError::InvalidRoot
    );
    assert!(matches!(
        transform_parameters(512, 1231873),
        Ok((root, _, _)) if rpack::modular::pow(root, 512, 1231873) == 1231872
    ));
}

#[test]
fn table_preparation_refuses_bad_input() {
    let q = 17i64;
    let v = |c: &[i64]| NTRUVector::from_coefficients(c, q);
    let sk = v(&[1, 0, 16, 1]);
    let a = v(&[3, 4, 5, 6]);
    let beta = [13i64, 16, 19, 27, 29];
    let beta_p = [11i64, 17, 23, 25, 31];
    // 2 is a root of X^4 + 1 modulo 17, 3 is not
    assert!(prepare_first_box_MM3(&sk, &a, &a, &a, &a, 2, &beta, 5).is_ok());
    assert_eq!(
        prepare_first_box_MM3(&sk, &a, &a, &a, &a, 3, &beta, 5).unwrap_err(),
        WhiteBoxError::InvalidRoot
    );
    assert_eq!(
        prepare_first_box_MM2(&sk, &a, &a, &a, &v(&[1, 2]), 2, &beta, 5).unwrap_err(),
        WhiteBoxError::Ring(RingError::DegreeMismatch)
    );
    // 17 divides the product of the second basis, so the first product
    // has an inverse but 17 itself is not coprime to it
    assert_eq!(
        prepare_first_box_MM(&sk, 2, &beta_p, 5).unwrap_err(),
        WhiteBoxError::NoInverse
    );
    assert_eq!(
        prepare_second_box_MM(&sk, 2, &beta, &[11, 17, 23, 25], 5).unwrap_err(),
        WhiteBoxError::InvalidBase
    );
    assert_eq!(
        prepare_second_box_MM3(&sk, &a, &a, &a, &a, 2, &beta, &[2, 3, 5, 7, 11], 5).unwrap_err(),
        WhiteBoxError::NoInverse
    );
    let mut transformed = v(&[1, 2, 3, 4]);
    transformed.goto_ntt(2).unwrap();
    assert_eq!(
        prepare_second_box_MM2(&transformed, &a, &a, &a, &a, 2, &beta, &beta_p, 5).unwrap_err(),
        WhiteBoxError::Ring(RingError::WrongDomain)
    );
    assert!(derive_secret_vectors(&sk, &a, &a, &a, &a, 2).unwrap().first.ntt);
}

#[test]
fn one_table_entry_by_hand() {
    // bare-secret scheme, one dimension, secret digit s, factor f:
    // slot i of entry (j, l) is ((j mod b_i) * (s mod b_i) + (l mod b_i)) * (f mod b_i) mod b_i
    let base = [3i64, 5];
    assert!(is_small_base(&base));
    let s = vec![7i64];
    let family = build_box(Scheme::MM, false, &s, &s, &s, &s, 4, &base);
    assert_eq!(family.len(), 1);
    let entry = family[0][2][4];
    let slot0 = ((2 % 3) * (7 % 3) + 4 % 3) * (4 % 3) % 3;
    let slot1 = ((2 % 5) * (7 % 5) + 4 % 5) * (4 % 5) % 5;
    assert_eq!(entry, slot0 + 32 * slot1);
    // negated for the first box
    let negated = build_box(Scheme::MM, true, &s, &s, &s, &s, 4, &base);
    let n0 = ((2 % 3) * (7 % 3) + 4 % 3) * ((3 - 4 % 3) % 3) % 3;
    let n1 = ((2 % 5) * (7 % 5) + 4 % 5) * ((5 - 4 % 5) % 5) % 5;
    assert_eq!(negated[0][2][4], n0 + 32 * n1);
    assert_eq!(scheme_of(2), Some(Scheme::MM3));
    assert_eq!(scheme_of(9), None);
}

#[test]
fn decryption_checks_before_it_reads_tables() {
    let (p, mut w) = create_whitebox(draws(DEGREE)).unwrap();
    let m = message_bits(b"0123456789abcdef");
    let mut padded = m.clone();
    padded.resize(DEGREE, 0);
    let (a1, a2) = encrypt_func(&padded, &p.pka, &p.pkb, DEGREE, MODULUS, &noise(DEGREE)).unwrap();
    let run = |w: &WhiteData, a1: &NTRUVector, a2: &NTRUVector| {
        decrypt_message(w, a1, a2, DEGREE, MODULUS)
    };
    assert_eq!(run(&w, &a1, &a2).unwrap(), padded);
    assert!(mont_mult(0, 5, 7, MODULUS, &w) < MODULUS);

    let mut bad = a1.duplicate();
    bad.vector[0] ^= 1;
    assert_eq!(run(&w, &bad, &a2).unwrap_err(), DecryptError::CiphertextChecksum);
    assert_eq!(run(&w, &a1, &bad).unwrap_err(), DecryptError::CiphertextChecksum);

    w.mask[5] ^= 1;
    assert_eq!(run(&w, &a1, &a2).unwrap_err(), DecryptError::MaskChecksum);
    w.mask[5] ^= 1;
    w.beta_p[0] = 13;
    assert_eq!(run(&w, &a1, &a2).unwrap_err(), DecryptError::BetaPChecksum);
    w.beta_p[0] = 11;
    w.beta[4] = 31;
    assert_eq!(run(&w, &a1, &a2).unwrap_err(), DecryptError::BetaChecksum);
    w.beta[4] = 29;

    let row = w.fb[7][3].pop().unwrap();
    assert_eq!(run(&w, &a1, &a2).unwrap_err(), DecryptError::Malformed);
    w.fb[7][3].push(row);
    w.fb[0][0][0] = -1;
    assert_eq!(run(&w, &a1, &a2).unwrap_err(), DecryptError::Malformed);
    w.fb[0][0][0] = 0;

    assert_eq!(
        decrypt_message(&w, &a1, &a2, 256, MODULUS).unwrap_err(),
        DecryptError::ShapeMismatch
    );
    let mut transformed = a1.duplicate();
    transformed.goto_ntt(w.root).unwrap();
    assert_eq!(
        run(&w, &transformed, &a2).unwrap_err(),
        DecryptError::Ring(RingError::WrongDomain)
    );
    // a changed parameter no longer has the recorded checksum
    let (root, rotate, sealed) = (w.root, w.rotate, w.data_checksum);
    assert!(w.verify_data_checksum());
    w.rotate = (rotate + 1) % DEGREE;
    assert!(!w.verify_data_checksum());
    assert_eq!(run(&w, &a1, &a2).unwrap_err(), DecryptError::Malformed);
    w.rotate = rotate;
    w.root = 1;
    assert_eq!(run(&w, &a1, &a2).unwrap_err(), DecryptError::Malformed);
    // recorded anew, the wrong root is found out as a root
    w.data_checksum = rpack::checksum::compute_crt_checksum(&[
        w.root,
        w.unroot,
        w.ninv,
        w.k as i64,
        w.rotate as i64,
        w.chal as i64,
    ]);
    assert!(w.verify_data_checksum());
    assert_eq!(run(&w, &a1, &a2).unwrap_err(), DecryptError::InvalidRoot);
    w.root = root;
    w.data_checksum = sealed;
    assert!(run(&w, &a1, &a2).is_ok());
}

#[test]
fn key_generation_and_encryption_formulas() {
    let q = 17i64;
    let keys = key_gen_from(4, q, &[1, 0, -1, 0], &[2, 3, 4, 5], &[1, 0, 0, -1]).unwrap();
    // pka * sk = (2 + 3X + 4X^2 + 5X^3)(1 - X^2) = (2 + 4) + (3 + 5)X + (4 - 2)X^2 + (5 - 3)X^3
    //          = 6 + 8X + 2X^2 + 2X^3; pkb = -(2e + pka * sk)
    assert_eq!(keys.pkb.vector, vec![17 - 8, 17 - 8, 17 - 2, 0]);
    assert_eq!(keys.sk.vector, vec![1, 0, 16, 0]);
    let noise = EncryptionNoise { u: vec![1, 0, 0, 0], e1: vec![0, 1, 0, 0], e2: vec![0, 0, -1, 0] };
    let (a1, a2) = encrypt_func(&[1, 0, 1, 1], &keys.pka, &keys.pkb, 4, q, &noise).unwrap();
    assert_eq!(a1.vector, vec![2, 5, 4, 5]);
    assert_eq!(a2.vector, vec![10, 9, 14, 1]);
    assert!(a1.verify_checksum() && a2.verify_checksum());

    assert_eq!(
        key_gen_from(4, q, &[1, 0], &[2, 3, 4, 5], &[0; 4]).unwrap_err(),
        WhiteBoxError::InvalidSeed
    );
    assert_eq!(
        encrypt_func(&[1, 0, 1], &keys.pka, &keys.pkb, 4, q, &noise).unwrap_err(),
        WhiteBoxError::InvalidSeed
    );
    assert_eq!(
        encrypt_func(&[1, 0, 1, 1], &keys.pka, &keys.pkb, 4, 19, &noise).unwrap_err(),
        WhiteBoxError::Ring(RingError::ModulusMismatch)
    );
    let drawn = key_gen(4, q, &[1, 0, -1, 0], &[0; 4]).unwrap();
    assert!(drawn.pka.vector.iter().all(|&c| (0..q).contains(&c)));
    let check = drawn.pkb.add(&drawn.pka.mul(&drawn.sk).unwrap()).unwrap();
    assert_eq!(check.vector, vec![0; 4]);
}

#[test]
fn short_message_is_padded_with_zeros() {
    let q = 17i64;
    let keys = key_gen_from(8, q, &[0; 8], &[1; 8], &[0; 8]).unwrap();
    let data = PubEncData {
        degree: 8,
        modulus: q,
        pka: keys.pka,
        pkb: keys.pkb,
        data_checksum: [0; 32],
    };
    let n = EncryptionNoise { u: vec![0; 8], e1: vec![0; 8], e2: vec![0; 8] };
    let (_, a2) = encrypt_message("a", &data, &n).unwrap();
    assert_eq!(a2.vector, message_bits(b"a"));
    let wide = PubEncData { degree: 16, ..wide_key(q) };
    let n = EncryptionNoise { u: vec![0; 16], e1: vec![0; 16], e2: vec![0; 16] };
    let (_, a2) = encrypt_message("a", &wide, &n).unwrap();
    assert_eq!(a2.vector[..8], message_bits(b"a")[..]);
    assert_eq!(a2.vector[8..], [0i64; 8]);
}

#[test]
fn secret_key_decryption_recovers_the_bits() {
    let q = 17i64;
    let keys = key_gen_from(4, q, &[1, 0, -1, 0], &[2, 3, 4, 5], &[1, 0, 0, -1]).unwrap();
    let noise = EncryptionNoise { u: vec![1, 0, 0, 0], e1: vec![0, 1, 0, 0], e2: vec![0, 0, -1, 0] };
    let (a1, a2) = encrypt_func(&[1, 0, 1, 1], &keys.pka, &keys.pkb, 4, q, &noise).unwrap();
    // a2 + a1 * sk = m + 2 (e2 + e1 * sk - e * u) = [1, 0, 1, 1] + 2 [-1, 1, -1, 0]
    assert_eq!(a2.add(&a1.mul(&keys.sk).unwrap()).unwrap().vector, vec![16, 2, 16, 1]);
    assert_eq!(decrypt(&a1, &a2, &keys.sk, 4, q).unwrap(), vec![1, 0, 1, 1]);

    assert_eq!(
        decrypt(&a1, &a2, &keys.sk, 8, q).unwrap_err(),
        WhiteBoxError::Ring(RingError::DegreeMismatch)
    );
    assert_eq!(
        decrypt(&a1, &a2, &keys.sk, 4, 19).unwrap_err(),
        WhiteBoxError::Ring(RingError::ModulusMismatch)
    );
    let other = NTRUVector::from_coefficients(&[1, 2], q);
    assert_eq!(
        decrypt(&a1, &a2, &other, 4, q).unwrap_err(),
        WhiteBoxError::Ring(RingError::DegreeMismatch)
    );
}

#[test]
fn secret_key_decryption_at_production_size() {
    let mut rng = rand::thread_rng();
    let pka: Vec<i64> = (0..DEGREE).map(|_| rng.gen_range(0..MODULUS)).collect();
    let keys = key_gen_from(DEGREE, MODULUS, &gaussian(DEGREE), &pka, &gaussian(DEGREE)).unwrap();
    let bits: Vec<i64> = (0..DEGREE).map(|_| rng.gen_range(0..2)).collect();
    let (a1, a2) =
        encrypt_func(&bits, &keys.pka, &keys.pkb, DEGREE, MODULUS, &noise(DEGREE)).unwrap();
    assert_eq!(decrypt(&a1, &a2, &keys.sk, DEGREE, MODULUS).unwrap(), bits);
}

fn wide_key(q: i64) -> PubEncData {
    let keys = key_gen_from(16, q, &[0; 16], &[1; 16], &[0; 16]).unwrap();
    PubEncData { degree: 16, modulus: q, pka: keys.pka, pkb: keys.pkb, data_checksum: [0; 32] }
}

fn small_seed() -> WhiteBoxSeed {
    WhiteBoxSeed {
        sk: vec![1, 0, -1, 0, 1, 1, 0, -1],
        pka: vec![5, 9, 2, 11, 3, 7, 16, 1],
        e: vec![0, 1, 0, -1, 0, 0, 1, 0],
        x_noise: EncryptionNoise {
            u: vec![1, 0, 0, -1, 0, 1, 0, 0],
            e1: vec![0, -1, 0, 0, 1, 0, 0, 0],
            e2: vec![0, 0, 1, 0, 0, 0, 0, 0],
        },
        y_noise: EncryptionNoise {
            u: vec![0, 1, 0, 0, 0, 0, 0, 1],
            e1: vec![1, 0, 0, 0, 0, 0, -1, 0],
            e2: vec![0; 8],
        },
        rotate: 3,
        mask: vec![1, 0, 1, 1, 0, 0, 1, 0],
    }
}

// The negacyclic product over the integers.
fn product(a: &[i64], b: &[i64]) -> Vec<i64> {
    let n = a.len();
    let mut c = vec![0i64; n];
    for i in 0..n {
        for j in 0..n {
            if i + j < n {
                c[i + j] += a[i] * b[j];
            } else {
                c[i + j - n] -= a[i] * b[j];
            }
        }
    }
    c
}

// What an encryption hides, over the integers: m + 2 (e2 + e1 * sk - e * u).
fn hidden(m: &[i64], noise: &EncryptionNoise, sk: &[i64], e: &[i64]) -> Vec<i64> {
    let e1_sk = product(&noise.e1, sk);
    let e_u = product(e, &noise.u);
    (0..m.len()).map(|j| m[j] + 2 * (noise.e2[j] + e1_sk[j] - e_u[j])).collect()
}

// The polynomial that rotate/mask decryption reads, over the integers.
fn residue(seed: &WhiteBoxSeed, m: &[i64], noise: &EncryptionNoise) -> Vec<i64> {
    let n = m.len();
    let mut unit = vec![0i64; n];
    unit[seed.rotate] = 1;
    let x = hidden(&unit, &seed.x_noise, &seed.sk, &seed.e);
    let y = hidden(&seed.mask, &seed.y_noise, &seed.sk, &seed.e);
    let c = hidden(m, noise, &seed.sk, &seed.e);
    let z: Vec<i64> = (0..n).map(|j| c[j] - y[j]).collect();
    product(&x, &z)
}

#[test]
fn white_box_product_is_the_folded_term() {
    let (n, q) = (8usize, 1231873i64);
    let beta = [13i64, 16, 19, 27, 29];
    let beta_p = [11i64, 17, 23, 25, 31];
    let seed = small_seed();
    let transformed = |v: &NTRUVector, root: i64| {
        let mut t = v.duplicate();
        t.goto_ntt(root).unwrap();
        t.vector
    };
    let sk = NTRUVector::from_coefficients(&seed.sk, q);

    // the bare scheme multiplies by the secret: a * s + b
    let (_, w) = generate_whitebox_data_from(n, q, &beta, &beta_p, 5, 0, &seed).unwrap();
    let s = transformed(&sk, w.root);
    for dim in 0..n {
        for (a, b) in [(0i64, 0i64), (1, 0), (0, 1), (5, 7), (q - 1, q - 1), (1231, 987654)] {
            let expected = ((a as i128 * s[dim] as i128 + b as i128) % q as i128) as i64;
            assert_eq!(mont_mult(dim, a, b, q, &w), expected);
        }
    }

    // the rotate/mask scheme: a * (s x) + b * x + x * y
    let (p, w) = generate_whitebox_data_from(n, q, &beta, &beta_p, 5, 2, &seed).unwrap();
    let mut unit = vec![0i64; n];
    unit[seed.rotate] = 1;
    let (a1_x, a2_x) = encrypt_func(&unit, &p.pka, &p.pkb, n, q, &seed.x_noise).unwrap();
    let (a1_y, a2_y) = encrypt_func(&seed.mask, &p.pka, &p.pkb, n, q, &seed.y_noise).unwrap();
    let x = a2_x.add(&a1_x.mul(&sk).unwrap()).unwrap();
    let y = a2_y.add(&a1_y.mul(&sk).unwrap()).unwrap().neg();
    let fx = transformed(&x, w.root);
    let fy = transformed(&y, w.root);
    let fsx = transformed(&sk.mul(&x).unwrap(), w.root);
    for dim in 0..n {
        for (a, b) in [(0i64, 0i64), (1, 0), (0, 1), (5, 7), (q - 1, q - 1), (1231, 987654)] {
            let term = a as i128 * fsx[dim] as i128
                + b as i128 * fx[dim] as i128
                + fx[dim] as i128 * fy[dim] as i128;
            assert_eq!(mont_mult(dim, a, b, q, &w), (term % q as i128) as i64);
        }
    }
}

#[test]
fn decryption_reads_the_residue_within_the_margin() {
    let (n, q) = (8usize, 1231873i64);
    let beta = [13i64, 16, 19, 27, 29];
    let beta_p = [11i64, 17, 23, 25, 31];
    let seed = small_seed();
    let (p, w) = generate_whitebox_data_from(n, q, &beta, &beta_p, 5, 2, &seed).unwrap();
    let noise = EncryptionNoise {
        u: vec![0, 1, -1, 0, 0, 0, 1, 0],
        e1: vec![1, 0, 0, 0, -1, 0, 0, 1],
        e2: vec![0, 0, -1, 1, 0, 0, 0, 0],
    };
    // every message of eight bits
    for word in 0..256u32 {
        let m: Vec<i64> = (0..n).map(|i| ((word >> i) & 1) as i64).collect();
        let v = residue(&seed, &m, &noise);
        assert!(v.iter().all(|&c| -q < 2 * c && 2 * c < q));
        for i in 0..n {
            let c = v[(i + seed.rotate) % n];
            assert_eq!((c + seed.mask[i]).rem_euclid(2), m[i]);
        }
        let (a1, a2) = encrypt_func(&m, &p.pka, &p.pkb, n, q, &noise).unwrap();
        assert_eq!(decrypt_message(&w, &a1, &a2, n, q).unwrap(), m);
    }
}

#[test]
fn noise_beyond_the_margin_flips_a_bit() {
    let (n, q) = (8usize, 1231873i64);
    let beta = [13i64, 16, 19, 27, 29];
    let beta_p = [11i64, 17, 23, 25, 31];
    let quiet = || EncryptionNoise { u: vec![0; 8], e1: vec![0; 8], e2: vec![0; 8] };
    let seed = WhiteBoxSeed {
        sk: vec![1, 0, -1, 0, 1, 1, 0, -1],
        pka: vec![5, 9, 2, 11, 3, 7, 16, 1],
        e: vec![0; 8],
        x_noise: quiet(),
        y_noise: quiet(),
        rotate: 3,
        mask: vec![1, 0, 1, 1, 0, 0, 1, 0],
    };
    let (p, w) = generate_whitebox_data_from(n, q, &beta, &beta_p, 5, 2, &seed).unwrap();
    let m = vec![0i64, 1, 1, 0, 1, 0, 0, 1];
    // the residue at the rotated place of bit 0 is (m - mask) + 2 e2 = -1 + 2 e2
    for (e2, within) in [(307_967i64, true), (307_968, true), (307_969, false), (400_000, false)] {
        let mut noise = quiet();
        noise.e2[0] = e2;
        let v = residue(&seed, &m, &noise);
        assert_eq!(v[3], 2 * e2 - 1);
        assert_eq!(v.iter().all(|&c| -q < 2 * c && 2 * c < q), within);
        let (a1, a2) = encrypt_func(&m, &p.pka, &p.pkb, n, q, &noise).unwrap();
        let bits = decrypt_message(&w, &a1, &a2, n, q).unwrap();
        assert_eq!(bits[1..], m[1..]);
        assert_eq!(bits[0] == m[0], within);
    }
}

#[test]
fn the_other_schemes_read_their_residues() {
    let (n, q) = (8usize, 1231873i64);
    let beta = [13i64, 16, 19, 27, 29];
    let beta_p = [11i64, 17, 23, 25, 31];
    let seed = small_seed();
    let noise = EncryptionNoise {
        u: vec![0, 1, -1, 0, 0, 0, 1, 0],
        e1: vec![1, 0, 0, 0, -1, 0, 0, 1],
        e2: vec![0, 0, -1, 1, 0, 0, 0, 0],
    };
    let mut one = vec![0i64; n];
    one[0] = 1;
    for word in [0u32, 1, 0x5a, 0xa5, 0xff] {
        let m: Vec<i64> = (0..n).map(|i| ((word >> i) & 1) as i64).collect();
        let c = hidden(&m, &noise, &seed.sk, &seed.e);
        // the bare scheme reads what the encryption hides
        let bare = c.clone();
        // the one/zero scheme reads it times the difference of the two known plaintexts
        let x = hidden(&one, &seed.x_noise, &seed.sk, &seed.e);
        let y = hidden(&vec![0; n], &seed.y_noise, &seed.sk, &seed.e);
        let z: Vec<i64> = (0..n).map(|j| x[j] - y[j]).collect();
        let one_zero = product(&z, &c);
        for (chal, v) in [(0u8, bare), (1, one_zero)] {
            assert!(v.iter().all(|&c| -q < 2 * c && 2 * c < q));
            assert!((0..n).all(|i| v[i].rem_euclid(2) == m[i]));
            let (p, w) = generate_whitebox_data_from(n, q, &beta, &beta_p, 5, chal, &seed).unwrap();
            let (a1, a2) = encrypt_func(&m, &p.pka, &p.pkb, n, q, &noise).unwrap();
            assert_eq!(decrypt_message(&w, &a1, &a2, n, q).unwrap(), m);
        }
    }
}
