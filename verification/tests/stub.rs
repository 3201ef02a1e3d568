use rand_distr::{Distribution, Normal};
use rpack::aes::AES128;
use rpack::bits::message_bits;
use rpack::container::{build_container, ContainerParts};
use rpack::encrypt::{encrypt_func, EncryptionNoise};
use rpack::generate::{create_whitebox, GaussianDraws, DEGREE, MODULUS};
use rpack::lattice::NTRUVector;
use rpack::payload::pack_payload;
use rpack::stub::{Action, Event, Stage, Stub};
use rpack::whitebox::WhiteData;

fn gaussian(n: usize) -> Vec<i64> {
    let normal = Normal::new(0.0f64, 0.7).unwrap();
    let mut rng = rand::thread_rng();
    (0..n).map(|_| normal.sample(&mut rng).round() as i64).collect()
}

fn noise(n: usize) -> EncryptionNoise {
    EncryptionNoise { u: gaussian(n), e1: gaussian(n), e2: gaussian(n) }
}

// A plain encoding of a vector's coefficients, standing in for a serialiser.
fn encode(v: &NTRUVector) -> Vec<u8> {
    v.vector.iter().flat_map(|c| c.to_le_bytes()).collect()
}

fn decode(bytes: &[u8]) -> Option<NTRUVector> {
    if bytes.len() != 8 * DEGREE {
        return None;
    }
    let coeffs: Vec<i64> =
        bytes.chunks(8).map(|c| i64::from_le_bytes(c.try_into().unwrap())).collect();
    if coeffs.iter().any(|c| !(0..MODULUS).contains(c)) {
        return None;
    }
    Some(NTRUVector::from_coefficients(&coeffs, MODULUS))
}

struct Fixture {
    original: Vec<u8>,
    key: [u8; 16],
    parts: ContainerParts,
    a1: NTRUVector,
    a2: NTRUVector,
    white: WhiteData,
}

fn clone_white(w: &WhiteData) -> WhiteData {
    WhiteData {
        root: w.root,
        unroot: w.unroot,
        ninv: w.ninv,
        beta: w.beta.clone(),
        beta_p: w.beta_p.clone(),
        k: w.k,
        mask: w.mask.clone(),
        rotate: w.rotate,
        chal: w.chal,
        fb: w.fb.clone(),
        sb: w.sb.clone(),
        beta_checksum: w.beta_checksum,
        beta_p_checksum: w.beta_p_checksum,
        mask_checksum: w.mask_checksum,
        data_checksum: w.data_checksum,
    }
}

fn fixture() -> Fixture {
    let original: Vec<u8> = b"\x7fELF".iter().copied().chain((0..2000u32).map(|i| (i % 7) as u8)).collect();
    let key = AES128::generate_key();
    let draws = GaussianDraws {
        sk: gaussian(DEGREE),
        e: gaussian(DEGREE),
        x_noise: noise(DEGREE),
        y_noise: noise(DEGREE),
    };
    let (pub_enc_data, white) = create_whitebox(draws).unwrap();
    let mut key_bits = message_bits(&key);
    key_bits.resize(DEGREE, 0);
    let (a1, a2) = encrypt_func(
        &key_bits,
        &pub_enc_data.pka,
        &pub_enc_data.pkb,
        DEGREE,
        MODULUS,
        &noise(DEGREE),
    )
    .unwrap();
    let packed = pack_payload(&original, &key).unwrap();
    let parts = ContainerParts {
        stub: vec![0x90; 64],
        encrypted_payload: packed.encrypted,
        serialized_a1: encode(&a1),
        serialized_a2: encode(&a2),
        // the tables themselves are handed over at the deserialisation step;
        // the section only has to be covered by the hashes
        serialized_white_data: white.mask.iter().map(|&b| b as u8).collect(),
        decompressed_size: packed.decompressed_size,
        original_hash: packed.original_hash,
        compressed_hash: packed.compressed_hash,
        aes_key_hash: packed.aes_key_hash,
    };
    Fixture { original, key, parts, a1, a2, white }
}

// Drive the machine as the stub's main loop does, with a clear environment.
fn run(image: Vec<u8>, white: &WhiteData) -> Stub {
    let mut stub = Stub::new();
    let mut action = stub.pending();
    loop {
        let event = match action {
            Action::ReadSelfImage => Event::SelfImage(image.clone()),
            Action::ConsultGate => Event::Clear,
            Action::Deserialize => {
                let parts = stub.parts().as_ref().unwrap();
                match (decode(&parts.serialized_a1), decode(&parts.serialized_a2)) {
                    (Some(a1), Some(a2)) => Event::Deserialized(a1, a2, clone_white(white)),
                    _ => Event::Failed,
                }
            }
            Action::ReplaceProcessImage | Action::Divert => return stub,
        };
        action = stub.step(event);
    }
}

#[test]
fn stub_releases_an_untouched_container() {
    let f = fixture();
    let image = build_container(&f.parts);
    let stub = run(image, &f.white);
    assert_eq!(stub.stage(), Stage::ReplaceProcessImage);
    assert_eq!(stub.failed_at(), None);
    assert_eq!(stub.key(), f.key);
    assert_eq!(*stub.payload(), f.original);
}

#[test]
fn stub_walks_the_stages_in_order() {
    let f = fixture();
    let image = build_container(&f.parts);
    let mut stub = Stub::new();
    assert_eq!(stub.pending(), Action::ReadSelfImage);
    assert_eq!(stub.step(Event::SelfImage(image)), Action::ConsultGate);
    assert_eq!(stub.stage(), Stage::VerifyWholeArtifact);
    assert_eq!(stub.step(Event::Clear), Action::ConsultGate);
    assert_eq!(stub.stage(), Stage::ReadTrailer);
    assert_eq!(stub.step(Event::Clear), Action::ConsultGate);
    assert_eq!(stub.stage(), Stage::LocateSections);
    assert_eq!(stub.step(Event::Clear), Action::Deserialize);
    assert_eq!(stub.stage(), Stage::DeserializeCiphertextAndTables);
    let event = Event::Deserialized(f.a1.duplicate(), f.a2.duplicate(), clone_white(&f.white));
    assert_eq!(stub.step(event), Action::ConsultGate);
    let expected = [
        Stage::VerifyComponentChecksums,
        Stage::WhiteBoxDecryptKey,
        Stage::VerifyKeyChecksum,
        Stage::SymmetricDecrypt,
        Stage::VerifyCompressedChecksum,
        Stage::Decompress,
        Stage::VerifyOriginalChecksum,
    ];
    for stage in expected {
        assert_eq!(stub.stage(), stage);
        let action = stub.step(Event::Clear);
        if stage == Stage::VerifyOriginalChecksum {
            assert_eq!(action, Action::ReplaceProcessImage);
        } else {
            assert_eq!(action, Action::ConsultGate);
        }
    }
    assert_eq!(stub.stage(), Stage::ReplaceProcessImage);
    // a failed replacement diverts, and a diverted machine stays diverted
    assert_eq!(stub.step(Event::Failed), Action::Divert);
    assert_eq!(stub.failed_at(), Some(Stage::ReplaceProcessImage));
    assert_eq!(stub.step(Event::Clear), Action::Divert);
    assert_eq!(stub.stage(), Stage::Diverted);
    assert_eq!(stub.failed_at(), Some(Stage::ReplaceProcessImage));
}

#[test]
fn hostile_environment_diverts_at_any_stage() {
    let f = fixture();
    let image = build_container(&f.parts);
    for clear_steps in 0..3 {
        let mut stub = Stub::new();
        stub.step(Event::SelfImage(image.clone()));
        for _ in 0..clear_steps {
            stub.step(Event::Clear);
        }
        let at = stub.stage();
        assert_eq!(stub.step(Event::Hostile), Action::Divert);
        assert_eq!(stub.failed_at(), Some(at));
    }
    let mut stub = Stub::new();
    assert_eq!(stub.step(Event::Clear), Action::Divert);
    assert_eq!(stub.failed_at(), Some(Stage::ReadSelf));
    let mut stub = Stub::new();
    assert_eq!(stub.step(Event::Failed), Action::Divert);
}

fn tampered(f: &Fixture, change: fn(&mut ContainerParts)) -> Stub {
    let mut parts = ContainerParts {
        stub: f.parts.stub.clone(),
        encrypted_payload: f.parts.encrypted_payload.clone(),
        serialized_a1: f.parts.serialized_a1.clone(),
        serialized_a2: f.parts.serialized_a2.clone(),
        serialized_white_data: f.parts.serialized_white_data.clone(),
        decompressed_size: f.parts.decompressed_size,
        original_hash: f.parts.original_hash,
        compressed_hash: f.parts.compressed_hash,
        aes_key_hash: f.parts.aes_key_hash,
    };
    change(&mut parts);
    // the attacker rebuilds the container, final hash included
    run(build_container(&parts), &f.white)
}

#[test]
fn tampered_byte_without_rehash_fails_whole_artifact() {
    let f = fixture();
    let image = build_container(&f.parts);
    let stub_len = f.parts.stub.len();
    let enc = f.parts.encrypted_payload.len();
    // one byte inside each of the five data sections
    let offsets = [
        3,
        stub_len + 5,
        stub_len + enc + 9,
        stub_len + enc + 8 * DEGREE + 9,
        stub_len + enc + 16 * DEGREE + 9,
    ];
    for offset in offsets {
        let mut bad = image.clone();
        bad[offset] ^= 0x01;
        let stub = run(bad, &f.white);
        assert_eq!(stub.stage(), Stage::Diverted);
        assert_eq!(stub.failed_at(), Some(Stage::VerifyWholeArtifact));
        assert!(stub.payload().is_empty());
    }
}

#[test]
fn tampered_encrypted_payload_fails_after_decryption() {
    let f = fixture();
    let stub = tampered(&f, |p| p.encrypted_payload[17] ^= 0x40);
    assert_eq!(stub.stage(), Stage::Diverted);
    let at = stub.failed_at().unwrap();
    assert!(at == Stage::SymmetricDecrypt || at == Stage::VerifyCompressedChecksum);
    assert!(stub.payload().is_empty());
}

#[test]
fn tampered_ciphertext_a1_fails_key_checksum() {
    let f = fixture();
    // coefficient 0 moved by half the modulus: decodes, but to another key
    let stub = tampered(&f, |p| {
        let c = i64::from_le_bytes(p.serialized_a1[..8].try_into().unwrap());
        let moved = (c + MODULUS / 2) % MODULUS;
        p.serialized_a1[..8].copy_from_slice(&moved.to_le_bytes());
    });
    assert_eq!(stub.stage(), Stage::Diverted);
    assert_eq!(stub.failed_at(), Some(Stage::VerifyKeyChecksum));
}

#[test]
fn tampered_ciphertext_a2_fails_key_checksum() {
    let f = fixture();
    // a flipped message bit: coefficient 0 changes parity
    let stub = tampered(&f, |p| {
        let c = i64::from_le_bytes(p.serialized_a2[..8].try_into().unwrap());
        let moved = (c + 1) % MODULUS;
        p.serialized_a2[..8].copy_from_slice(&moved.to_le_bytes());
    });
    assert_eq!(stub.stage(), Stage::Diverted);
    assert_eq!(stub.failed_at(), Some(Stage::VerifyKeyChecksum));
}

#[test]
fn tampered_white_data_fails_component_checksums() {
    let f = fixture();
    let image = build_container(&f.parts);
    let mut white = clone_white(&f.white);
    white.mask[0] ^= 1;
    let stub = run(image.clone(), &white);
    assert_eq!(stub.failed_at(), Some(Stage::VerifyComponentChecksums));
    let mut white = clone_white(&f.white);
    white.beta[0] = 17;
    let stub = run(image.clone(), &white);
    assert_eq!(stub.failed_at(), Some(Stage::VerifyComponentChecksums));
    let mut white = clone_white(&f.white);
    white.rotate = (white.rotate + 1) % white.fb.len();
    let stub = run(image.clone(), &white);
    assert_eq!(stub.failed_at(), Some(Stage::VerifyComponentChecksums));
    // a changed table entry passes the component checksums, which do not
    // cover the tables, and shows as a wrong key
    let mut white = clone_white(&f.white);
    for table in white.fb.iter_mut() {
        table[0][0] ^= 1;
        table[1][1] ^= 1;
    }
    let stub = run(image, &white);
    assert_eq!(stub.stage(), Stage::Diverted);
}

#[test]
fn tampered_hashes_fail_at_their_stage() {
    let f = fixture();
    let stub = tampered(&f, |p| p.aes_key_hash[0] ^= 1);
    assert_eq!(stub.failed_at(), Some(Stage::VerifyKeyChecksum));
    let stub = tampered(&f, |p| p.compressed_hash[0] ^= 1);
    assert_eq!(stub.failed_at(), Some(Stage::VerifyCompressedChecksum));
    let stub = tampered(&f, |p| p.original_hash[0] ^= 1);
    assert_eq!(stub.failed_at(), Some(Stage::VerifyOriginalChecksum));
    let stub = tampered(&f, |p| p.decompressed_size -= 1);
    assert_eq!(stub.failed_at(), Some(Stage::Decompress));
    let stub = tampered(&f, |p| p.serialized_a1.truncate(100));
    assert_eq!(stub.failed_at(), Some(Stage::DeserializeCiphertextAndTables));
}

#[test]
fn truncated_images_fail_early() {
    let f = fixture();
    let stub = run(vec![1, 2, 3], &f.white);
    assert_eq!(stub.failed_at(), Some(Stage::VerifyWholeArtifact));
    // long enough for a final hash, too short for a trailer
    let mut short = vec![0u8; 50];
    let hash = rpack::checksum::compute_blake3(&short);
    short.extend_from_slice(&hash);
    let stub = run(short, &f.white);
    assert_eq!(stub.failed_at(), Some(Stage::ReadTrailer));
    // a trailer whose sizes do not fit
    let mut body = vec![0u8; 136];
    body[0] = 9;
    let hash = rpack::checksum::compute_blake3(&body);
    body.extend_from_slice(&hash);
    let stub = run(body, &f.white);
    assert_eq!(stub.failed_at(), Some(Stage::LocateSections));
}
