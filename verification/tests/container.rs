use rpack::checksum::compute_blake3;
use rpack::compress::decompress_checked;
use rpack::container::{
    build_container, parse_container, ContainerError, ContainerParts, METADATA_SIZE,
};
use rpack::payload::{decrypt_payload, pack_payload, unpack_payload, PayloadError};

fn parts_for(original: &[u8], key: &[u8; 16]) -> ContainerParts {
    let packed = pack_payload(original, key).unwrap();
    ContainerParts {
        stub: b"\x7fELF stub image".to_vec(),
        encrypted_payload: packed.encrypted,
        serialized_a1: vec![1, 2, 3],
        serialized_a2: vec![4, 5, 6, 7],
        serialized_white_data: vec![9; 10],
        decompressed_size: packed.decompressed_size,
        original_hash: packed.original_hash,
        compressed_hash: packed.compressed_hash,
        aes_key_hash: packed.aes_key_hash,
    }
}

fn unpack(parts: &ContainerParts, key: &[u8; 16]) -> Result<Vec<u8>, PayloadError> {
    unpack_payload(
        &parts.encrypted_payload,
        key,
        parts.decompressed_size,
        &parts.original_hash,
        &parts.compressed_hash,
        &parts.aes_key_hash,
    )
}

#[test]
fn container_layout_is_exact() {
    let key = [0x11u8; 16];
    let parts = parts_for(b"hello, payload", &key);
    let bytes = build_container(&parts);
    let enc = parts.encrypted_payload.len();
    assert_eq!(enc % 16, 0);
    assert_eq!(bytes.len(), 15 + enc + 3 + 4 + 10 + METADATA_SIZE);
    assert_eq!(&bytes[..15], b"\x7fELF stub image");
    let t = bytes.len() - METADATA_SIZE;
    assert_eq!(&bytes[t - 10..t], &[9u8; 10]);
    assert_eq!(&bytes[t..t + 8], &(enc as u64).to_le_bytes());
    assert_eq!(&bytes[t + 8..t + 16], &3u64.to_le_bytes());
    assert_eq!(&bytes[t + 16..t + 24], &4u64.to_le_bytes());
    assert_eq!(&bytes[t + 24..t + 32], &10u64.to_le_bytes());
    assert_eq!(&bytes[t + 32..t + 40], &14u64.to_le_bytes());
    assert_eq!(&bytes[t + 40..t + 72], &compute_blake3(b"hello, payload"));
    assert_eq!(&bytes[t + 104..t + 136], &compute_blake3(&key));
    let n = bytes.len();
    assert_eq!(&bytes[n - 32..], &compute_blake3(&bytes[..n - 32]));
}

#[test]
fn container_round_trip() {
    let key = [0x42u8; 16];
    let originals: [&[u8]; 4] = [b"", b"x", b"sixteen bytes!!!", &[0xabu8; 1000]];
    for original in originals {
        let parts = parts_for(original, &key);
        let bytes = build_container(&parts);
        let parsed = parse_container(&bytes).unwrap();
        assert_eq!(parsed.stub, parts.stub);
        assert_eq!(parsed.encrypted_payload, parts.encrypted_payload);
        assert_eq!(parsed.serialized_a1, parts.serialized_a1);
        assert_eq!(parsed.serialized_a2, parts.serialized_a2);
        assert_eq!(parsed.serialized_white_data, parts.serialized_white_data);
        assert_eq!(parsed.decompressed_size, original.len() as u64);
        assert_eq!(parsed.original_hash, parts.original_hash);
        assert_eq!(parsed.compressed_hash, parts.compressed_hash);
        assert_eq!(parsed.aes_key_hash, parts.aes_key_hash);
        assert_eq!(unpack(&parsed, &key).unwrap(), original);
        assert_eq!(build_container(&parsed), bytes);
    }
}

#[test]
fn malformed_containers_are_refused() {
    assert_eq!(parse_container(&[]).unwrap_err(), ContainerError::Truncated);
    assert_eq!(parse_container(&[0u8; 167]).unwrap_err(), ContainerError::Truncated);
    assert_eq!(parse_container(&[0u8; 168]).unwrap_err(), ContainerError::WholeArtifactHash);
    // a trailer whose sizes exceed what is there, under a valid final hash
    let mut body = vec![0u8; 136 + 5];
    body[5..13].copy_from_slice(&6u64.to_le_bytes());
    let hash = compute_blake3(&body);
    body.extend_from_slice(&hash);
    assert_eq!(parse_container(&body).unwrap_err(), ContainerError::BadTrailer);
    // sizes that would overflow when added
    let mut body = vec![0u8; 136];
    body[0..8].copy_from_slice(&u64::MAX.to_le_bytes());
    body[8..16].copy_from_slice(&u64::MAX.to_le_bytes());
    let hash = compute_blake3(&body);
    body.extend_from_slice(&hash);
    assert_eq!(parse_container(&body).unwrap_err(), ContainerError::BadTrailer);
    // an empty container is a container
    let mut body = vec![0u8; 136];
    let hash = compute_blake3(&body);
    body.extend_from_slice(&hash);
    assert!(parse_container(&body).unwrap().stub.is_empty());
    body[0] = 1;
    assert_eq!(parse_container(&body).unwrap_err(), ContainerError::WholeArtifactHash);
}

#[test]
fn payload_chain_names_the_failed_check() {
    let key = [0x42u8; 16];
    let original = b"the quick brown fox jumps over the lazy dog, twice over";
    let parts = parts_for(original, &key);
    assert_eq!(unpack(&parts, &key).unwrap(), original);

    let wrong_key = [0x43u8; 16];
    assert_eq!(unpack(&parts, &wrong_key).unwrap_err(), PayloadError::KeyHash);

    let mut p = parts_for(original, &key);
    p.encrypted_payload.pop();
    assert_eq!(unpack(&p, &key).unwrap_err(), PayloadError::Decrypt);

    let mut p = parts_for(original, &key);
    p.encrypted_payload[0] ^= 1;
    let e = unpack(&p, &key).unwrap_err();
    assert!(e == PayloadError::CompressedHash || e == PayloadError::Decrypt);

    let mut p = parts_for(original, &key);
    p.compressed_hash[0] ^= 1;
    assert_eq!(unpack(&p, &key).unwrap_err(), PayloadError::CompressedHash);

    let mut p = parts_for(original, &key);
    p.decompressed_size = 3;
    assert_eq!(unpack(&p, &key).unwrap_err(), PayloadError::Decompress);

    let mut p = parts_for(original, &key);
    p.decompressed_size = u64::MAX;
    assert_eq!(unpack(&p, &key).unwrap_err(), PayloadError::Decompress);

    let mut p = parts_for(original, &key);
    p.original_hash[31] ^= 0x80;
    assert_eq!(unpack(&p, &key).unwrap_err(), PayloadError::OriginalHash);
}

#[test]
fn compression_is_not_the_identity() {
    let original = vec![b'a'; 4096];
    let key = [1u8; 16];
    let packed = pack_payload(&original, &key).unwrap();
    let compressed = decrypt_payload(&packed.encrypted, &key).unwrap();
    assert!(compressed.len() < 100);
    assert_eq!(compute_blake3(&compressed), packed.compressed_hash);
    assert_eq!(decompress_checked(&compressed, 4096).unwrap(), original);
    assert_eq!(decompress_checked(&compressed, 4095), None);
    assert_eq!(decompress_checked(&[0xff, 0xff], 10), None);
    assert_eq!(decompress_checked(&compressed, usize::MAX), None);
}
