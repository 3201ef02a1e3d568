use rpack::checksum::{
    compute_blake3, compute_crt_checksum, hash_to_hex, integer_sequence_checksum,
    rolling_checksum, validate_blake3,
};

#[test]
fn test_compute_blake3() {
    let empty_data = b"";
    let empty_hash = [
        0xaf, 0x13, 0x49, 0xb9, 0xf5, 0xf9, 0xa1, 0xa6, 0xa0, 0x40, 0x4d, 0xea, 0x36, 0xdc, 0xc9,
        0x49, 0x9b, 0xcb, 0x25, 0xc9, 0xad, 0xc1, 0x12, 0xb7, 0xcc, 0x9a, 0x93, 0xca, 0xe4, 0x1f,
        0x32, 0x62,
    ];
    assert_eq!(compute_blake3(empty_data), empty_hash);

    let data = b"abc";
    assert_eq!(compute_blake3(data).len(), 32);
}

#[test]
fn test_validate_blake3_match() {
    let data = b"hello";
    let hash = compute_blake3(data);
    assert!(validate_blake3(data, &hash));
}

#[test]
fn test_validate_blake3_mismatch() {
    let data = b"hello";
    let wrong_hash = [0; 32];
    assert!(!validate_blake3(data, &wrong_hash));
}

#[test]
fn test_integer_sequence_checksum() {
    let values = [1, 2, 3];
    let expected_bytes =
        &[1, 0, 0, 0, 0, 0, 0, 0, 2, 0, 0, 0, 0, 0, 0, 0, 3, 0, 0, 0, 0, 0, 0, 0];
    let expected_hash = compute_blake3(expected_bytes);
    assert_eq!(integer_sequence_checksum(&values), expected_hash);
    assert_eq!(compute_crt_checksum(&values), expected_hash);
}

#[test]
fn test_rolling_checksum_small_window() {
    let data = b"abc";
    let window_size = 2;
    let checksums = rolling_checksum(data, window_size);
    assert_eq!(checksums.len(), 2); // "ab", "bc"
    assert_eq!(checksums[0], compute_blake3(b"ab"));
    assert_eq!(checksums[1], compute_blake3(b"bc"));
}

#[test]
fn test_rolling_checksum_window_equal_data() {
    let data = b"abc";
    let window_size = 3;
    let checksums = rolling_checksum(data, window_size);
    assert_eq!(checksums.len(), 1);
    assert_eq!(checksums[0], compute_blake3(data));
}

#[test]
fn test_rolling_checksum_window_larger_than_data() {
    let data = b"abc";
    let window_size = 5;
    let checksums = rolling_checksum(data, window_size);
    assert_eq!(checksums.len(), 1);
    assert_eq!(checksums[0], compute_blake3(data));
}

#[test]
fn negative_values_hash_as_twos_complement() {
    let values = [-1i64, i64::MIN];
    let mut bytes = vec![0xffu8; 8];
    bytes.extend_from_slice(&[0, 0, 0, 0, 0, 0, 0, 0x80]);
    assert_eq!(compute_crt_checksum(&values), compute_blake3(&bytes));
}

#[test]
fn hex_of_a_digest() {
    let mut hash = [0u8; 32];
    hash[0] = 0xaf;
    hash[1] = 0x13;
    hash[31] = 0x0f;
    let hex = hash_to_hex(&hash);
    assert_eq!(hex.len(), 64);
    assert!(hex.starts_with("af13"));
    assert!(hex.ends_with("0f"));
    assert_eq!(&hex[4..62], "0".repeat(58));
}

#[test]
fn blake3_differs_from_its_input() {
    // the digest is not the input handed back
    let data = [7u8; 32];
    assert_ne!(compute_blake3(&data), data);
    assert_ne!(compute_blake3(b"a"), compute_blake3(b"b"));
}
