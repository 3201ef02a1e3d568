use rpack::aes::{
    decrypt_aes128, encrypt_aes128, galois_multiplication, generate_mul_table, key_schedule_aes128,
    pad_pkcs7, rot_word, substitute, unpad_pkcs7, xor_words, AES128,
};

fn key16(bytes: &[u8]) -> [u8; 16] {
    let mut key = [0u8; 16];
    key[..bytes.len()].copy_from_slice(bytes);
    key
}

#[test]
fn test_aes_key_generation() {
    let key1 = AES128::generate_key();
    let key2 = AES128::generate_key();
    assert_ne!(key1, key2);
    assert_eq!(key1.len(), 16);
    assert_eq!(key2.len(), 16);
}

#[test]
fn test_aes_new_from_str() {
    let key_str = "YELLOW SUBMARINE";
    let aes = AES128::new_from_str(key_str);
    assert_eq!(key_str.len(), 16);
    assert_eq!(aes.expanded_key[0], [b'Y', b'E', b'L', b'L']);
}

#[test]
fn test_ecb_encrypt_decrypt() {
    let key = "YELLOW SUBMARINE".as_bytes();
    let aes = AES128::new(&key.try_into().unwrap());

    let plaintext = b"Hello World!!!!!";
    let ciphertext = aes.encrypt(plaintext);
    let decrypted = aes.decrypt(&ciphertext);

    assert_eq!(plaintext, &decrypted[..]);
    assert_ne!(plaintext.to_vec(), ciphertext);
}

#[test]
fn test_ecb_multiple_blocks() {
    let key = AES128::generate_key();
    let aes = AES128::new(&key);

    let plaintext = b"This is a test message with 32by";
    let ciphertext = aes.encrypt(plaintext);
    let decrypted = aes.decrypt(&ciphertext);

    assert_eq!(plaintext, &decrypted[..]);
    assert_eq!(ciphertext.len(), 32);
}

#[test]
fn test_encrypt_block() {
    let key = "YELLOW SUBMARINE".as_bytes();
    let aes = AES128::new(&key.try_into().unwrap());

    let block = [0u8; 16];
    let encrypted = aes.encrypt_block(&block);
    let decrypted = aes.decrypt_block(&encrypted);

    assert_eq!(block, decrypted);
    assert_ne!(block, encrypted);
}

#[test]
fn test_cbc_encrypt_decrypt() {
    let key = AES128::generate_key();
    let aes = AES128::new(&key);

    let plaintext = b"Hello World! This is a test message for CBC mode encryption.";
    let ciphertext = aes.encrypt_cbc(plaintext);
    let decrypted = aes.decrypt_cbc(&ciphertext).unwrap();

    assert_eq!(plaintext, &decrypted[..]);
    assert!(ciphertext.len() > plaintext.len());
}

#[test]
fn test_cbc_with_padding() {
    let key = AES128::generate_key();
    let aes = AES128::new(&key);

    for size in 1..50 {
        let plaintext = vec![b'A'; size];
        let ciphertext = aes.encrypt_cbc(&plaintext);
        let decrypted = aes.decrypt_cbc(&ciphertext).unwrap();
        assert_eq!(plaintext, decrypted);
    }
}

#[test]
fn test_cbc_invalid_ciphertext() {
    let key = AES128::generate_key();
    let aes = AES128::new(&key);

    assert!(aes.decrypt_cbc(&[0u8; 15]).is_none());
    assert!(aes.decrypt_cbc(&[0u8; 20]).is_none());
}

#[test]
fn test_pkcs7_padding() {
    let data = b"Hello";
    let padded = pad_pkcs7(data, 16);
    assert_eq!(padded.len(), 16);
    assert_eq!(&padded[5..], &[11u8; 11]);

    let unpadded = unpad_pkcs7(&padded).unwrap();
    assert_eq!(unpadded, data);
}

#[test]
fn test_pkcs7_full_block() {
    let data = b"Exactly 16 bytes";
    let padded = pad_pkcs7(data, 16);
    assert_eq!(padded.len(), 32);
    assert_eq!(&padded[16..], &[16u8; 16]);

    let unpadded = unpad_pkcs7(&padded).unwrap();
    assert_eq!(unpadded, data);
}

#[test]
fn test_pkcs7_invalid_padding() {
    assert!(unpad_pkcs7(&[]).is_none());
    assert!(unpad_pkcs7(&[0u8]).is_none());
    assert!(unpad_pkcs7(&[17u8]).is_none());
    assert!(unpad_pkcs7(&[1u8, 2u8]).is_none());
}

#[test]
fn test_galois_multiplication() {
    assert_eq!(galois_multiplication(0x02, 0x01), 0x02);
    assert_eq!(galois_multiplication(0x02, 0x02), 0x04);
    assert_eq!(galois_multiplication(0x02, 0x80), 0x1b);
    assert_eq!(galois_multiplication(0x03, 0x01), 0x03);
}

#[test]
fn test_substitute() {
    assert_eq!(substitute(0x00, true), 0x63);
    assert_eq!(substitute(0x01, true), 0x7c);

    assert_eq!(substitute(0x63, false), 0x00);
    assert_eq!(substitute(0x7c, false), 0x01);

    for i in 0..256 {
        let byte = i as u8;
        let substituted = substitute(byte, true);
        let back = substitute(substituted, false);
        assert_eq!(byte, back);
    }
}

#[test]
fn test_rot_word() {
    let word = [0x01, 0x02, 0x03, 0x04];
    let rotated = rot_word(&word);
    assert_eq!(rotated, [0x02, 0x03, 0x04, 0x01]);
}

#[test]
fn test_xor_words() {
    let word1 = [0x01, 0x02, 0x03, 0x04];
    let word2 = [0x05, 0x06, 0x07, 0x08];
    let result = xor_words(&word1, &word2);
    assert_eq!(result, [0x04, 0x04, 0x04, 0x0c]);
}

#[test]
fn test_key_schedule() {
    let key = [0u8; 16];
    let expanded = key_schedule_aes128(&key);

    for i in 0..4 {
        assert_eq!(expanded[i], [0u8; 4]);
    }

    assert_eq!(expanded.len(), 44);
}

#[test]
fn test_aes_deterministic() {
    let key = "YELLOW SUBMARINE".as_bytes();
    let aes = AES128::new(&key.try_into().unwrap());

    let plaintext = b"Hello World!!!!!";
    let ciphertext1 = aes.encrypt(plaintext);
    let ciphertext2 = aes.encrypt(plaintext);

    assert_eq!(ciphertext1, ciphertext2);
}

#[test]
fn test_cbc_randomness() {
    let key = AES128::generate_key();
    let aes = AES128::new(&key);

    let plaintext = b"Hello World!";
    let ciphertext1 = aes.encrypt_cbc(plaintext);
    let ciphertext2 = aes.encrypt_cbc(plaintext);

    assert_ne!(ciphertext1, ciphertext2);

    assert_eq!(aes.decrypt_cbc(&ciphertext1).unwrap(), plaintext);
    assert_eq!(aes.decrypt_cbc(&ciphertext2).unwrap(), plaintext);
}

#[test]
fn test_empty_input_cbc() {
    let key = AES128::generate_key();
    let aes = AES128::new(&key);

    let plaintext = b"";
    let ciphertext = aes.encrypt_cbc(plaintext);
    let decrypted = aes.decrypt_cbc(&ciphertext).unwrap();

    assert_eq!(decrypted, plaintext);
    assert_eq!(ciphertext.len(), 32);
}

#[test]
fn test_mul_tables() {
    assert_eq!(generate_mul_table(2)[0x01], 0x02);
    assert_eq!(generate_mul_table(3)[0x01], 0x03);
    assert_eq!(generate_mul_table(9)[0x01], 0x09);
    assert_eq!(generate_mul_table(11)[0x01], 0x0b);
    assert_eq!(generate_mul_table(13)[0x01], 0x0d);
    assert_eq!(generate_mul_table(14)[0x01], 0x0e);
}

#[test]
fn test_large_data() {
    let key = AES128::generate_key();
    let aes = AES128::new(&key);

    let plaintext = vec![0x42; 1024];
    let ciphertext = aes.encrypt_cbc(&plaintext);
    let decrypted = aes.decrypt_cbc(&ciphertext).unwrap();

    assert_eq!(plaintext, decrypted);
}

#[test]
fn test_encrypt_decrypt() {
    let key = key16(b"Meow Meow Meow!");
    let aes = AES128::new(&key);
    let plaintext = [b'A'; 16];
    let ciphertext = encrypt_aes128(&aes, &plaintext);
    let decrypted = decrypt_aes128(&aes, &ciphertext);
    assert_eq!(plaintext.to_vec(), decrypted);
}

// The published AES-128 example vector: key 00..0f, block 00 11 .. ff.
#[test]
fn aes_known_answer() {
    let key: [u8; 16] = [
        0x00, 0x01, 0x02, 0x03, 0x04, 0x05, 0x06, 0x07, 0x08, 0x09, 0x0a, 0x0b, 0x0c, 0x0d, 0x0e,
        0x0f,
    ];
    let block: [u8; 16] = [
        0x00, 0x11, 0x22, 0x33, 0x44, 0x55, 0x66, 0x77, 0x88, 0x99, 0xaa, 0xbb, 0xcc, 0xdd, 0xee,
        0xff,
    ];
    let expected: [u8; 16] = [
        0x69, 0xc4, 0xe0, 0xd8, 0x6a, 0x7b, 0x04, 0x30, 0xd8, 0xcd, 0xb7, 0x80, 0x70, 0xb4, 0xc5,
        0x5a,
    ];
    let aes = AES128::new(&key);
    assert_eq!(aes.encrypt_block(&block), expected);
    assert_eq!(aes.decrypt_block(&expected), block);
    let last = aes.expanded_key[43];
    assert_eq!(last, [0x4d, 0x2b, 0x30, 0xc5]);
}

#[test]
fn cbc_with_fixed_iv_chains_blocks() {
    let aes = AES128::new(&key16(b"YELLOW SUBMARINE"));
    let iv = [7u8; 16];
    let out = aes.encrypt_cbc_with_iv(&[b'A'; 16], &iv);
    assert_eq!(out.len(), 48);
    assert_eq!(&out[..16], &iv);
    let mut first = [b'A'; 16];
    for b in first.iter_mut() {
        *b ^= 7;
    }
    assert_eq!(&out[16..32], &aes.encrypt_block(&first));
    assert_eq!(aes.decrypt_cbc(&out).unwrap(), vec![b'A'; 16]);
}

#[test]
fn padding_round_trip_all_lengths() {
    for n in 0..40usize {
        let data: Vec<u8> = (0..n as u8).collect();
        let padded = pad_pkcs7(&data, 16);
        assert_eq!(padded.len() % 16, 0);
        assert!(padded.len() > data.len());
        assert_eq!(unpad_pkcs7(&padded).unwrap(), data);
    }
}
