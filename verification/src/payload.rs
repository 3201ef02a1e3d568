//! The symmetric layer around the payload: compress, hash, pad, encrypt;
//! and back, with every hash checked before the data it covers is used.

use vstd::prelude::*;
use crate::aes::{
    decrypt_aes128, ecb_decrypt_spec, ecb_encrypt_spec, encrypt_aes128, expanded_key_of,
    lemma_unpad_pad, pad_pkcs7, padded_spec, unpad_pkcs7, unpadded_spec, AES128,
};
use crate::aes_laws::lemma_ecb_round_trip;
use crate::checksum::{blake3_digest, compute_blake3, validate_blake3};
use crate::compress::{
    compress, decompress_checked, lz4_compressed, lz4_decompressed, MAX_COMPRESSED_LEN,
    MAX_DECOMPRESSED_LEN,
};

verus! {

/// A payload ready for a container, with the hashes that guard it.
#[derive(Debug)]
pub struct PackedPayload {
    pub encrypted: Vec<u8>,
    pub decompressed_size: u64,
    pub original_hash: [u8; 32],
    pub compressed_hash: [u8; 32],
    pub aes_key_hash: [u8; 32],
}

/// Which check of the payload chain failed.
#[derive(Clone, Copy, Debug, PartialEq, Eq, Structural)]
pub enum PayloadError {
    /// The key does not have the recorded hash.
    KeyHash,
    /// The ciphertext is not whole blocks, or its padding is invalid.
    Decrypt,
    /// The compressed payload does not have the recorded hash.
    CompressedHash,
    /// The compressed payload does not decode within the recorded size.
    Decompress,
    /// The decoded payload does not have the recorded hash.
    OriginalHash,
}

/// The encrypted form of a payload under a key.
pub open spec fn encrypted_payload(original: Seq<u8>, key: Seq<u8>) -> Seq<u8> {
    ecb_encrypt_spec(expanded_key_of(key), padded_spec(lz4_compressed(original), 16))
}

/// The compressed payload that a ciphertext holds under a key, if its
/// length and padding are valid.
pub open spec fn decrypted_payload(encrypted: Seq<u8>, key: Seq<u8>) -> Option<Seq<u8>> {
    if encrypted.len() % 16 != 0 {
        None
    } else {
        unpadded_spec(ecb_decrypt_spec(expanded_key_of(key), encrypted))
    }
}

/// Decrypting what was encrypted gives the compressed payload back.
pub proof fn lemma_payload_decrypts(original: Seq<u8>, key: Seq<u8>)
    ensures
        decrypted_payload(encrypted_payload(original, key), key) == Some(lz4_compressed(original)),
{
    let ks = expanded_key_of(key);
    let compressed = lz4_compressed(original);
    let padded = padded_spec(compressed, 16);
    let l = compressed.len() as int;
    assert(padded.len() == l + (16 - l % 16));
    assert(padded.len() % 16 == 0);
    lemma_ecb_round_trip(ks, padded);
    lemma_unpad_pad(compressed);
}

/// What packing a payload under a key gives.
pub open spec fn packed_is(packed: &PackedPayload, original: Seq<u8>, key: Seq<u8>) -> bool {
    &&& packed.encrypted@ == encrypted_payload(original, key)
    &&& packed.decompressed_size == original.len()
    &&& packed.original_hash@ == blake3_digest(original)
    &&& packed.compressed_hash@ == blake3_digest(lz4_compressed(original))
    &&& packed.aes_key_hash@ == blake3_digest(key)
}

/// Compress the payload, hash every stage, and encrypt it under `key`;
/// `None` where the compressed payload is longer than the decoder accepts.
///
/// What is packed unpacks: under the same key the ciphertext decrypts to
/// the compressed payload, which decodes to the original, and every check
/// of `unpack_payload` passes.
pub fn pack_payload(original: &[u8], key: &[u8; 16]) -> (res: Option<PackedPayload>)
    requires
        original@.len() <= MAX_DECOMPRESSED_LEN,
    ensures
        res is None <==> lz4_compressed(original@).len() > MAX_COMPRESSED_LEN,
        res is Some ==> {
            let packed = res->0;
            &&& packed_is(&packed, original@, key@)
            &&& decrypted_payload(packed.encrypted@, key@) == Some(lz4_compressed(original@))
            &&& lz4_decompressed(lz4_compressed(original@), original@.len() as int) == Some(
                original@,
            )
            &&& unpack_error(
                packed.encrypted@,
                key@,
                packed.decompressed_size,
                packed.original_hash@,
                packed.compressed_hash@,
                packed.aes_key_hash@,
            ) is None
        },
{
    proof {
        lemma_payload_decrypts(original@, key@);
    }
    let compressed = compress(original);
    if compressed.len() > MAX_COMPRESSED_LEN {
        return None;
    }
    let original_hash = compute_blake3(original);
    let aes_key_hash = compute_blake3(key.as_slice());
    let compressed_hash = compute_blake3(compressed.as_slice());
    let aes = AES128::new(key);
    let padded = pad_pkcs7(compressed.as_slice(), 16);
    let encrypted = encrypt_aes128(&aes, padded.as_slice());
    Some(
        PackedPayload {
            encrypted,
            decompressed_size: original.len() as u64,
            original_hash,
            compressed_hash,
            aes_key_hash,
        },
    )
}

/// Decrypt the compressed payload; `None` for a ciphertext that is not
/// whole blocks or whose padding is invalid.
pub fn decrypt_payload(encrypted: &[u8], key: &[u8; 16]) -> (res: Option<Vec<u8>>)
    ensures
        match res {
            Some(v) => decrypted_payload(encrypted@, key@) == Some(v@),
            None => decrypted_payload(encrypted@, key@) is None,
        },
{
    if encrypted.len() % 16 != 0 {
        return None;
    }
    let aes = AES128::new(key);
    let padded = decrypt_aes128(&aes, encrypted);
    unpad_pkcs7(padded.as_slice())
}

/// Which error, if any, unpacking a payload gives; the first failing check decides.
pub open spec fn unpack_error(
    encrypted: Seq<u8>,
    key: Seq<u8>,
    decompressed_size: u64,
    original_hash: Seq<u8>,
    compressed_hash: Seq<u8>,
    aes_key_hash: Seq<u8>,
) -> Option<PayloadError> {
    if blake3_digest(key) != aes_key_hash {
        Some(PayloadError::KeyHash)
    } else if decrypted_payload(encrypted, key) is None {
        Some(PayloadError::Decrypt)
    } else {
        let compressed = decrypted_payload(encrypted, key)->0;
        if blake3_digest(compressed) != compressed_hash {
            Some(PayloadError::CompressedHash)
        } else if !(compressed.len() <= MAX_COMPRESSED_LEN && decompressed_size
            <= MAX_DECOMPRESSED_LEN && lz4_decompressed(compressed, decompressed_size as int)
            is Some) {
            Some(PayloadError::Decompress)
        } else if blake3_digest(lz4_decompressed(compressed, decompressed_size as int)->0)
            != original_hash {
            Some(PayloadError::OriginalHash)
        } else {
            None
        }
    }
}

/// Recover the payload: check the key, decrypt, check the compressed
/// payload, decompress, check the result. Nothing is returned unless
/// every check passes.
pub fn unpack_payload(
    encrypted: &[u8],
    key: &[u8; 16],
    decompressed_size: u64,
    original_hash: &[u8; 32],
    compressed_hash: &[u8; 32],
    aes_key_hash: &[u8; 32],
) -> (res: Result<Vec<u8>, PayloadError>)
    ensures
        match res {
            Ok(payload) => {
                &&& unpack_error(
                    encrypted@,
                    key@,
                    decompressed_size,
                    original_hash@,
                    compressed_hash@,
                    aes_key_hash@,
                ) is None
                &&& Some(payload@) == lz4_decompressed(
                    decrypted_payload(encrypted@, key@)->0,
                    decompressed_size as int,
                )
            },
            Err(e) => unpack_error(
                encrypted@,
                key@,
                decompressed_size,
                original_hash@,
                compressed_hash@,
                aes_key_hash@,
            ) == Some(e),
        },
{
    if !validate_blake3(key.as_slice(), aes_key_hash) {
        return Err(PayloadError::KeyHash);
    }
    let compressed = match decrypt_payload(encrypted, key) {
        Some(c) => c,
        None => {
            return Err(PayloadError::Decrypt);
        },
    };
    if !validate_blake3(compressed.as_slice(), compressed_hash) {
        return Err(PayloadError::CompressedHash);
    }
    if decompressed_size > MAX_DECOMPRESSED_LEN as u64 {
        return Err(PayloadError::Decompress);
    }
    let payload = match decompress_checked(compressed.as_slice(), decompressed_size as usize) {
        Some(p) => p,
        None => {
            return Err(PayloadError::Decompress);
        },
    };
    if !validate_blake3(payload.as_slice(), original_hash) {
        return Err(PayloadError::OriginalHash);
    }
    Ok(payload)
}

} // verus!
