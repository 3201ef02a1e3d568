//! The stub's run-time protocol as a state machine: parse, verify, decrypt,
//! and only then hand the payload over. Any failed step diverts, for good.

use vstd::prelude::*;
use crate::bits::{bits_to_bytes, bytes_of_bits};
use crate::checksum::{blake3_digest, validate_blake3};
use crate::compress::{
    decompress_checked, lz4_decompressed, MAX_COMPRESSED_LEN, MAX_DECOMPRESSED_LEN,
};
use crate::container::{
    container_error, parse_container, verify_whole_artifact, ContainerParts, METADATA_SIZE,
};
use crate::decrypt::{decrypt_error, decrypt_message, decrypted_bits};
use crate::lattice::NTRUVector;
use crate::payload::{decrypt_payload, decrypted_payload};
use crate::whitebox::WhiteData;

verus! {

/// Where the protocol stands.
#[derive(Clone, Copy, Debug, PartialEq, Eq, Structural)]
pub enum Stage {
    ReadSelf,
    VerifyWholeArtifact,
    ReadTrailer,
    LocateSections,
    DeserializeCiphertextAndTables,
    VerifyComponentChecksums,
    WhiteBoxDecryptKey,
    VerifyKeyChecksum,
    SymmetricDecrypt,
    VerifyCompressedChecksum,
    Decompress,
    VerifyOriginalChecksum,
    ReplaceProcessImage,
    /// The terminal failure state: the decoy runs instead of the payload.
    Diverted,
}

/// What the outside world reports to the machine.
#[derive(Debug)]
pub enum Event {
    /// The bytes of the running image.
    SelfImage(Vec<u8>),
    /// The ciphertext pair and the white-box data, deserialised.
    Deserialized(NTRUVector, NTRUVector, WhiteData),
    /// The environment check found nothing hostile.
    Clear,
    /// The environment check found a hostile environment.
    Hostile,
    /// Something outside the machine failed: a read, a deserialisation,
    /// the process replacement.
    Failed,
}

/// What the machine asks of the outside world next.
#[derive(Clone, Copy, Debug, PartialEq, Eq, Structural)]
pub enum Action {
    /// Read the running image and report it.
    ReadSelfImage,
    /// Consult the environment check and report `Clear` or `Hostile`.
    ConsultGate,
    /// Deserialise the ciphertext and white-box sections and report them.
    Deserialize,
    /// Replace the process image with the payload.
    ReplaceProcessImage,
    /// Run the decoy.
    Divert,
}

/// The protocol's state. Its fields change only through `step`, so what
/// `wf` says of a stage cannot be bypassed.
#[derive(Debug)]
pub struct Stub {
    stage: Stage,
    failed_at: Option<Stage>,
    image: Vec<u8>,
    parts: Option<ContainerParts>,
    a1: Option<NTRUVector>,
    a2: Option<NTRUVector>,
    white_data: Option<WhiteData>,
    key: [u8; 16],
    compressed: Vec<u8>,
    payload: Vec<u8>,
}

/// The place of a stage in the protocol.
pub open spec fn rank(stage: Stage) -> int {
    match stage {
        Stage::ReadSelf => 0,
        Stage::VerifyWholeArtifact => 1,
        Stage::ReadTrailer => 2,
        Stage::LocateSections => 3,
        Stage::DeserializeCiphertextAndTables => 4,
        Stage::VerifyComponentChecksums => 5,
        Stage::WhiteBoxDecryptKey => 6,
        Stage::VerifyKeyChecksum => 7,
        Stage::SymmetricDecrypt => 8,
        Stage::VerifyCompressedChecksum => 9,
        Stage::Decompress => 10,
        Stage::VerifyOriginalChecksum => 11,
        Stage::ReplaceProcessImage => 12,
        Stage::Diverted => 13,
    }
}

/// The stage after `stage`; the two terminal stages have none.
pub open spec fn successor(stage: Stage) -> Stage {
    match stage {
        Stage::ReadSelf => Stage::VerifyWholeArtifact,
        Stage::VerifyWholeArtifact => Stage::ReadTrailer,
        Stage::ReadTrailer => Stage::LocateSections,
        Stage::LocateSections => Stage::DeserializeCiphertextAndTables,
        Stage::DeserializeCiphertextAndTables => Stage::VerifyComponentChecksums,
        Stage::VerifyComponentChecksums => Stage::WhiteBoxDecryptKey,
        Stage::WhiteBoxDecryptKey => Stage::VerifyKeyChecksum,
        Stage::VerifyKeyChecksum => Stage::SymmetricDecrypt,
        Stage::SymmetricDecrypt => Stage::VerifyCompressedChecksum,
        Stage::VerifyCompressedChecksum => Stage::Decompress,
        Stage::Decompress => Stage::VerifyOriginalChecksum,
        Stage::VerifyOriginalChecksum => Stage::ReplaceProcessImage,
        Stage::ReplaceProcessImage => Stage::Diverted,
        Stage::Diverted => Stage::Diverted,
    }
}

/// What the machine asks for on entering `stage`.
pub open spec fn action_for(stage: Stage) -> Action {
    match stage {
        Stage::ReadSelf => Action::ReadSelfImage,
        Stage::DeserializeCiphertextAndTables => Action::Deserialize,
        Stage::ReplaceProcessImage => Action::ReplaceProcessImage,
        Stage::Diverted => Action::Divert,
        _ => Action::ConsultGate,
    }
}

/// The final hash of `data` matches the bytes before it.
pub open spec fn intact(data: Seq<u8>) -> bool {
    data.len() >= 32 && blake3_digest(data.subrange(0, data.len() - 32)) == data.subrange(
        data.len() - 32,
        data.len() as int,
    )
}

impl Stub {
    /// The current stage.
    pub closed spec fn stage_of(&self) -> Stage {
        self.stage
    }

    /// The stage at which the machine diverted, once it has.
    pub closed spec fn failed_stage_of(&self) -> Option<Stage> {
        self.failed_at
    }

    /// The image that was read.
    pub closed spec fn image_of(&self) -> Seq<u8> {
        self.image@
    }

    /// The sections located in the image.
    pub closed spec fn parts_of(&self) -> Option<ContainerParts> {
        self.parts
    }

    /// The first half of the ciphertext.
    pub closed spec fn a1_of(&self) -> Option<NTRUVector> {
        self.a1
    }

    /// The second half of the ciphertext.
    pub closed spec fn a2_of(&self) -> Option<NTRUVector> {
        self.a2
    }

    /// The white-box data.
    pub closed spec fn white_data_of(&self) -> Option<WhiteData> {
        self.white_data
    }

    /// The recovered symmetric key.
    pub closed spec fn key_of(&self) -> Seq<u8> {
        self.key@
    }

    /// The decrypted, still compressed payload.
    pub closed spec fn compressed_of(&self) -> Seq<u8> {
        self.compressed@
    }

    /// The payload.
    pub closed spec fn payload_of(&self) -> Seq<u8> {
        self.payload@
    }

    /// The current stage.
    pub fn stage(&self) -> (stage: Stage)
        ensures
            stage == self.stage_of(),
    {
        self.stage
    }

    /// The stage at which the machine diverted, once it has.
    pub fn failed_at(&self) -> (stage: Option<Stage>)
        ensures
            stage == self.failed_stage_of(),
    {
        self.failed_at
    }

    /// The sections located in the image, once they are.
    pub fn parts(&self) -> (parts: &Option<ContainerParts>)
        ensures
            *parts == self.parts_of(),
    {
        &self.parts
    }

    /// The recovered symmetric key.
    pub fn key(&self) -> (key: [u8; 16])
        ensures
            key@ == self.key_of(),
    {
        self.key
    }

    /// The payload: empty until it has been decoded.
    pub fn payload(&self) -> (payload: &Vec<u8>)
        ensures
            payload@ == self.payload_of(),
    {
        &self.payload
    }

    /// The white-box decryption of the held ciphertext passes every check
    /// and yields the held key.
    pub open spec fn key_recovered(&self) -> bool {
        let a1 = self.a1_of()->0;
        let a2 = self.a2_of()->0;
        let w = self.white_data_of()->0;
        &&& a1.degree >= 128
        &&& decrypt_error(&w, &a1, &a2, a1.degree, a1.modulus) is None
        &&& self.key_of() == bytes_of_bits(
            decrypted_bits(&w, a1.vector@, a2.vector@, a1.modulus as int),
            16,
        )
    }

    /// The payload decodes from the held compressed bytes.
    pub open spec fn payload_decoded(&self) -> bool {
        let size = self.parts_of()->0.decompressed_size;
        &&& self.compressed_of().len() <= MAX_COMPRESSED_LEN
        &&& size <= MAX_DECOMPRESSED_LEN
        &&& lz4_decompressed(self.compressed_of(), size as int) == Some(self.payload_of())
    }

    /// What has been established by the time each stage is reached. In
    /// particular, at `ReplaceProcessImage` every check of the chain has passed.
    pub open spec fn wf(&self) -> bool {
        let r = rank(self.stage_of());
        &&& (2 <= r <= 12 ==> intact(self.image_of()))
        &&& (3 <= r <= 12 ==> self.image_of().len() >= METADATA_SIZE)
        &&& (4 <= r <= 12 ==> self.parts_of() is Some && self.parts_of()->0.bytes() == self.image_of())
        &&& (5 <= r <= 12 ==> self.a1_of() is Some && self.a2_of() is Some && self.white_data_of() is Some)
        &&& (6 <= r <= 12 ==> self.a1_of()->0.checksum_ok() && self.a2_of()->0.checksum_ok()
            && self.white_data_of()->0.checksums_ok() && self.white_data_of()->0.data_checksum_ok())
        &&& (7 <= r <= 12 ==> self.key_recovered())
        &&& (8 <= r <= 12 ==> blake3_digest(self.key_of()) == self.parts_of()->0.aes_key_hash@)
        &&& (9 <= r <= 12 ==> decrypted_payload(self.parts_of()->0.encrypted_payload@, self.key_of())
            == Some(self.compressed_of()))
        &&& (10 <= r <= 12 ==> blake3_digest(self.compressed_of()) == self.parts_of()->0.compressed_hash@)
        &&& (11 <= r <= 12 ==> self.payload_decoded())
        &&& (r == 12 ==> blake3_digest(self.payload_of()) == self.parts_of()->0.original_hash@)
        &&& (r == 13 ==> self.failed_stage_of() is Some)
    }

    /// What the current stage verifies once the environment is found clear.
    pub open spec fn stage_check(&self) -> bool {
        match self.stage_of() {
            Stage::VerifyWholeArtifact => intact(self.image_of()),
            Stage::ReadTrailer => self.image_of().len() >= METADATA_SIZE,
            Stage::LocateSections => container_error(self.image_of()) is None,
            Stage::VerifyComponentChecksums => self.a1_of()->0.checksum_ok() && self.a2_of()->0.checksum_ok()
                && self.white_data_of()->0.checksums_ok() && self.white_data_of()->0.data_checksum_ok(),
            Stage::WhiteBoxDecryptKey => self.a1_of()->0.degree >= 128 && decrypt_error(
                &self.white_data_of()->0,
                &self.a1_of()->0,
                &self.a2_of()->0,
                self.a1_of()->0.degree,
                self.a1_of()->0.modulus,
            ) is None,
            Stage::VerifyKeyChecksum => blake3_digest(self.key_of()) == self.parts_of()->0.aes_key_hash@,
            Stage::SymmetricDecrypt => decrypted_payload(
                self.parts_of()->0.encrypted_payload@,
                self.key_of(),
            ) is Some,
            Stage::VerifyCompressedChecksum => blake3_digest(self.compressed_of())
                == self.parts_of()->0.compressed_hash@,
            Stage::Decompress => self.compressed_of().len() <= MAX_COMPRESSED_LEN
                && self.parts_of()->0.decompressed_size <= MAX_DECOMPRESSED_LEN && lz4_decompressed(
                self.compressed_of(),
                self.parts_of()->0.decompressed_size as int,
            ) is Some,
            Stage::VerifyOriginalChecksum => blake3_digest(self.payload_of())
                == self.parts_of()->0.original_hash@,
            _ => false,
        }
    }

    /// Whether `event` moves the machine to the next stage; anything else diverts it.
    pub open spec fn advances(&self, event: Event) -> bool {
        match self.stage_of() {
            Stage::ReadSelf => event is SelfImage,
            Stage::DeserializeCiphertextAndTables => event is Deserialized,
            Stage::ReplaceProcessImage => false,
            Stage::Diverted => false,
            _ => event is Clear && self.stage_check(),
        }
    }

    /// What a step from `before` on `event` takes in and what it keeps.
    /// The image is the one reported at `ReadSelf`; the ciphertext and
    /// the white-box data are those reported at
    /// `DeserializeCiphertextAndTables`; the parts, the key, the
    /// compressed and the decoded payload change only in an advancing
    /// step of the stage that sets them, and nothing else changes at all.
    pub open spec fn follows(&self, before: Stub, event: Event) -> bool {
        let stage = before.stage_of();
        let moved = before.advances(event);
        &&& self.image_of() == (if stage == Stage::ReadSelf && event is SelfImage {
            event->SelfImage_0@
        } else {
            before.image_of()
        })
        &&& if stage == Stage::DeserializeCiphertextAndTables && event is Deserialized {
            &&& self.a1_of() == Some(event->Deserialized_0)
            &&& self.a2_of() == Some(event->Deserialized_1)
            &&& self.white_data_of() == Some(event->Deserialized_2)
        } else {
            &&& self.a1_of() == before.a1_of()
            &&& self.a2_of() == before.a2_of()
            &&& self.white_data_of() == before.white_data_of()
        }
        &&& (!(moved && stage == Stage::LocateSections) ==> self.parts_of() == before.parts_of())
        &&& (!(moved && stage == Stage::WhiteBoxDecryptKey) ==> self.key_of() == before.key_of())
        &&& (!(moved && stage == Stage::SymmetricDecrypt) ==> self.compressed_of()
            == before.compressed_of())
        &&& (!(moved && stage == Stage::Decompress) ==> self.payload_of() == before.payload_of())
    }

    /// A machine about to read its own image.
    pub fn new() -> (stub: Stub)
        ensures
            stub.stage_of() == Stage::ReadSelf,
            stub.wf(),
    {
        Stub {
            stage: Stage::ReadSelf,
            failed_at: None,
            image: Vec::new(),
            parts: None,
            a1: None,
            a2: None,
            white_data: None,
            key: [0u8; 16],
            compressed: Vec::new(),
            payload: Vec::new(),
        }
    }

    /// The first action: what the machine asks for in its current stage.
    pub fn pending(&self) -> (action: Action)
        ensures
            action == action_for(self.stage_of()),
    {
        match self.stage {
            Stage::ReadSelf => Action::ReadSelfImage,
            Stage::DeserializeCiphertextAndTables => Action::Deserialize,
            Stage::ReplaceProcessImage => Action::ReplaceProcessImage,
            Stage::Diverted => Action::Divert,
            _ => Action::ConsultGate,
        }
    }

    /// Locate the sections of the image.
    fn locate(&mut self) -> (ok: bool)
        requires
            old(self).stage == Stage::LocateSections,
        ensures
            ok == old(self).stage_check(),
            ok ==> final(self).parts is Some && final(self).parts->0.bytes() == final(self).image@,
            !ok ==> final(self).parts == old(self).parts,
            final(self).stage == old(self).stage,
            final(self).failed_at == old(self).failed_at,
            final(self).image == old(self).image,
            final(self).a1 == old(self).a1,
            final(self).a2 == old(self).a2,
            final(self).white_data == old(self).white_data,
            final(self).key == old(self).key,
            final(self).compressed == old(self).compressed,
            final(self).payload == old(self).payload,
    {
        match parse_container(self.image.as_slice()) {
            Ok(parts) => {
                self.parts = Some(parts);
                true
            },
            Err(_) => false,
        }
    }

    /// Verify the checksums of the ciphertext and of the white-box data.
    fn components_ok(&self) -> (ok: bool)
        requires
            self.stage == Stage::VerifyComponentChecksums,
            self.a1 is Some && self.a2 is Some && self.white_data is Some,
        ensures
            ok == self.stage_check(),
    {
        let a1_ok = match &self.a1 {
            Some(v) => v.verify_checksum(),
            None => false,
        };
        let a2_ok = match &self.a2 {
            Some(v) => v.verify_checksum(),
            None => false,
        };
        let w_ok = match &self.white_data {
            Some(w) => {
                let b = crate::checksum::compute_crt_checksum(w.beta.as_slice());
                let bp = crate::checksum::compute_crt_checksum(w.beta_p.as_slice());
                let m = crate::checksum::compute_crt_checksum(w.mask.as_slice());
                crate::checksum::digest_eq(&b, &w.beta_checksum) && crate::checksum::digest_eq(
                    &bp,
                    &w.beta_p_checksum,
                ) && crate::checksum::digest_eq(&m, &w.mask_checksum) && w.verify_data_checksum()
            },
            None => false,
        };
        a1_ok && a2_ok && w_ok
    }

    /// Recover the symmetric key through the white-box decryption.
    fn recover_key(&mut self) -> (ok: bool)
        requires
            old(self).stage == Stage::WhiteBoxDecryptKey,
            old(self).a1 is Some && old(self).a2 is Some && old(self).white_data is Some,
        ensures
            ok == old(self).stage_check(),
            ok ==> final(self).key_recovered(),
            !ok ==> final(self).key == old(self).key,
            final(self).stage == old(self).stage,
            final(self).failed_at == old(self).failed_at,
            final(self).image == old(self).image,
            final(self).parts == old(self).parts,
            final(self).a1 == old(self).a1,
            final(self).a2 == old(self).a2,
            final(self).white_data == old(self).white_data,
            final(self).compressed == old(self).compressed,
            final(self).payload == old(self).payload,
    {
        let bits = match (&self.a1, &self.a2, &self.white_data) {
            (Some(a1), Some(a2), Some(w)) => {
                if a1.degree < 128 {
                    return false;
                }
                match decrypt_message(w, a1, a2, a1.degree, a1.modulus) {
                    Ok(bits) => bits,
                    Err(_) => {
                        return false;
                    },
                }
            },
            _ => {
                return false;
            },
        };
        let bytes = bits_to_bytes(bits.as_slice());
        let mut key = [0u8; 16];
        let mut i: usize = 0;
        while i < 16
            invariant
                i <= 16,
                bytes@.len() >= 16,
                forall|k: int| 0 <= k < i ==> key[k] == bytes@[k],
            decreases 16 - i,
        {
            key[i] = bytes[i];
            i += 1;
        }
        assert(key@ =~= bytes_of_bits(bits@, 16));
        self.key = key;
        true
    }

    /// Decrypt the payload with the recovered key.
    fn decrypt(&mut self) -> (ok: bool)
        requires
            old(self).stage == Stage::SymmetricDecrypt,
            old(self).parts is Some,
        ensures
            ok == old(self).stage_check(),
            ok ==> decrypted_payload(
                final(self).parts->0.encrypted_payload@,
                final(self).key@,
            ) == Some(final(self).compressed@),
            !ok ==> final(self).compressed == old(self).compressed,
            final(self).stage == old(self).stage,
            final(self).failed_at == old(self).failed_at,
            final(self).image == old(self).image,
            final(self).parts == old(self).parts,
            final(self).a1 == old(self).a1,
            final(self).a2 == old(self).a2,
            final(self).white_data == old(self).white_data,
            final(self).key == old(self).key,
            final(self).payload == old(self).payload,
    {
        let res = match &self.parts {
            Some(parts) => decrypt_payload(parts.encrypted_payload.as_slice(), &self.key),
            None => None,
        };
        match res {
            Some(compressed) => {
                self.compressed = compressed;
                true
            },
            None => false,
        }
    }

    /// Decompress the payload.
    fn decode(&mut self) -> (ok: bool)
        requires
            old(self).stage == Stage::Decompress,
            old(self).parts is Some,
        ensures
            ok == old(self).stage_check(),
            ok ==> final(self).payload_decoded(),
            !ok ==> final(self).payload == old(self).payload,
            final(self).stage == old(self).stage,
            final(self).failed_at == old(self).failed_at,
            final(self).image == old(self).image,
            final(self).parts == old(self).parts,
            final(self).a1 == old(self).a1,
            final(self).a2 == old(self).a2,
            final(self).white_data == old(self).white_data,
            final(self).key == old(self).key,
            final(self).compressed == old(self).compressed,
    {
        let size = match &self.parts {
            Some(parts) => parts.decompressed_size,
            None => 0,
        };
        if size > MAX_DECOMPRESSED_LEN as u64 {
            return false;
        }
        match decompress_checked(self.compressed.as_slice(), size as usize) {
            Some(payload) => {
                self.payload = payload;
                true
            },
            None => false,
        }
    }

    /// The hash recorded in the container for the given stage's data.
    fn hash_matches(&self) -> (ok: bool)
        requires
            self.parts is Some,
            self.stage == Stage::VerifyKeyChecksum || self.stage == Stage::VerifyCompressedChecksum
                || self.stage == Stage::VerifyOriginalChecksum,
        ensures
            ok == self.stage_check(),
    {
        match &self.parts {
            Some(parts) => match self.stage {
                Stage::VerifyKeyChecksum => validate_blake3(self.key.as_slice(), &parts.aes_key_hash),
                Stage::VerifyCompressedChecksum => validate_blake3(
                    self.compressed.as_slice(),
                    &parts.compressed_hash,
                ),
                _ => validate_blake3(self.payload.as_slice(), &parts.original_hash),
            },
            None => false,
        }
    }

    /// Verify what the current stage verifies, once the environment is found clear.
    fn check(&mut self) -> (ok: bool)
        requires
            old(self).wf(),
            1 <= rank(old(self).stage) <= 11,
            old(self).stage != Stage::DeserializeCiphertextAndTables,
        ensures
            ok == old(self).stage_check(),
            final(self).stage == old(self).stage,
            final(self).failed_at == old(self).failed_at,
            ok ==> (Stub { stage: successor(old(self).stage), ..*final(self) }).wf(),
            final(self).image == old(self).image,
            final(self).a1 == old(self).a1,
            final(self).a2 == old(self).a2,
            final(self).white_data == old(self).white_data,
            !(ok && old(self).stage == Stage::LocateSections) ==> final(self).parts == old(self).parts,
            !(ok && old(self).stage == Stage::WhiteBoxDecryptKey) ==> final(self).key == old(self).key,
            !(ok && old(self).stage == Stage::SymmetricDecrypt) ==> final(self).compressed == old(
                self,
            ).compressed,
            !(ok && old(self).stage == Stage::Decompress) ==> final(self).payload == old(self).payload,
    {
        match self.stage {
            Stage::VerifyWholeArtifact => self.image.len() >= 32 && verify_whole_artifact(
                self.image.as_slice(),
            ),
            Stage::ReadTrailer => self.image.len() >= METADATA_SIZE,
            Stage::LocateSections => self.locate(),
            Stage::VerifyComponentChecksums => self.components_ok(),
            Stage::WhiteBoxDecryptKey => self.recover_key(),
            Stage::SymmetricDecrypt => self.decrypt(),
            Stage::Decompress => self.decode(),
            _ => self.hash_matches(),
        }
    }

    /// One transition: take the event the last action asked for, make the
    /// check of the current stage, and move on or divert.
    ///
    /// The machine moves to the next stage exactly when the event is the
    /// expected one and the stage's check passes. Every other event,
    /// a hostile gate among them, diverts; a diverted machine stays diverted.
    /// It verifies the very image it was given, and the ciphertext and
    /// tables it was given: see `follows`.
    pub fn step(&mut self, event: Event) -> (action: Action)
        requires
            old(self).wf(),
        ensures
            final(self).wf(),
            old(self).advances(event) ==> final(self).stage_of() == successor(old(self).stage_of()),
            !old(self).advances(event) ==> final(self).stage_of() == Stage::Diverted,
            final(self).stage_of() == Stage::Diverted && old(self).stage_of() != Stage::Diverted
                ==> final(self).failed_stage_of() == Some(old(self).stage_of()),
            old(self).stage_of() == Stage::Diverted ==> final(self).failed_stage_of() == old(
                self,
            ).failed_stage_of(),
            action == action_for(final(self).stage_of()),
            final(self).follows(*old(self), event),
    {
        let stage = self.stage;
        let advanced = match stage {
            Stage::ReadSelf => match event {
                Event::SelfImage(image) => {
                    self.image = image;
                    true
                },
                _ => false,
            },
            Stage::DeserializeCiphertextAndTables => match event {
                Event::Deserialized(a1, a2, white_data) => {
                    self.a1 = Some(a1);
                    self.a2 = Some(a2);
                    self.white_data = Some(white_data);
                    true
                },
                _ => false,
            },
            Stage::ReplaceProcessImage => false,
            Stage::Diverted => false,
            _ => match event {
                Event::Clear => self.check(),
                _ => false,
            },
        };
        if advanced {
            self.stage = match stage {
                Stage::ReadSelf => Stage::VerifyWholeArtifact,
                Stage::VerifyWholeArtifact => Stage::ReadTrailer,
                Stage::ReadTrailer => Stage::LocateSections,
                Stage::LocateSections => Stage::DeserializeCiphertextAndTables,
                Stage::DeserializeCiphertextAndTables => Stage::VerifyComponentChecksums,
                Stage::VerifyComponentChecksums => Stage::WhiteBoxDecryptKey,
                Stage::WhiteBoxDecryptKey => Stage::VerifyKeyChecksum,
                Stage::VerifyKeyChecksum => Stage::SymmetricDecrypt,
                Stage::SymmetricDecrypt => Stage::VerifyCompressedChecksum,
                Stage::VerifyCompressedChecksum => Stage::Decompress,
                Stage::Decompress => Stage::VerifyOriginalChecksum,
                Stage::VerifyOriginalChecksum => Stage::ReplaceProcessImage,
                _ => Stage::Diverted,
            };
        } else {
            if stage != Stage::Diverted {
                self.failed_at = Some(stage);
            }
            self.stage = Stage::Diverted;
        }
        self.pending()
    }
}

/// Fail-closed: the payload is handed over only after the whole chain of
/// checks has passed on the image that was read.
pub proof fn lemma_release_is_verified(stub: Stub)
    requires
        stub.wf(),
        stub.stage_of() == Stage::ReplaceProcessImage,
    ensures
        intact(stub.image_of()),
        stub.parts_of()->0.bytes() == stub.image_of(),
        stub.a1_of()->0.checksum_ok() && stub.a2_of()->0.checksum_ok()
            && stub.white_data_of()->0.checksums_ok() && stub.white_data_of()->0.data_checksum_ok(),
        stub.key_recovered(),
        blake3_digest(stub.key_of()) == stub.parts_of()->0.aes_key_hash@,
        blake3_digest(stub.compressed_of()) == stub.parts_of()->0.compressed_hash@,
        blake3_digest(stub.payload_of()) == stub.parts_of()->0.original_hash@,
        decrypted_payload(stub.parts_of()->0.encrypted_payload@, stub.key_of()) == Some(
            stub.compressed_of(),
        ),
        lz4_decompressed(
            stub.compressed_of(),
            stub.parts_of()->0.decompressed_size as int,
        ) == Some(stub.payload_of()),
{
}

/// A hostile environment, or any failure outside the machine, diverts
/// from every stage; and nothing moves a diverted machine.
pub proof fn lemma_fail_closed(stub: Stub, event: Event)
    ensures
        event is Hostile || event is Failed ==> !stub.advances(event),
        stub.stage_of() == Stage::Diverted ==> !stub.advances(event),
        stub.stage_of() == Stage::ReplaceProcessImage ==> !stub.advances(event),
{
}

/// The seal decides at the whole-artifact stage. A machine that holds a
/// sealed image moves on when the environment is clear; one that holds a
/// sealed image with a single byte changed diverts, always where the
/// byte lies in the final hash, and elsewhere unless the changed bytes
/// have the digest of the first.
pub proof fn lemma_changed_image_diverts(stub: Stub, sealed: Seq<u8>, at: int, byte: u8)
    requires
        stub.stage_of() == Stage::VerifyWholeArtifact,
        intact(sealed),
        0 <= at < sealed.len(),
        byte != sealed[at],
        at < sealed.len() - 32 ==> blake3_digest(sealed.update(at, byte).subrange(0, sealed.len() - 32))
            != blake3_digest(sealed.subrange(0, sealed.len() - 32)),
    ensures
        stub.image_of() == sealed ==> stub.advances(Event::Clear),
        stub.image_of() == sealed.update(at, byte) ==> !stub.advances(Event::Clear),
{
    let changed = sealed.update(at, byte);
    let split = sealed.len() - 32;
    let (seal, new_seal) = (
        sealed.subrange(split, sealed.len() as int),
        changed.subrange(split, sealed.len() as int),
    );
    if at < split {
        assert(new_seal =~= seal);
    } else {
        assert(changed.subrange(0, split) =~= sealed.subrange(0, split));
        assert(new_seal[at - split] == byte);
        assert(seal[at - split] == sealed[at]);
    }
    assert(!intact(changed));
}

} // verus!
