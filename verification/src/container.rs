//! The packed container: stub image, encrypted payload, ciphertext, white-box
//! data, then the trailer of sizes and hashes that locates all of them.

use vstd::prelude::*;
use crate::checksum::{
    blake3_digest, compute_blake3, digest_eq, lemma_u64_le_round_trip, push_u64_le, read_u64_le,
    u64_from_le_bytes, u64_le_bytes,
};

verus! {

/// Bytes of the whole trailer: five sizes of eight bytes, three content
/// hashes and the final hash of thirty-two bytes each.
pub const METADATA_SIZE: usize = 168;

/// What a container is made of.
#[derive(Debug)]
pub struct ContainerParts {
    pub stub: Vec<u8>,
    pub encrypted_payload: Vec<u8>,
    pub serialized_a1: Vec<u8>,
    pub serialized_a2: Vec<u8>,
    pub serialized_white_data: Vec<u8>,
    pub decompressed_size: u64,
    pub original_hash: [u8; 32],
    pub compressed_hash: [u8; 32],
    pub aes_key_hash: [u8; 32],
}

/// Why a byte string is no container.
#[derive(Clone, Copy, Debug, PartialEq, Eq, Structural)]
pub enum ContainerError {
    /// Shorter than a trailer.
    Truncated,
    /// The final hash does not match the bytes before it.
    WholeArtifactHash,
    /// The sizes in the trailer add up to more than there is.
    BadTrailer,
}

/// Whether a byte string is a file in the executable and linkable format.
pub fn validate_elf(data: &[u8]) -> (ok: bool)
    ensures
        ok == (data@.len() >= 4 && data@[0] == 0x7f && data@[1] == 0x45 && data@[2] == 0x4c
            && data@[3] == 0x46),
{
    data.len() >= 4 && data[0] == 0x7f && data[1] == 0x45 && data[2] == 0x4c && data[3] == 0x46
}

/// The five data sections, one after the other.
pub open spec fn sections_of(
    stub: Seq<u8>,
    enc: Seq<u8>,
    a1: Seq<u8>,
    a2: Seq<u8>,
    wd: Seq<u8>,
) -> Seq<u8> {
    stub + enc + a1 + a2 + wd
}

/// The five size fields: forty bytes.
pub open spec fn sizes_of(enc: u64, a1: u64, a2: u64, wd: u64, decompressed: u64) -> Seq<u8> {
    u64_le_bytes(enc) + u64_le_bytes(a1) + u64_le_bytes(a2) + u64_le_bytes(wd) + u64_le_bytes(
        decompressed,
    )
}

/// The container without its final hash: sections, sizes, content hashes.
pub open spec fn layout(
    stub: Seq<u8>,
    enc: Seq<u8>,
    a1: Seq<u8>,
    a2: Seq<u8>,
    wd: Seq<u8>,
    decompressed_size: u64,
    original_hash: Seq<u8>,
    compressed_hash: Seq<u8>,
    key_hash: Seq<u8>,
) -> Seq<u8> {
    sections_of(stub, enc, a1, a2, wd) + sizes_of(
        enc.len() as u64,
        a1.len() as u64,
        a2.len() as u64,
        wd.len() as u64,
        decompressed_size,
    ) + (original_hash + compressed_hash + key_hash)
}

impl ContainerParts {
    /// Everything the final hash covers.
    pub open spec fn body(&self) -> Seq<u8> {
        layout(
            self.stub@,
            self.encrypted_payload@,
            self.serialized_a1@,
            self.serialized_a2@,
            self.serialized_white_data@,
            self.decompressed_size,
            self.original_hash@,
            self.compressed_hash@,
            self.aes_key_hash@,
        )
    }

    /// The container: the body, then the hash of the body.
    pub open spec fn bytes(&self) -> Seq<u8> {
        self.body() + blake3_digest(self.body())
    }
}

/// Field `i` of the size trailer of `data`.
pub open spec fn size_field(data: Seq<u8>, i: int) -> int {
    u64_from_le_bytes(
        data.subrange(data.len() - METADATA_SIZE + 8 * i, data.len() - METADATA_SIZE + 8 * i + 8),
    )
}

/// Which error, if any, parsing `data` gives.
pub open spec fn container_error(data: Seq<u8>) -> Option<ContainerError> {
    if data.len() < METADATA_SIZE {
        Some(ContainerError::Truncated)
    } else if blake3_digest(data.subrange(0, data.len() - 32)) != data.subrange(
        data.len() - 32,
        data.len() as int,
    ) {
        Some(ContainerError::WholeArtifactHash)
    } else if size_field(data, 0) + size_field(data, 1) + size_field(data, 2) + size_field(data, 3)
        > data.len() - METADATA_SIZE {
        Some(ContainerError::BadTrailer)
    } else {
        None
    }
}

/// Reading back the bytes of an integer gives the same bytes.
pub proof fn lemma_u64_le_inverse(b: Seq<u8>)
    requires
        b.len() == 8,
    ensures
        0 <= u64_from_le_bytes(b) <= u64::MAX,
        u64_le_bytes(u64_from_le_bytes(b) as u64) == b,
{
    reveal(u64_le_bytes);
    reveal(u64_from_le_bytes);
    let x = u64_from_le_bytes(b);
    let (b0, b1, b2, b3, b4, b5, b6, b7) = (
        b[0] as int,
        b[1] as int,
        b[2] as int,
        b[3] as int,
        b[4] as int,
        b[5] as int,
        b[6] as int,
        b[7] as int,
    );
    let t7 = b7;
    let t6 = b6 + 0x100 * t7;
    let t5 = b5 + 0x100 * t6;
    let t4 = b4 + 0x100 * t5;
    let t3 = b3 + 0x100 * t4;
    let t2 = b2 + 0x100 * t3;
    let t1 = b1 + 0x100 * t2;
    let t0 = b0 + 0x100 * t1;
    assert(x == t0);
    assert(t1 == x / 0x100 && b0 == x % 256);
    assert(t2 == t1 / 0x100 && b1 == t1 % 256);
    assert(t3 == t2 / 0x100 && b2 == t2 % 256);
    assert(t4 == t3 / 0x100 && b3 == t3 % 256);
    assert(t5 == t4 / 0x100 && b4 == t4 % 256);
    assert(t6 == t5 / 0x100 && b5 == t5 % 256);
    assert(t7 == t6 / 0x100 && b6 == t6 % 256);
    assert(t2 == x / 0x1_0000);
    assert(t3 == x / 0x100_0000);
    assert(t4 == x / 0x1_0000_0000);
    assert(t5 == x / 0x100_0000_0000);
    assert(t6 == x / 0x1_0000_0000_0000);
    assert(t7 == x / 0x100_0000_0000_0000);
    assert(u64_le_bytes(x as u64) =~= b);
}

/// Append all of `src` to `out`.
pub fn append(out: &mut Vec<u8>, src: &[u8])
    ensures
        final(out)@ == old(out)@ + src@,
{
    let mut i: usize = 0;
    while i < src.len()
        invariant
            i <= src.len(),
            out@ == old(out)@ + src@.subrange(0, i as int),
        decreases src.len() - i,
    {
        out.push(src[i]);
        assert(out@ =~= old(out)@ + src@.subrange(0, i + 1));
        i += 1;
    }
    assert(src@.subrange(0, src@.len() as int) =~= src@);
}

/// A copy of `data[from..to]`.
pub fn copy_range(data: &[u8], from: usize, to: usize) -> (out: Vec<u8>)
    requires
        from <= to <= data@.len(),
    ensures
        out@ == data@.subrange(from as int, to as int),
{
    let mut out: Vec<u8> = Vec::new();
    let mut i: usize = from;
    while i < to
        invariant
            from <= i <= to,
            to <= data@.len(),
            out@ == data@.subrange(from as int, i as int),
        decreases to - i,
    {
        out.push(data[i]);
        assert(out@ =~= data@.subrange(from as int, i + 1));
        i += 1;
    }
    out
}

/// The thirty-two bytes of `data` from `at`.
pub fn hash_at(data: &[u8], at: usize) -> (hash: [u8; 32])
    requires
        at + 32 <= data@.len(),
    ensures
        hash@ == data@.subrange(at as int, at + 32),
{
    let mut hash = [0u8; 32];
    let mut i: usize = 0;
    let n = data.len();
    while i < 32
        invariant
            i <= 32,
            at + 32 <= data@.len(),
            data@.len() <= usize::MAX,
            forall|k: int| 0 <= k < i ==> hash[k] == data@[at + k],
        decreases 32 - i,
    {
        hash[i] = data[at + i];
        i += 1;
    }
    assert(hash@ =~= data@.subrange(at as int, at + 32));
    hash
}

/// Serialise a container: every section, the sizes, the content hashes,
/// and last the hash of everything before it.
pub fn build_container(parts: &ContainerParts) -> (out: Vec<u8>)
    ensures
        out@ == parts.bytes(),
{
    let mut out: Vec<u8> = Vec::new();
    append(&mut out, parts.stub.as_slice());
    append(&mut out, parts.encrypted_payload.as_slice());
    append(&mut out, parts.serialized_a1.as_slice());
    append(&mut out, parts.serialized_a2.as_slice());
    append(&mut out, parts.serialized_white_data.as_slice());
    push_u64_le(&mut out, parts.encrypted_payload.len() as u64);
    push_u64_le(&mut out, parts.serialized_a1.len() as u64);
    push_u64_le(&mut out, parts.serialized_a2.len() as u64);
    push_u64_le(&mut out, parts.serialized_white_data.len() as u64);
    push_u64_le(&mut out, parts.decompressed_size);
    append(&mut out, parts.original_hash.as_slice());
    append(&mut out, parts.compressed_hash.as_slice());
    append(&mut out, parts.aes_key_hash.as_slice());
    proof {
        let secs = sections_of(
            parts.stub@,
            parts.encrypted_payload@,
            parts.serialized_a1@,
            parts.serialized_a2@,
            parts.serialized_white_data@,
        );
        let sizes = sizes_of(
            parts.encrypted_payload@.len() as u64,
            parts.serialized_a1@.len() as u64,
            parts.serialized_a2@.len() as u64,
            parts.serialized_white_data@.len() as u64,
            parts.decompressed_size,
        );
        let hashes = parts.original_hash@ + parts.compressed_hash@ + parts.aes_key_hash@;
        assert(out@ =~= secs + sizes + hashes);
    }
    let final_hash = compute_blake3(out.as_slice());
    append(&mut out, final_hash.as_slice());
    out
}

/// Whether the final hash of `data` matches the bytes before it.
pub fn verify_whole_artifact(data: &[u8]) -> (ok: bool)
    requires
        data@.len() >= 32,
    ensures
        ok == (blake3_digest(data@.subrange(0, data@.len() - 32)) == data@.subrange(
            data@.len() - 32,
            data@.len() as int,
        )),
{
    let n = data.len();
    let body = vstd::slice::slice_subrange(data, 0, n - 32);
    let stored = hash_at(data, n - 32);
    let computed = compute_blake3(body);
    digest_eq(&computed, &stored)
}

/// The sections of `data`, located backwards from its trailer.
pub fn parse_container(data: &[u8]) -> (res: Result<ContainerParts, ContainerError>)
    ensures
        match res {
            Ok(parts) => container_error(data@) is None && parts.bytes() == data@,
            Err(e) => container_error(data@) == Some(e),
        },
{
    let n = data.len();
    if n < METADATA_SIZE {
        return Err(ContainerError::Truncated);
    }
    if !verify_whole_artifact(data) {
        return Err(ContainerError::WholeArtifactHash);
    }
    let t = n - METADATA_SIZE;
    let size_enc = read_u64_le(data, t);
    let size_a1 = read_u64_le(data, t + 8);
    let size_a2 = read_u64_le(data, t + 16);
    let size_wd = read_u64_le(data, t + 24);
    let decompressed_size = read_u64_le(data, t + 32);
    let avail = t as u64;
    if size_wd > avail || size_a2 > avail - size_wd || size_a1 > avail - size_wd - size_a2
        || size_enc > avail - size_wd - size_a2 - size_a1 {
        return Err(ContainerError::BadTrailer);
    }
    let start_wd = t - size_wd as usize;
    let start_a2 = start_wd - size_a2 as usize;
    let start_a1 = start_a2 - size_a1 as usize;
    let start_enc = start_a1 - size_enc as usize;
    let parts = ContainerParts {
        stub: copy_range(data, 0, start_enc),
        encrypted_payload: copy_range(data, start_enc, start_a1),
        serialized_a1: copy_range(data, start_a1, start_a2),
        serialized_a2: copy_range(data, start_a2, start_wd),
        serialized_white_data: copy_range(data, start_wd, t),
        decompressed_size,
        original_hash: hash_at(data, t + 40),
        compressed_hash: hash_at(data, t + 72),
        aes_key_hash: hash_at(data, t + 104),
    };
    proof {
        lemma_located(
            data@,
            start_enc as int,
            start_a1 as int,
            start_a2 as int,
            start_wd as int,
            decompressed_size,
        );
        assert(parts.body() == data@.subrange(0, n - 32));
        assert(parts.bytes() =~= data@);
    }
    Ok(parts)
}

/// Two neighbouring ranges of a sequence join into one.
pub proof fn lemma_join(d: Seq<u8>, a: int, b: int, c: int)
    requires
        0 <= a <= b <= c <= d.len(),
    ensures
        d.subrange(a, b) + d.subrange(b, c) == d.subrange(a, c),
{
    assert(d.subrange(a, b) + d.subrange(b, c) =~= d.subrange(a, c));
}

/// A range of the right part of a concatenation.
pub proof fn lemma_right_range(x: Seq<u8>, y: Seq<u8>, a: int, b: int)
    requires
        0 <= a <= b <= y.len(),
    ensures
        (x + y).subrange(x.len() + a, x.len() + b) == y.subrange(a, b),
{
    assert((x + y).subrange(x.len() + a, x.len() + b) =~= y.subrange(a, b));
}

/// A range of the left part of a concatenation.
pub proof fn lemma_left_range(x: Seq<u8>, y: Seq<u8>, a: int, b: int)
    requires
        0 <= a <= b <= x.len(),
    ensures
        (x + y).subrange(a, b) == x.subrange(a, b),
{
    assert((x + y).subrange(a, b) =~= x.subrange(a, b));
}

/// The sizes read from forty bytes are the sizes those bytes encode.
pub proof fn lemma_sizes_inverse(f: Seq<u8>)
    requires
        f.len() == 40,
    ensures
        sizes_of(
            u64_from_le_bytes(f.subrange(0, 8)) as u64,
            u64_from_le_bytes(f.subrange(8, 16)) as u64,
            u64_from_le_bytes(f.subrange(16, 24)) as u64,
            u64_from_le_bytes(f.subrange(24, 32)) as u64,
            u64_from_le_bytes(f.subrange(32, 40)) as u64,
        ) == f,
{
    lemma_u64_le_inverse(f.subrange(0, 8));
    lemma_u64_le_inverse(f.subrange(8, 16));
    lemma_u64_le_inverse(f.subrange(16, 24));
    lemma_u64_le_inverse(f.subrange(24, 32));
    lemma_u64_le_inverse(f.subrange(32, 40));
    lemma_join(f, 0, 8, 16);
    lemma_join(f, 0, 16, 24);
    lemma_join(f, 0, 24, 32);
    lemma_join(f, 0, 32, 40);
    assert(f.subrange(0, 40) =~= f);
}

/// The fields of forty bytes of sizes are the sizes.
pub proof fn lemma_sizes_fields(enc: u64, a1: u64, a2: u64, wd: u64, size: u64)
    ensures
        ({
            let f = sizes_of(enc, a1, a2, wd, size);
            &&& f.len() == 40
            &&& u64_from_le_bytes(f.subrange(0, 8)) == enc
            &&& u64_from_le_bytes(f.subrange(8, 16)) == a1
            &&& u64_from_le_bytes(f.subrange(16, 24)) == a2
            &&& u64_from_le_bytes(f.subrange(24, 32)) == wd
            &&& u64_from_le_bytes(f.subrange(32, 40)) == size
        }),
{
    let f = sizes_of(enc, a1, a2, wd, size);
    lemma_u64_le_round_trip(enc);
    lemma_u64_le_round_trip(a1);
    lemma_u64_le_round_trip(a2);
    lemma_u64_le_round_trip(wd);
    lemma_u64_le_round_trip(size);
    assert(f.subrange(0, 8) =~= u64_le_bytes(enc));
    assert(f.subrange(8, 16) =~= u64_le_bytes(a1));
    assert(f.subrange(16, 24) =~= u64_le_bytes(a2));
    assert(f.subrange(24, 32) =~= u64_le_bytes(wd));
    assert(f.subrange(32, 40) =~= u64_le_bytes(size));
}

/// Bytes whose trailer sizes fit are the layout of the sections the
/// trailer locates.
pub proof fn lemma_located(d: Seq<u8>, s_enc: int, s_a1: int, s_a2: int, s_wd: int, size: u64)
    requires
        d.len() >= METADATA_SIZE,
        0 <= s_enc <= s_a1 <= s_a2 <= s_wd <= d.len() - METADATA_SIZE,
        s_a1 - s_enc == size_field(d, 0),
        s_a2 - s_a1 == size_field(d, 1),
        s_wd - s_a2 == size_field(d, 2),
        d.len() - METADATA_SIZE - s_wd == size_field(d, 3),
        size == size_field(d, 4),
    ensures
        layout(
            d.subrange(0, s_enc),
            d.subrange(s_enc, s_a1),
            d.subrange(s_a1, s_a2),
            d.subrange(s_a2, s_wd),
            d.subrange(s_wd, d.len() - METADATA_SIZE),
            size,
            d.subrange(d.len() - 128, d.len() - 96),
            d.subrange(d.len() - 96, d.len() - 64),
            d.subrange(d.len() - 64, d.len() - 32),
        ) == d.subrange(0, d.len() - 32),
{
    let n = d.len() as int;
    let t = n - METADATA_SIZE;
    lemma_join(d, 0, s_enc, s_a1);
    lemma_join(d, 0, s_a1, s_a2);
    lemma_join(d, 0, s_a2, s_wd);
    lemma_join(d, 0, s_wd, t);
    let f = d.subrange(t, t + 40);
    lemma_sizes_inverse(f);
    assert(f.subrange(0, 8) =~= d.subrange(t, t + 8));
    assert(f.subrange(8, 16) =~= d.subrange(t + 8, t + 16));
    assert(f.subrange(16, 24) =~= d.subrange(t + 16, t + 24));
    assert(f.subrange(24, 32) =~= d.subrange(t + 24, t + 32));
    assert(f.subrange(32, 40) =~= d.subrange(t + 32, t + 40));
    lemma_u64_le_inverse(f.subrange(0, 8));
    lemma_u64_le_inverse(f.subrange(8, 16));
    lemma_u64_le_inverse(f.subrange(16, 24));
    lemma_u64_le_inverse(f.subrange(24, 32));
    lemma_join(d, t + 40, t + 72, t + 104);
    lemma_join(d, t + 40, t + 104, t + 136);
    lemma_join(d, 0, t, t + 40);
    lemma_join(d, 0, t + 40, t + 136);
}

/// Where each part of a built container lies, and what its trailer says.
pub proof fn lemma_sections(parts: ContainerParts)
    requires
        blake3_digest(parts.body()).len() == 32,
        parts.encrypted_payload@.len() <= u64::MAX,
        parts.serialized_a1@.len() <= u64::MAX,
        parts.serialized_a2@.len() <= u64::MAX,
        parts.serialized_white_data@.len() <= u64::MAX,
    ensures
        container_error(parts.bytes()) is None,
        ({
            let d = parts.bytes();
            let t = d.len() - METADATA_SIZE;
            let wd = size_field(d, 3);
            let a2 = size_field(d, 2);
            let a1 = size_field(d, 1);
            let enc = size_field(d, 0);
            &&& enc == parts.encrypted_payload@.len()
            &&& a1 == parts.serialized_a1@.len()
            &&& a2 == parts.serialized_a2@.len()
            &&& wd == parts.serialized_white_data@.len()
            &&& size_field(d, 4) == parts.decompressed_size
            &&& d.subrange(t - wd, t) == parts.serialized_white_data@
            &&& d.subrange(t - wd - a2, t - wd) == parts.serialized_a2@
            &&& d.subrange(t - wd - a2 - a1, t - wd - a2) == parts.serialized_a1@
            &&& d.subrange(t - wd - a2 - a1 - enc, t - wd - a2 - a1) == parts.encrypted_payload@
            &&& d.subrange(0, t - wd - a2 - a1 - enc) == parts.stub@
            &&& d.subrange(t + 40, t + 72) == parts.original_hash@
            &&& d.subrange(t + 72, t + 104) == parts.compressed_hash@
            &&& d.subrange(t + 104, t + 136) == parts.aes_key_hash@
        }),
{
    let d = parts.bytes();
    let body = parts.body();
    let dig = blake3_digest(body);
    let (stub, enc, a1, a2, wd) = (
        parts.stub@,
        parts.encrypted_payload@,
        parts.serialized_a1@,
        parts.serialized_a2@,
        parts.serialized_white_data@,
    );
    let secs = sections_of(stub, enc, a1, a2, wd);
    let sizes = sizes_of(
        enc.len() as u64,
        a1.len() as u64,
        a2.len() as u64,
        wd.len() as u64,
        parts.decompressed_size,
    );
    let hashes = parts.original_hash@ + parts.compressed_hash@ + parts.aes_key_hash@;
    let front = secs + sizes;
    lemma_sizes_fields(
        enc.len() as u64,
        a1.len() as u64,
        a2.len() as u64,
        wd.len() as u64,
        parts.decompressed_size,
    );
    assert(body == front + hashes);
    assert(hashes.len() == 96);
    let t = secs.len() as int;
    assert(d.len() - METADATA_SIZE == t);
    // the final hash
    lemma_left_range(body, dig, 0, body.len() as int);
    assert(body.subrange(0, body.len() as int) =~= body);
    lemma_right_range(body, dig, 0, 32);
    assert(dig.subrange(0, 32) =~= dig);
    // the size fields
    assert forall|i: int| 0 <= i < 5 implies d.subrange(t + 8 * i, t + 8 * i + 8)
        == #[trigger] sizes.subrange(8 * i, 8 * i + 8) by {
        lemma_left_range(body, dig, t + 8 * i, t + 8 * i + 8);
        lemma_left_range(front, hashes, t + 8 * i, t + 8 * i + 8);
        lemma_right_range(secs, sizes, 8 * i, 8 * i + 8);
    }
    assert(d.subrange(t + 0, t + 8) == sizes.subrange(0int, 8int)) by {
        assert(sizes.subrange(8 * 0int, 8 * 0int + 8) == sizes.subrange(0int, 8int));
    }
    assert(d.subrange(t + 8, t + 16) == sizes.subrange(8int, 16int)) by {
        assert(sizes.subrange(8 * 1int, 8 * 1int + 8) == sizes.subrange(8int, 16int));
    }
    assert(d.subrange(t + 16, t + 24) == sizes.subrange(16int, 24int)) by {
        assert(sizes.subrange(8 * 2int, 8 * 2int + 8) == sizes.subrange(16int, 24int));
    }
    assert(d.subrange(t + 24, t + 32) == sizes.subrange(24int, 32int)) by {
        assert(sizes.subrange(8 * 3int, 8 * 3int + 8) == sizes.subrange(24int, 32int));
    }
    assert(d.subrange(t + 32, t + 40) == sizes.subrange(32int, 40int)) by {
        assert(sizes.subrange(8 * 4int, 8 * 4int + 8) == sizes.subrange(32int, 40int));
    }
    // the content hashes
    assert forall|a: int, b: int| 0 <= a <= b <= 96 implies #[trigger] d.subrange(
        t + 40 + a,
        t + 40 + b,
    ) == hashes.subrange(a, b) by {
        lemma_left_range(body, dig, t + 40 + a, t + 40 + b);
        lemma_right_range(front, hashes, a, b);
    }
    assert(d.subrange(t + 40 + 0, t + 40 + 32) == hashes.subrange(0, 32));
    assert(d.subrange(t + 40 + 32, t + 40 + 64) == hashes.subrange(32, 64));
    assert(d.subrange(t + 40 + 64, t + 40 + 96) == hashes.subrange(64, 96));
    assert(hashes.subrange(0, 32) =~= parts.original_hash@);
    assert(hashes.subrange(32, 64) =~= parts.compressed_hash@);
    assert(hashes.subrange(64, 96) =~= parts.aes_key_hash@);
    // the sections
    assert forall|a: int, b: int| 0 <= a <= b <= t implies #[trigger] d.subrange(a, b)
        == secs.subrange(a, b) by {
        lemma_left_range(body, dig, a, b);
        lemma_left_range(front, hashes, a, b);
        lemma_left_range(secs, sizes, a, b);
    }
    let (ls, le, l1, l2, lw) = (
        stub.len() as int,
        enc.len() as int,
        a1.len() as int,
        a2.len() as int,
        wd.len() as int,
    );
    assert(d.subrange(t - lw, t) == secs.subrange(t - lw, t));
    assert(d.subrange(t - lw - l2, t - lw) == secs.subrange(t - lw - l2, t - lw));
    assert(d.subrange(t - lw - l2 - l1, t - lw - l2) == secs.subrange(
        t - lw - l2 - l1,
        t - lw - l2,
    ));
    assert(d.subrange(t - lw - l2 - l1 - le, t - lw - l2 - l1) == secs.subrange(
        t - lw - l2 - l1 - le,
        t - lw - l2 - l1,
    ));
    assert(d.subrange(0, t - lw - l2 - l1 - le) == secs.subrange(0, t - lw - l2 - l1 - le));
    assert(secs.subrange(t - lw, t) =~= wd);
    assert(secs.subrange(t - lw - l2, t - lw) =~= a2);
    assert(secs.subrange(t - lw - l2 - l1, t - lw - l2) =~= a1);
    assert(secs.subrange(t - lw - l2 - l1 - le, t - lw - l2 - l1) =~= enc);
    assert(secs.subrange(0, t - lw - l2 - l1 - le) =~= stub);
}

/// A built container parses, and parses to the parts it was built from:
/// two sets of parts with the same bytes are the same parts. (The digests
/// are thirty-two bytes long, as every computed digest is.)
pub proof fn lemma_container_round_trip(parts: ContainerParts, other: ContainerParts)
    requires
        blake3_digest(parts.body()).len() == 32,
        blake3_digest(other.body()).len() == 32,
        parts.encrypted_payload@.len() <= u64::MAX,
        parts.serialized_a1@.len() <= u64::MAX,
        parts.serialized_a2@.len() <= u64::MAX,
        parts.serialized_white_data@.len() <= u64::MAX,
        other.encrypted_payload@.len() <= u64::MAX,
        other.serialized_a1@.len() <= u64::MAX,
        other.serialized_a2@.len() <= u64::MAX,
        other.serialized_white_data@.len() <= u64::MAX,
        other.bytes() == parts.bytes(),
    ensures
        container_error(parts.bytes()) is None,
        other.stub@ == parts.stub@,
        other.encrypted_payload@ == parts.encrypted_payload@,
        other.serialized_a1@ == parts.serialized_a1@,
        other.serialized_a2@ == parts.serialized_a2@,
        other.serialized_white_data@ == parts.serialized_white_data@,
        other.decompressed_size == parts.decompressed_size,
        other.original_hash@ == parts.original_hash@,
        other.compressed_hash@ == parts.compressed_hash@,
        other.aes_key_hash@ == parts.aes_key_hash@,
{
    lemma_sections(parts);
    lemma_sections(other);
}

/// One changed byte breaks the seal. In a container whose final hash
/// holds, changing any single byte makes the final hash fail: always
/// where the byte lies in the hash itself, and elsewhere unless the
/// changed bytes have the digest of the first, so detection is as strong
/// as the hash.
pub proof fn lemma_changed_byte_breaks_seal(data: Seq<u8>, at: int, byte: u8)
    requires
        data.len() >= METADATA_SIZE,
        blake3_digest(data.subrange(0, data.len() - 32)) == data.subrange(
            data.len() - 32,
            data.len() as int,
        ),
        0 <= at < data.len(),
        byte != data[at],
        at < data.len() - 32 ==> blake3_digest(data.update(at, byte).subrange(0, data.len() - 32))
            != blake3_digest(data.subrange(0, data.len() - 32)),
    ensures
        container_error(data.update(at, byte)) == Some(ContainerError::WholeArtifactHash),
{
    let changed = data.update(at, byte);
    let split = data.len() - 32;
    let (seal, new_seal) = (
        data.subrange(split, data.len() as int),
        changed.subrange(split, data.len() as int),
    );
    if at < split {
        assert(new_seal =~= seal);
    } else {
        assert(changed.subrange(0, split) =~= data.subrange(0, split));
        assert(new_seal[at - split] == byte);
        assert(seal[at - split] == data[at]);
    }
}

} // verus!
