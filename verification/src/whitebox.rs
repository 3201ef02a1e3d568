//! White-box decryption data: public transform parameters, the two residue
//! bases, the mask and rotation, and the two families of lookup tables.

use vstd::prelude::*;
use vstd::arithmetic::div_mod::*;
use vstd::arithmetic::mul::*;
use vstd::arithmetic::power::*;
use crate::checksum::{blake3_digest, compute_crt_checksum, digest_eq, i64_seq_le_bytes};
use crate::crt::{crt_base, is_crt_base, seq_product};
use crate::modular::coprime;

verus! {

/// Rows and columns of a lookup table: one per value of a five-bit digit.
pub const TABLE_SIDE: usize = 32;

/// Most five-bit slots that fit in one table entry.
pub const MAX_SLOTS: usize = 12;

/// How the secret is encoded into the tables.
#[derive(Clone, Copy, Debug, PartialEq, Eq, Structural)]
pub enum Scheme {
    /// The raw secret, with no obfuscating encryption.
    MM,
    /// The secret under encryptions of one and of zero.
    MM2,
    /// The secret under an encrypted rotation and an encrypted mask.
    MM3,
}

/// Everything the white-box decryptor needs; none of it is the secret key.
#[derive(Debug)]
pub struct WhiteData {
    pub root: i64,
    pub unroot: i64,
    pub ninv: i64,
    pub beta: Vec<i64>,
    pub beta_p: Vec<i64>,
    pub k: usize,
    pub mask: Vec<i64>,
    pub rotate: usize,
    pub chal: u8,
    pub fb: Vec<Vec<Vec<i64>>>,
    pub sb: Vec<Vec<Vec<i64>>>,
    pub beta_checksum: [u8; 32],
    pub beta_p_checksum: [u8; 32],
    pub mask_checksum: [u8; 32],
    pub data_checksum: [u8; 32],
}

/// The scheme that a selector value names.
pub open spec fn scheme_of_selector(chal: u8) -> Option<Scheme> {
    if chal == 0 {
        Some(Scheme::MM)
    } else if chal == 1 {
        Some(Scheme::MM2)
    } else if chal == 2 {
        Some(Scheme::MM3)
    } else {
        None
    }
}

/// The scheme that a selector value names, if it names one.
pub fn scheme_of(chal: u8) -> (s: Option<Scheme>)
    ensures
        s == scheme_of_selector(chal),
{
    if chal == 0 {
        Some(Scheme::MM)
    } else if chal == 1 {
        Some(Scheme::MM2)
    } else if chal == 2 {
        Some(Scheme::MM3)
    } else {
        None
    }
}

/// A basis whose digits index a lookup table: a residue basis of at most
/// twelve moduli, none above 32.
pub open spec fn small_base(base: Seq<i64>) -> bool {
    &&& crt_base(base)
    &&& 1 <= base.len() <= MAX_SLOTS
    &&& forall|i: int| 0 <= i < base.len() ==> #[trigger] base[i] <= 32
}

/// Whether `base` is a basis whose digits index a lookup table.
pub fn is_small_base(base: &[i64]) -> (ok: bool)
    ensures
        ok == small_base(base@),
{
    if base.len() < 1 || base.len() > MAX_SLOTS {
        return false;
    }
    if !is_crt_base(base) {
        return false;
    }
    let mut i: usize = 0;
    while i < base.len()
        invariant
            i <= base.len(),
            forall|j: int| 0 <= j < i ==> #[trigger] base@[j] <= 32,
        decreases base.len() - i,
    {
        if base[i] > 32 {
            return false;
        }
        i += 1;
    }
    true
}

/// The five-bit slot `i` of a table entry.
pub open spec fn slot_of(entry: int, i: nat) -> int {
    (entry / pow(32, i)) % 32
}

/// The entry that holds `slots[i]` in slot `i`.
pub open spec fn pack_slots(slots: Seq<i64>) -> int
    decreases slots.len(),
{
    if slots.len() == 0 {
        0
    } else {
        pack_slots(slots.drop_last()) + slots.last() * pow(32, (slots.len() - 1) as nat)
    }
}

/// Every slot value fits in five bits.
pub open spec fn five_bit(slots: Seq<i64>) -> bool {
    forall|i: int| 0 <= i < slots.len() ==> 0 <= #[trigger] slots[i] < 32
}

/// `pow(32, i + 1) == 32 * pow(32, i)`, and powers of 32 are positive.
pub proof fn lemma_pow32(i: nat)
    ensures
        pow(32, i + 1) == 32 * pow(32, i),
        pow(32, i) >= 1,
{
    reveal(pow);
    lemma_pow_positive(32, i);
}

/// Packed five-bit slots stay below the next power of 32.
pub proof fn lemma_pack_bound(slots: Seq<i64>)
    requires
        five_bit(slots),
    ensures
        0 <= pack_slots(slots) < pow(32, slots.len()),
    decreases slots.len(),
{
    if slots.len() == 0 {
        lemma_pow0(32);
    } else {
        let front = slots.drop_last();
        assert(five_bit(front)) by {
            assert forall|i: int| 0 <= i < front.len() implies 0 <= #[trigger] front[i] < 32 by {
                assert(front[i] == slots[i]);
            }
        }
        lemma_pack_bound(front);
        lemma_pow32(front.len());
        let w = pow(32, front.len());
        let last = slots.last() as int;
        assert(0 <= last < 32);
        assert(0 <= last * w <= 31 * w) by (nonlinear_arith)
            requires
                0 <= last <= 31,
                w >= 1,
        ;
    }
}

/// Packing then reading a slot gives the slot back: the tables lose nothing.
pub proof fn lemma_slot_of_pack(slots: Seq<i64>, i: nat)
    requires
        five_bit(slots),
        i < slots.len(),
    ensures
        slot_of(pack_slots(slots), i) == slots[i as int],
    decreases slots.len(),
{
    let front = slots.drop_last();
    let top = (slots.len() - 1) as nat;
    let w = pow(32, top);
    let last = slots.last() as int;
    assert(five_bit(front)) by {
        assert forall|j: int| 0 <= j < front.len() implies 0 <= #[trigger] front[j] < 32 by {
            assert(front[j] == slots[j]);
        }
    }
    lemma_pack_bound(front);
    lemma_pow32(top);
    let low = pack_slots(front);
    assert(0 <= last < 32);
    if i == top {
        lemma_fundamental_div_mod_converse(low + last * w, w, last, low);
        lemma_small_mod(last as nat, 32);
    } else {
        lemma_slot_of_pack(front, i);
        // w == 32^i * 32 * 32^(top - i - 1): the last slot is a multiple of 32 * 32^i
        let wi = pow(32, i);
        let rest = pow(32, (top - i - 1) as nat);
        lemma_pow32(i);
        lemma_pow32((top - i - 1) as nat);
        lemma_pow_adds(32, i + 1, (top - i - 1) as nat);
        assert(w == (32 * wi) * rest);
        let lq = low / wi;
        lemma_fundamental_div_mod(low, wi);
        let lr = low % wi;
        assert(low + last * w == wi * (lq + 32 * (last * rest)) + lr) by (nonlinear_arith)
            requires
                low == wi * lq + lr,
                w == (32 * wi) * rest,
        ;
        lemma_fundamental_div_mod_converse(
            low + last * w,
            wi,
            lq + 32 * (last * rest),
            lr,
        );
        lemma_mod_multiples_vanish(last * rest, lq, 32);
        assert(32 * (last * rest) + lq == lq + 32 * (last * rest));
    }
}

impl WhiteData {
    /// Ring degree: the number of tables in each box.
    pub open spec fn degree(&self) -> int {
        self.fb@.len() as int
    }

    /// Both bases index the tables, hold `k` moduli each, and their products are coprime.
    pub open spec fn bases_ok(&self) -> bool {
        &&& small_base(self.beta@)
        &&& small_base(self.beta_p@)
        &&& self.beta@.len() == self.k
        &&& self.beta_p@.len() == self.k
        &&& coprime(seq_product(self.beta@) as nat, seq_product(self.beta_p@) as nat)
    }

    /// The tables of `family` are `degree` squares of side 32 with
    /// non-negative entries.
    pub open spec fn tables_ok(family: Seq<Vec<Vec<i64>>>, degree: int) -> bool {
        &&& family.len() == degree
        &&& forall|d: int| 0 <= d < degree ==> (#[trigger] family[d])@.len() == TABLE_SIDE
        &&& forall|d: int, j: int|
            0 <= d < degree && 0 <= j < TABLE_SIDE ==> (#[trigger] family[d]@[j])@.len()
                == TABLE_SIDE
        &&& forall|d: int, j: int, l: int|
            0 <= d < degree && 0 <= j < TABLE_SIDE && 0 <= l < TABLE_SIDE ==> #[trigger] family[d]@[j]@[l]
                >= 0
    }

    /// The data has the shape the decryptor relies on.
    pub open spec fn wf(&self) -> bool {
        &&& self.bases_ok()
        &&& scheme_of_selector(self.chal) is Some
        &&& Self::tables_ok(self.fb@, self.degree())
        &&& Self::tables_ok(self.sb@, self.degree())
        &&& self.mask@.len() == self.degree()
        &&& self.rotate < self.degree() || (self.degree() == 0 && self.rotate == 0)
    }

    /// The three stored checksums match the data they cover.
    pub open spec fn checksums_ok(&self) -> bool {
        &&& self.beta_checksum@ == blake3_digest(i64_seq_le_bytes(self.beta@))
        &&& self.beta_p_checksum@ == blake3_digest(i64_seq_le_bytes(self.beta_p@))
        &&& self.mask_checksum@ == blake3_digest(i64_seq_le_bytes(self.mask@))
    }

    /// The stored checksum of the scalar parameters matches them: the
    /// root, its inverse, the inverse of the degree, the number of
    /// moduli, the rotation index and the scheme selector.
    pub open spec fn data_checksum_ok(&self) -> bool {
        &&& self.k <= i64::MAX
        &&& self.rotate <= i64::MAX
        &&& self.data_checksum@ == blake3_digest(
            i64_seq_le_bytes(
                seq![
                    self.root,
                    self.unroot,
                    self.ninv,
                    self.k as i64,
                    self.rotate as i64,
                    self.chal as i64,
                ],
            ),
        )
    }

    /// Whether the stored checksum of the scalar parameters matches them.
    pub fn verify_data_checksum(&self) -> (ok: bool)
        ensures
            ok == self.data_checksum_ok(),
    {
        if self.k as u64 > 0x7fff_ffff_ffff_ffff || self.rotate as u64 > 0x7fff_ffff_ffff_ffff {
            return false;
        }
        let digest = parameters_checksum(
            self.root,
            self.unroot,
            self.ninv,
            self.k,
            self.rotate,
            self.chal,
        );
        digest_eq(&digest, &self.data_checksum)
    }
}

/// The checksum over the scalar parameters of white-box data.
pub(crate) fn parameters_checksum(
    root: i64,
    unroot: i64,
    ninv: i64,
    k: usize,
    rotate: usize,
    chal: u8,
) -> (digest: [u8; 32])
    requires
        k <= i64::MAX,
        rotate <= i64::MAX,
    ensures
        digest@ == blake3_digest(
            i64_seq_le_bytes(seq![root, unroot, ninv, k as i64, rotate as i64, chal as i64]),
        ),
{
    let mut all_data: Vec<i64> = Vec::new();
    all_data.push(root);
    all_data.push(unroot);
    all_data.push(ninv);
    all_data.push(k as i64);
    all_data.push(rotate as i64);
    all_data.push(chal as i64);
    assert(all_data@ =~= seq![root, unroot, ninv, k as i64, rotate as i64, chal as i64]);
    compute_crt_checksum(all_data.as_slice())
}

} // verus!
