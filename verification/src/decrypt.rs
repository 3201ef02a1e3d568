//! The white-box decryptor: the secret-dependent multiplication done
//! entirely through table lookups and residue reconstruction.

use vstd::prelude::*;
use vstd::arithmetic::div_mod::*;
use vstd::arithmetic::power::*;
use crate::checksum::{compute_crt_checksum, digest_eq};
use crate::create_wb::{check_negacyclic_root, checked_inverse};
use crate::crt::{crt_value, goback_crt, lemma_product_positive, product, seq_product};
use crate::lattice::{NTRUVector, RingError};
use crate::modular::{add_mod, mod_inverse, mul_mod, rem_euclid, sub_mod, xgcd};
use crate::ntt::log2_exact;
use crate::ntt_spec::{forward_ntt, inverse_ntt, is_negacyclic_root, power_of_two};
use crate::whitebox::{
    is_small_base, lemma_pow32, scheme_of, scheme_of_selector, slot_of, small_base, Scheme,
    WhiteData, TABLE_SIDE,
};

verus! {

/// Why a decryption was refused.
#[derive(Clone, Copy, Debug, PartialEq, Eq, Structural)]
pub enum DecryptError {
    /// The checksum of the first basis does not match.
    BetaChecksum,
    /// The checksum of the second basis does not match.
    BetaPChecksum,
    /// The checksum of the mask does not match.
    MaskChecksum,
    /// The checksum of a ciphertext vector does not match.
    CiphertextChecksum,
    /// The white-box data or a ciphertext vector is not well formed, or
    /// the scalar parameters do not have their recorded checksum.
    Malformed,
    /// Degrees or moduli of the ciphertext and the white-box data differ.
    ShapeMismatch,
    /// The ciphertext is not in the coefficient domain, or the degree is
    /// not a power of two.
    Ring(RingError),
    /// A transform parameter is not a root of `X^n + 1`.
    InvalidRoot,
}

/// Slot `i` of the entry that a table holds for `a` and `b`, read at their
/// residues by `m`.
pub open spec fn lookup(table: Seq<Vec<i64>>, a: int, b: int, m: int, i: nat) -> int {
    slot_of(table[a % m]@[b % m] as int, i)
}

/// The digits read from the first box for the pair `(a, b)`.
pub open spec fn first_digits(table: Seq<Vec<i64>>, a: int, b: int, beta: Seq<i64>) -> Seq<i64> {
    Seq::new(beta.len(), |i: int| lookup(table, a, b, beta[i] as int, i as nat) as i64)
}

/// Digit `i` of the second stage: the first-stage value times the modulus
/// times the inverse of the first product, plus the slot read from the second box.
pub open spec fn second_digit(
    table: Seq<Vec<i64>>,
    first: int,
    a: int,
    b: int,
    n: int,
    m_inv: int,
    m: int,
    i: nat,
) -> int {
    ((((first % m) * (n % m)) % m) * (m_inv % m) + lookup(table, a, b, m, i)) % m
}

/// The digits of the second stage for the pair `(a, b)`.
pub open spec fn second_digits(
    table: Seq<Vec<i64>>,
    first: int,
    a: int,
    b: int,
    n: int,
    m_inv: int,
    beta_p: Seq<i64>,
) -> Seq<i64> {
    Seq::new(
        beta_p.len(),
        |i: int| second_digit(table, first, a, b, n, m_inv, beta_p[i] as int, i as nat) as i64,
    )
}

/// The white-box Montgomery product of `a` and `b` at one dimension: both
/// stages of lookups, each rebuilt from its residues, then scaled by the
/// first basis product modulo `n`.
pub open spec fn mont_mult_value(
    fb: Seq<Vec<i64>>,
    sb: Seq<Vec<i64>>,
    a: int,
    b: int,
    n: int,
    beta: Seq<i64>,
    beta_p: Seq<i64>,
) -> int {
    let m = seq_product(beta);
    let m_inv = mod_inverse(m, seq_product(beta_p));
    let first = crt_value(first_digits(fb, a, b, beta), beta);
    let second = crt_value(second_digits(sb, first, a, b, n, m_inv, beta_p), beta_p);
    (second * m) % n
}

/// The white-box product of two transformed vectors, dimension by dimension.
pub open spec fn whitebox_product(w: &WhiteData, x: Seq<i64>, y: Seq<i64>, n: int) -> Seq<i64> {
    Seq::new(
        x.len(),
        |d: int|
            mont_mult_value(w.fb@[d]@, w.sb@[d]@, x[d] as int, y[d] as int, n, w.beta@, w.beta_p@) as i64,
    )
}

/// The plaintext bit that a decrypted coefficient encodes: its parity
/// after adding the mask bit, flipped where the coefficient lies above `q / 2`.
pub open spec fn demasked_bit(value: int, mask_bit: int, q: int) -> int {
    let v = value % q;
    if v > q / 2 {
        (1 - (v + mask_bit)) % 2
    } else {
        (v + mask_bit) % 2
    }
}

/// The bits a white-box decryption yields.
pub open spec fn decrypted_bits(w: &WhiteData, a1: Seq<i64>, a2: Seq<i64>, q: int) -> Seq<i64> {
    let x = forward_ntt(a1, w.root as int, q);
    let y = forward_ntt(a2, w.root as int, q);
    let z = whitebox_product(w, x, y, q);
    let t = inverse_ntt(z, w.unroot as int, w.ninv as int, q);
    let n = a1.len() as int;
    Seq::new(
        a1.len(),
        |i: int|
            if scheme_of_selector(w.chal) == Some(Scheme::MM3) {
                demasked_bit(t[(i + w.rotate) % n] as int, w.mask@[i] as int, q) as i64
            } else {
                demasked_bit(t[i] as int, 0, q) as i64
            },
    )
}

/// Slot `i` of a table entry.
fn slot_at(entry: i64, i: usize) -> (slot: i64)
    requires
        entry >= 0,
        i < 12,
    ensures
        slot == slot_of(entry as int, i as nat),
        0 <= slot < 32,
{
    let mut weight: i64 = 1;
    let mut j: usize = 0;
    proof {
        lemma_pow0(32);
    }
    while j < i
        invariant
            j <= i,
            i < 12,
            weight == pow(32, j as nat),
            1 <= weight,
        decreases i - j,
    {
        proof {
            lemma_pow32(j as nat);
            lemma_pow_increases(32, (j + 1) as nat, 12);
            assert(pow(32, 12) == 0x1000_0000_0000_0000) by {
                reveal_with_fuel(pow, 13);
            }
        }
        weight = weight * 32;
        j += 1;
    }
    (entry / weight) % 32
}

/// The white-box Montgomery product at one dimension, with the basis
/// products and the inverse already computed.
fn mont_mult_with(
    fb: &Vec<Vec<i64>>,
    sb: &Vec<Vec<i64>>,
    a: i64,
    b: i64,
    n: i64,
    beta: &[i64],
    beta_p: &[i64],
    m: i64,
    m_inv: i64,
) -> (res: i64)
    requires
        n > 0,
        small_base(beta@),
        small_base(beta_p@),
        beta@.len() == beta_p@.len(),
        m == seq_product(beta@),
        m_inv == mod_inverse(m as int, seq_product(beta_p@)),
        fb@.len() == TABLE_SIDE,
        sb@.len() == TABLE_SIDE,
        forall|j: int| 0 <= j < TABLE_SIDE ==> (#[trigger] fb@[j])@.len() == TABLE_SIDE,
        forall|j: int| 0 <= j < TABLE_SIDE ==> (#[trigger] sb@[j])@.len() == TABLE_SIDE,
        forall|j: int, l: int| 0 <= j < TABLE_SIDE && 0 <= l < TABLE_SIDE ==> #[trigger] fb@[j]@[l] >= 0,
        forall|j: int, l: int| 0 <= j < TABLE_SIDE && 0 <= l < TABLE_SIDE ==> #[trigger] sb@[j]@[l] >= 0,
    ensures
        res == mont_mult_value(fb@, sb@, a as int, b as int, n as int, beta@, beta_p@),
        0 <= res < n,
{
    let k = beta.len();
    let mut q: Vec<i64> = Vec::new();
    let mut i: usize = 0;
    while i < k
        invariant
            small_base(beta@),
            k == beta@.len(),
            i <= k,
            fb@.len() == TABLE_SIDE,
            forall|j: int| 0 <= j < TABLE_SIDE ==> (#[trigger] fb@[j])@.len() == TABLE_SIDE,
            forall|j: int, l: int|
                0 <= j < TABLE_SIDE && 0 <= l < TABLE_SIDE ==> #[trigger] fb@[j]@[l] >= 0,
            q@.len() == i,
            forall|c: int|
                0 <= c < i ==> q@[c] == lookup(fb@, a as int, b as int, beta@[c] as int, c as nat),
        decreases k - i,
    {
        assert(0 < beta@[i as int] <= 32);
        let row = rem_euclid(a, beta[i]) as usize;
        let col = rem_euclid(b, beta[i]) as usize;
        assert(fb@[row as int]@[col as int] >= 0);
        q.push(slot_at(fb[row][col], i));
        i += 1;
    }
    assert(q@ =~= first_digits(fb@, a as int, b as int, beta@));
    let first = goback_crt(q.as_slice(), beta);
    let mut r: Vec<i64> = Vec::new();
    let mut i: usize = 0;
    while i < k
        invariant
            small_base(beta_p@),
            k == beta_p@.len(),
            i <= k,
            n > 0,
            sb@.len() == TABLE_SIDE,
            forall|j: int| 0 <= j < TABLE_SIDE ==> (#[trigger] sb@[j])@.len() == TABLE_SIDE,
            forall|j: int, l: int|
                0 <= j < TABLE_SIDE && 0 <= l < TABLE_SIDE ==> #[trigger] sb@[j]@[l] >= 0,
            r@.len() == i,
            forall|c: int|
                0 <= c < i ==> r@[c] == second_digit(
                    sb@,
                    first as int,
                    a as int,
                    b as int,
                    n as int,
                    m_inv as int,
                    beta_p@[c] as int,
                    c as nat,
                ),
        decreases k - i,
    {
        assert(0 < beta_p@[i as int] <= 32);
        let bp = beta_p[i];
        let row = rem_euclid(a, bp) as usize;
        let col = rem_euclid(b, bp) as usize;
        assert(sb@[row as int]@[col as int] >= 0);
        let slot = slot_at(sb[row][col], i);
        let qd = rem_euclid(first, bp);
        let nd = rem_euclid(n, bp);
        let md = rem_euclid(m_inv, bp);
        proof {
            assert(0 <= qd * nd <= 961) by (nonlinear_arith)
                requires
                    0 <= qd <= 31,
                    0 <= nd <= 31,
            ;
        }
        let qn = rem_euclid(qd * nd, bp);
        proof {
            assert(0 <= qn * md <= 961) by (nonlinear_arith)
                requires
                    0 <= qn <= 31,
                    0 <= md <= 31,
            ;
        }
        r.push(rem_euclid(qn * md + slot, bp));
        i += 1;
    }
    assert(r@ =~= second_digits(
        sb@,
        first as int,
        a as int,
        b as int,
        n as int,
        m_inv as int,
        beta_p@,
    ));
    let second = goback_crt(r.as_slice(), beta_p);
    mul_mod(second, m, n)
}

/// The inverse of the first basis product modulo the second, which
/// well-formed white-box data always has.
fn base_inverse(white_data: &WhiteData) -> (res: (i64, i64))
    requires
        white_data.bases_ok(),
    ensures
        res.0 == seq_product(white_data.beta@),
        res.1 == mod_inverse(seq_product(white_data.beta@), seq_product(white_data.beta_p@)),
{
    proof {
        lemma_product_positive(white_data.beta@);
        lemma_product_positive(white_data.beta_p@);
    }
    let m = match product(white_data.beta.as_slice()) {
        Some(p) => p,
        None => 1,
    };
    let m_p = match product(white_data.beta_p.as_slice()) {
        Some(p) => p,
        None => 1,
    };
    let m_inv = match checked_inverse(m, m_p) {
        Some(x) => x,
        None => 0,
    };
    (m, m_inv)
}

/// The white-box Montgomery product of `a` and `b` at dimension `dim`,
/// modulo `n`: what the secret-dependent multiplication gives, from table
/// lookups alone.
pub fn mont_mult(dim: usize, a: i64, b: i64, n: i64, white_data: &WhiteData) -> (res: i64)
    requires
        white_data.wf(),
        dim < white_data.degree(),
        n > 0,
    ensures
        res == mont_mult_value(
            white_data.fb@[dim as int]@,
            white_data.sb@[dim as int]@,
            a as int,
            b as int,
            n as int,
            white_data.beta@,
            white_data.beta_p@,
        ),
        0 <= res < n,
{
    let (m, m_inv) = base_inverse(white_data);
    proof {
        let d = dim as int;
        assert(white_data.fb@[d]@.len() == TABLE_SIDE);
        assert(white_data.sb@[d]@.len() == TABLE_SIDE);
        assert forall|j: int| 0 <= j < TABLE_SIDE implies (#[trigger] white_data.fb@[d]@[j])@.len()
            == TABLE_SIDE by {}
        assert forall|j: int| 0 <= j < TABLE_SIDE implies (#[trigger] white_data.sb@[d]@[j])@.len()
            == TABLE_SIDE by {}
        assert forall|j: int, l: int|
            0 <= j < TABLE_SIDE && 0 <= l < TABLE_SIDE implies #[trigger] white_data.fb@[d]@[j]@[l]
            >= 0 by {}
        assert forall|j: int, l: int|
            0 <= j < TABLE_SIDE && 0 <= l < TABLE_SIDE implies #[trigger] white_data.sb@[d]@[j]@[l]
            >= 0 by {}
    }
    mont_mult_with(
        &white_data.fb[dim],
        &white_data.sb[dim],
        a,
        b,
        n,
        white_data.beta.as_slice(),
        white_data.beta_p.as_slice(),
        m,
        m_inv,
    )
}

/// The white-box product of two vectors in the transform domain.
pub fn whitebox_mul(x: &NTRUVector, y: &NTRUVector, white_data: &WhiteData) -> (res: NTRUVector)
    requires
        white_data.wf(),
        x.wf(),
        y.wf(),
        x.degree == white_data.degree(),
        y.degree == x.degree,
    ensures
        res.wf(),
        res.checksum_ok(),
        res.degree == x.degree,
        res.modulus == x.modulus,
        res.ntt,
        res.vector@ == whitebox_product(white_data, x.vector@, y.vector@, x.modulus as int),
{
    let n = x.degree;
    let q = x.modulus;
    let mut vector: Vec<i64> = Vec::new();
    let mut d: usize = 0;
    while d < n
        invariant
            white_data.wf(),
            x.wf(),
            y.wf(),
            n == x.degree,
            n == white_data.degree(),
            y.degree == n,
            q == x.modulus,
            d <= n,
            vector@.len() == d,
            forall|c: int|
                0 <= c < d ==> vector@[c] == mont_mult_value(
                    white_data.fb@[c]@,
                    white_data.sb@[c]@,
                    x.vector@[c] as int,
                    y.vector@[c] as int,
                    q as int,
                    white_data.beta@,
                    white_data.beta_p@,
                ),
        decreases n - d,
    {
        vector.push(mont_mult(d, x.vector[d], y.vector[d], q, white_data));
        d += 1;
    }
    assert(vector@ =~= whitebox_product(white_data, x.vector@, y.vector@, q as int));
    let checksum = compute_crt_checksum(vector.as_slice());
    NTRUVector { vector, degree: n, modulus: q, ntt: true, checksum }
}

/// The plaintext bit of one decrypted coefficient.
fn demask(value: i64, mask_bit: i64, q: i64) -> (bit: i64)
    requires
        q > 0,
    ensures
        bit == demasked_bit(value as int, mask_bit as int, q as int),
        0 <= bit <= 1,
{
    let v = rem_euclid(value, q);
    if v > q / 2 {
        let s = add_mod(v, mask_bit, 2);
        proof {
            lemma_sub_mod_noop_right(1, v + mask_bit, 2);
        }
        sub_mod(1, s, 2)
    } else {
        add_mod(v, mask_bit, 2)
    }
}

/// A row of a table: 32 non-negative entries.
pub open spec fn row_shape(row: Seq<i64>) -> bool {
    row.len() == TABLE_SIDE && forall|c: int| 0 <= c < TABLE_SIDE ==> #[trigger] row[c] >= 0
}

/// A table: 32 rows.
pub open spec fn table_shape(table: Seq<Vec<i64>>) -> bool {
    table.len() == TABLE_SIDE && forall|j: int|
        0 <= j < TABLE_SIDE ==> row_shape((#[trigger] table[j])@)
}

fn row_well_formed(row: &Vec<i64>) -> (ok: bool)
    ensures
        ok == row_shape(row@),
{
    if row.len() != TABLE_SIDE {
        return false;
    }
    let mut l: usize = 0;
    while l < TABLE_SIDE
        invariant
            l <= TABLE_SIDE,
            row@.len() == TABLE_SIDE,
            forall|c: int| 0 <= c < l ==> #[trigger] row@[c] >= 0,
        decreases TABLE_SIDE - l,
    {
        if row[l] < 0 {
            return false;
        }
        l += 1;
    }
    true
}

fn table_well_formed(table: &Vec<Vec<i64>>) -> (ok: bool)
    ensures
        ok == table_shape(table@),
{
    if table.len() != TABLE_SIDE {
        return false;
    }
    let mut j: usize = 0;
    while j < TABLE_SIDE
        invariant
            j <= TABLE_SIDE,
            table@.len() == TABLE_SIDE,
            forall|r: int| 0 <= r < j ==> row_shape((#[trigger] table@[r])@),
        decreases TABLE_SIDE - j,
    {
        if !row_well_formed(&table[j]) {
            return false;
        }
        j += 1;
    }
    true
}

impl WhiteData {
    /// Whether the tables of one box have the shape the decryptor relies on.
    fn tables_well_formed(family: &Vec<Vec<Vec<i64>>>) -> (ok: bool)
        ensures
            ok == Self::tables_ok(family@, family@.len() as int),
    {
        let n = family.len();
        let mut d: usize = 0;
        while d < n
            invariant
                n == family@.len(),
                d <= n,
                forall|r: int| 0 <= r < d ==> table_shape((#[trigger] family@[r])@),
            decreases n - d,
        {
            if !table_well_formed(&family[d]) {
                proof {
                    let t = family@[d as int]@;
                    if Self::tables_ok(family@, n as int) {
                        assert(t.len() == TABLE_SIDE);
                        assert forall|j: int| 0 <= j < TABLE_SIDE implies row_shape(
                            (#[trigger] t[j])@,
                        ) by {
                            assert(family@[d as int]@[j]@.len() == TABLE_SIDE);
                            assert forall|c: int| 0 <= c < TABLE_SIDE implies #[trigger] t[j]@[c]
                                >= 0 by {
                                assert(family@[d as int]@[j]@[c] >= 0);
                            }
                        }
                    }
                }
                return false;
            }
            d += 1;
        }
        proof {
            assert forall|r: int| 0 <= r < n implies (#[trigger] family@[r])@.len()
                == TABLE_SIDE by {
                assert(table_shape(family@[r]@));
            }
            assert forall|r: int, j: int|
                0 <= r < n && 0 <= j < TABLE_SIDE implies (#[trigger] family@[r]@[j])@.len()
                == TABLE_SIDE by {
                assert(table_shape(family@[r]@));
                assert(row_shape(family@[r]@[j]@));
            }
            assert forall|r: int, j: int, l: int|
                0 <= r < n && 0 <= j < TABLE_SIDE && 0 <= l < TABLE_SIDE implies #[trigger] family@[r]@[j]@[l]
                >= 0 by {
                assert(table_shape(family@[r]@));
                assert(row_shape(family@[r]@[j]@));
            }
        }
        true
    }

    /// Whether the data has the shape the decryptor relies on.
    pub fn is_well_formed(&self) -> (ok: bool)
        ensures
            ok == self.wf(),
    {
        if !is_small_base(self.beta.as_slice()) || !is_small_base(self.beta_p.as_slice()) {
            return false;
        }
        if self.beta.len() != self.k || self.beta_p.len() != self.k {
            return false;
        }
        proof {
            lemma_product_positive(self.beta@);
            lemma_product_positive(self.beta_p@);
        }
        let m = match product(self.beta.as_slice()) {
            Some(p) => p,
            None => 1,
        };
        let m_p = match product(self.beta_p.as_slice()) {
            Some(p) => p,
            None => 1,
        };
        let (g, _, _) = xgcd(m, m_p);
        if g != 1 {
            return false;
        }
        if scheme_of(self.chal).is_none() {
            return false;
        }
        let n = self.fb.len();
        if self.sb.len() != n || self.mask.len() != n {
            return false;
        }
        if !(self.rotate < n || (n == 0 && self.rotate == 0)) {
            return false;
        }
        if !Self::tables_well_formed(&self.fb) {
            return false;
        }
        if !Self::tables_well_formed(&self.sb) {
            return false;
        }
        true
    }
}

/// Which error, if any, a decryption gives; checksums come first.
pub open spec fn decrypt_error(
    w: &WhiteData,
    a1: &NTRUVector,
    a2: &NTRUVector,
    degree: usize,
    modulus: i64,
) -> Option<DecryptError> {
    if !(w.beta_checksum@ == crate::checksum::blake3_digest(
        crate::checksum::i64_seq_le_bytes(w.beta@),
    )) {
        Some(DecryptError::BetaChecksum)
    } else if !(w.beta_p_checksum@ == crate::checksum::blake3_digest(
        crate::checksum::i64_seq_le_bytes(w.beta_p@),
    )) {
        Some(DecryptError::BetaPChecksum)
    } else if !(w.mask_checksum@ == crate::checksum::blake3_digest(
        crate::checksum::i64_seq_le_bytes(w.mask@),
    )) {
        Some(DecryptError::MaskChecksum)
    } else if !a1.checksum_ok() || !a2.checksum_ok() {
        Some(DecryptError::CiphertextChecksum)
    } else if !(w.wf() && a1.wf() && a2.wf() && w.data_checksum_ok()) {
        Some(DecryptError::Malformed)
    } else if !(a1.degree == degree && a2.degree == degree && w.degree() == degree && a1.modulus
        == modulus && a2.modulus == modulus) {
        Some(DecryptError::ShapeMismatch)
    } else if a1.ntt || a2.ntt {
        Some(DecryptError::Ring(RingError::WrongDomain))
    } else if !power_of_two(degree as int) {
        Some(DecryptError::Ring(RingError::DegreeNotPowerOfTwo))
    } else if !(is_negacyclic_root(w.root as int, degree as nat, modulus as int)
        && is_negacyclic_root(w.unroot as int, degree as nat, modulus as int)) {
        Some(DecryptError::InvalidRoot)
    } else {
        None
    }
}

/// The decryption itself, once every check has passed.
fn decrypt_white(
    a1_vec: &NTRUVector,
    a2_vec: &NTRUVector,
    degree: usize,
    modulus: i64,
    white_data: &WhiteData,
) -> (bits: Vec<i64>)
    requires
        decrypt_error(white_data, a1_vec, a2_vec, degree, modulus) is None,
    ensures
        bits@ == decrypted_bits(white_data, a1_vec.vector@, a2_vec.vector@, modulus as int),
{
    let mut tmp_a1 = a1_vec.duplicate();
    let mut tmp_a2 = a2_vec.duplicate();
    let root = white_data.root;
    let r1 = tmp_a1.goto_ntt(root);
    let r2 = tmp_a2.goto_ntt(root);
    assert(r1 is Ok && r2 is Ok);
    let mut tmp = whitebox_mul(&tmp_a1, &tmp_a2, white_data);
    let ghost product = tmp.vector@;
    let r3 = tmp.goback_ntt(white_data.unroot, white_data.ninv);
    assert(r3 is Ok);
    let scheme = scheme_of(white_data.chal);
    let rotate_mask = match scheme {
        Some(Scheme::MM3) => true,
        _ => false,
    };
    let rot = white_data.rotate;
    let mut m: Vec<i64> = Vec::new();
    let mut i: usize = 0;
    while i < degree
        invariant
            white_data.wf(),
            white_data.degree() == degree,
            modulus > 0,
            tmp.vector@.len() == degree,
            a1_vec.vector@.len() == degree,
            rot == white_data.rotate,
            rotate_mask == (scheme_of_selector(white_data.chal) == Some(Scheme::MM3)),
            i <= degree,
            m@.len() == i,
            forall|c: int|
                0 <= c < i ==> m@[c] == (if rotate_mask {
                    demasked_bit(
                        tmp.vector@[(c + rot) % (degree as int)] as int,
                        white_data.mask@[c] as int,
                        modulus as int,
                    )
                } else {
                    demasked_bit(tmp.vector@[c] as int, 0, modulus as int)
                }),
        decreases degree - i,
    {
        if rotate_mask {
            let at: usize = if i >= degree - rot {
                i - (degree - rot)
            } else {
                i + rot
            };
            proof {
                if i >= degree - rot {
                    lemma_fundamental_div_mod_converse(
                        (i + rot) as int,
                        degree as int,
                        1,
                        at as int,
                    );
                } else {
                    lemma_small_mod((i + rot) as nat, degree as nat);
                }
            }
            m.push(demask(tmp.vector[at], white_data.mask[i], modulus));
        } else {
            m.push(demask(tmp.vector[i], 0, modulus));
        }
        i += 1;
    }
    assert(m@ =~= decrypted_bits(white_data, a1_vec.vector@, a2_vec.vector@, modulus as int));
    m
}

/// White-box decryption of the ciphertext `(a1, a2)`.
///
/// Every checksum is verified before any table is read: a mismatch aborts
/// the decryption.
pub fn decrypt_message(
    white_data: &WhiteData,
    a1: &NTRUVector,
    a2: &NTRUVector,
    degree: usize,
    modulus: i64,
) -> (res: Result<Vec<i64>, DecryptError>)
    ensures
        match res {
            Ok(bits) => decrypt_error(white_data, a1, a2, degree, modulus) is None && bits@
                == decrypted_bits(white_data, a1.vector@, a2.vector@, modulus as int),
            Err(e) => decrypt_error(white_data, a1, a2, degree, modulus) == Some(e),
        },
{
    let beta_checksum = compute_crt_checksum(white_data.beta.as_slice());
    if !digest_eq(&beta_checksum, &white_data.beta_checksum) {
        return Err(DecryptError::BetaChecksum);
    }
    let beta_p_checksum = compute_crt_checksum(white_data.beta_p.as_slice());
    if !digest_eq(&beta_p_checksum, &white_data.beta_p_checksum) {
        return Err(DecryptError::BetaPChecksum);
    }
    let mask_checksum = compute_crt_checksum(white_data.mask.as_slice());
    if !digest_eq(&mask_checksum, &white_data.mask_checksum) {
        return Err(DecryptError::MaskChecksum);
    }
    if !a1.verify_checksum() || !a2.verify_checksum() {
        return Err(DecryptError::CiphertextChecksum);
    }
    if !white_data.is_well_formed() || !a1.is_well_formed() || !a2.is_well_formed()
        || !white_data.verify_data_checksum() {
        return Err(DecryptError::Malformed);
    }
    if a1.degree != degree || a2.degree != degree || white_data.fb.len() != degree || a1.modulus
        != modulus || a2.modulus != modulus {
        return Err(DecryptError::ShapeMismatch);
    }
    if a1.ntt || a2.ntt {
        return Err(DecryptError::Ring(RingError::WrongDomain));
    }
    if log2_exact(degree).is_none() {
        return Err(DecryptError::Ring(RingError::DegreeNotPowerOfTwo));
    }
    if !check_negacyclic_root(white_data.root, degree, modulus) || !check_negacyclic_root(
        white_data.unroot,
        degree,
        modulus,
    ) {
        return Err(DecryptError::InvalidRoot);
    }
    Ok(decrypt_white(a1, a2, degree, modulus, white_data))
}

} // verus!
