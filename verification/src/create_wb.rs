//! The white-box table generator: lookup tables that carry the effect of
//! the secret key without holding it.

use vstd::prelude::*;
use vstd::arithmetic::div_mod::*;
use vstd::arithmetic::power::*;
use crate::crt::{product, seq_product};
use crate::lattice::{negacyclic_mul, ring_add, ring_neg, NTRUVector, RingError};
use crate::modular::{add_mod, coprime, inverse_mod, mod_inverse, mul_mod, rem_euclid, xgcd};
use crate::ntt::log2_exact;
use crate::ntt_spec::{forward_ntt, is_negacyclic_root, power_of_two};
use crate::whitebox::{
    five_bit, is_small_base, lemma_pack_bound, lemma_pow32, lemma_slot_of_pack, pack_slots,
    slot_of, small_base, Scheme, WhiteData, TABLE_SIDE,
};

verus! {

/// Why no white-box data could be generated.
#[derive(Clone, Copy, Debug, PartialEq, Eq, Structural)]
pub enum WhiteBoxError {
    /// A ring operation was refused.
    Ring(RingError),
    /// A residue basis is not a small pairwise coprime basis of `k` moduli.
    InvalidBase,
    /// The given root is not a root of `X^n + 1` modulo the modulus.
    InvalidRoot,
    /// A number that must be inverted has no inverse.
    NoInverse,
    /// The selector names no scheme.
    InvalidScheme,
    /// The random material does not fit the ring.
    InvalidSeed,
}

/// The secret-dependent vectors the tables are built from, all in the
/// transform domain.
#[derive(Debug)]
pub struct SecretVectors {
    pub first: NTRUVector,
    pub second: NTRUVector,
    pub sk_first: NTRUVector,
    pub sk_second: NTRUVector,
}

/// The linear combination of secret-dependent digits that a scheme looks up
/// for the digit pair `(a, b)`.
pub open spec fn box_term(scheme: Scheme, a: int, b: int, d0: int, d1: int, d2: int, d3: int) -> int {
    match scheme {
        Scheme::MM3 => a * d0 + b * d1 + d1 * d2,
        Scheme::MM2 => a * d0 + b * d1 + a * d2 + b * d3,
        Scheme::MM => a * d0 + b,
    }
}

/// One slot of a table entry: the term for the digits of `j` and `l` modulo
/// `m`, times the digit of `factor` (negated for the first box), modulo `m`.
pub open spec fn box_slot(
    scheme: Scheme,
    negate: bool,
    x0: int,
    x1: int,
    x2: int,
    x3: int,
    factor: int,
    m: int,
    j: int,
    l: int,
) -> int {
    let term = box_term(scheme, j % m, l % m, x0 % m, x1 % m, x2 % m, x3 % m) % m;
    let f = if negate {
        (-(factor % m)) % m
    } else {
        factor % m
    };
    (term * f) % m
}

/// The slots of the table entry at `(j, l)`, one per modulus of the basis.
pub open spec fn box_slots(
    scheme: Scheme,
    negate: bool,
    x0: int,
    x1: int,
    x2: int,
    x3: int,
    factor: int,
    base: Seq<i64>,
    j: int,
    l: int,
) -> Seq<i64> {
    Seq::new(
        base.len(),
        |i: int| box_slot(scheme, negate, x0, x1, x2, x3, factor, base[i] as int, j, l) as i64,
    )
}

/// The table entry at `(j, l)`: its slots packed five bits apart.
pub open spec fn box_entry(
    scheme: Scheme,
    negate: bool,
    x0: int,
    x1: int,
    x2: int,
    x3: int,
    factor: int,
    base: Seq<i64>,
    j: int,
    l: int,
) -> int {
    pack_slots(box_slots(scheme, negate, x0, x1, x2, x3, factor, base, j, l))
}

/// Every table of `family` holds the entries of the scheme for the
/// secret-dependent values at its dimension.
pub open spec fn box_holds(
    family: Seq<Vec<Vec<i64>>>,
    scheme: Scheme,
    negate: bool,
    v0: Seq<i64>,
    v1: Seq<i64>,
    v2: Seq<i64>,
    v3: Seq<i64>,
    factor: int,
    base: Seq<i64>,
) -> bool {
    forall|d: int, j: int, l: int|
        0 <= d < family.len() && 0 <= j < TABLE_SIDE && 0 <= l < TABLE_SIDE ==> #[trigger] family[d]@[j]@[l]
            == box_entry(
            scheme,
            negate,
            v0[d] as int,
            v1[d] as int,
            v2[d] as int,
            v3[d] as int,
            factor,
            base,
            j,
            l,
        )
}

/// Every entry of `family` uses only its `k` five-bit slots.
pub open spec fn entries_in_range(family: Seq<Vec<Vec<i64>>>, k: nat) -> bool {
    forall|d: int, j: int, l: int|
        0 <= d < family.len() && 0 <= j < TABLE_SIDE && 0 <= l < TABLE_SIDE ==> 0
            <= #[trigger] family[d]@[j]@[l] < pow(32, k)
}

/// The slots of an entry are residues by the moduli of a small basis, so
/// each fits in five bits.
pub proof fn lemma_box_slots_five_bit(
    scheme: Scheme,
    negate: bool,
    x0: int,
    x1: int,
    x2: int,
    x3: int,
    factor: int,
    base: Seq<i64>,
    j: int,
    l: int,
)
    requires
        small_base(base),
    ensures
        five_bit(box_slots(scheme, negate, x0, x1, x2, x3, factor, base, j, l)),
        0 <= box_entry(scheme, negate, x0, x1, x2, x3, factor, base, j, l) < pow(32, base.len()),
{
    let slots = box_slots(scheme, negate, x0, x1, x2, x3, factor, base, j, l);
    assert forall|i: int| 0 <= i < slots.len() implies 0 <= #[trigger] slots[i] < 32 by {
        assert(0 < base[i] <= 32);
    }
    lemma_pack_bound(slots);
}

/// Structural invariant of the generated tables: every slot of every entry
/// is the residue the scheme defines, and lies in `[0, 32)`.
pub proof fn lemma_table_slots(
    family: Seq<Vec<Vec<i64>>>,
    scheme: Scheme,
    negate: bool,
    v0: Seq<i64>,
    v1: Seq<i64>,
    v2: Seq<i64>,
    v3: Seq<i64>,
    factor: int,
    base: Seq<i64>,
    d: int,
    j: int,
    l: int,
    i: nat,
)
    requires
        small_base(base),
        box_holds(family, scheme, negate, v0, v1, v2, v3, factor, base),
        0 <= d < family.len(),
        0 <= j < TABLE_SIDE,
        0 <= l < TABLE_SIDE,
        i < base.len(),
    ensures
        0 <= slot_of(family[d]@[j]@[l] as int, i) < 32,
        slot_of(family[d]@[j]@[l] as int, i) == box_slot(
            scheme,
            negate,
            v0[d] as int,
            v1[d] as int,
            v2[d] as int,
            v3[d] as int,
            factor,
            base[i as int] as int,
            j,
            l,
        ),
{
    let (x0, x1, x2, x3) = (v0[d] as int, v1[d] as int, v2[d] as int, v3[d] as int);
    lemma_box_slots_five_bit(scheme, negate, x0, x1, x2, x3, factor, base, j, l);
    lemma_slot_of_pack(box_slots(scheme, negate, x0, x1, x2, x3, factor, base, j, l), i);
    assert(0 < base[i as int] <= 32);
}

/// One slot of a table entry.
fn compute_slot(
    scheme: Scheme,
    negate: bool,
    x0: i64,
    x1: i64,
    x2: i64,
    x3: i64,
    factor: i64,
    m: i64,
    j: i64,
    l: i64,
) -> (slot: i64)
    requires
        0 < m <= 32,
    ensures
        slot == box_slot(
            scheme,
            negate,
            x0 as int,
            x1 as int,
            x2 as int,
            x3 as int,
            factor as int,
            m as int,
            j as int,
            l as int,
        ),
        0 <= slot < m,
{
    let a = rem_euclid(j, m);
    let b = rem_euclid(l, m);
    let d0 = rem_euclid(x0, m);
    let d1 = rem_euclid(x1, m);
    let d2 = rem_euclid(x2, m);
    let d3 = rem_euclid(x3, m);
    proof {
        assert(0 <= a * d0 <= 961 && 0 <= b * d1 <= 961 && 0 <= d1 * d2 <= 961 && 0 <= a * d2
            <= 961 && 0 <= b * d3 <= 961) by (nonlinear_arith)
            requires
                0 <= a <= 31,
                0 <= b <= 31,
                0 <= d0 <= 31,
                0 <= d1 <= 31,
                0 <= d2 <= 31,
                0 <= d3 <= 31,
        ;
    }
    let raw: i64 = match scheme {
        Scheme::MM3 => a * d0 + b * d1 + d1 * d2,
        Scheme::MM2 => a * d0 + b * d1 + a * d2 + b * d3,
        Scheme::MM => a * d0 + b,
    };
    let term = rem_euclid(raw, m);
    let digit = rem_euclid(factor, m);
    let f = if negate {
        rem_euclid(-digit, m)
    } else {
        digit
    };
    proof {
        assert(0 <= term * f <= 961) by (nonlinear_arith)
            requires
                0 <= term <= 31,
                0 <= f <= 31,
        ;
    }
    rem_euclid(term * f, m)
}

/// The table entry at `(j, l)`.
fn compute_entry(
    scheme: Scheme,
    negate: bool,
    x0: i64,
    x1: i64,
    x2: i64,
    x3: i64,
    factor: i64,
    base: &[i64],
    j: i64,
    l: i64,
) -> (entry: i64)
    requires
        small_base(base@),
    ensures
        entry == box_entry(
            scheme,
            negate,
            x0 as int,
            x1 as int,
            x2 as int,
            x3 as int,
            factor as int,
            base@,
            j as int,
            l as int,
        ),
        0 <= entry < pow(32, base@.len()),
{
    let ghost slots = box_slots(
        scheme,
        negate,
        x0 as int,
        x1 as int,
        x2 as int,
        x3 as int,
        factor as int,
        base@,
        j as int,
        l as int,
    );
    let mut acc: i64 = 0;
    let mut weight: i64 = 1;
    let mut i: usize = 0;
    proof {
        lemma_pow0(32);
        lemma_box_slots_five_bit(
            scheme,
            negate,
            x0 as int,
            x1 as int,
            x2 as int,
            x3 as int,
            factor as int,
            base@,
            j as int,
            l as int,
        );
        assert(slots.take(0) =~= Seq::<i64>::empty());
    }
    while i < base.len()
        invariant
            small_base(base@),
            slots == box_slots(
                scheme,
                negate,
                x0 as int,
                x1 as int,
                x2 as int,
                x3 as int,
                factor as int,
                base@,
                j as int,
                l as int,
            ),
            five_bit(slots),
            i <= base.len(),
            weight == pow(32, i as nat),
            acc == pack_slots(slots.take(i as int)),
            0 <= acc < weight,
        decreases base.len() - i,
    {
        assert(0 < base@[i as int] <= 32);
        let slot = compute_slot(scheme, negate, x0, x1, x2, x3, factor, base[i], j, l);
        proof {
            let next = slots.take(i + 1);
            assert(next.drop_last() =~= slots.take(i as int));
            assert(next.last() == slots[i as int]);
            assert(slots[i as int] == slot);
            lemma_pow32(i as nat);
            lemma_pow_increases(32, (i + 1) as nat, 12);
            assert(pow(32, 12) == 0x1000_0000_0000_0000) by {
                reveal_with_fuel(pow, 13);
            }
            assert(0 <= slot * weight <= 31 * weight) by (nonlinear_arith)
                requires
                    0 <= slot <= 31,
                    weight >= 1,
            ;
        }
        acc = acc + slot * weight;
        i += 1;
        if i < base.len() {
            weight = weight * 32;
        } else {
            proof {
                assert(slots.take(i as int) =~= slots);
            }
            return acc;
        }
    }
    proof {
        assert(slots.take(i as int) =~= slots);
    }
    acc
}

/// One row of a table: the entries for a fixed `j`.
fn build_row(
    scheme: Scheme,
    negate: bool,
    x0: i64,
    x1: i64,
    x2: i64,
    x3: i64,
    factor: i64,
    base: &[i64],
    j: usize,
) -> (row: Vec<i64>)
    requires
        small_base(base@),
        j < TABLE_SIDE,
    ensures
        row@.len() == TABLE_SIDE,
        forall|l: int|
            0 <= l < TABLE_SIDE ==> #[trigger] row@[l] == box_entry(
                scheme,
                negate,
                x0 as int,
                x1 as int,
                x2 as int,
                x3 as int,
                factor as int,
                base@,
                j as int,
                l,
            ),
        forall|l: int| 0 <= l < TABLE_SIDE ==> 0 <= #[trigger] row@[l] < pow(32, base@.len()),
{
    let mut row: Vec<i64> = Vec::new();
    let mut l: usize = 0;
    while l < TABLE_SIDE
        invariant
            small_base(base@),
            j < TABLE_SIDE,
            l <= TABLE_SIDE,
            row@.len() == l,
            forall|c: int|
                0 <= c < l ==> #[trigger] row@[c] == box_entry(
                    scheme,
                    negate,
                    x0 as int,
                    x1 as int,
                    x2 as int,
                    x3 as int,
                    factor as int,
                    base@,
                    j as int,
                    c,
                ),
            forall|c: int| 0 <= c < l ==> 0 <= #[trigger] row@[c] < pow(32, base@.len()),
        decreases TABLE_SIDE - l,
    {
        row.push(compute_entry(scheme, negate, x0, x1, x2, x3, factor, base, j as i64, l as i64));
        l += 1;
    }
    row
}

/// The table of one dimension.
fn build_table(
    scheme: Scheme,
    negate: bool,
    x0: i64,
    x1: i64,
    x2: i64,
    x3: i64,
    factor: i64,
    base: &[i64],
) -> (table: Vec<Vec<i64>>)
    requires
        small_base(base@),
    ensures
        table@.len() == TABLE_SIDE,
        forall|j: int| 0 <= j < TABLE_SIDE ==> (#[trigger] table@[j])@.len() == TABLE_SIDE,
        forall|j: int, l: int|
            0 <= j < TABLE_SIDE && 0 <= l < TABLE_SIDE ==> #[trigger] table@[j]@[l] == box_entry(
                scheme,
                negate,
                x0 as int,
                x1 as int,
                x2 as int,
                x3 as int,
                factor as int,
                base@,
                j,
                l,
            ),
        forall|j: int, l: int|
            0 <= j < TABLE_SIDE && 0 <= l < TABLE_SIDE ==> 0 <= #[trigger] table@[j]@[l] < pow(
                32,
                base@.len(),
            ),
{
    let mut table: Vec<Vec<i64>> = Vec::new();
    let mut j: usize = 0;
    while j < TABLE_SIDE
        invariant
            small_base(base@),
            j <= TABLE_SIDE,
            table@.len() == j,
            forall|r: int| 0 <= r < j ==> (#[trigger] table@[r])@.len() == TABLE_SIDE,
            forall|r: int, l: int|
                0 <= r < j && 0 <= l < TABLE_SIDE ==> #[trigger] table@[r]@[l] == box_entry(
                    scheme,
                    negate,
                    x0 as int,
                    x1 as int,
                    x2 as int,
                    x3 as int,
                    factor as int,
                    base@,
                    r,
                    l,
                ),
            forall|r: int, l: int|
                0 <= r < j && 0 <= l < TABLE_SIDE ==> 0 <= #[trigger] table@[r]@[l] < pow(
                    32,
                    base@.len(),
                ),
        decreases TABLE_SIDE - j,
    {
        let row = build_row(scheme, negate, x0, x1, x2, x3, factor, base, j);
        table.push(row);
        j += 1;
    }
    table
}

/// One box: a table per ring dimension.
pub fn build_box(
    scheme: Scheme,
    negate: bool,
    v0: &Vec<i64>,
    v1: &Vec<i64>,
    v2: &Vec<i64>,
    v3: &Vec<i64>,
    factor: i64,
    base: &[i64],
) -> (family: Vec<Vec<Vec<i64>>>)
    requires
        small_base(base@),
        v1@.len() == v0@.len(),
        v2@.len() == v0@.len(),
        v3@.len() == v0@.len(),
    ensures
        WhiteData::tables_ok(family@, v0@.len() as int),
        box_holds(family@, scheme, negate, v0@, v1@, v2@, v3@, factor as int, base@),
        entries_in_range(family@, base@.len()),
{
    let n = v0.len();
    let mut family: Vec<Vec<Vec<i64>>> = Vec::new();
    let mut d: usize = 0;
    while d < n
        invariant
            small_base(base@),
            n == v0@.len(),
            v1@.len() == n,
            v2@.len() == n,
            v3@.len() == n,
            d <= n,
            family@.len() == d,
            forall|r: int| 0 <= r < d ==> (#[trigger] family@[r])@.len() == TABLE_SIDE,
            forall|r: int, j: int|
                0 <= r < d && 0 <= j < TABLE_SIDE ==> (#[trigger] family@[r]@[j])@.len()
                    == TABLE_SIDE,
            forall|r: int, j: int, l: int|
                0 <= r < d && 0 <= j < TABLE_SIDE && 0 <= l < TABLE_SIDE ==> #[trigger] family@[r]@[j]@[l]
                    == box_entry(
                    scheme,
                    negate,
                    v0@[r] as int,
                    v1@[r] as int,
                    v2@[r] as int,
                    v3@[r] as int,
                    factor as int,
                    base@,
                    j,
                    l,
                ),
            forall|r: int, j: int, l: int|
                0 <= r < d && 0 <= j < TABLE_SIDE && 0 <= l < TABLE_SIDE ==> 0
                    <= #[trigger] family@[r]@[j]@[l] < pow(32, base@.len()),
        decreases n - d,
    {
        let table = build_table(scheme, negate, v0[d], v1[d], v2[d], v3[d], factor, base);
        family.push(table);
        d += 1;
    }
    family
}

/// `a2 + a1 * sk`: what an encryption `(a1, a2)` hides, up to noise.
pub open spec fn masked_plain(sk: Seq<i64>, a1: Seq<i64>, a2: Seq<i64>, q: int) -> Seq<i64> {
    ring_add(a2, negacyclic_mul(a1, sk, q), q)
}

/// Whether `root^n` is `-1` modulo `q`.
pub fn check_negacyclic_root(root: i64, n: usize, q: i64) -> (ok: bool)
    requires
        q > 0,
    ensures
        ok == is_negacyclic_root(root as int, n as nat, q as int),
{
    let half: usize = n / 2;
    let p = crate::modular::pow(root, half as i64, q);
    let squared = mul_mod(p, p, q);
    let full = if n % 2 == 1 {
        mul_mod(squared, root, q)
    } else {
        squared
    };
    proof {
        let (r, qi, h) = (root as int, q as int, half as nat);
        lemma_pow_adds(r, h, h);
        lemma_mul_mod_noop(pow(r, h), pow(r, h), qi);
        if n % 2 == 1 {
            lemma_pow1(r);
            lemma_pow_adds(r, h + h, 1);
            lemma_mul_mod_noop_left(pow(r, h + h), r, qi);
        }
        assert(full == pow(r, n as nat) % qi);
        lemma_add_mod_noop(pow(r, n as nat), 1, qi);
        lemma_mod_twice(pow(r, n as nat), qi);
        lemma_add_mod_noop(full as int, 1, qi);
    }
    add_mod(full, 1, q) == 0
}

/// Which error, if any, deriving the secret vectors gives.
pub open spec fn ring_inputs_error(
    sk: &NTRUVector,
    a1_x: &NTRUVector,
    a2_x: &NTRUVector,
    a1_y: &NTRUVector,
    a2_y: &NTRUVector,
    root: i64,
) -> Option<WhiteBoxError> {
    if sk.mismatch(a1_x) is Some {
        Some(WhiteBoxError::Ring(sk.mismatch(a1_x)->0))
    } else if sk.mismatch(a2_x) is Some {
        Some(WhiteBoxError::Ring(sk.mismatch(a2_x)->0))
    } else if sk.mismatch(a1_y) is Some {
        Some(WhiteBoxError::Ring(sk.mismatch(a1_y)->0))
    } else if sk.mismatch(a2_y) is Some {
        Some(WhiteBoxError::Ring(sk.mismatch(a2_y)->0))
    } else if sk.ntt || a1_x.ntt || a2_x.ntt || a1_y.ntt || a2_y.ntt {
        Some(WhiteBoxError::Ring(RingError::WrongDomain))
    } else if !power_of_two(sk.degree as int) {
        Some(WhiteBoxError::Ring(RingError::DegreeNotPowerOfTwo))
    } else if !is_negacyclic_root(root as int, sk.degree as nat, sk.modulus as int) {
        Some(WhiteBoxError::InvalidRoot)
    } else {
        None
    }
}

/// The four vectors of `SecretVectors`, from the secret and two encryptions
/// `(a1_x, a2_x)` and `(a1_y, a2_y)`:
/// `x = a2_x + a1_x * sk`, `y = -(a2_y + a1_y * sk)`, `sk * x` and `sk * y`,
/// each transformed with `root`.
pub open spec fn secret_vectors_are(
    s: &SecretVectors,
    sk: &NTRUVector,
    a1_x: &NTRUVector,
    a2_x: &NTRUVector,
    a1_y: &NTRUVector,
    a2_y: &NTRUVector,
    root: i64,
) -> bool {
    let q = sk.modulus as int;
    let x = masked_plain(sk.vector@, a1_x.vector@, a2_x.vector@, q);
    let y = ring_neg(masked_plain(sk.vector@, a1_y.vector@, a2_y.vector@, q), q);
    &&& s.first.vector@ == forward_ntt(x, root as int, q)
    &&& s.second.vector@ == forward_ntt(y, root as int, q)
    &&& s.sk_first.vector@ == forward_ntt(negacyclic_mul(sk.vector@, x, q), root as int, q)
    &&& s.sk_second.vector@ == forward_ntt(negacyclic_mul(sk.vector@, y, q), root as int, q)
    &&& s.first.vector@.len() == sk.degree
    &&& s.second.vector@.len() == sk.degree
    &&& s.sk_first.vector@.len() == sk.degree
    &&& s.sk_second.vector@.len() == sk.degree
}

/// Derive the secret-dependent vectors that the tables encode.
pub fn derive_secret_vectors(
    sk: &NTRUVector,
    a1_x: &NTRUVector,
    a2_x: &NTRUVector,
    a1_y: &NTRUVector,
    a2_y: &NTRUVector,
    root: i64,
) -> (res: Result<SecretVectors, WhiteBoxError>)
    requires
        sk.wf(),
        a1_x.wf(),
        a2_x.wf(),
        a1_y.wf(),
        a2_y.wf(),
    ensures
        match res {
            Ok(s) => ring_inputs_error(sk, a1_x, a2_x, a1_y, a2_y, root) is None
                && secret_vectors_are(&s, sk, a1_x, a2_x, a1_y, a2_y, root),
            Err(e) => ring_inputs_error(sk, a1_x, a2_x, a1_y, a2_y, root) == Some(e),
        },
{
    if let Some(e) = mismatch_of(sk, a1_x) {
        return Err(WhiteBoxError::Ring(e));
    }
    if let Some(e) = mismatch_of(sk, a2_x) {
        return Err(WhiteBoxError::Ring(e));
    }
    if let Some(e) = mismatch_of(sk, a1_y) {
        return Err(WhiteBoxError::Ring(e));
    }
    if let Some(e) = mismatch_of(sk, a2_y) {
        return Err(WhiteBoxError::Ring(e));
    }
    if sk.ntt || a1_x.ntt || a2_x.ntt || a1_y.ntt || a2_y.ntt {
        return Err(WhiteBoxError::Ring(RingError::WrongDomain));
    }
    if log2_exact(sk.degree).is_none() {
        return Err(WhiteBoxError::Ring(RingError::DegreeNotPowerOfTwo));
    }
    if !check_negacyclic_root(root, sk.degree, sk.modulus) {
        return Err(WhiteBoxError::InvalidRoot);
    }
    let ax = match a1_x.mul(sk) {
        Ok(v) => v,
        Err(e) => {
            return Err(WhiteBoxError::Ring(e));
        },
    };
    let mut first = match a2_x.add(&ax) {
        Ok(v) => v,
        Err(e) => {
            return Err(WhiteBoxError::Ring(e));
        },
    };
    let ay = match a1_y.mul(sk) {
        Ok(v) => v,
        Err(e) => {
            return Err(WhiteBoxError::Ring(e));
        },
    };
    let mut second = match a2_y.add(&ay) {
        Ok(v) => v.neg(),
        Err(e) => {
            return Err(WhiteBoxError::Ring(e));
        },
    };
    let mut sk_first = match sk.mul(&first) {
        Ok(v) => v,
        Err(e) => {
            return Err(WhiteBoxError::Ring(e));
        },
    };
    let mut sk_second = match sk.mul(&second) {
        Ok(v) => v,
        Err(e) => {
            return Err(WhiteBoxError::Ring(e));
        },
    };
    if let Err(e) = first.goto_ntt(root) {
        return Err(WhiteBoxError::Ring(e));
    }
    if let Err(e) = second.goto_ntt(root) {
        return Err(WhiteBoxError::Ring(e));
    }
    if let Err(e) = sk_first.goto_ntt(root) {
        return Err(WhiteBoxError::Ring(e));
    }
    if let Err(e) = sk_second.goto_ntt(root) {
        return Err(WhiteBoxError::Ring(e));
    }
    Ok(SecretVectors { first, second, sk_first, sk_second })
}

/// Which error, if any, combining two vectors gives.
fn mismatch_of(a: &NTRUVector, b: &NTRUVector) -> (res: Option<RingError>)
    ensures
        res == a.mismatch(b),
{
    if a.degree != b.degree {
        Some(RingError::DegreeMismatch)
    } else if a.modulus != b.modulus {
        Some(RingError::ModulusMismatch)
    } else {
        None
    }
}

/// The product of a basis, which a small basis always has.
fn base_product(base: &[i64]) -> (m: i64)
    requires
        small_base(base@),
    ensures
        m == seq_product(base@),
        m >= 1,
{
    proof {
        crate::crt::lemma_product_positive(base@);
    }
    match product(base) {
        Some(m) => m,
        None => 1,
    }
}

/// The inverse of `a` modulo `m`, if `a` is coprime to `m`.
pub fn checked_inverse(a: i64, m: i64) -> (res: Option<i64>)
    requires
        a >= 0,
        m > 0,
    ensures
        match res {
            Some(x) => coprime(a as nat, m as nat) && x == mod_inverse(a as int, m as int) && 0
                <= x < m,
            None => !coprime(a as nat, m as nat),
        },
{
    let (g, _, _) = xgcd(a, m);
    if g == 1 {
        Some(inverse_mod(a, m))
    } else {
        None
    }
}

/// Which error, if any, building the first box gives.
pub open spec fn first_box_error(
    sk: &NTRUVector,
    a1_x: &NTRUVector,
    a2_x: &NTRUVector,
    a1_y: &NTRUVector,
    a2_y: &NTRUVector,
    root: i64,
    beta: Seq<i64>,
    k: usize,
) -> Option<WhiteBoxError> {
    if !(small_base(beta) && beta.len() == k) {
        Some(WhiteBoxError::InvalidBase)
    } else if ring_inputs_error(sk, a1_x, a2_x, a1_y, a2_y, root) is Some {
        ring_inputs_error(sk, a1_x, a2_x, a1_y, a2_y, root)
    } else if !coprime(sk.modulus as nat, seq_product(beta) as nat) {
        Some(WhiteBoxError::NoInverse)
    } else {
        None
    }
}

/// Which error, if any, building the second box gives.
pub open spec fn second_box_error(
    sk: &NTRUVector,
    a1_x: &NTRUVector,
    a2_x: &NTRUVector,
    a1_y: &NTRUVector,
    a2_y: &NTRUVector,
    root: i64,
    beta: Seq<i64>,
    beta_p: Seq<i64>,
    k: usize,
) -> Option<WhiteBoxError> {
    if !(small_base(beta) && beta.len() == k && small_base(beta_p) && beta_p.len() == k) {
        Some(WhiteBoxError::InvalidBase)
    } else if ring_inputs_error(sk, a1_x, a2_x, a1_y, a2_y, root) is Some {
        ring_inputs_error(sk, a1_x, a2_x, a1_y, a2_y, root)
    } else if !coprime(seq_product(beta) as nat, seq_product(beta_p) as nat) {
        Some(WhiteBoxError::NoInverse)
    } else {
        None
    }
}

/// The tables of `family` are those of `scheme` for the secret `sk` and the
/// two encryptions `(a1_x, a2_x)` and `(a1_y, a2_y)` in the ring modulo `q`,
/// with `factor` folded in over `base`.
pub open spec fn box_is(
    family: Seq<Vec<Vec<i64>>>,
    scheme: Scheme,
    negate: bool,
    q: int,
    sk: Seq<i64>,
    a1_x: Seq<i64>,
    a2_x: Seq<i64>,
    a1_y: Seq<i64>,
    a2_y: Seq<i64>,
    root: i64,
    factor: int,
    base: Seq<i64>,
) -> bool {
    let x = masked_plain(sk, a1_x, a2_x, q);
    let y = ring_neg(masked_plain(sk, a1_y, a2_y, q), q);
    let fx = forward_ntt(x, root as int, q);
    let fy = forward_ntt(y, root as int, q);
    let sx = forward_ntt(negacyclic_mul(sk, x, q), root as int, q);
    let sy = forward_ntt(negacyclic_mul(sk, y, q), root as int, q);
    &&& WhiteData::tables_ok(family, sk.len() as int)
    &&& entries_in_range(family, base.len())
    &&& match scheme {
        Scheme::MM3 => box_holds(family, scheme, negate, sx, fx, fy, sy, factor, base),
        Scheme::MM2 => box_holds(family, scheme, negate, sx, fx, sy, fy, factor, base),
        Scheme::MM => {
            let s = forward_ntt(sk, root as int, q);
            box_holds(family, scheme, negate, s, s, s, s, factor, base)
        },
    }
}

/// The first box of a two-encryption scheme (`MM2` or `MM3`).
fn first_box(
    scheme: Scheme,
    sk: &NTRUVector,
    a1_x: &NTRUVector,
    a2_x: &NTRUVector,
    a1_y: &NTRUVector,
    a2_y: &NTRUVector,
    root: i64,
    beta: &[i64],
    k: usize,
) -> (res: Result<Vec<Vec<Vec<i64>>>, WhiteBoxError>)
    requires
        scheme != Scheme::MM,
        sk.wf(),
        a1_x.wf(),
        a2_x.wf(),
        a1_y.wf(),
        a2_y.wf(),
    ensures
        match res {
            Ok(fb) => first_box_error(sk, a1_x, a2_x, a1_y, a2_y, root, beta@, k) is None && box_is(
                fb@,
                scheme,
                true,
                sk.modulus as int,
                sk.vector@,
                a1_x.vector@,
                a2_x.vector@,
                a1_y.vector@,
                a2_y.vector@,
                root,
                mod_inverse(sk.modulus as int, seq_product(beta@)),
                beta@,
            ),
            Err(e) => first_box_error(sk, a1_x, a2_x, a1_y, a2_y, root, beta@, k) == Some(e),
        },
{
    if !is_small_base(beta) || beta.len() != k {
        return Err(WhiteBoxError::InvalidBase);
    }
    let s = match derive_secret_vectors(sk, a1_x, a2_x, a1_y, a2_y, root) {
        Ok(s) => s,
        Err(e) => {
            return Err(e);
        },
    };
    let m = base_product(beta);
    let n_inv = match checked_inverse(sk.modulus, m) {
        Some(x) => x,
        None => {
            return Err(WhiteBoxError::NoInverse);
        },
    };
    let fb = match scheme {
        Scheme::MM2 => build_box(
            scheme,
            true,
            &s.sk_first.vector,
            &s.first.vector,
            &s.sk_second.vector,
            &s.second.vector,
            n_inv,
            beta,
        ),
        _ => build_box(
            scheme,
            true,
            &s.sk_first.vector,
            &s.first.vector,
            &s.second.vector,
            &s.sk_second.vector,
            n_inv,
            beta,
        ),
    };
    Ok(fb)
}

/// The second box of a two-encryption scheme (`MM2` or `MM3`).
fn second_box(
    scheme: Scheme,
    sk: &NTRUVector,
    a1_x: &NTRUVector,
    a2_x: &NTRUVector,
    a1_y: &NTRUVector,
    a2_y: &NTRUVector,
    root: i64,
    beta: &[i64],
    beta_p: &[i64],
    k: usize,
) -> (res: Result<Vec<Vec<Vec<i64>>>, WhiteBoxError>)
    requires
        scheme != Scheme::MM,
        sk.wf(),
        a1_x.wf(),
        a2_x.wf(),
        a1_y.wf(),
        a2_y.wf(),
    ensures
        match res {
            Ok(sb) => second_box_error(sk, a1_x, a2_x, a1_y, a2_y, root, beta@, beta_p@, k) is None
                && box_is(
                sb@,
                scheme,
                false,
                sk.modulus as int,
                sk.vector@,
                a1_x.vector@,
                a2_x.vector@,
                a1_y.vector@,
                a2_y.vector@,
                root,
                mod_inverse(seq_product(beta@), seq_product(beta_p@)),
                beta_p@,
            ),
            Err(e) => second_box_error(sk, a1_x, a2_x, a1_y, a2_y, root, beta@, beta_p@, k) == Some(
                e,
            ),
        },
{
    if !is_small_base(beta) || beta.len() != k || !is_small_base(beta_p) || beta_p.len() != k {
        return Err(WhiteBoxError::InvalidBase);
    }
    let s = match derive_secret_vectors(sk, a1_x, a2_x, a1_y, a2_y, root) {
        Ok(s) => s,
        Err(e) => {
            return Err(e);
        },
    };
    let m = base_product(beta);
    let m_p = base_product(beta_p);
    let m_inv = match checked_inverse(m, m_p) {
        Some(x) => x,
        None => {
            return Err(WhiteBoxError::NoInverse);
        },
    };
    let sb = match scheme {
        Scheme::MM2 => build_box(
            scheme,
            false,
            &s.sk_first.vector,
            &s.first.vector,
            &s.sk_second.vector,
            &s.second.vector,
            m_inv,
            beta_p,
        ),
        _ => build_box(
            scheme,
            false,
            &s.sk_first.vector,
            &s.first.vector,
            &s.second.vector,
            &s.sk_second.vector,
            m_inv,
            beta_p,
        ),
    };
    Ok(sb)
}

/// First box of the rotate/mask scheme: from the secret and the
/// encryptions `(a1_r, a2_r)` of the rotation and `(a1_ma, a2_ma)` of the mask.
#[allow(non_snake_case)]
pub fn prepare_first_box_MM3(
    sk: &NTRUVector,
    a1_r: &NTRUVector,
    a2_r: &NTRUVector,
    a1_ma: &NTRUVector,
    a2_ma: &NTRUVector,
    root: i64,
    beta: &[i64],
    k: usize,
) -> (res: Result<Vec<Vec<Vec<i64>>>, WhiteBoxError>)
    requires
        sk.wf(),
        a1_r.wf(),
        a2_r.wf(),
        a1_ma.wf(),
        a2_ma.wf(),
    ensures
        match res {
            Ok(fb) => first_box_error(sk, a1_r, a2_r, a1_ma, a2_ma, root, beta@, k) is None
                && box_is(
                fb@,
                Scheme::MM3,
                true,
                sk.modulus as int,
                sk.vector@,
                a1_r.vector@,
                a2_r.vector@,
                a1_ma.vector@,
                a2_ma.vector@,
                root,
                mod_inverse(sk.modulus as int, seq_product(beta@)),
                beta@,
            ),
            Err(e) => first_box_error(sk, a1_r, a2_r, a1_ma, a2_ma, root, beta@, k) == Some(e),
        },
{
    first_box(Scheme::MM3, sk, a1_r, a2_r, a1_ma, a2_ma, root, beta, k)
}

/// Second box of the rotate/mask scheme, over the second basis.
#[allow(non_snake_case)]
pub fn prepare_second_box_MM3(
    sk: &NTRUVector,
    a1_r: &NTRUVector,
    a2_r: &NTRUVector,
    a1_ma: &NTRUVector,
    a2_ma: &NTRUVector,
    root: i64,
    beta: &[i64],
    beta_p: &[i64],
    k: usize,
) -> (res: Result<Vec<Vec<Vec<i64>>>, WhiteBoxError>)
    requires
        sk.wf(),
        a1_r.wf(),
        a2_r.wf(),
        a1_ma.wf(),
        a2_ma.wf(),
    ensures
        match res {
            Ok(sb) => second_box_error(sk, a1_r, a2_r, a1_ma, a2_ma, root, beta@, beta_p@, k) is None
                && box_is(
                sb@,
                Scheme::MM3,
                false,
                sk.modulus as int,
                sk.vector@,
                a1_r.vector@,
                a2_r.vector@,
                a1_ma.vector@,
                a2_ma.vector@,
                root,
                mod_inverse(seq_product(beta@), seq_product(beta_p@)),
                beta_p@,
            ),
            Err(e) => second_box_error(sk, a1_r, a2_r, a1_ma, a2_ma, root, beta@, beta_p@, k)
                == Some(e),
        },
{
    second_box(Scheme::MM3, sk, a1_r, a2_r, a1_ma, a2_ma, root, beta, beta_p, k)
}

/// First box of the one/zero scheme: from the secret and the encryptions
/// `(a1_o, a2_o)` of one and `(a1_z, a2_z)` of zero.
#[allow(non_snake_case)]
pub fn prepare_first_box_MM2(
    sk: &NTRUVector,
    a1_o: &NTRUVector,
    a2_o: &NTRUVector,
    a1_z: &NTRUVector,
    a2_z: &NTRUVector,
    root: i64,
    beta: &[i64],
    k: usize,
) -> (res: Result<Vec<Vec<Vec<i64>>>, WhiteBoxError>)
    requires
        sk.wf(),
        a1_o.wf(),
        a2_o.wf(),
        a1_z.wf(),
        a2_z.wf(),
    ensures
        match res {
            Ok(fb) => first_box_error(sk, a1_o, a2_o, a1_z, a2_z, root, beta@, k) is None && box_is(
                fb@,
                Scheme::MM2,
                true,
                sk.modulus as int,
                sk.vector@,
                a1_o.vector@,
                a2_o.vector@,
                a1_z.vector@,
                a2_z.vector@,
                root,
                mod_inverse(sk.modulus as int, seq_product(beta@)),
                beta@,
            ),
            Err(e) => first_box_error(sk, a1_o, a2_o, a1_z, a2_z, root, beta@, k) == Some(e),
        },
{
    first_box(Scheme::MM2, sk, a1_o, a2_o, a1_z, a2_z, root, beta, k)
}

/// Second box of the one/zero scheme, over the second basis.
#[allow(non_snake_case)]
pub fn prepare_second_box_MM2(
    sk: &NTRUVector,
    a1_o: &NTRUVector,
    a2_o: &NTRUVector,
    a1_z: &NTRUVector,
    a2_z: &NTRUVector,
    root: i64,
    beta: &[i64],
    beta_p: &[i64],
    k: usize,
) -> (res: Result<Vec<Vec<Vec<i64>>>, WhiteBoxError>)
    requires
        sk.wf(),
        a1_o.wf(),
        a2_o.wf(),
        a1_z.wf(),
        a2_z.wf(),
    ensures
        match res {
            Ok(sb) => second_box_error(sk, a1_o, a2_o, a1_z, a2_z, root, beta@, beta_p@, k) is None
                && box_is(
                sb@,
                Scheme::MM2,
                false,
                sk.modulus as int,
                sk.vector@,
                a1_o.vector@,
                a2_o.vector@,
                a1_z.vector@,
                a2_z.vector@,
                root,
                mod_inverse(seq_product(beta@), seq_product(beta_p@)),
                beta_p@,
            ),
            Err(e) => second_box_error(sk, a1_o, a2_o, a1_z, a2_z, root, beta@, beta_p@, k) == Some(
                e,
            ),
        },
{
    second_box(Scheme::MM2, sk, a1_o, a2_o, a1_z, a2_z, root, beta, beta_p, k)
}

/// Which error, if any, transforming the bare secret gives.
pub open spec fn bare_secret_error(sk: &NTRUVector, root: i64) -> Option<WhiteBoxError> {
    if sk.ntt {
        Some(WhiteBoxError::Ring(RingError::WrongDomain))
    } else if !power_of_two(sk.degree as int) {
        Some(WhiteBoxError::Ring(RingError::DegreeNotPowerOfTwo))
    } else if !is_negacyclic_root(root as int, sk.degree as nat, sk.modulus as int) {
        Some(WhiteBoxError::InvalidRoot)
    } else {
        None
    }
}

/// The tables of `family` are those of the bare-secret scheme.
pub open spec fn bare_box_is(
    family: Seq<Vec<Vec<i64>>>,
    negate: bool,
    q: int,
    sk: Seq<i64>,
    root: i64,
    factor: int,
    base: Seq<i64>,
) -> bool {
    box_is(family, Scheme::MM, negate, q, sk, sk, sk, sk, sk, root, factor, base)
}

/// The secret in the transform domain.
fn transformed_secret(sk: &NTRUVector, root: i64) -> (res: Result<NTRUVector, WhiteBoxError>)
    requires
        sk.wf(),
    ensures
        match res {
            Ok(s) => bare_secret_error(sk, root) is None && s.vector@ == forward_ntt(
                sk.vector@,
                root as int,
                sk.modulus as int,
            ) && s.vector@.len() == sk.degree,
            Err(e) => bare_secret_error(sk, root) == Some(e),
        },
{
    if sk.ntt {
        return Err(WhiteBoxError::Ring(RingError::WrongDomain));
    }
    if log2_exact(sk.degree).is_none() {
        return Err(WhiteBoxError::Ring(RingError::DegreeNotPowerOfTwo));
    }
    if !check_negacyclic_root(root, sk.degree, sk.modulus) {
        return Err(WhiteBoxError::InvalidRoot);
    }
    let mut s = sk.duplicate();
    if let Err(e) = s.goto_ntt(root) {
        return Err(WhiteBoxError::Ring(e));
    }
    Ok(s)
}

/// First box of the bare-secret scheme.
#[allow(non_snake_case)]
pub fn prepare_first_box_MM(sk: &NTRUVector, root: i64, beta: &[i64], k: usize) -> (res: Result<
    Vec<Vec<Vec<i64>>>,
    WhiteBoxError,
>)
    requires
        sk.wf(),
    ensures
        match res {
            Ok(fb) => {
                &&& small_base(beta@) && beta@.len() == k
                &&& bare_secret_error(sk, root) is None
                &&& coprime(sk.modulus as nat, seq_product(beta@) as nat)
                &&& bare_box_is(
                    fb@,
                    true,
                    sk.modulus as int,
                    sk.vector@,
                    root,
                    mod_inverse(sk.modulus as int, seq_product(beta@)),
                    beta@,
                )
            },
            Err(e) => if !(small_base(beta@) && beta@.len() == k) {
                e == WhiteBoxError::InvalidBase
            } else if bare_secret_error(sk, root) is Some {
                bare_secret_error(sk, root) == Some(e)
            } else {
                e == WhiteBoxError::NoInverse && !coprime(
                    sk.modulus as nat,
                    seq_product(beta@) as nat,
                )
            },
        },
{
    if !is_small_base(beta) || beta.len() != k {
        return Err(WhiteBoxError::InvalidBase);
    }
    let s = match transformed_secret(sk, root) {
        Ok(s) => s,
        Err(e) => {
            return Err(e);
        },
    };
    let m = base_product(beta);
    let n_inv = match checked_inverse(sk.modulus, m) {
        Some(x) => x,
        None => {
            return Err(WhiteBoxError::NoInverse);
        },
    };
    Ok(build_box(Scheme::MM, true, &s.vector, &s.vector, &s.vector, &s.vector, n_inv, beta))
}

/// Second box of the bare-secret scheme, over the second basis.
#[allow(non_snake_case)]
pub fn prepare_second_box_MM(
    sk: &NTRUVector,
    root: i64,
    beta: &[i64],
    beta_p: &[i64],
    k: usize,
) -> (res: Result<Vec<Vec<Vec<i64>>>, WhiteBoxError>)
    requires
        sk.wf(),
    ensures
        match res {
            Ok(sb) => {
                &&& small_base(beta@) && beta@.len() == k && small_base(beta_p@) && beta_p@.len()
                    == k
                &&& bare_secret_error(sk, root) is None
                &&& coprime(seq_product(beta@) as nat, seq_product(beta_p@) as nat)
                &&& bare_box_is(
                    sb@,
                    false,
                    sk.modulus as int,
                    sk.vector@,
                    root,
                    mod_inverse(seq_product(beta@), seq_product(beta_p@)),
                    beta_p@,
                )
            },
            Err(e) => if !(small_base(beta@) && beta@.len() == k && small_base(beta_p@)
                && beta_p@.len() == k) {
                e == WhiteBoxError::InvalidBase
            } else if bare_secret_error(sk, root) is Some {
                bare_secret_error(sk, root) == Some(e)
            } else {
                e == WhiteBoxError::NoInverse && !coprime(
                    seq_product(beta@) as nat,
                    seq_product(beta_p@) as nat,
                )
            },
        },
{
    if !is_small_base(beta) || beta.len() != k || !is_small_base(beta_p) || beta_p.len() != k {
        return Err(WhiteBoxError::InvalidBase);
    }
    let s = match transformed_secret(sk, root) {
        Ok(s) => s,
        Err(e) => {
            return Err(e);
        },
    };
    let m = base_product(beta);
    let m_p = base_product(beta_p);
    let m_inv = match checked_inverse(m, m_p) {
        Some(x) => x,
        None => {
            return Err(WhiteBoxError::NoInverse);
        },
    };
    Ok(build_box(Scheme::MM, false, &s.vector, &s.vector, &s.vector, &s.vector, m_inv, beta_p))
}

} // verus!
