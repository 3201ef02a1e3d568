//! Why the table lookups multiply: the white-box Montgomery product equals
//! the secret-dependent term it stands for, modulo the working modulus.

use vstd::prelude::*;
use vstd::arithmetic::div_mod::*;
use vstd::arithmetic::mul::*;
use crate::create_wb::{
    box_entry, box_holds, box_slot, box_slots, box_term, lemma_box_slots_five_bit, masked_plain,
};
use crate::crt::{
    crt_value, lemma_crt_round_trip, lemma_product_positive, residues, seq_product,
};
use crate::decrypt::{first_digits, lookup, mont_mult_value, second_digit, second_digits};
use crate::generate::{production_beta_p_view, production_beta_view, tables_are, MODULUS};
use crate::lattice::{negacyclic_mul, ring_neg};
use crate::modular::{coprime, gcd, is_inverse_mod, lemma_bezout, mod_inverse};
use crate::ntt_spec::{forward_ntt, lemma_cong_add, lemma_cong_mul};
use crate::whitebox::{lemma_slot_of_pack, small_base, Scheme, WhiteData, TABLE_SIDE};

verus! {

/// The table of one dimension holds the entries of `scheme` for the
/// secret-dependent values `x0..x3`, with `factor` folded in over `base`.
pub open spec fn table_holds(
    table: Seq<Vec<i64>>,
    scheme: Scheme,
    negate: bool,
    x0: int,
    x1: int,
    x2: int,
    x3: int,
    factor: int,
    base: Seq<i64>,
) -> bool {
    &&& table.len() == TABLE_SIDE
    &&& forall|j: int| 0 <= j < TABLE_SIDE ==> (#[trigger] table[j])@.len() == TABLE_SIDE
    &&& forall|j: int, l: int|
        0 <= j < TABLE_SIDE && 0 <= l < TABLE_SIDE ==> #[trigger] table[j]@[l] == box_entry(
            scheme,
            negate,
            x0,
            x1,
            x2,
            x3,
            factor,
            base,
            j,
            l,
        )
}

/// A number coprime to the modulus has an inverse below the modulus.
pub proof fn lemma_mod_inverse_exists(a: nat, m: nat)
    requires
        m > 0,
        coprime(a, m),
    ensures
        0 <= mod_inverse(a as int, m as int) < m,
        is_inverse_mod(mod_inverse(a as int, m as int), a as int, m as int),
{
    let (x, y) = lemma_bezout(a, m);
    let (ai, mi) = (a as int, m as int);
    let r = x % mi;
    lemma_mul_mod_noop_left(x, ai, mi);
    assert(x * ai == (-y) * mi + 1) by (nonlinear_arith)
        requires
            x * ai + y * mi == 1,
    ;
    lemma_mod_multiples_vanish(-y, 1, mi);
    assert((x * ai) % mi == 1int % mi);
    assert(0 <= r < mi && is_inverse_mod(r, ai, mi));
}

/// The term of a scheme, taken on residues, is the term modulo `m`.
pub proof fn lemma_term_congruent(
    scheme: Scheme,
    a: int,
    b: int,
    x0: int,
    x1: int,
    x2: int,
    x3: int,
    m: int,
)
    requires
        m > 0,
    ensures
        box_term(scheme, a % m, b % m, x0 % m, x1 % m, x2 % m, x3 % m) % m == box_term(
            scheme,
            a,
            b,
            x0,
            x1,
            x2,
            x3,
        ) % m,
{
    lemma_mod_twice(a, m);
    lemma_mod_twice(b, m);
    lemma_mod_twice(x0, m);
    lemma_mod_twice(x1, m);
    lemma_mod_twice(x2, m);
    lemma_mod_twice(x3, m);
    let (ar, br, r0, r1, r2, r3) = (a % m, b % m, x0 % m, x1 % m, x2 % m, x3 % m);
    lemma_cong_mul(ar, a, r0, x0, m);
    lemma_cong_mul(br, b, r1, x1, m);
    lemma_cong_mul(r1, x1, r2, x2, m);
    lemma_cong_mul(ar, a, r2, x2, m);
    lemma_cong_mul(br, b, r3, x3, m);
    match scheme {
        Scheme::MM3 => {
            lemma_cong_add(ar * r0, a * x0, br * r1, b * x1, m);
            lemma_cong_add(ar * r0 + br * r1, a * x0 + b * x1, r1 * r2, x1 * x2, m);
        },
        Scheme::MM2 => {
            lemma_cong_add(ar * r0, a * x0, br * r1, b * x1, m);
            lemma_cong_add(ar * r0 + br * r1, a * x0 + b * x1, ar * r2, a * x2, m);
            lemma_cong_add(
                ar * r0 + br * r1 + ar * r2,
                a * x0 + b * x1 + a * x2,
                br * r3,
                b * x3,
                m,
            );
        },
        Scheme::MM => {
            lemma_cong_add(ar * r0, a * x0, br, b, m);
        },
    }
}

/// What a lookup reads: the term times the factor (negated in the first
/// box), modulo the modulus of the slot.
pub proof fn lemma_lookup_value(
    table: Seq<Vec<i64>>,
    scheme: Scheme,
    negate: bool,
    a: int,
    b: int,
    x0: int,
    x1: int,
    x2: int,
    x3: int,
    factor: int,
    base: Seq<i64>,
    i: nat,
)
    requires
        small_base(base),
        i < base.len(),
        table_holds(table, scheme, negate, x0, x1, x2, x3, factor, base),
    ensures
        lookup(table, a, b, base[i as int] as int, i) == (box_term(scheme, a, b, x0, x1, x2, x3) * (
        if negate {
            -factor
        } else {
            factor
        })) % (base[i as int] as int),
        0 <= lookup(table, a, b, base[i as int] as int, i) < base[i as int],
{
    let m = base[i as int] as int;
    assert(0 < m <= 32);
    let j = a % m;
    let l = b % m;
    assert(0 <= j < TABLE_SIDE && 0 <= l < TABLE_SIDE);
    assert(table[j]@[l] == box_entry(scheme, negate, x0, x1, x2, x3, factor, base, j, l));
    lemma_box_slots_five_bit(scheme, negate, x0, x1, x2, x3, factor, base, j, l);
    lemma_slot_of_pack(box_slots(scheme, negate, x0, x1, x2, x3, factor, base, j, l), i);
    let slot = box_slot(scheme, negate, x0, x1, x2, x3, factor, m, j, l);
    assert(lookup(table, a, b, m, i) == slot);
    // the digits of the digits are the digits
    lemma_mod_twice(a, m);
    lemma_mod_twice(b, m);
    let term_r = box_term(scheme, j % m, l % m, x0 % m, x1 % m, x2 % m, x3 % m) % m;
    let term = box_term(scheme, a, b, x0, x1, x2, x3);
    lemma_term_congruent(scheme, a, b, x0, x1, x2, x3, m);
    assert(term_r == term % m);
    lemma_mod_twice(term, m);
    lemma_mod_twice(factor, m);
    if negate {
        let f = (-(factor % m)) % m;
        lemma_mod_twice(-(factor % m), m);
        lemma_sub_mod_noop_right(0, factor, m);
        assert(f % m == (-factor) % m);
        lemma_cong_mul(term_r, term, f, -factor, m);
    } else {
        lemma_cong_mul(term_r, term, factor % m, factor, m);
    }
}

/// The white-box Montgomery product is the term it stands for, reduced
/// modulo `n`: for tables that hold the entries of a scheme, bases whose
/// products are coprime to each other and the first to `n`, and a term
/// small enough for the second basis to hold the quotient.
pub proof fn lemma_mont_mult_is_term(
    fb: Seq<Vec<i64>>,
    sb: Seq<Vec<i64>>,
    scheme: Scheme,
    a: int,
    b: int,
    x0: int,
    x1: int,
    x2: int,
    x3: int,
    n: int,
    beta: Seq<i64>,
    beta_p: Seq<i64>,
)
    requires
        n > 0,
        small_base(beta),
        small_base(beta_p),
        coprime(n as nat, seq_product(beta) as nat),
        coprime(seq_product(beta) as nat, seq_product(beta_p) as nat),
        table_holds(
            fb,
            scheme,
            true,
            x0,
            x1,
            x2,
            x3,
            mod_inverse(n, seq_product(beta)),
            beta,
        ),
        table_holds(
            sb,
            scheme,
            false,
            x0,
            x1,
            x2,
            x3,
            mod_inverse(seq_product(beta), seq_product(beta_p)),
            beta_p,
        ),
        0 <= box_term(scheme, a, b, x0, x1, x2, x3),
        box_term(scheme, a, b, x0, x1, x2, x3) + (seq_product(beta) - 1) * n < seq_product(beta)
            * seq_product(beta_p),
    ensures
        mont_mult_value(fb, sb, a, b, n, beta, beta_p) == box_term(scheme, a, b, x0, x1, x2, x3)
            % n,
{
    let m = seq_product(beta);
    let mp = seq_product(beta_p);
    lemma_product_positive(beta);
    lemma_product_positive(beta_p);
    let n_inv = mod_inverse(n, m);
    let m_inv = mod_inverse(m, mp);
    lemma_mod_inverse_exists(n as nat, m as nat);
    lemma_mod_inverse_exists(m as nat, mp as nat);
    let t = box_term(scheme, a, b, x0, x1, x2, x3);

    // first stage: the digits read are the residues of -t / n
    let q1 = t * (-n_inv);
    let digits1 = first_digits(fb, a, b, beta);
    assert forall|i: int| 0 <= i < beta.len() implies digits1[i] == residues(q1, beta)[i] by {
        lemma_lookup_value(fb, scheme, true, a, b, x0, x1, x2, x3, n_inv, beta, i as nat);
    }
    assert(digits1 =~= residues(q1, beta));
    lemma_crt_round_trip(q1, beta);
    let first = crt_value(digits1, beta);
    assert(first == q1 % m);
    assert(0 <= first < m);

    // t + first * n is a multiple of the first product
    let w = t + first * n;
    assert(w % m == 0) by {
        lemma_mod_twice(q1, m);
        lemma_cong_mul(first, q1, n, n, m);
        assert(q1 * n == (-t) * (n_inv * n)) by (nonlinear_arith)
            requires
                q1 == t * (-n_inv),
        ;
        lemma_cong_mul(-t, -t, n_inv * n, 1, m);
        assert((-t) * 1 == -t);
        lemma_cong_add(t, t, first * n, -t, m);
        assert(t + (-t) == 0);
        lemma_small_mod(0, m as nat);
    }
    lemma_fundamental_div_mod(w, m);
    let r = w / m;
    assert(w == m * r);
    assert(0 <= w < m * mp) by (nonlinear_arith)
        requires
            w == t + first * n,
            0 <= t,
            0 <= first <= m - 1,
            n > 0,
            t + (m - 1) * n < m * mp,
    ;
    assert(0 <= r < mp) by (nonlinear_arith)
        requires
            w == m * r,
            0 <= w < m * mp,
            m >= 1,
    ;

    // second stage: the digits computed are the residues of w / m
    let s = w * m_inv;
    let digits2 = second_digits(sb, first, a, b, n, m_inv, beta_p);
    assert forall|i: int| 0 <= i < beta_p.len() implies digits2[i] == residues(s, beta_p)[i] by {
        let bp = beta_p[i] as int;
        assert(0 < bp <= 32);
        lemma_lookup_value(sb, scheme, false, a, b, x0, x1, x2, x3, m_inv, beta_p, i as nat);
        let slot = lookup(sb, a, b, bp, i as nat);
        assert(slot == (t * m_inv) % bp);
        lemma_mod_twice(first, bp);
        lemma_mod_twice(n, bp);
        lemma_mod_twice(m_inv, bp);
        lemma_mod_twice(t * m_inv, bp);
        lemma_cong_mul(first % bp, first, n % bp, n, bp);
        lemma_mod_twice((first % bp) * (n % bp), bp);
        lemma_cong_mul(((first % bp) * (n % bp)) % bp, first * n, m_inv % bp, m_inv, bp);
        lemma_cong_add(
            (((first % bp) * (n % bp)) % bp) * (m_inv % bp),
            (first * n) * m_inv,
            slot,
            t * m_inv,
            bp,
        );
        assert((first * n) * m_inv + t * m_inv == s) by (nonlinear_arith)
            requires
                s == w * m_inv,
                w == t + first * n,
        ;
        assert(digits2[i] == second_digit(sb, first, a, b, n, m_inv, bp, i as nat));
    }
    assert(digits2 =~= residues(s, beta_p));
    lemma_crt_round_trip(s, beta_p);
    let second = crt_value(digits2, beta_p);
    assert(second == s % mp);
    // s == r * (m * m_inv), congruent to r
    assert(s == r * (m_inv * m)) by (nonlinear_arith)
        requires
            s == w * m_inv,
            w == m * r,
    ;
    lemma_cong_mul(r, r, m_inv * m, 1, mp);
    assert(r * 1 == r);
    lemma_small_mod(r as nat, mp as nat);
    assert(second == r);

    // scaling by the first product gives w back, and w is t plus a multiple of n
    assert(second * m == w) by (nonlinear_arith)
        requires
            second == r,
            w == m * r,
    ;
    lemma_mod_multiples_vanish(first, t, n);
    assert(first * n + t == w);
}

/// The second basis holds every Montgomery quotient of terms over values
/// below `q`: four products and the correction stay below the two
/// basis products multiplied.
pub open spec fn quotient_fits(q: int, beta: Seq<i64>, beta_p: Seq<i64>) -> bool {
    4 * q * q + (seq_product(beta) - 1) * q < seq_product(beta) * seq_product(beta_p)
}

/// The term that the tables of a scheme stand for at dimension `d`, on
/// the inputs `a` and `b`: with `x` and `y` the masked plaintexts of the
/// two known encryptions (the second negated) and `s` the secret, all
/// transformed, `a * (s x) + b * x + x * y` under `MM3`.
pub open spec fn folded_term(
    scheme: Scheme,
    q: int,
    sk: Seq<i64>,
    a1_x: Seq<i64>,
    a2_x: Seq<i64>,
    a1_y: Seq<i64>,
    a2_y: Seq<i64>,
    root: i64,
    a: int,
    b: int,
    d: int,
) -> int {
    let x = masked_plain(sk, a1_x, a2_x, q);
    let y = ring_neg(masked_plain(sk, a1_y, a2_y, q), q);
    let fx = forward_ntt(x, root as int, q)[d] as int;
    let fy = forward_ntt(y, root as int, q)[d] as int;
    let sx = forward_ntt(negacyclic_mul(sk, x, q), root as int, q)[d] as int;
    let sy = forward_ntt(negacyclic_mul(sk, y, q), root as int, q)[d] as int;
    let s = forward_ntt(sk, root as int, q)[d] as int;
    match scheme {
        Scheme::MM3 => box_term(scheme, a, b, sx, fx, fy, sy),
        Scheme::MM2 => box_term(scheme, a, b, sx, fx, sy, fy),
        Scheme::MM => box_term(scheme, a, b, s, s, s, s),
    }
}

/// A term over values in `[0, q)` is at most four products of them.
proof fn lemma_term_bound(scheme: Scheme, a: int, b: int, d0: int, d1: int, d2: int, d3: int, q: int)
    requires
        0 <= a < q,
        0 <= b < q,
        0 <= d0 < q,
        0 <= d1 < q,
        0 <= d2 < q,
        0 <= d3 < q,
    ensures
        0 <= box_term(scheme, a, b, d0, d1, d2, d3) < 4 * q * q,
{
    assert(0 <= a * d0 < q * q && 0 <= b * d1 < q * q && 0 <= d1 * d2 < q * q && 0 <= a * d2 < q
        * q && 0 <= b * d3 < q * q && b < q * q) by (nonlinear_arith)
        requires
            0 <= a < q,
            0 <= b < q,
            0 <= d0 < q,
            0 <= d1 < q,
            0 <= d2 < q,
            0 <= d3 < q,
    ;
    assert(4 * q * q == q * q + q * q + q * q + q * q) by (nonlinear_arith);
}

/// One table of a family that holds the entries of a scheme holds them.
proof fn lemma_table_of_family(
    family: Seq<Vec<Vec<i64>>>,
    scheme: Scheme,
    negate: bool,
    v0: Seq<i64>,
    v1: Seq<i64>,
    v2: Seq<i64>,
    v3: Seq<i64>,
    factor: int,
    base: Seq<i64>,
    d: int,
)
    requires
        0 <= d < family.len(),
        WhiteData::tables_ok(family, family.len() as int),
        box_holds(family, scheme, negate, v0, v1, v2, v3, factor, base),
    ensures
        table_holds(
            family[d]@,
            scheme,
            negate,
            v0[d] as int,
            v1[d] as int,
            v2[d] as int,
            v3[d] as int,
            factor,
            base,
        ),
{
    let table = family[d]@;
    assert forall|j: int, l: int|
        0 <= j < TABLE_SIDE && 0 <= l < TABLE_SIDE implies #[trigger] table[j]@[l] == box_entry(
        scheme,
        negate,
        v0[d] as int,
        v1[d] as int,
        v2[d] as int,
        v3[d] as int,
        factor,
        base,
        j,
        l,
    ) by {
        assert(family[d]@[j]@[l] == table[j]@[l]);
    }
}

/// The white-box product multiplies. For tables built from a secret and
/// two known encryptions, over bases that fit the modulus, the product
/// of `a` and `b` at every dimension is the folded term modulo `q`,
/// whatever values below `q` come in.
pub proof fn lemma_whitebox_product_is_term(
    fb: Seq<Vec<Vec<i64>>>,
    sb: Seq<Vec<Vec<i64>>>,
    scheme: Scheme,
    q: int,
    sk: Seq<i64>,
    a1_x: Seq<i64>,
    a2_x: Seq<i64>,
    a1_y: Seq<i64>,
    a2_y: Seq<i64>,
    root: i64,
    beta: Seq<i64>,
    beta_p: Seq<i64>,
    a: int,
    b: int,
    d: int,
)
    requires
        0 < q <= i64::MAX,
        small_base(beta),
        small_base(beta_p),
        coprime(q as nat, seq_product(beta) as nat),
        coprime(seq_product(beta) as nat, seq_product(beta_p) as nat),
        quotient_fits(q, beta, beta_p),
        tables_are(fb, sb, scheme, q, sk, a1_x, a2_x, a1_y, a2_y, root, beta, beta_p),
        a2_x.len() == sk.len(),
        a2_y.len() == sk.len(),
        0 <= d < sk.len(),
        0 <= a < q,
        0 <= b < q,
    ensures
        mont_mult_value(fb[d]@, sb[d]@, a, b, q, beta, beta_p) == folded_term(
            scheme,
            q,
            sk,
            a1_x,
            a2_x,
            a1_y,
            a2_y,
            root,
            a,
            b,
            d,
        ) % q,
{
    let x = masked_plain(sk, a1_x, a2_x, q);
    let y = ring_neg(masked_plain(sk, a1_y, a2_y, q), q);
    let fx = forward_ntt(x, root as int, q);
    let fy = forward_ntt(y, root as int, q);
    let sx = forward_ntt(negacyclic_mul(sk, x, q), root as int, q);
    let sy = forward_ntt(negacyclic_mul(sk, y, q), root as int, q);
    let s = forward_ntt(sk, root as int, q);
    assert(x.len() == sk.len() && y.len() == sk.len());
    assert(negacyclic_mul(sk, x, q).len() == sk.len());
    assert(negacyclic_mul(sk, y, q).len() == sk.len());
    assert(0 <= fx[d] < q && 0 <= fy[d] < q && 0 <= sx[d] < q && 0 <= sy[d] < q && 0 <= s[d] < q);
    let n_inv = mod_inverse(q, seq_product(beta));
    let m_inv = mod_inverse(seq_product(beta), seq_product(beta_p));
    let (v0, v1, v2, v3) = match scheme {
        Scheme::MM3 => (sx, fx, fy, sy),
        Scheme::MM2 => (sx, fx, sy, fy),
        Scheme::MM => (s, s, s, s),
    };
    assert(box_holds(fb, scheme, true, v0, v1, v2, v3, n_inv, beta));
    assert(box_holds(sb, scheme, false, v0, v1, v2, v3, m_inv, beta_p));
    lemma_table_of_family(fb, scheme, true, v0, v1, v2, v3, n_inv, beta, d);
    lemma_table_of_family(sb, scheme, false, v0, v1, v2, v3, m_inv, beta_p, d);
    let t = box_term(scheme, a, b, v0[d] as int, v1[d] as int, v2[d] as int, v3[d] as int);
    lemma_term_bound(scheme, a, b, v0[d] as int, v1[d] as int, v2[d] as int, v3[d] as int, q);
    lemma_mont_mult_is_term(
        fb[d]@,
        sb[d]@,
        scheme,
        a,
        b,
        v0[d] as int,
        v1[d] as int,
        v2[d] as int,
        v3[d] as int,
        q,
        beta,
        beta_p,
    );
}

/// The product of a basis of five moduli.
proof fn lemma_product_of_five(a: i64, b: i64, c: i64, d: i64, e: i64)
    ensures
        seq_product(seq![a, b, c, d, e]) == a * b * c * d * e,
{
    let s5 = seq![a, b, c, d, e];
    let s4 = seq![a, b, c, d];
    let s3 = seq![a, b, c];
    let s2 = seq![a, b];
    let s1 = seq![a];
    assert(s5.drop_last() =~= s4);
    assert(s4.drop_last() =~= s3);
    assert(s3.drop_last() =~= s2);
    assert(s2.drop_last() =~= s1);
    assert(s1.drop_last() =~= Seq::<i64>::empty());
    assert(seq_product(Seq::<i64>::empty()) == 1);
    assert(seq_product(s1) == 1 * a);
    assert(seq_product(s2) == seq_product(s1) * b);
    assert(seq_product(s3) == seq_product(s2) * c);
    assert(seq_product(s4) == seq_product(s3) * d);
    assert(seq_product(s5) == seq_product(s4) * e);
}

/// Five moduli up to 32, coprime two by two, make a basis of slots.
proof fn lemma_small_base_of_five(a: i64, b: i64, c: i64, d: i64, e: i64)
    requires
        0 < a <= 32 && 0 < b <= 32 && 0 < c <= 32 && 0 < d <= 32 && 0 < e <= 32,
        coprime(a as nat, b as nat) && coprime(a as nat, c as nat) && coprime(a as nat, d as nat)
            && coprime(a as nat, e as nat),
        coprime(b as nat, a as nat) && coprime(b as nat, c as nat) && coprime(b as nat, d as nat)
            && coprime(b as nat, e as nat),
        coprime(c as nat, a as nat) && coprime(c as nat, b as nat) && coprime(c as nat, d as nat)
            && coprime(c as nat, e as nat),
        coprime(d as nat, a as nat) && coprime(d as nat, b as nat) && coprime(d as nat, c as nat)
            && coprime(d as nat, e as nat),
        coprime(e as nat, a as nat) && coprime(e as nat, b as nat) && coprime(e as nat, c as nat)
            && coprime(e as nat, d as nat),
    ensures
        small_base(seq![a, b, c, d, e]),
{
    let s = seq![a, b, c, d, e];
    lemma_product_of_five(a, b, c, d, e);
    assert(a * b * c * d * e <= 32 * 32 * 32 * 32 * 32) by (nonlinear_arith)
        requires
            0 < a <= 32 && 0 < b <= 32 && 0 < c <= 32 && 0 < d <= 32 && 0 < e <= 32,
    ;
    assert forall|i: int, j: int| 0 <= i < s.len() && 0 <= j < s.len() && i != j implies coprime(
        #[trigger] s[i] as nat,
        #[trigger] s[j] as nat,
    ) by {}
}

/// The production parameters fit: both bases are bases of slots, their
/// products are coprime to each other and the first to the modulus, and
/// the second holds every Montgomery quotient.
pub proof fn lemma_production_parameters_fit()
    ensures
        small_base(production_beta_view()),
        small_base(production_beta_p_view()),
        seq_product(production_beta_view()) == 3094416,
        seq_product(production_beta_p_view()) == 3333275,
        coprime(MODULUS as nat, seq_product(production_beta_view()) as nat),
        coprime(
            seq_product(production_beta_view()) as nat,
            seq_product(production_beta_p_view()) as nat,
        ),
        quotient_fits(MODULUS as int, production_beta_view(), production_beta_p_view()),
{
    lemma_product_of_five(13, 16, 19, 27, 29);
    lemma_product_of_five(11, 17, 23, 25, 31);
    assert(small_base(production_beta_view())) by {
        reveal_with_fuel(gcd, 2);
        assert(gcd(1, 0) == 1);
        assert(gcd(3, 1) == 1);
        assert(gcd(13, 3) == 1);
        assert(gcd(16, 13) == 1);
        assert(gcd(13, 16) == 1);
        assert(gcd(6, 1) == 1);
        assert(gcd(13, 6) == 1);
        assert(gcd(19, 13) == 1);
        assert(gcd(13, 19) == 1);
        assert(gcd(13, 1) == 1);
        assert(gcd(27, 13) == 1);
        assert(gcd(13, 27) == 1);
        assert(gcd(29, 13) == 1);
        assert(gcd(13, 29) == 1);
        assert(gcd(16, 3) == 1);
        assert(gcd(19, 16) == 1);
        assert(gcd(16, 19) == 1);
        assert(gcd(5, 1) == 1);
        assert(gcd(11, 5) == 1);
        assert(gcd(16, 11) == 1);
        assert(gcd(27, 16) == 1);
        assert(gcd(16, 27) == 1);
        assert(gcd(29, 16) == 1);
        assert(gcd(16, 29) == 1);
        assert(gcd(2, 1) == 1);
        assert(gcd(3, 2) == 1);
        assert(gcd(8, 3) == 1);
        assert(gcd(19, 8) == 1);
        assert(gcd(27, 19) == 1);
        assert(gcd(19, 27) == 1);
        assert(gcd(9, 1) == 1);
        assert(gcd(10, 9) == 1);
        assert(gcd(19, 10) == 1);
        assert(gcd(29, 19) == 1);
        assert(gcd(19, 29) == 1);
        assert(gcd(27, 2) == 1);
        assert(gcd(29, 27) == 1);
        assert(gcd(27, 29) == 1);
        lemma_small_base_of_five(13, 16, 19, 27, 29);
    }
    assert(small_base(production_beta_p_view())) by {
        reveal_with_fuel(gcd, 2);
        assert(gcd(1, 0) == 1);
        assert(gcd(5, 1) == 1);
        assert(gcd(6, 5) == 1);
        assert(gcd(11, 6) == 1);
        assert(gcd(17, 11) == 1);
        assert(gcd(11, 17) == 1);
        assert(gcd(11, 1) == 1);
        assert(gcd(23, 11) == 1);
        assert(gcd(11, 23) == 1);
        assert(gcd(2, 1) == 1);
        assert(gcd(3, 2) == 1);
        assert(gcd(11, 3) == 1);
        assert(gcd(25, 11) == 1);
        assert(gcd(11, 25) == 1);
        assert(gcd(9, 2) == 1);
        assert(gcd(11, 9) == 1);
        assert(gcd(31, 11) == 1);
        assert(gcd(11, 31) == 1);
        assert(gcd(17, 6) == 1);
        assert(gcd(23, 17) == 1);
        assert(gcd(17, 23) == 1);
        assert(gcd(8, 1) == 1);
        assert(gcd(17, 8) == 1);
        assert(gcd(25, 17) == 1);
        assert(gcd(17, 25) == 1);
        assert(gcd(14, 3) == 1);
        assert(gcd(17, 14) == 1);
        assert(gcd(31, 17) == 1);
        assert(gcd(17, 31) == 1);
        assert(gcd(23, 2) == 1);
        assert(gcd(25, 23) == 1);
        assert(gcd(23, 25) == 1);
        assert(gcd(7, 1) == 1);
        assert(gcd(8, 7) == 1);
        assert(gcd(23, 8) == 1);
        assert(gcd(31, 23) == 1);
        assert(gcd(23, 31) == 1);
        assert(gcd(6, 1) == 1);
        assert(gcd(25, 6) == 1);
        assert(gcd(31, 25) == 1);
        assert(gcd(25, 31) == 1);
        lemma_small_base_of_five(11, 17, 23, 25, 31);
    }
    // Euclid's remainders, last first
    reveal_with_fuel(gcd, 2);
    assert(gcd(1, 0) == 1);
    assert(gcd(8, 1) == 1);
    assert(gcd(9, 8) == 1);
    assert(gcd(17, 9) == 1);
    assert(gcd(26, 17) == 1);
    assert(gcd(381, 26) == 1);
    assert(gcd(5741, 381) == 1);
    assert(gcd(11863, 5741) == 1);
    assert(gcd(29467, 11863) == 1);
    assert(gcd(601203, 29467) == 1);
    assert(gcd(630670, 601203) == 1);
    assert(gcd(1231873, 630670) == 1);
    assert(gcd(3094416, 1231873) == 1);
    assert(gcd(1231873, 3094416) == 1);
    assert(gcd(1, 0) == 1);
    assert(gcd(4, 1) == 1);
    assert(gcd(465, 4) == 1);
    assert(gcd(469, 465) == 1);
    assert(gcd(934, 469) == 1);
    assert(gcd(1403, 934) == 1);
    assert(gcd(2337, 1403) == 1);
    assert(gcd(10751, 2337) == 1);
    assert(gcd(228108, 10751) == 1);
    assert(gcd(238859, 228108) == 1);
    assert(gcd(3094416, 238859) == 1);
    assert(gcd(3333275, 3094416) == 1);
    assert(gcd(3094416, 3333275) == 1);
}

} // verus!
