//! The inverse transform undoes the forward transform.

use vstd::prelude::*;
use vstd::arithmetic::div_mod::*;
use vstd::arithmetic::mul::*;
use vstd::arithmetic::power::*;
use vstd::arithmetic::power2::*;
use crate::lattice::reduce_all;
use crate::ntt_spec::{
    forward_ntt, inverse_ntt, is_negacyclic_root, lemma_cong_add, lemma_cong_mul, lemma_pow2_double,
    lemma_pow_of_one, poly_eval,
};

verus! {

/// The geometric sum `1 + z + ... + z^(count - 1)`.
pub open spec fn geometric_sum(z: int, count: nat) -> int
    decreases count,
{
    if count == 0 {
        0
    } else {
        geometric_sum(z, (count - 1) as nat) + pow(z, (count - 1) as nat)
    }
}

/// Sum over the first `upto` transform outputs of the polynomial with the
/// first `count` coefficients of `v`, each output `k` weighted by `unroot^(2ik)`.
pub open spec fn weighted_outputs(
    v: Seq<i64>,
    psi: int,
    unroot: int,
    i: nat,
    count: nat,
    upto: nat,
) -> int
    decreases upto,
{
    if upto == 0 {
        0
    } else {
        let k = (upto - 1) as nat;
        weighted_outputs(v, psi, unroot, i, count, k) + poly_eval(v, pow(psi, 2 * k + 1), count)
            * pow(unroot, 2 * i * k)
    }
}

/// The part of `weighted_outputs` that one coefficient `j` contributes, per unit.
pub open spec fn weighted_monomials(psi: int, unroot: int, i: nat, j: nat, upto: nat) -> int
    decreases upto,
{
    if upto == 0 {
        0
    } else {
        let k = (upto - 1) as nat;
        weighted_monomials(psi, unroot, i, j, k) + pow(psi, (2 * k + 1) * j) * pow(
            unroot,
            2 * i * k,
        )
    }
}

/// A geometric sum splits at any point.
pub proof fn lemma_geometric_split(z: int, a: nat, b: nat)
    ensures
        geometric_sum(z, a + b) == geometric_sum(z, a) + pow(z, a) * geometric_sum(z, b),
    decreases b,
{
    if b == 0 {
        assert(pow(z, a) * 0 == 0);
    } else {
        let g = (b - 1) as nat;
        lemma_geometric_split(z, a, g);
        lemma_pow_adds(z, a, g);
        let (pa, pg, sg) = (pow(z, a), pow(z, g), geometric_sum(z, g));
        assert(pa * (sg + pg) == pa * sg + pa * pg) by (nonlinear_arith);
    }
}

/// The geometric sum of a number congruent to one is its length.
pub proof fn lemma_geometric_of_one(z: int, count: nat, q: int)
    requires
        q > 0,
        z % q == 1int % q,
    ensures
        geometric_sum(z, count) % q == (count as int) % q,
    decreases count,
{
    if count > 0 {
        let g = (count - 1) as nat;
        lemma_geometric_of_one(z, g, q);
        lemma_pow_of_one(z, g, q);
        lemma_cong_add(geometric_sum(z, g), g as int, pow(z, g), 1, q);
    }
}

/// Geometric sums of congruent numbers are congruent.
pub proof fn lemma_geometric_congruent(z: int, z2: int, count: nat, q: int)
    requires
        q > 0,
        z % q == z2 % q,
    ensures
        geometric_sum(z, count) % q == geometric_sum(z2, count) % q,
    decreases count,
{
    if count > 0 {
        let g = (count - 1) as nat;
        lemma_geometric_congruent(z, z2, g, q);
        lemma_pow_mod_noop(z, g, q);
        lemma_pow_mod_noop(z2, g, q);
        lemma_cong_add(geometric_sum(z, g), geometric_sum(z2, g), pow(z, g), pow(z2, g), q);
    }
}

/// Where `y^e` is `-1`, every run of `2e` consecutive powers of `y` sums to zero.
pub proof fn lemma_geometric_vanishes(y: int, e: nat, m: nat, q: int)
    requires
        q > 0,
        (pow(y, e) + 1) % q == 0,
    ensures
        geometric_sum(y, m * (2 * e)) % q == 0,
    decreases m,
{
    if m == 0 {
        assert(0 * (2 * e) == 0);
        lemma_small_mod(0, q as nat);
    } else {
        let g = (m - 1) as nat;
        lemma_geometric_vanishes(y, e, g, q);
        assert(m * (2 * e) == g * (2 * e) + (e + e)) by (nonlinear_arith)
            requires
                g == m - 1,
        ;
        lemma_geometric_split(y, g * (2 * e), e + e);
        lemma_geometric_split(y, e, e);
        let s = geometric_sum(y, e);
        let pe = pow(y, e);
        // the run: s + y^e * s, congruent to s - s
        assert(pe % q == (-1int) % q) by {
            lemma_mod_equivalence(pe, -1, q);
        }
        lemma_cong_mul(pe, -1, s, s, q);
        assert((-1) * s == -s);
        lemma_cong_add(s, s, pe * s, -s, q);
        assert(s + (-s) == 0);
        let run = geometric_sum(y, e + e);
        assert(run % q == 0int % q);
        let shift = pow(y, g * (2 * e));
        lemma_cong_mul(shift, shift, run, 0, q);
        assert(shift * 0 == 0);
        lemma_cong_add(geometric_sum(y, g * (2 * e)), 0, shift * run, 0, q);
        lemma_small_mod(0, q as nat);
    }
}

/// Powers of minus one: one for even exponents, minus one for odd ones.
pub proof fn lemma_pow_minus_one(e: nat)
    ensures
        pow(-1, e) == (if e % 2 == 0 {
            1int
        } else {
            -1int
        }),
    decreases e,
{
    reveal(pow);
    if e > 0 {
        lemma_pow_minus_one((e - 1) as nat);
    }
}

/// An odd power of a number congruent to minus one is congruent to minus one.
pub proof fn lemma_odd_power_of_minus_one(x: int, u: nat, q: int)
    requires
        q > 0,
        (x + 1) % q == 0,
        u % 2 == 1,
    ensures
        (pow(x, u) + 1) % q == 0,
{
    lemma_mod_equivalence(x, -1, q);
    lemma_pow_mod_noop(x, u, q);
    lemma_pow_mod_noop(-1, u, q);
    lemma_pow_minus_one(u);
    lemma_mod_equivalence(pow(x, u), -1, q);
}

/// Every positive number below `2^levels` is a power of two below
/// `2^levels` times an odd number.
pub proof fn lemma_two_adic(d: nat, levels: nat) -> (r: (nat, nat))
    requires
        0 < d < pow2(levels),
    ensures
        r.0 < levels,
        r.1 % 2 == 1,
        d == pow2(r.0) * r.1,
    decreases d,
{
    lemma2_to64();
    if levels == 0 {
        (0, 1)
    } else if d % 2 == 1 {
        assert(1 * d == d);
        (0, d)
    } else {
        lemma_pow2_double((levels - 1) as nat);
        let (a, u) = lemma_two_adic(d / 2, (levels - 1) as nat);
        lemma_pow2_double(a);
        assert(pow2(a + 1) * u == 2 * (pow2(a) * u)) by (nonlinear_arith)
            requires
                pow2(a + 1) == 2 * pow2(a),
        ;
        (a + 1, u)
    }
}

/// For a root `rho` of `X^n + 1` and `0 < d < n`, the `n` powers of
/// `rho^(2d)` sum to zero.
pub proof fn lemma_root_powers_vanish(rho: int, d: nat, levels: nat, q: int)
    requires
        q > 0,
        is_negacyclic_root(rho, pow2(levels), q),
        0 < d < pow2(levels),
    ensures
        geometric_sum(pow(rho, 2 * d), pow2(levels)) % q == 0,
{
    let n = pow2(levels);
    let (a, u) = lemma_two_adic(d, levels);
    let rest = (levels - a - 1) as nat;
    let e = pow2(rest);
    let y = pow(rho, 2 * d);
    lemma_pow2_adds(a, rest);
    lemma_pow2_double((levels - 1) as nat);
    lemma_pow2_double(rest);
    lemma_pow2_adds(a, (levels - a) as nat);
    // y^e == rho^(2 d e) == rho^(n u) == (rho^n)^u
    assert((2 * d) * e == n * u) by (nonlinear_arith)
        requires
            d == pow2(a) * u,
            pow2(a) * e == pow2((levels - 1) as nat),
            n == 2 * pow2((levels - 1) as nat),
    ;
    lemma_pow_multiplies(rho, 2 * d, e);
    lemma_pow_multiplies(rho, n, u);
    lemma_odd_power_of_minus_one(pow(rho, n), u, q);
    lemma_geometric_vanishes(y, e, pow2(a), q);
    assert(pow2(a) * (2 * e) == n) by (nonlinear_arith)
        requires
            pow2(a) * pow2((levels - a) as nat) == n,
            pow2((levels - a) as nat) == 2 * e,
    ;
}

/// The inverse of a root of `X^n + 1` is a root of `X^n + 1`.
pub proof fn lemma_inverse_root(psi: int, unroot: int, n: nat, q: int)
    requires
        q > 0,
        is_negacyclic_root(psi, n, q),
        (psi * unroot) % q == 1int % q,
    ensures
        is_negacyclic_root(unroot, n, q),
{
    let p = pow(psi, n);
    let u = pow(unroot, n);
    lemma_pow_distributes(psi, unroot, n);
    lemma_pow_of_one(psi * unroot, n, q);
    lemma_mod_equivalence(p, -1, q);
    lemma_cong_mul(p, -1, u, u, q);
    assert((-1) * u == -u);
    // -u is congruent to one, so u is congruent to minus one
    lemma_cong_mul(-u, 1, -1, -1, q);
    assert((-u) * (-1) == u) by (nonlinear_arith);
    assert(1 * (-1) == -1int);
    lemma_mod_equivalence(u, -1, q);
}

/// Adding one coefficient adds that coefficient times its monomials.
pub proof fn lemma_weighted_outputs_step(
    v: Seq<i64>,
    psi: int,
    unroot: int,
    i: nat,
    count: nat,
    upto: nat,
)
    requires
        count > 0,
    ensures
        weighted_outputs(v, psi, unroot, i, count, upto) == weighted_outputs(
            v,
            psi,
            unroot,
            i,
            (count - 1) as nat,
            upto,
        ) + v[count - 1] * weighted_monomials(psi, unroot, i, (count - 1) as nat, upto),
    decreases upto,
{
    if upto > 0 {
        let k = (upto - 1) as nat;
        let j = (count - 1) as nat;
        lemma_weighted_outputs_step(v, psi, unroot, i, count, k);
        lemma_pow_multiplies(psi, 2 * k + 1, j);
        let x = v[count - 1] as int;
        let before = poly_eval(v, pow(psi, 2 * k + 1), j);
        let mono = pow(psi, (2 * k + 1) * j);
        let wgt = pow(unroot, 2 * i * k);
        let rest = weighted_monomials(psi, unroot, i, j, k);
        assert((before + x * mono) * wgt == before * wgt + x * (mono * wgt)) by (nonlinear_arith);
        assert(x * (rest + mono * wgt) == x * rest + x * (mono * wgt)) by (nonlinear_arith);
    } else {
        assert(v[count - 1] * 0 == 0);
    }
}

/// With no coefficients, every output is zero.
pub proof fn lemma_weighted_outputs_empty(v: Seq<i64>, psi: int, unroot: int, i: nat, upto: nat)
    ensures
        weighted_outputs(v, psi, unroot, i, 0, upto) == 0,
    decreases upto,
{
    if upto > 0 {
        let k = (upto - 1) as nat;
        lemma_weighted_outputs_empty(v, psi, unroot, i, k);
        assert(0 * pow(unroot, 2 * i * k) == 0);
    }
}

/// The monomials of coefficient `j` are `psi^j` times a geometric sum.
pub proof fn lemma_monomials_geometric(psi: int, unroot: int, i: nat, j: nat, upto: nat)
    ensures
        weighted_monomials(psi, unroot, i, j, upto) == pow(psi, j) * geometric_sum(
            pow(psi, 2 * j) * pow(unroot, 2 * i),
            upto,
        ),
    decreases upto,
{
    let z = pow(psi, 2 * j) * pow(unroot, 2 * i);
    if upto == 0 {
        assert(pow(psi, j) * 0 == 0);
    } else {
        let k = (upto - 1) as nat;
        lemma_monomials_geometric(psi, unroot, i, j, k);
        lemma_pow_distributes(pow(psi, 2 * j), pow(unroot, 2 * i), k);
        lemma_pow_multiplies(psi, 2 * j, k);
        lemma_pow_multiplies(unroot, 2 * i, k);
        assert((2 * k + 1) * j == j + (2 * j) * k) by (nonlinear_arith);
        assert(2 * i * k == (2 * i) * k) by (nonlinear_arith);
        lemma_pow_adds(psi, j, (2 * j) * k);
        let (pj, pjk, uik, s) = (
            pow(psi, j),
            pow(psi, (2 * j) * k),
            pow(unroot, (2 * i) * k),
            geometric_sum(z, k),
        );
        assert(pj * (s + pjk * uik) == pj * s + (pj * pjk) * uik) by (nonlinear_arith);
    }
}

/// The monomials of coefficient `j` over all `n` outputs: `n * psi^i` for
/// the coefficient `i` that is being rebuilt, zero for every other.
pub proof fn lemma_monomials_total(
    psi: int,
    unroot: int,
    i: nat,
    j: nat,
    levels: nat,
    q: int,
)
    requires
        q > 0,
        is_negacyclic_root(psi, pow2(levels), q),
        (psi * unroot) % q == 1int % q,
        i < pow2(levels),
        j < pow2(levels),
    ensures
        weighted_monomials(psi, unroot, i, j, pow2(levels)) % q == (if j == i {
            pow(psi, i) * pow2(levels)
        } else {
            0
        }) % q,
{
    let n = pow2(levels);
    let z = pow(psi, 2 * j) * pow(unroot, 2 * i);
    lemma_monomials_geometric(psi, unroot, i, j, n);
    let pj = pow(psi, j);
    if j == i {
        lemma_pow_distributes(psi, unroot, 2 * i);
        lemma_pow_of_one(psi * unroot, 2 * i, q);
        lemma_geometric_of_one(z, n, q);
        lemma_cong_mul(pj, pj, geometric_sum(z, n), n as int, q);
    } else {
        let target: int;
        if j > i {
            let d = (j - i) as nat;
            // z == psi^(2d) * (psi * unroot)^(2i)
            lemma_pow_adds(psi, 2 * d, 2 * i);
            lemma_pow_distributes(psi, unroot, 2 * i);
            lemma_pow_of_one(psi * unroot, 2 * i, q);
            let (a, b, c) = (pow(psi, 2 * d), pow(psi, 2 * i), pow(unroot, 2 * i));
            assert((a * b) * c == a * (b * c)) by (nonlinear_arith);
            lemma_cong_mul(a, a, b * c, 1, q);
            assert(a * 1 == a);
            lemma_geometric_congruent(z, a, n, q);
            lemma_root_powers_vanish(psi, d, levels, q);
        } else {
            let d = (i - j) as nat;
            // z == (psi * unroot)^(2j) * unroot^(2d)
            lemma_inverse_root(psi, unroot, n, q);
            lemma_pow_adds(unroot, 2 * j, 2 * d);
            lemma_pow_distributes(psi, unroot, 2 * j);
            lemma_pow_of_one(psi * unroot, 2 * j, q);
            let (a, b, c) = (pow(psi, 2 * j), pow(unroot, 2 * j), pow(unroot, 2 * d));
            assert(a * (b * c) == (a * b) * c) by (nonlinear_arith);
            lemma_cong_mul(a * b, 1, c, c, q);
            assert(1 * c == c);
            lemma_geometric_congruent(z, c, n, q);
            lemma_root_powers_vanish(unroot, d, levels, q);
        }
        lemma_cong_mul(pj, pj, geometric_sum(z, n), 0, q);
        assert(pj * 0 == 0);
    }
}

/// All `n` weighted outputs of the first `count` coefficients: `n * psi^i`
/// times coefficient `i`, once `count` has passed it.
pub proof fn lemma_weighted_outputs_total(
    v: Seq<i64>,
    psi: int,
    unroot: int,
    i: nat,
    count: nat,
    levels: nat,
    q: int,
)
    requires
        q > 0,
        v.len() == pow2(levels),
        is_negacyclic_root(psi, pow2(levels), q),
        (psi * unroot) % q == 1int % q,
        i < pow2(levels),
        count <= pow2(levels),
    ensures
        weighted_outputs(v, psi, unroot, i, count, pow2(levels)) % q == (if i < count {
            v[i as int] * (pow(psi, i) * pow2(levels))
        } else {
            0
        }) % q,
    decreases count,
{
    let n = pow2(levels);
    if count == 0 {
        lemma_weighted_outputs_empty(v, psi, unroot, i, n);
    } else {
        let j = (count - 1) as nat;
        lemma_weighted_outputs_total(v, psi, unroot, i, j, levels, q);
        lemma_weighted_outputs_step(v, psi, unroot, i, count, n);
        lemma_monomials_total(psi, unroot, i, j, levels, q);
        let x = v[j as int] as int;
        let mono = weighted_monomials(psi, unroot, i, j, n);
        let before = weighted_outputs(v, psi, unroot, i, j, n);
        if j == i {
            lemma_cong_mul(x, x, mono, pow(psi, i) * n, q);
            lemma_cong_add(before, 0, x * mono, x * (pow(psi, i) * n), q);
        } else {
            lemma_cong_mul(x, x, mono, 0, q);
            assert(x * 0 == 0);
            let keep = if i < j {
                v[i as int] * (pow(psi, i) * n)
            } else {
                0
            };
            lemma_cong_add(before, keep, x * mono, 0, q);
        }
    }
}

/// The polynomial of the transform outputs, at `unroot^(2i)`, is the
/// weighted sum of the exact outputs, modulo `q`.
pub proof fn lemma_outputs_polynomial(
    v: Seq<i64>,
    psi: int,
    unroot: int,
    i: nat,
    q: int,
    upto: nat,
)
    requires
        0 < q <= i64::MAX,
        upto <= v.len(),
    ensures
        poly_eval(forward_ntt(v, psi, q), pow(unroot, 2 * i), upto) % q == weighted_outputs(
            v,
            psi,
            unroot,
            i,
            v.len(),
            upto,
        ) % q,
    decreases upto,
{
    if upto > 0 {
        let k = (upto - 1) as nat;
        lemma_outputs_polynomial(v, psi, unroot, i, q, k);
        let xs = forward_ntt(v, psi, q);
        let exact = poly_eval(v, pow(psi, 2 * k + 1), v.len());
        assert(xs[k as int] == (exact % q) as i64);
        lemma_mod_twice(exact, q);
        lemma_pow_multiplies(unroot, 2 * i, k);
        assert((2 * i) * k == 2 * i * k) by (nonlinear_arith);
        let wgt = pow(unroot, 2 * i * k);
        lemma_cong_mul(xs[k as int] as int, exact, wgt, wgt, q);
        lemma_cong_add(
            poly_eval(xs, pow(unroot, 2 * i), k),
            weighted_outputs(v, psi, unroot, i, v.len(), k),
            xs[k as int] * wgt,
            exact * wgt,
            q,
        );
    }
}

/// Round trip: for a degree `n` that is a power of two, a root `psi` of
/// `X^n + 1` modulo `q`, its inverse `unroot` and the inverse `ninv` of `n`,
/// the inverse transform of the forward transform of `v` is `v`, coefficient
/// by coefficient modulo `q`.
pub proof fn lemma_ntt_round_trip(
    v: Seq<i64>,
    psi: int,
    unroot: int,
    ninv: int,
    q: int,
    levels: nat,
)
    requires
        0 < q <= i64::MAX,
        v.len() == pow2(levels),
        is_negacyclic_root(psi, pow2(levels), q),
        (psi * unroot) % q == 1int % q,
        (pow2(levels) * ninv) % q == 1int % q,
    ensures
        inverse_ntt(forward_ntt(v, psi, q), unroot, ninv, q) == reduce_all(v, q),
{
    let n = pow2(levels);
    let xs = forward_ntt(v, psi, q);
    let back = inverse_ntt(xs, unroot, ninv, q);
    assert forall|i: int| 0 <= i < n implies back[i] == reduce_all(v, q)[i] by {
        let iu = i as nat;
        let x = v[i] as int;
        let poly = poly_eval(xs, pow(unroot, 2 * iu), n);
        lemma_outputs_polynomial(v, psi, unroot, iu, q, n);
        lemma_weighted_outputs_total(v, psi, unroot, iu, n, levels, q);
        let pi = pow(psi, iu);
        let ui = pow(unroot, iu);
        // poly is congruent to x * (psi^i * n); the scaling undoes psi^i and n
        assert(poly % q == (x * (pi * n)) % q);
        lemma_cong_mul(poly, x * (pi * n), ninv, ninv, q);
        lemma_cong_mul(poly * ninv, (x * (pi * n)) * ninv, ui, ui, q);
        lemma_pow_distributes(psi, unroot, iu);
        lemma_pow_of_one(psi * unroot, iu, q);
        assert(((x * (pi * n)) * ninv) * ui == (x * (pi * ui)) * (n * ninv)) by (nonlinear_arith);
        lemma_cong_mul(x, x, pi * ui, 1, q);
        assert(x * 1 == x);
        lemma_cong_mul(x * (pi * ui), x, n * ninv, 1, q);
        assert(back[i] == ((poly * ninv * ui) % q) as i64);
    }
    assert(back =~= reduce_all(v, q));
}

} // verus!
