//! The transform turns ring operations into pointwise ones: sums into
//! sums, negacyclic products into products.

use vstd::prelude::*;
use vstd::arithmetic::div_mod::*;
use vstd::arithmetic::mul::*;
use vstd::arithmetic::power::*;
use crate::lattice::{negacyclic_mul, negacyclic_sum, negacyclic_term, pointwise_mul, ring_add};
use crate::ntt_laws::lemma_odd_power_of_minus_one;
use crate::ntt_spec::{forward_ntt, is_negacyclic_root, lemma_cong_add, lemma_cong_mul, poly_eval};

verus! {

/// The value at `x` of the polynomial with coefficients `f(0), f(1), ...`:
/// the sum of `f(d) * x^d` over `d < upto`.
pub open spec fn series(f: spec_fn(int) -> int, x: int, upto: nat) -> int
    decreases upto,
{
    if upto == 0 {
        0
    } else {
        series(f, x, (upto - 1) as nat) + f(upto - 1) * pow(x, (upto - 1) as nat)
    }
}

/// The contribution of `f(i)` to coefficient `d` of the negacyclic
/// product of two polynomials of `n` coefficients: `f(i) * g(d - i)`, or,
/// where the index wraps, minus `f(i) * g(d - i + n)`.
pub open spec fn product_term(
    f: spec_fn(int) -> int,
    g: spec_fn(int) -> int,
    n: int,
    d: int,
    i: int,
) -> int {
    if i <= d {
        f(i) * g(d - i)
    } else {
        -(f(i) * g(d - i + n))
    }
}

/// Sum of the first `upto` contributions to coefficient `d`.
pub open spec fn product_sum(
    f: spec_fn(int) -> int,
    g: spec_fn(int) -> int,
    n: int,
    d: int,
    upto: nat,
) -> int
    decreases upto,
{
    if upto == 0 {
        0
    } else {
        product_sum(f, g, n, d, (upto - 1) as nat) + product_term(f, g, n, d, upto - 1)
    }
}

/// The coefficients of the negacyclic product of the first `upto` terms
/// of `f` with `g`, over the integers.
pub open spec fn product_coefficients(
    f: spec_fn(int) -> int,
    g: spec_fn(int) -> int,
    n: int,
    upto: nat,
) -> spec_fn(int) -> int {
    |d: int| product_sum(f, g, n, d, upto)
}

/// The coefficients of `X^i * g` in the negacyclic ring: `g` moved up by
/// `i` places, with a change of sign where it wraps.
pub open spec fn shifted(g: spec_fn(int) -> int, n: int, i: int) -> spec_fn(int) -> int {
    |d: int|
        if i <= d {
            g(d - i)
        } else {
            -g(d - i + n)
        }
}

/// The coefficients of `v`.
pub open spec fn coefficients(v: Seq<i64>) -> spec_fn(int) -> int {
    |d: int| v[d] as int
}

/// A series of zeros is zero.
pub proof fn lemma_series_zero(f: spec_fn(int) -> int, x: int, upto: nat)
    requires
        forall|d: int| 0 <= d < upto ==> #[trigger] f(d) == 0,
    ensures
        series(f, x, upto) == 0,
    decreases upto,
{
    if upto > 0 {
        lemma_series_zero(f, x, (upto - 1) as nat);
        assert(f(upto - 1) == 0);
    }
}

/// Series with congruent coefficients are congruent.
pub proof fn lemma_series_congruent(
    f: spec_fn(int) -> int,
    g: spec_fn(int) -> int,
    x: int,
    upto: nat,
    q: int,
)
    requires
        q > 0,
        forall|d: int| 0 <= d < upto ==> #[trigger] f(d) % q == g(d) % q,
    ensures
        series(f, x, upto) % q == series(g, x, upto) % q,
    decreases upto,
{
    if upto > 0 {
        let m = (upto - 1) as nat;
        lemma_series_congruent(f, g, x, m, q);
        assert(f(m as int) % q == g(m as int) % q);
        lemma_cong_mul(f(m as int), g(m as int), pow(x, m), pow(x, m), q);
        lemma_cong_add(
            series(f, x, m),
            series(g, x, m),
            f(m as int) * pow(x, m),
            g(m as int) * pow(x, m),
            q,
        );
    }
}

/// The series of `f + c * g` is the series of `f` plus `c` times that of `g`.
pub proof fn lemma_series_combination(
    f: spec_fn(int) -> int,
    g: spec_fn(int) -> int,
    c: int,
    h: spec_fn(int) -> int,
    x: int,
    upto: nat,
)
    requires
        forall|d: int| 0 <= d < upto ==> #[trigger] h(d) == f(d) + c * g(d),
    ensures
        series(h, x, upto) == series(f, x, upto) + c * series(g, x, upto),
    decreases upto,
{
    if upto > 0 {
        let m = (upto - 1) as nat;
        lemma_series_combination(f, g, c, h, x, m);
        let (fm, gm, hm, p) = (f(m as int), g(m as int), h(m as int), pow(x, m));
        assert(hm == fm + c * gm);
        let (sf, sg) = (series(f, x, m), series(g, x, m));
        assert(sf + c * sg + hm * p == (sf + fm * p) + c * (sg + gm * p)) by (nonlinear_arith)
            requires
                hm == fm + c * gm,
        ;
    }
}

/// Moving every coefficient up by one place multiplies the series by `x`.
pub proof fn lemma_series_shift(f: spec_fn(int) -> int, g: spec_fn(int) -> int, x: int, m: nat)
    requires
        forall|d: int| 1 <= d <= m ==> #[trigger] g(d) == f(d - 1),
    ensures
        series(g, x, m + 1) == g(0) + x * series(f, x, m),
    decreases m,
{
    reveal(pow);
    if m == 0 {
        assert(series(g, x, 1) == series(g, x, 0) + g(0) * pow(x, 0));
        assert(pow(x, 0) == 1);
    } else {
        let k = (m - 1) as nat;
        lemma_series_shift(f, g, x, k);
        assert(g(m as int) == f(m - 1));
        assert(pow(x, m) == x * pow(x, k));
        let (fk, pk, sf, g0) = (f(k as int), pow(x, k), series(f, x, k), g(0));
        assert(series(g, x, m + 1) == series(g, x, m) + g(m as int) * pow(x, m));
        assert((g0 + x * sf) + fk * (x * pk) == g0 + x * (sf + fk * pk)) by (nonlinear_arith);
    }
}

/// The series of a vector's coefficients is the vector's polynomial.
pub proof fn lemma_series_is_poly(f: spec_fn(int) -> int, v: Seq<i64>, x: int, upto: nat)
    requires
        forall|d: int| 0 <= d < upto ==> #[trigger] f(d) == v[d],
    ensures
        series(f, x, upto) == poly_eval(v, x, upto),
    decreases upto,
{
    if upto > 0 {
        lemma_series_is_poly(f, v, x, (upto - 1) as nat);
        assert(f(upto - 1) == v[upto - 1]);
    }
}

/// At a root of `X^n + 1`, the polynomial `X^i * g` of the negacyclic
/// ring has the value `x^i * g(x)`.
pub proof fn lemma_rotation(g: spec_fn(int) -> int, n: nat, x: int, i: nat, q: int)
    requires
        q > 0,
        i < n,
        (pow(x, n) + 1) % q == 0,
    ensures
        series(shifted(g, n as int, i as int), x, n) % q == (pow(x, i) * series(g, x, n)) % q,
    decreases i,
{
    reveal(pow);
    let value = series(g, x, n);
    let h = shifted(g, n as int, i as int);
    if i == 0 {
        assert forall|d: int| 0 <= d < n implies #[trigger] h(d) % q == g(d) % q by {}
        lemma_series_congruent(h, g, x, n, q);
        assert(pow(x, 0) == 1);
        assert(1 * value == value);
    } else {
        let f = shifted(g, n as int, i - 1);
        lemma_rotation(g, n, x, (i - 1) as nat, q);
        let m = (n - 1) as nat;
        assert forall|d: int| 1 <= d <= m implies #[trigger] h(d) == f(d - 1) by {}
        lemma_series_shift(f, h, x, m);
        let last = f(m as int);
        assert(h(0) == -last);
        let sf = series(f, x, m);
        let whole = series(f, x, n);
        assert(whole == sf + last * pow(x, m));
        assert(pow(x, n) == x * pow(x, m));
        let over = pow(x, n) + 1;
        assert(series(h, x, n) == x * whole - last * over) by (nonlinear_arith)
            requires
                series(h, x, n) == -last + x * sf,
                whole == sf + last * pow(x, m),
                over == x * pow(x, m) + 1,
        ;
        // the correction is a multiple of q
        lemma_small_mod(0, q as nat);
        lemma_cong_mul(last, last, over, 0, q);
        assert(last * 0 == 0);
        lemma_cong_add(x * whole, x * whole, last * over, 0, q);
        // and x times the value one place lower is the value here
        let below = pow(x, (i - 1) as nat);
        lemma_cong_mul(x, x, whole, below * value, q);
        assert(x * (below * value) == pow(x, i) * value) by (nonlinear_arith)
            requires
                pow(x, i) == x * below,
        ;
    }
}

/// At a root of `X^n + 1`, the product of the first `m` terms of `f`
/// with `g` has the value of those terms times the value of `g`.
pub proof fn lemma_partial_product(
    f: spec_fn(int) -> int,
    g: spec_fn(int) -> int,
    n: nat,
    x: int,
    m: nat,
    q: int,
)
    requires
        q > 0,
        m <= n,
        (pow(x, n) + 1) % q == 0,
    ensures
        series(product_coefficients(f, g, n as int, m), x, n) % q == (series(f, x, m) * series(
            g,
            x,
            n,
        )) % q,
    decreases m,
{
    let value = series(g, x, n);
    let h = product_coefficients(f, g, n as int, m);
    if m == 0 {
        assert forall|d: int| 0 <= d < n implies #[trigger] h(d) == 0 by {}
        lemma_series_zero(h, x, n);
        assert(0 * value == 0);
    } else {
        let k = (m - 1) as nat;
        let below = product_coefficients(f, g, n as int, k);
        let moved = shifted(g, n as int, k as int);
        let c = f(k as int);
        lemma_partial_product(f, g, n, x, k, q);
        lemma_rotation(g, n, x, k, q);
        assert forall|d: int| 0 <= d < n implies #[trigger] h(d) == below(d) + c * moved(d) by {
            assert(h(d) == below(d) + product_term(f, g, n as int, d, k as int));
            if k > d {
                let w = g(d - k + n);
                assert(-(c * w) == c * (-w)) by (nonlinear_arith);
            }
        }
        lemma_series_combination(below, moved, c, h, x, n);
        let (sb, sm) = (series(below, x, n), series(moved, x, n));
        let head = series(f, x, k);
        let p = pow(x, k);
        lemma_cong_mul(c, c, sm, p * value, q);
        lemma_cong_add(sb, head * value, c * sm, c * (p * value), q);
        assert(head * value + c * (p * value) == (head + c * p) * value) by (nonlinear_arith);
        assert(series(f, x, m) == head + c * p);
    }
}

/// At a root of `X^n + 1`, the value of a negacyclic product over the
/// integers is the product of the values.
pub proof fn lemma_series_of_product(
    f: spec_fn(int) -> int,
    g: spec_fn(int) -> int,
    n: nat,
    x: int,
    q: int,
)
    requires
        q > 0,
        (pow(x, n) + 1) % q == 0,
    ensures
        series(product_coefficients(f, g, n as int, n), x, n) % q == (series(f, x, n) * series(
            g,
            x,
            n,
        )) % q,
{
    lemma_partial_product(f, g, n, x, n, q);
}

/// The sums that define a product in the ring are those of the product
/// of the coefficients over the integers.
pub proof fn lemma_negacyclic_is_product(a: Seq<i64>, b: Seq<i64>, d: int, upto: nat)
    ensures
        negacyclic_sum(a, b, d, upto) == product_sum(
            coefficients(a),
            coefficients(b),
            a.len() as int,
            d,
            upto,
        ),
    decreases upto,
{
    if upto > 0 {
        lemma_negacyclic_is_product(a, b, d, (upto - 1) as nat);
        assert(negacyclic_term(a, b, d, upto - 1) == product_term(
            coefficients(a),
            coefficients(b),
            a.len() as int,
            d,
            upto - 1,
        ));
    }
}

/// The odd powers of a root of `X^n + 1` are roots of it.
pub proof fn lemma_odd_powers_are_roots(psi: int, n: nat, k: nat, q: int)
    requires
        q > 0,
        is_negacyclic_root(psi, n, q),
    ensures
        (pow(pow(psi, 2 * k + 1), n) + 1) % q == 0,
{
    let u = 2 * k + 1;
    lemma_pow_multiplies(psi, u, n);
    lemma_pow_multiplies(psi, n, u);
    assert(u * n == n * u) by (nonlinear_arith);
    lemma_odd_power_of_minus_one(pow(psi, n), u, q);
}

/// At a root of `X^n + 1`, the value of a product in the ring is the
/// product of the values.
pub proof fn lemma_poly_eval_of_product(a: Seq<i64>, b: Seq<i64>, x: int, q: int)
    requires
        0 < q <= i64::MAX,
        a.len() == b.len(),
        (pow(x, a.len()) + 1) % q == 0,
    ensures
        poly_eval(negacyclic_mul(a, b, q), x, a.len()) % q == (poly_eval(a, x, a.len())
            * poly_eval(b, x, b.len())) % q,
{
    let n = a.len();
    let c = negacyclic_mul(a, b, q);
    let (fa, fb) = (coefficients(a), coefficients(b));
    let full = product_coefficients(fa, fb, n as int, n);
    let reduced = coefficients(c);
    assert forall|d: int| 0 <= d < n implies #[trigger] reduced(d) % q == full(d) % q by {
        lemma_negacyclic_is_product(a, b, d, n);
        lemma_mod_twice(full(d), q);
    }
    lemma_series_congruent(reduced, full, x, n, q);
    lemma_series_is_poly(reduced, c, x, n);
    lemma_series_is_poly(fa, a, x, n);
    lemma_series_is_poly(fb, b, x, n);
    lemma_series_of_product(fa, fb, n, x, q);
}

/// The transform of a negacyclic product is the pointwise product of the
/// transforms.
pub proof fn lemma_transform_of_product(a: Seq<i64>, b: Seq<i64>, psi: int, q: int)
    requires
        0 < q <= i64::MAX,
        a.len() == b.len(),
        is_negacyclic_root(psi, a.len(), q),
    ensures
        forward_ntt(negacyclic_mul(a, b, q), psi, q) == pointwise_mul(
            forward_ntt(a, psi, q),
            forward_ntt(b, psi, q),
            q,
        ),
{
    let n = a.len();
    let c = negacyclic_mul(a, b, q);
    let left = forward_ntt(c, psi, q);
    let right = pointwise_mul(forward_ntt(a, psi, q), forward_ntt(b, psi, q), q);
    assert forall|k: int| 0 <= k < n implies left[k] == right[k] by {
        let x = pow(psi, (2 * k + 1) as nat);
        lemma_odd_powers_are_roots(psi, n, k as nat, q);
        lemma_poly_eval_of_product(a, b, x, q);
        let (va, vb) = (poly_eval(a, x, n), poly_eval(b, x, n));
        lemma_mod_twice(va, q);
        lemma_mod_twice(vb, q);
        lemma_cong_mul(va % q, va, vb % q, vb, q);
    }
    assert(left =~= right);
}

/// The value of a sum of polynomials is the sum of their values.
pub proof fn lemma_poly_eval_of_sum(a: Seq<i64>, b: Seq<i64>, x: int, q: int, upto: nat)
    requires
        0 < q <= i64::MAX,
        a.len() == b.len(),
        upto <= a.len(),
    ensures
        poly_eval(ring_add(a, b, q), x, upto) % q == (poly_eval(a, x, upto) + poly_eval(b, x, upto))
            % q,
    decreases upto,
{
    if upto > 0 {
        let m = (upto - 1) as nat;
        lemma_poly_eval_of_sum(a, b, x, q, m);
        let (am, bm, p) = (a[m as int] as int, b[m as int] as int, pow(x, m));
        let sm = ring_add(a, b, q)[m as int] as int;
        assert(sm == (am + bm) % q);
        lemma_mod_twice(am + bm, q);
        lemma_cong_mul(sm, am + bm, p, p, q);
        lemma_cong_add(
            poly_eval(ring_add(a, b, q), x, m),
            poly_eval(a, x, m) + poly_eval(b, x, m),
            sm * p,
            (am + bm) * p,
            q,
        );
        assert((am + bm) * p == am * p + bm * p) by (nonlinear_arith);
    }
}

/// The transform of a sum is the sum of the transforms.
pub proof fn lemma_transform_of_sum(a: Seq<i64>, b: Seq<i64>, psi: int, q: int)
    requires
        0 < q <= i64::MAX,
        a.len() == b.len(),
    ensures
        forward_ntt(ring_add(a, b, q), psi, q) == ring_add(
            forward_ntt(a, psi, q),
            forward_ntt(b, psi, q),
            q,
        ),
{
    let n = a.len();
    let left = forward_ntt(ring_add(a, b, q), psi, q);
    let right = ring_add(forward_ntt(a, psi, q), forward_ntt(b, psi, q), q);
    assert forall|k: int| 0 <= k < n implies left[k] == right[k] by {
        let x = pow(psi, (2 * k + 1) as nat);
        lemma_poly_eval_of_sum(a, b, x, q, n);
        let (va, vb) = (poly_eval(a, x, n), poly_eval(b, x, n));
        lemma_mod_twice(va, q);
        lemma_mod_twice(vb, q);
        lemma_cong_add(va % q, va, vb % q, vb, q);
    }
    assert(left =~= right);
}

} // verus!
