//! What the number-theoretic transform computes, and why the butterfly
//! network computes it.

use vstd::prelude::*;
use vstd::arithmetic::div_mod::*;
use vstd::arithmetic::mul::*;
use vstd::arithmetic::power::*;
use vstd::arithmetic::power2::*;

verus! {

/// `n` is a power of two.
pub open spec fn power_of_two(n: int) -> bool {
    exists|e: nat| n == pow2(e)
}

/// `psi` is a root of `X^n + 1` modulo `q`: `psi^n` is `-1`.
pub open spec fn is_negacyclic_root(psi: int, n: nat, q: int) -> bool {
    (pow(psi, n) + 1) % q == 0
}

/// The polynomial with the first `upto` coefficients of `v`, at `x`.
pub open spec fn poly_eval(v: Seq<i64>, x: int, upto: nat) -> int
    decreases upto,
{
    if upto == 0 {
        0
    } else {
        poly_eval(v, x, (upto - 1) as nat) + v[upto - 1] * pow(x, (upto - 1) as nat)
    }
}

/// The forward transform: the polynomial `v` at the odd powers
/// `psi, psi^3, psi^5, ...` of the root, modulo `q`.
pub open spec fn forward_ntt(v: Seq<i64>, psi: int, q: int) -> Seq<i64> {
    Seq::new(v.len(), |k: int| (poly_eval(v, pow(psi, (2 * k + 1) as nat), v.len()) % q) as i64)
}

/// The inverse transform: the polynomial `w` at the even powers of the
/// inverse root, each value scaled by `ninv * unroot^i`, modulo `q`.
pub open spec fn inverse_ntt(w: Seq<i64>, unroot: int, ninv: int, q: int) -> Seq<i64> {
    Seq::new(
        w.len(),
        |i: int|
            ((poly_eval(w, pow(unroot, (2 * i) as nat), w.len()) * ninv * pow(unroot, i as nat))
                % q) as i64,
    )
}

/// The coefficients scaled by the powers of `psi`, modulo `q`.
pub open spec fn twisted(v: Seq<i64>, psi: int, q: int) -> Seq<i64> {
    Seq::new(v.len(), |j: int| ((v[j] * pow(psi, j as nat)) % q) as i64)
}

/// `x` with its lowest `bits` bits in reverse order.
pub open spec fn bit_rev(x: nat, bits: nat) -> nat
    decreases bits,
{
    if bits == 0 {
        0
    } else {
        (x % 2) * pow2((bits - 1) as nat) + bit_rev(x / 2, (bits - 1) as nat)
    }
}

/// Sum of `count` samples of `w`, taken from `start` every `stride`, each
/// weighted by the matching power of `omega` for output index `r`.
pub open spec fn strided_sum(
    w: Seq<i64>,
    omega: int,
    start: int,
    stride: int,
    r: int,
    count: nat,
) -> int
    decreases count,
{
    if count == 0 {
        0
    } else {
        strided_sum(w, omega, start, stride, r, (count - 1) as nat) + w[start + (count - 1)
            * stride] * pow(omega, (stride * (count - 1) * r) as nat)
    }
}

/// The value at position `p` after `t` butterfly stages over `2^levels` samples.
pub open spec fn stage_value(w: Seq<i64>, omega: int, levels: nat, t: nat, p: int) -> int {
    let size = pow2(t) as int;
    strided_sum(
        w,
        omega,
        bit_rev((p / size) as nat, (levels - t) as nat) as int,
        pow2((levels - t) as nat) as int,
        p % size,
        pow2(t),
    )
}

/// Sums congruent term by term are congruent.
pub proof fn lemma_cong_add(a: int, a2: int, b: int, b2: int, q: int)
    requires
        q > 0,
        a % q == a2 % q,
        b % q == b2 % q,
    ensures
        (a + b) % q == (a2 + b2) % q,
        (a - b) % q == (a2 - b2) % q,
{
    lemma_add_mod_noop(a, b, q);
    lemma_add_mod_noop(a2, b2, q);
    lemma_sub_mod_noop(a, b, q);
    lemma_sub_mod_noop(a2, b2, q);
}

/// Products congruent factor by factor are congruent.
pub proof fn lemma_cong_mul(a: int, a2: int, b: int, b2: int, q: int)
    requires
        q > 0,
        a % q == a2 % q,
        b % q == b2 % q,
    ensures
        (a * b) % q == (a2 * b2) % q,
{
    lemma_mul_mod_noop(a, b, q);
    lemma_mul_mod_noop(a2, b2, q);
}

/// A power of a number congruent to one is congruent to one.
pub proof fn lemma_pow_of_one(x: int, e: nat, q: int)
    requires
        q > 0,
        x % q == 1int % q,
    ensures
        pow(x, e) % q == 1int % q,
{
    lemma_pow_mod_noop(x, e, q);
    lemma_pow_mod_noop(1, e, q);
    lemma1_pow(e);
}

/// `pow2` of a successor doubles.
pub proof fn lemma_pow2_double(e: nat)
    ensures
        pow2(e + 1) == 2 * pow2(e),
        pow2(e) >= 1,
{
    lemma_pow2_unfold(e + 1);
    lemma_pow2_pos(e);
}

/// `pow2` is monotonic.
pub proof fn lemma_pow2_monotonic(a: nat, b: nat)
    requires
        a <= b,
    ensures
        pow2(a) <= pow2(b),
    decreases b - a,
{
    if a < b {
        lemma_pow2_monotonic(a, (b - 1) as nat);
        lemma_pow2_double((b - 1) as nat);
    }
}

/// A reversed number fits in as many bits as were reversed.
pub proof fn lemma_bit_rev_bound(x: nat, bits: nat)
    ensures
        bit_rev(x, bits) < pow2(bits),
    decreases bits,
{
    if bits == 0 {
        lemma2_to64();
    } else {
        lemma_bit_rev_bound(x / 2, (bits - 1) as nat);
        lemma_pow2_double((bits - 1) as nat);
        let h = pow2((bits - 1) as nat) as int;
        let low = (x % 2) as int;
        assert(low * h <= h) by (nonlinear_arith)
            requires
                0 <= low <= 1,
                h >= 0,
        ;
    }
}

/// Splitting a strided sum into its even and odd samples.
pub proof fn lemma_strided_split(w: Seq<i64>, omega: int, c: int, s: nat, r: nat, h: nat)
    ensures
        strided_sum(w, omega, c, s as int, r as int, 2 * h) == strided_sum(
            w,
            omega,
            c,
            2 * (s as int),
            r as int,
            h,
        ) + pow(omega, s * r) * strided_sum(w, omega, c + s, 2 * (s as int), r as int, h),
    decreases h,
{
    let si = s as int;
    let ri = r as int;
    if h == 0 {
        assert(pow(omega, s * r) * 0 == 0);
    } else {
        let g = (h - 1) as nat;
        lemma_strided_split(w, omega, c, s, r, g);
        let full2 = strided_sum(w, omega, c, si, ri, (2 * h - 2) as nat);
        let full1 = strided_sum(w, omega, c, si, ri, (2 * h - 1) as nat);
        let full = strided_sum(w, omega, c, si, ri, 2 * h);
        let even_g = strided_sum(w, omega, c, 2 * si, ri, g);
        let odd_g = strided_sum(w, omega, c + si, 2 * si, ri, g);
        let even = strided_sum(w, omega, c, 2 * si, ri, h);
        let odd = strided_sum(w, omega, c + si, 2 * si, ri, h);
        let tw = pow(omega, s * r);
        let gi = g as int;
        // index and exponent bookkeeping
        assert((2 * h - 2) * si == gi * (2 * si)) by (nonlinear_arith)
            requires
                gi == h - 1,
        ;
        assert((2 * h - 1) * si == si + gi * (2 * si)) by (nonlinear_arith)
            requires
                gi == h - 1,
        ;
        assert(si * (2 * h - 2) * ri == (2 * si) * gi * ri) by (nonlinear_arith)
            requires
                gi == h - 1,
        ;
        assert(si * (2 * h - 1) * ri == si * ri + (2 * si) * gi * ri) by (nonlinear_arith)
            requires
                gi == h - 1,
        ;
        assert((2 * si) * gi * ri >= 0 && si * ri >= 0) by (nonlinear_arith)
            requires
                si >= 0,
                gi >= 0,
                ri >= 0,
        ;
        let e_even = ((2 * si) * gi * ri) as nat;
        let x_even = w[c + gi * (2 * si)] as int;
        let x_odd = w[c + si + gi * (2 * si)] as int;
        lemma_pow_adds(omega, s * r, e_even);
        assert(full1 == full2 + x_even * pow(omega, e_even));
        assert(full == full1 + x_odd * pow(omega, (s * r + e_even) as nat));
        assert(even == even_g + x_even * pow(omega, e_even));
        assert(odd == odd_g + x_odd * pow(omega, e_even));
        let pe = pow(omega, e_even);
        assert(tw * (odd_g + x_odd * pe) == tw * odd_g + x_odd * (tw * pe)) by (nonlinear_arith);
    }
}

/// Moving the output index by a period of `omega` leaves a strided sum
/// unchanged modulo `q`.
pub proof fn lemma_strided_period(
    w: Seq<i64>,
    omega: int,
    q: int,
    c: int,
    s: nat,
    r: nat,
    h: nat,
    count: nat,
)
    requires
        q > 0,
        pow(omega, s * h) % q == 1int % q,
    ensures
        strided_sum(w, omega, c, s as int, (r + h) as int, count) % q == strided_sum(
            w,
            omega,
            c,
            s as int,
            r as int,
            count,
        ) % q,
    decreases count,
{
    if count > 0 {
        let g = (count - 1) as nat;
        lemma_strided_period(w, omega, q, c, s, r, h, g);
        let x = w[c + g * s] as int;
        let e_r = (s * g * r) as nat;
        let e_h = (s * g * h) as nat;
        assert(s * g * (r + h) == s * g * r + s * g * h) by (nonlinear_arith);
        assert(s * g * h == (s * h) * g) by (nonlinear_arith);
        lemma_pow_adds(omega, e_r, e_h);
        lemma_pow_multiplies(omega, s * h, g);
        lemma_pow_of_one(pow(omega, s * h), g, q);
        // pow(omega, e_h) is congruent to one, so the weight is unchanged
        let wr = pow(omega, e_r);
        let wh = pow(omega, e_h);
        lemma_cong_mul(wr, wr, wh, 1, q);
        assert(wr * 1 == wr);
        lemma_cong_mul(x, x, wr * wh, wr, q);
        lemma_cong_add(
            strided_sum(w, omega, c, s as int, (r + h) as int, g),
            strided_sum(w, omega, c, s as int, r as int, g),
            x * (wr * wh),
            x * wr,
            q,
        );
    }
}

/// A number whose square root (in the exponent) is `-1` is `1`:
/// if `omega^e` is `-1` modulo `q`, then `omega^(2e)` is `1`.
pub proof fn lemma_square_of_minus_one(omega: int, e: nat, q: int)
    requires
        q > 0,
        (pow(omega, e) + 1) % q == 0,
    ensures
        pow(omega, 2 * e) % q == 1int % q,
{
    let x = pow(omega, e);
    lemma_pow_adds(omega, e, e);
    // x is congruent to -1, so x * x is congruent to 1
    assert(x % q == (-1int) % q) by {
        lemma_mod_equivalence(x, -1, q);
    }
    lemma_cong_mul(x, -1, x, -1, q);
}

/// One butterfly: the two outputs of a stage from the two inputs of the stage before.
pub proof fn lemma_butterfly(
    w: Seq<i64>,
    omega: int,
    q: int,
    levels: nat,
    t: nat,
    b: nat,
    r: nat,
)
    requires
        q > 0,
        1 <= t <= levels,
        b < pow2((levels - t) as nat),
        r < pow2((t - 1) as nat),
        (pow(omega, pow2((levels - 1) as nat)) + 1) % q == 0,
    ensures
        ({
            let half = pow2((t - 1) as nat) as int;
            let p = (b * pow2(t) + r) as int;
            let tw = pow(omega, r * pow2((levels - t) as nat));
            let left = stage_value(w, omega, levels, (t - 1) as nat, p);
            let right = stage_value(w, omega, levels, (t - 1) as nat, p + half);
            &&& stage_value(w, omega, levels, t, p) % q == (left + tw * right) % q
            &&& stage_value(w, omega, levels, t, p + half) % q == (left - tw * right) % q
        }),
{
    let size = pow2(t) as int;
    let half = pow2((t - 1) as nat) as int;
    let s = pow2((levels - t) as nat);
    let si = s as int;
    let p = b * size + r;
    let c = bit_rev(b, (levels - t) as nat) as int;
    let bi = b as int;
    let ri = r as int;
    lemma_pow2_double((t - 1) as nat);
    lemma_pow2_double((levels - t) as nat);
    assert(size == 2 * half);
    assert(pow2((levels - t + 1) as nat) == 2 * s);
    // positions as (block, offset) pairs at both stages
    lemma_fundamental_div_mod_converse(p, size, bi, ri);
    lemma_fundamental_div_mod_converse(p + half, size, bi, ri + half);
    assert(p == (2 * bi) * half + ri && p + half == (2 * bi + 1) * half + ri) by (nonlinear_arith)
        requires
            p == bi * size + ri,
            size == 2 * half,
    ;
    lemma_fundamental_div_mod_converse(p, half, 2 * bi, ri);
    lemma_fundamental_div_mod_converse(p + half, half, 2 * bi + 1, ri);
    // reversing one more bit of an even or odd block number
    assert(bit_rev((2 * b) as nat, (levels - t + 1) as nat) == c) by {
        assert(((2 * b) as nat) % 2 == 0);
        assert(((2 * b) as nat) / 2 == b);
        assert(0 * s == 0);
    }
    assert(bit_rev((2 * b + 1) as nat, (levels - t + 1) as nat) == c + s) by {
        assert(((2 * b + 1) as nat) % 2 == 1);
        assert(((2 * b + 1) as nat) / 2 == b);
        assert(1 * s == s);
    }
    let left = stage_value(w, omega, levels, (t - 1) as nat, p);
    let right = stage_value(w, omega, levels, (t - 1) as nat, p + half);
    assert(left == strided_sum(w, omega, c, 2 * si, ri, half as nat));
    assert(right == strided_sum(w, omega, c + si, 2 * si, ri, half as nat));
    assert(stage_value(w, omega, levels, t, p) == strided_sum(w, omega, c, si, ri, size as nat));
    assert(stage_value(w, omega, levels, t, p + half) == strided_sum(
        w,
        omega,
        c,
        si,
        ri + half,
        size as nat,
    ));
    let tw = pow(omega, r * s);
    assert(s * r == r * s) by (nonlinear_arith);
    // the upper output
    lemma_strided_split(w, omega, c, s, r, half as nat);
    // the lower output: the same split at index r + half, then periodicity
    lemma_strided_split(w, omega, c, s, (r + half) as nat, half as nat);
    let left2 = strided_sum(w, omega, c, 2 * si, ri + half, half as nat);
    let right2 = strided_sum(w, omega, c + si, 2 * si, ri + half, half as nat);
    let tw2 = pow(omega, s * ((r + half) as nat));
    // omega^(2 s half) is omega^n, congruent to one
    lemma_pow2_adds((levels - t) as nat, (t - 1) as nat);
    assert(s * half == pow2((levels - 1) as nat));
    assert((2 * s) * (half as nat) == 2 * pow2((levels - 1) as nat)) by (nonlinear_arith)
        requires
            s * half == pow2((levels - 1) as nat),
            half >= 0,
    ;
    lemma_square_of_minus_one(omega, pow2((levels - 1) as nat), q);
    lemma_strided_period(w, omega, q, c, 2 * s, r, half as nat, half as nat);
    lemma_strided_period(w, omega, q, c + si, 2 * s, r, half as nat, half as nat);
    assert(left2 % q == left % q);
    assert(right2 % q == right % q);
    // omega^(s (r + half)) is omega^(s r) times omega^(n / 2), congruent to -omega^(s r)
    assert(s * ((r + half) as nat) == s * r + s * (half as nat)) by (nonlinear_arith)
        requires
            half >= 0,
    ;
    lemma_pow_adds(omega, s * r, s * (half as nat));
    let minus = pow(omega, pow2((levels - 1) as nat));
    assert(minus % q == (-1int) % q) by {
        lemma_mod_equivalence(minus, -1, q);
    }
    lemma_cong_mul(tw, tw, minus, -1, q);
    assert(tw * (-1) == -tw) by (nonlinear_arith);
    lemma_cong_mul(tw2, -tw, right2, right, q);
    assert((-tw) * right == -(tw * right)) by (nonlinear_arith);
    lemma_cong_add(left2, left, tw2 * right2, -(tw * right), q);
}

/// A strided sum over every sample is the polynomial at a power of `omega`.
pub proof fn lemma_strided_is_poly(w: Seq<i64>, omega: int, k: nat, count: nat)
    ensures
        strided_sum(w, omega, 0, 1, k as int, count) == poly_eval(w, pow(omega, k), count),
    decreases count,
{
    if count > 0 {
        let g = (count - 1) as nat;
        lemma_strided_is_poly(w, omega, k, g);
        lemma_pow_multiplies(omega, k, g);
        assert(1 * g * k == k * g) by (nonlinear_arith);
        assert(0 + g * 1 == g);
    }
}

/// The last stage holds the whole sum: the polynomial at `omega^k`.
pub proof fn lemma_last_stage(w: Seq<i64>, omega: int, levels: nat, k: nat)
    requires
        k < pow2(levels),
    ensures
        stage_value(w, omega, levels, levels, k as int) == poly_eval(
            w,
            pow(omega, k),
            pow2(levels),
        ),
{
    let n = pow2(levels) as int;
    lemma_fundamental_div_mod_converse(k as int, n, 0, k as int);
    lemma2_to64();
    lemma_strided_is_poly(w, omega, k, pow2(levels));
}

/// Before any stage, each position holds the sample at its reversed index.
pub proof fn lemma_first_stage(w: Seq<i64>, omega: int, levels: nat, p: nat)
    ensures
        stage_value(w, omega, levels, 0, p as int) == w[bit_rev(p, levels) as int],
{
    lemma2_to64();
    lemma_pow0(omega);
    let start = bit_rev(p, levels) as int;
    let stride = pow2(levels) as int;
    assert((p as int) / 1 == p);
    assert((p as int) % 1 == 0);
    assert(strided_sum(w, omega, start, stride, 0, 1) == strided_sum(w, omega, start, stride, 0, 0)
        + w[start + 0 * stride] * pow(omega, (stride * 0 * 0) as nat));
    assert(stride * 0 * 0 == 0) by (nonlinear_arith);
    assert(0 * stride == 0);
    assert(w[start] * 1 == w[start] as int);
}

/// The polynomial of the twisted coefficients at `psi^(2k)` is the
/// polynomial of the coefficients at `psi^(2k + 1)`, modulo `q`.
pub proof fn lemma_twisted_poly(v: Seq<i64>, psi: int, q: int, k: nat, count: nat)
    requires
        0 < q <= i64::MAX,
        count <= v.len(),
    ensures
        poly_eval(twisted(v, psi, q), pow(psi * psi, k), count) % q == poly_eval(
            v,
            pow(psi, 2 * k + 1),
            count,
        ) % q,
    decreases count,
{
    if count > 0 {
        let g = (count - 1) as nat;
        lemma_twisted_poly(v, psi, q, k, g);
        let wv = twisted(v, psi, q);
        let x = v[g as int] as int;
        let tx = wv[g as int] as int;
        assert(tx == (x * pow(psi, g)) % q);
        lemma_mod_twice(x * pow(psi, g), q);
        // pow(psi * psi, k)^g == psi^(2 k g), and psi^g * psi^(2 k g) == (psi^(2k + 1))^g
        lemma_square_is_pow2(psi);
        lemma_pow_multiplies(psi, 2, k);
        lemma_pow_multiplies(psi, 2 * k, g);
        lemma_pow_multiplies(psi, 2 * k + 1, g);
        assert(g + (2 * k) * g == (2 * k + 1) * g) by (nonlinear_arith);
        lemma_pow_adds(psi, g, (2 * k) * g);
        let pg = pow(psi, g);
        let pk = pow(pow(psi * psi, k), g);
        lemma_cong_mul(tx, x * pg, pk, pk, q);
        assert((x * pg) * pk == x * (pg * pk)) by (nonlinear_arith);
        lemma_cong_add(
            poly_eval(wv, pow(psi * psi, k), g),
            poly_eval(v, pow(psi, 2 * k + 1), g),
            tx * pk,
            x * pow(pow(psi, 2 * k + 1), g),
            q,
        );
    }
}

} // verus!
