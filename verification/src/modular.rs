//! Modular arithmetic on machine integers, and the number theory behind it.

use vstd::prelude::*;
use vstd::arithmetic::div_mod::*;
use vstd::arithmetic::mul::*;
use vstd::arithmetic::power::*;

verus! {

/// Greatest common divisor, by Euclid's recursion.
pub open spec fn gcd(a: nat, b: nat) -> nat
    decreases b,
{
    if b == 0 {
        a
    } else {
        gcd(b, a % b)
    }
}

/// Two naturals are coprime when their greatest common divisor is one.
pub open spec fn coprime(a: nat, b: nat) -> bool {
    gcd(a, b) == 1
}

/// `x` is the inverse of `a` modulo `m`.
pub open spec fn is_inverse_mod(x: int, a: int, m: int) -> bool {
    (x * a) % m == 1int % m
}

/// A multiple of `g` plus a multiple of `g` is a multiple of `g`.
pub proof fn lemma_multiple_combination(g: int, x: int, k: int, y: int)
    requires
        g > 0,
        x % g == 0,
        y % g == 0,
    ensures
        (x * k + y) % g == 0,
{
    lemma_fundamental_div_mod(x, g);
    lemma_fundamental_div_mod(y, g);
    let qx = x / g;
    let qy = y / g;
    assert(x * k + y == (qx * k + qy) * g) by (nonlinear_arith)
        requires
            x == g * qx,
            y == g * qy,
    ;
    lemma_mod_multiples_basic(qx * k + qy, g);
}

/// The greatest common divisor divides both arguments.
pub proof fn lemma_gcd_divides(a: nat, b: nat)
    requires
        a > 0 || b > 0,
    ensures
        gcd(a, b) > 0,
        a % gcd(a, b) == 0,
        b % gcd(a, b) == 0,
    decreases b,
{
    if b == 0 {
        lemma_mod_self_0(a as int);
        lemma_small_mod(0, a);
    } else {
        lemma_gcd_divides(b, a % b);
        let g = gcd(b, a % b) as int;
        lemma_fundamental_div_mod(a as int, b as int);
        lemma_multiple_combination(g, b as int, (a / b) as int, (a % b) as int);
        assert(b * (a / b) + a % b == a) by (nonlinear_arith)
            requires
                a == b * (a / b) + a % b,
        ;
    }
}

/// Bezout's identity: the greatest common divisor is an integer combination of the arguments.
pub proof fn lemma_bezout(a: nat, b: nat) -> (c: (int, int))
    ensures
        c.0 * a + c.1 * b == gcd(a, b),
    decreases b,
{
    if b == 0 {
        (1, 0)
    } else {
        let (x, y) = lemma_bezout(b, a % b);
        let q = (a / b) as int;
        let r = (a % b) as int;
        lemma_fundamental_div_mod(a as int, b as int);
        assert(y * a + (x - y * q) * b == x * b + y * r) by (nonlinear_arith)
            requires
                a == b * q + r,
        ;
        (y, x - y * q)
    }
}

/// An integer combination equal to one witnesses coprimality.
pub proof fn lemma_combination_one_coprime(a: nat, b: nat, x: int, y: int)
    requires
        x * a + y * b == 1,
    ensures
        coprime(a, b),
{
    assert(a > 0 || b > 0) by (nonlinear_arith)
        requires
            x * a + y * b == 1,
    ;
    lemma_gcd_divides(a, b);
    let g = gcd(a, b) as int;
    lemma_fundamental_div_mod(a as int, g);
    lemma_fundamental_div_mod(b as int, g);
    let qa = (a as int) / g;
    let qb = (b as int) / g;
    let k = x * qa + y * qb;
    assert(g * k == 1) by (nonlinear_arith)
        requires
            a == g * qa,
            b == g * qb,
            x * a + y * b == 1,
            k == x * qa + y * qb,
    ;
    assert(g == 1) by (nonlinear_arith)
        requires
            g > 0,
            g * k == 1,
    ;
}

/// A product of two numbers coprime to `c` is coprime to `c`.
pub proof fn lemma_coprime_mul(a: nat, b: nat, c: nat)
    requires
        coprime(a, c),
        coprime(b, c),
    ensures
        coprime(a * b, c),
{
    let (x1, y1) = lemma_bezout(a, c);
    let (x2, y2) = lemma_bezout(b, c);
    let (ai, bi, ci) = (a as int, b as int, c as int);
    let ab = ai * bi;
    let t = y1 * bi;
    assert(bi == x1 * ab + t * ci) by (nonlinear_arith)
        requires
            ab == ai * bi,
            t == y1 * bi,
            x1 * ai + y1 * ci == 1,
    ;
    let x = x2 * x1;
    let y = x2 * t + y2;
    assert(x * ab + y * ci == 1) by (nonlinear_arith)
        requires
            bi == x1 * ab + t * ci,
            x2 * bi + y2 * ci == 1,
            x == x2 * x1,
            y == x2 * t + y2,
    ;
    lemma_combination_one_coprime(a * b, c, x, y);
}

/// Euclid's lemma: a number coprime to `b` that divides `b * c` divides `c`.
pub proof fn lemma_euclid(a: nat, b: nat, c: int)
    requires
        a > 0,
        coprime(a, b),
        (b * c) % (a as int) == 0,
    ensures
        c % (a as int) == 0,
{
    let (x, y) = lemma_bezout(a, b);
    let ai = a as int;
    lemma_fundamental_div_mod(b * c, ai);
    let k = (b * c) / ai;
    assert(c == (x * c + y * k) * ai) by (nonlinear_arith)
        requires
            x * a + y * b == 1,
            b * c == ai * k,
            ai == a,
    ;
    lemma_mod_multiples_basic(x * c + y * k, ai);
}

/// Two coprime divisors of `d` have a product that divides `d`.
pub proof fn lemma_coprime_divisors(a: nat, b: nat, d: int)
    requires
        a > 0,
        b > 0,
        coprime(a, b),
        d % (a as int) == 0,
        d % (b as int) == 0,
    ensures
        d % ((a * b) as int) == 0,
{
    let ai = a as int;
    let bi = b as int;
    lemma_fundamental_div_mod(d, bi);
    let k = d / bi;
    assert(bi * k == d);
    lemma_euclid(a, b, k);
    lemma_fundamental_div_mod(k, ai);
    let j = k / ai;
    assert(d == j * (ai * bi)) by (nonlinear_arith)
        requires
            d == bi * k,
            k == ai * j,
    ;
    assert(ai * bi > 0) by (nonlinear_arith)
        requires
            ai > 0,
            bi > 0,
    ;
    lemma_mod_multiples_basic(j, ai * bi);
}

/// The mathematical remainder of `x` by a positive modulus: never negative.
pub fn rem_euclid(x: i64, m: i64) -> (r: i64)
    requires
        m > 0,
    ensures
        r == (x as int) % (m as int),
        0 <= r < m,
{
    match x.checked_rem_euclid(m) {
        Some(r) => r,
        None => 0,
    }
}

/// The mathematical remainder of a wide intermediate by a positive modulus.
pub fn rem_wide(x: i128, m: i64) -> (r: i64)
    requires
        m > 0,
    ensures
        r == (x as int) % (m as int),
        0 <= r < m,
{
    match x.checked_rem_euclid(m as i128) {
        Some(r) => r as i64,
        None => 0,
    }
}

/// `(a * b) mod m`, computed without overflow for any operands.
pub fn mul_mod(a: i64, b: i64, m: i64) -> (r: i64)
    requires
        m > 0,
    ensures
        r == ((a as int) * (b as int)) % (m as int),
        0 <= r < m,
{
    assert(-0x4000_0000_0000_0000_0000_0000_0000_0000 <= (a as int) * (b as int)
        <= 0x4000_0000_0000_0000_0000_0000_0000_0000) by (nonlinear_arith)
        requires
            -0x8000_0000_0000_0000 <= (a as int) <= 0x7fff_ffff_ffff_ffff,
            -0x8000_0000_0000_0000 <= (b as int) <= 0x7fff_ffff_ffff_ffff,
    ;
    let wide: i128 = (a as i128) * (b as i128);
    rem_wide(wide, m)
}

/// `(a + b) mod m`, computed without overflow for any operands.
pub fn add_mod(a: i64, b: i64, m: i64) -> (r: i64)
    requires
        m > 0,
    ensures
        r == ((a as int) + (b as int)) % (m as int),
        0 <= r < m,
{
    let wide: i128 = (a as i128) + (b as i128);
    rem_wide(wide, m)
}

/// `(a - b) mod m`, computed without overflow for any operands.
pub fn sub_mod(a: i64, b: i64, m: i64) -> (r: i64)
    requires
        m > 0,
    ensures
        r == ((a as int) - (b as int)) % (m as int),
        0 <= r < m,
{
    let wide: i128 = (a as i128) - (b as i128);
    rem_wide(wide, m)
}

/// One step of the extended Euclidean algorithm keeps the weighted sum of
/// the coefficients' magnitudes, which bounds every intermediate.
proof fn lemma_xgcd_step(u0: int, u1: int, r0: int, r1: int, q: int, rem: int, total: int)
    requires
        u0 >= 0,
        u1 >= 0,
        r1 >= 1,
        rem >= 0,
        q >= 0,
        r0 == r1 * q + rem,
        u0 * r1 + u1 * r0 == total,
    ensures
        u1 * rem + (u0 + q * u1) * r1 == total,
        0 <= q * u1 <= total,
        0 <= u0 <= total,
        0 <= u0 + q * u1 <= total,
{
    assert(u1 * rem + (u0 + q * u1) * r1 == total) by (nonlinear_arith)
        requires
            r0 == r1 * q + rem,
            u0 * r1 + u1 * r0 == total,
    ;
    assert(0 <= q * u1 && 0 <= u1 * rem) by (nonlinear_arith)
        requires
            q >= 0,
            u1 >= 0,
            rem >= 0,
    ;
    assert((u0 + q * u1) * r1 >= u0 + q * u1) by (nonlinear_arith)
        requires
            u0 + q * u1 >= 0,
            r1 >= 1,
    ;
}

/// The remainder of a division step is the same combination of the inputs
/// as the new coefficients.
proof fn lemma_xgcd_combination(
    x0: int,
    x1: int,
    y0: int,
    y1: int,
    r0: int,
    r1: int,
    q: int,
    rem: int,
    b0: int,
    n0: int,
)
    requires
        r0 == r1 * q + rem,
        r0 == x0 * b0 + y0 * n0,
        r1 == x1 * b0 + y1 * n0,
    ensures
        rem == (x0 - q * x1) * b0 + (y0 - q * y1) * n0,
{
    assert(rem == (x0 - q * x1) * b0 + (y0 - q * y1) * n0) by (nonlinear_arith)
        requires
            r0 == r1 * q + rem,
            r0 == x0 * b0 + y0 * n0,
            r1 == x1 * b0 + y1 * n0,
    ;
}

/// Magnitude of a coefficient whose sign alternates from step to step.
pub open spec fn signed_magnitude(positive: bool, x: int) -> int {
    if positive {
        x
    } else {
        -x
    }
}

/// Extended Euclidean algorithm on non-negative arguments.
///
/// Returns `(g, x, y)` with `g` the greatest common divisor of `b` and `n`
/// and `x * b + y * n == g`.
pub fn xgcd(b: i64, n: i64) -> (r: (i64, i64, i64))
    requires
        b >= 0,
        n >= 0,
    ensures
        r.0 == gcd(b as nat, n as nat),
        r.1 * b + r.2 * n == r.0,
{
    let ghost b0: int = b as int;
    let ghost n0: int = n as int;
    let ghost mut pos: bool = true;
    let mut r0: i64 = b;
    let mut r1: i64 = n;
    let mut x0: i64 = 1;
    let mut x1: i64 = 0;
    let mut y0: i64 = 0;
    let mut y1: i64 = 1;
    assert(1 * (r1 as int) + 0 * (r0 as int) == n0 && 0 * (r1 as int) + 1 * (r0 as int) == b0 && 1
        * b0 + 0 * n0 == b0 && 0 * b0 + 1 * n0 == n0);
    while r1 != 0
        invariant
            b0 == b,
            n0 == n,
            0 <= b0 <= i64::MAX,
            0 <= n0 <= i64::MAX,
            r0 >= 0,
            r1 >= 0,
            signed_magnitude(pos, x0 as int) >= 0,
            signed_magnitude(!pos, x1 as int) >= 0,
            signed_magnitude(!pos, y0 as int) >= 0,
            signed_magnitude(pos, y1 as int) >= 0,
            signed_magnitude(pos, x0 as int) * r1 + signed_magnitude(!pos, x1 as int) * r0 == n0,
            signed_magnitude(!pos, y0 as int) * r1 + signed_magnitude(pos, y1 as int) * r0 == b0,
            r0 == x0 * b0 + y0 * n0,
            r1 == x1 * b0 + y1 * n0,
            gcd(r0 as nat, r1 as nat) == gcd(b0 as nat, n0 as nat),
        decreases r1,
    {
        let q: i64 = r0 / r1;
        let rem: i64 = r0 % r1;
        proof {
            lemma_fundamental_div_mod(r0 as int, r1 as int);
            let qi = q as int;
            let ri = rem as int;
            assert(qi >= 0) by (nonlinear_arith)
                requires
                    r0 == r1 * qi + ri,
                    0 <= ri < r1,
                    r0 >= 0,
            ;
            let u0 = signed_magnitude(pos, x0 as int);
            let u1 = signed_magnitude(!pos, x1 as int);
            let v0 = signed_magnitude(!pos, y0 as int);
            let v1 = signed_magnitude(pos, y1 as int);
            lemma_xgcd_step(u0, u1, r0 as int, r1 as int, qi, ri, n0);
            lemma_xgcd_step(v0, v1, r0 as int, r1 as int, qi, ri, b0);
            lemma_xgcd_combination(
                x0 as int,
                x1 as int,
                y0 as int,
                y1 as int,
                r0 as int,
                r1 as int,
                qi,
                ri,
                b0,
                n0,
            );
            assert(qi * (x1 as int) == -(qi * u1) || qi * (x1 as int) == qi * u1)
                by (nonlinear_arith)
                requires
                    u1 == x1 || u1 == -x1,
            ;
            assert(qi * (y1 as int) == -(qi * v1) || qi * (y1 as int) == qi * v1)
                by (nonlinear_arith)
                requires
                    v1 == y1 || v1 == -y1,
            ;
            assert(pos ==> qi * (x1 as int) == -(qi * u1) && qi * (y1 as int) == qi * v1)
                by (nonlinear_arith)
                requires
                    pos ==> u1 == -x1 && v1 == y1,
            ;
            assert(!pos ==> qi * (x1 as int) == qi * u1 && qi * (y1 as int) == -(qi * v1))
                by (nonlinear_arith)
                requires
                    !pos ==> u1 == x1 && v1 == -y1,
            ;
        }
        let x2: i64 = x0 - q * x1;
        let y2: i64 = y0 - q * y1;
        r0 = r1;
        r1 = rem;
        x0 = x1;
        x1 = x2;
        y0 = y1;
        y1 = y2;
        proof {
            pos = !pos;
        }
    }
    (r0, x0, y0)
}

/// The inverse of `a` modulo `m` in `[0, m)`, where there is one.
pub open spec fn mod_inverse(a: int, m: int) -> int {
    choose|x: int| 0 <= x < m && is_inverse_mod(x, a, m)
}

/// An inverse modulo `m` is unique below `m`.
pub proof fn lemma_inverse_unique(x1: int, x2: int, a: int, m: int)
    requires
        m > 0,
        0 <= x1 < m,
        0 <= x2 < m,
        is_inverse_mod(x1, a, m),
        is_inverse_mod(x2, a, m),
    ensures
        x1 == x2,
{
    // x1 == x1 * (a * x2) == (x1 * a) * x2 == x2, modulo m
    lemma_mul_mod_noop_right(x1, x2 * a, m);
    lemma_mul_mod_noop_left(x1 * a, x2, m);
    assert(x1 * (x2 * a) == (x1 * a) * x2) by (nonlinear_arith);
    assert(x1 * (1int % m) == x1 * 1 || m == 1) by {
        if m > 1 {
            lemma_small_mod(1, m as nat);
        }
    }
    if m > 1 {
        lemma_small_mod(1, m as nat);
        assert(x1 * 1 == x1);
        assert(1 * x2 == x2);
        lemma_small_mod(x1 as nat, m as nat);
        lemma_small_mod(x2 as nat, m as nat);
    }
}

/// The coefficient that `xgcd` returns for a number coprime to `m`, reduced
/// into `[0, m)`: the inverse of `a` modulo `m`.
pub fn inverse_mod(a: i64, m: i64) -> (r: i64)
    requires
        a >= 0,
        m > 0,
        coprime(a as nat, m as nat),
    ensures
        0 <= r < m,
        is_inverse_mod(r as int, a as int, m as int),
        r == mod_inverse(a as int, m as int),
{
    let (g, x, y) = xgcd(a, m);
    let r = rem_euclid(x, m);
    proof {
        let (ai, mi, xi, yi) = (a as int, m as int, x as int, y as int);
        // x * a == 1 - y * m, and reducing x modulo m changes the product by a multiple of m
        lemma_mul_mod_noop_left(xi, ai, mi);
        assert(xi * ai == (-yi) * mi + 1) by (nonlinear_arith)
            requires
                xi * ai + yi * mi == 1,
        ;
        lemma_mod_multiples_vanish(-yi, 1, mi);
        assert((xi * ai) % mi == 1int % mi);
        assert(((r as int) * ai) % mi == (xi * ai) % mi);
        assert(is_inverse_mod(r as int, ai, mi));
        let w = r as int;
        assert(0 <= w < mi && is_inverse_mod(w, ai, mi));
        lemma_inverse_unique(w, mod_inverse(ai, mi), ai, mi);
    }
    r
}

/// Square-and-multiply modular exponentiation.
pub fn pow(base: i64, exp: i64, modulus: i64) -> (r: i64)
    requires
        modulus > 0,
        exp >= 0,
    ensures
        r == vstd::arithmetic::power::pow(base as int, exp as nat) % (modulus as int),
        0 <= r < modulus,
{
    let ghost b0 = base as int;
    let ghost m = modulus as int;
    let mut result: i64 = rem_euclid(1, modulus);
    let mut cur: i64 = rem_euclid(base, modulus);
    let mut e: i64 = exp;
    proof {
        lemma_pow0(b0);
        lemma_pow1(cur as int);
        lemma_pow_mod_noop(b0, exp as nat, m);
        lemma_mul_mod_noop_general(1, vstd::arithmetic::power::pow(cur as int, exp as nat), m);
    }
    while e > 0
        invariant
            modulus > 0,
            m == modulus,
            e >= 0,
            0 <= result < modulus,
            0 <= cur < modulus,
            (result * vstd::arithmetic::power::pow(cur as int, e as nat)) % m
                == vstd::arithmetic::power::pow(b0, exp as nat) % m,
        decreases e,
    {
        let ghost c = cur as int;
        let ghost res = result as int;
        let ghost en = e as nat;
        let half: i64 = e / 2;
        if e % 2 == 1 {
            let next = mul_mod(result, cur, modulus);
            proof {
                // pow(c, e) == c * pow(c, e - 1)
                assert(vstd::arithmetic::power::pow(c, en) == c * vstd::arithmetic::power::pow(
                    c,
                    (en - 1) as nat,
                )) by {
                    reveal(vstd::arithmetic::power::pow);
                }
                let p = vstd::arithmetic::power::pow(c, (en - 1) as nat);
                assert(res * (c * p) == (res * c) * p) by (nonlinear_arith);
                lemma_mul_mod_noop_left(res * c, p, m);
            }
            result = next;
        }
        proof {
            // pow(c, 2 * half) == pow(c * c, half)
            let h = half as nat;
            lemma_pow_multiplies(c, 2, h);
            lemma_square_is_pow2(c);
            assert(2 * h == (if en % 2 == 1 { en - 1 } else { en as int }));
            lemma_pow_mod_noop(c * c, h, m);
            let sq = (c * c) % m;
            let r1 = result as int;
            lemma_mul_mod_noop_right(r1, vstd::arithmetic::power::pow(c * c, h), m);
            lemma_mul_mod_noop_right(r1, vstd::arithmetic::power::pow(sq, h), m);
        }
        cur = mul_mod(cur, cur, modulus);
        e = half;
    }
    proof {
        lemma_pow0(cur as int);
        lemma_small_mod(result as nat, modulus as nat);
    }
    result
}

} // verus!
