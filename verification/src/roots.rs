//! Generators and roots of unity modulo `m`, found by search.

use vstd::prelude::*;
use vstd::arithmetic::div_mod::*;
use vstd::arithmetic::mul::*;
use crate::modular::{
    coprime, gcd, lemma_euclid, lemma_gcd_divides, lemma_multiple_combination, pow,
};

verus! {

/// `p` is a prime number.
pub open spec fn is_prime(p: int) -> bool {
    p >= 2 && forall|d: int| 2 <= d < p ==> #[trigger] (p % d) != 0
}

/// `n` has no divisor in `[2, bound)`.
pub open spec fn no_divisor_below(n: int, bound: int) -> bool {
    forall|d: int| 2 <= d < bound ==> #[trigger] (n % d) != 0
}

/// The list holds exactly the prime divisors of `n`, in increasing order.
pub open spec fn is_prime_factor_list(factors: Seq<i64>, n: int) -> bool {
    &&& forall|i: int|
        0 <= i < factors.len() ==> is_prime(#[trigger] factors[i] as int) && n % (factors[i] as int)
            == 0
    &&& forall|i: int, j: int| 0 <= i < j < factors.len() ==> factors[i] < factors[j]
    &&& forall|p: int|
        is_prime(p) && #[trigger] (n % p) == 0 ==> exists|i: int|
            0 <= i < factors.len() && factors[i] == p
}

/// `val` generates the multiplicative group of order `totient` modulo `m`:
/// its `totient`-th power is one, and no power by `totient / p`, for a prime
/// `p` dividing `totient`, is.
pub open spec fn generates(val: int, totient: int, m: int) -> bool {
    &&& vstd::arithmetic::power::pow(val, totient as nat) % m == 1
    &&& forall|p: int|
        is_prime(p) && #[trigger] (totient % p) == 0 ==> vstd::arithmetic::power::pow(
            val,
            (totient / p) as nat,
        ) % m != 1
}

/// A divisor of a divisor is a divisor.
pub proof fn lemma_divides_transitive(d: int, a: int, n: int)
    requires
        d > 0,
        a > 0,
        a % d == 0,
        n % a == 0,
    ensures
        n % d == 0,
{
    lemma_fundamental_div_mod(n, a);
    lemma_multiple_combination(d, a, n / a, 0);
    lemma_small_mod(0, d as nat);
    assert(a * (n / a) + 0 == n);
}

/// A prime that divides a product divides one of the factors.
pub proof fn lemma_prime_divides_product(p: int, a: int, b: int)
    requires
        is_prime(p),
        a > 0,
        (a * b) % p == 0,
        a % p != 0,
    ensures
        b % p == 0,
{
    // gcd(p, a) divides p, so it is 1 or p; it divides a, so it is not p
    lemma_gcd_divides(p as nat, a as nat);
    let g = gcd(p as nat, a as nat) as int;
    if g != 1 {
        if g < p {
            assert(p % g != 0);
        } else {
            assert(g <= p) by {
                lemma_fundamental_div_mod(p, g);
                let k = p / g;
                assert(k >= 1) by (nonlinear_arith)
                    requires
                        p == g * k,
                        p > 0,
                        g > 0,
                ;
                assert(g * k >= g) by (nonlinear_arith)
                    requires
                        k >= 1,
                        g > 0,
                ;
            }
            assert(g == p);
        }
    }
    assert(coprime(p as nat, a as nat));
    lemma_euclid(p as nat, a as nat, b);
}

/// A number above one with no divisor up to its square root is prime.
pub proof fn lemma_no_small_divisor_prime(m: int, i: int)
    requires
        m >= 2,
        i >= 2,
        i * i > m,
        no_divisor_below(m, i),
    ensures
        is_prime(m),
{
    assert forall|d: int| 2 <= d < m implies #[trigger] (m % d) != 0 by {
        if d >= i && m % d == 0 {
            // the cofactor of d is a divisor below i
            lemma_fundamental_div_mod(m, d);
            let c = m / d;
            assert(c >= 2 && c < i) by (nonlinear_arith)
                requires
                    m == d * c,
                    d >= i,
                    d < m,
                    i * i > m,
                    i >= 2,
                    m >= 2,
            ;
            assert(m == c * d) by (nonlinear_arith)
                requires
                    m == d * c,
            ;
            lemma_mod_multiples_basic(d, c);
            assert(m % c != 0);
        }
    }
}

/// The distinct prime factors of `n`, in increasing order; none for `n < 2`.
pub fn unique_prime_factors(n: i64) -> (factors: Vec<i64>)
    ensures
        n >= 2 ==> is_prime_factor_list(factors@, n as int),
        n < 2 ==> factors@.len() == 0,
{
    let mut factors: Vec<i64> = Vec::new();
    if n < 2 {
        return factors;
    }
    let mut m: i64 = n;
    let mut i: i64 = 2;
    proof {
        lemma_mod_self_0(n as int);
    }
    while i <= m / i
        invariant
            n >= 2,
            2 <= i,
            1 <= m <= n,
            (n as int) % (m as int) == 0,
            no_divisor_below(m as int, i as int),
            forall|k: int|
                0 <= k < factors@.len() ==> is_prime(#[trigger] factors@[k] as int) && (n as int) % (
                factors@[k] as int) == 0 && factors@[k] < i,
            forall|a: int, b: int| 0 <= a < b < factors@.len() ==> factors@[a] < factors@[b],
            forall|p: int|
                is_prime(p) && #[trigger] ((n as int) % p) == 0 ==> (m as int) % p == 0 || exists|
                    k: int,
                | 0 <= k < factors@.len() && factors@[k] == p,
        decreases n - i,
    {
        let ghost m0 = m as int;
        proof {
            lemma_fundamental_div_mod(m0, i as int);
            let (ii, qi) = (i as int, m0 / (i as int));
            assert(ii * qi >= 2 * ii) by (nonlinear_arith)
                requires
                    qi >= ii,
                    ii >= 2,
            ;
        }
        if m % i == 0 {
            proof {
                // i divides m and m has no divisor below i, so i is prime
                assert forall|d: int| 2 <= d < i implies #[trigger] ((i as int) % d) != 0 by {
                    if (i as int) % d == 0 {
                        lemma_divides_transitive(d, i as int, m as int);
                        assert((m as int) % d != 0);
                    }
                }
                lemma_divides_transitive(i as int, m as int, n as int);
            }
            let ghost old_factors = factors@;
            let ghost before = m as int;
            factors.push(i);
            while m % i == 0
                invariant
                    i >= 2,
                    1 <= m <= n,
                    m <= before,
                    before % (m as int) == 0,
                    (n as int) % (m as int) == 0,
                    is_prime(i as int),
                    forall|p: int|
                        is_prime(p) && p != i && #[trigger] (before % p) == 0 ==> (m as int) % p
                            == 0,
                decreases m,
            {
                let ghost prev = m as int;
                proof {
                    lemma_fundamental_div_mod(prev, i as int);
                    let c = prev / (i as int);
                    assert(1 <= c < prev) by (nonlinear_arith)
                        requires
                            prev == (i as int) * c,
                            i >= 2,
                            prev >= 1,
                    ;
                    assert(prev == c * (i as int)) by (nonlinear_arith)
                        requires
                            prev == (i as int) * c,
                    ;
                    lemma_mod_multiples_basic(i as int, c);
                    lemma_divides_transitive(c, prev, before);
                    lemma_divides_transitive(c, prev, n as int);
                    assert forall|p: int|
                        is_prime(p) && p != i && #[trigger] (before % p) == 0 implies c % p
                        == 0 by {
                        assert(prev % p == 0);
                        if (i as int) % p == 0 {
                            assert(p < i || p > i);
                            if p > i {
                                lemma_small_mod(i as nat, p as nat);
                            }
                        }
                        lemma_prime_divides_product(p, i as int, c);
                    }
                }
                m = m / i;
            }
            proof {
                assert forall|d: int| 2 <= d < i + 1 implies #[trigger] ((m as int) % d) != 0 by {
                    if d < i && (m as int) % d == 0 {
                        lemma_divides_transitive(d, m as int, before);
                        assert(before % d != 0);
                    }
                }
                assert forall|p: int| is_prime(p) && #[trigger] ((n as int) % p) == 0 implies (
                m as int) % p == 0 || exists|k: int|
                    0 <= k < factors@.len() && factors@[k] == p by {
                    if p == i {
                        assert(factors@[old_factors.len() as int] == p);
                    } else if before % p == 0 {
                    } else {
                        let k = choose|k: int| 0 <= k < old_factors.len() && old_factors[k] == p;
                        assert(factors@[k] == p);
                    }
                }
            }
        } else {
            proof {
                assert forall|d: int| 2 <= d < i + 1 implies #[trigger] ((m as int) % d) != 0 by {}
            }
        }
        assert(m <= m0);
        i += 1;
    }
    let ghost found = factors@;
    if m > 1 {
        proof {
            let (mi, ii) = (m as int, i as int);
            lemma_fundamental_div_mod(mi, ii);
            assert(ii * ii > mi) by (nonlinear_arith)
                requires
                    mi == ii * (mi / ii) + mi % ii,
                    0 <= mi % ii < ii,
                    ii > mi / ii,
                    ii >= 2,
            ;
            lemma_no_small_divisor_prime(mi, ii);
            // m divides itself, so it is not below i
            lemma_mod_self_0(mi);
            if mi < ii {
                assert(mi % mi != 0);
            }
        }
        factors.push(m);
    }
    proof {
        assert forall|p: int| is_prime(p) && #[trigger] ((n as int) % p) == 0 implies exists|k: int|
            0 <= k < factors@.len() && factors@[k] == p by {
            if (m as int) % p == 0 {
                if m > 1 {
                    // m is prime, so its only prime divisor is itself
                    if p < m {
                        assert((m as int) % p != 0);
                    } else if p > m {
                        lemma_small_mod(m as nat, p as nat);
                    }
                    assert(factors@[found.len() as int] == p);
                } else {
                    lemma_small_mod(1, p as nat);
                }
            } else {
                let k = choose|k: int| 0 <= k < found.len() && found[k] == p;
                assert(factors@[k] == p);
            }
        }
    }
    factors
}

/// Whether `val` generates the multiplicative group of order `totient` modulo `modulus`.
pub fn is_generator(val: i64, totient: i64, modulus: i64) -> (yes: bool)
    requires
        totient >= 1,
        modulus > 0,
    ensures
        yes == generates(val as int, totient as int, modulus as int),
{
    if pow(val, totient, modulus) != 1 {
        return false;
    }
    let factors = unique_prime_factors(totient);
    let mut i: usize = 0;
    while i < factors.len()
        invariant
            totient >= 1,
            modulus > 0,
            i <= factors.len(),
            totient >= 2 ==> is_prime_factor_list(factors@, totient as int),
            totient < 2 ==> factors@.len() == 0,
            forall|k: int|
                0 <= k < i ==> vstd::arithmetic::power::pow(
                    val as int,
                    ((totient as int) / (#[trigger] factors@[k] as int)) as nat,
                ) % (modulus as int) != 1,
        decreases factors.len() - i,
    {
        let p = factors[i];
        assert(is_prime(factors@[i as int] as int));
        proof {
            lemma_fundamental_div_mod(totient as int, p as int);
            let c = (totient as int) / (p as int);
            assert(c >= 0) by (nonlinear_arith)
                requires
                    totient == p * c,
                    p >= 2,
                    totient >= 1,
            ;
        }
        if pow(val, totient / p, modulus) == 1 {
            assert((totient as int) % (p as int) == 0);
            return false;
        }
        i += 1;
    }
    proof {
        assert forall|p: int| is_prime(p) && #[trigger] ((totient as int) % p) == 0 implies vstd::arithmetic::power::pow(
            val as int,
            ((totient as int) / p) as nat,
        ) % (modulus as int) != 1 by {
            if totient >= 2 {
                let k = choose|k: int| 0 <= k < factors@.len() && factors@[k] == p;
                assert(factors@[k] == p);
            } else {
                lemma_small_mod(1, p as nat);
            }
        }
    }
    true
}

/// `g` is the least generator modulo `m` of the group of order `totient`.
pub open spec fn is_least_generator(g: int, totient: int, m: int) -> bool {
    &&& 1 <= g < m
    &&& generates(g, totient, m)
    &&& forall|h: int| 1 <= h < g ==> !#[trigger] generates(h, totient, m)
}

/// The least generator of the multiplicative group modulo `modulus`, if
/// a number below `modulus` generates it.
pub fn find_generator(totient: i64, modulus: i64) -> (res: Option<i64>)
    requires
        totient >= 1,
        modulus > 0,
    ensures
        match res {
            Some(g) => is_least_generator(g as int, totient as int, modulus as int),
            None => forall|h: int|
                1 <= h < modulus ==> !#[trigger] generates(h, totient as int, modulus as int),
        },
{
    let mut i: i64 = 1;
    while i < modulus
        invariant
            totient >= 1,
            modulus > 0,
            1 <= i,
            forall|h: int| 1 <= h < i ==> !#[trigger] generates(h, totient as int, modulus as int),
        decreases modulus - i,
    {
        if is_generator(i, totient, modulus) {
            return Some(i);
        }
        i += 1;
    }
    None
}

/// A primitive `degree`-th root of unity modulo `modulus`: the least
/// generator raised to `totient / degree`.
pub fn find_primitive_root(degree: usize, totient: i64, modulus: i64) -> (res: Option<i64>)
    requires
        totient >= 1,
        modulus > 0,
    ensures
        match res {
            Some(r) => 0 < degree <= i64::MAX && exists|g: int|
                #[trigger] is_least_generator(g, totient as int, modulus as int) && r
                    == vstd::arithmetic::power::pow(g, ((totient as int) / (degree as int)) as nat)
                    % (modulus as int),
            None => degree == 0 || degree > i64::MAX || forall|h: int|
                1 <= h < modulus ==> !#[trigger] generates(h, totient as int, modulus as int),
        },
{
    if degree == 0 || (degree as u64) > 0x7fff_ffff_ffff_ffff {
        return None;
    }
    match find_generator(totient, modulus) {
        Some(g) => {
            let exp: i64 = totient / (degree as i64);
            let r = pow(g, exp, modulus);
            assert(is_least_generator(g as int, totient as int, modulus as int));
            Some(r)
        },
        None => None,
    }
}

} // verus!
