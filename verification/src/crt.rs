//! Residue number system: an integer as its remainders by a basis of
//! pairwise coprime moduli, and back.

use vstd::prelude::*;
use vstd::arithmetic::div_mod::*;
use vstd::arithmetic::mul::*;
use crate::modular::{
    add_mod, coprime, inverse_mod, is_inverse_mod, lemma_combination_one_coprime,
    lemma_coprime_divisors, lemma_coprime_mul, lemma_euclid, mul_mod, rem_euclid, xgcd,
};

verus! {

/// Product of all items of a sequence.
pub open spec fn seq_product(s: Seq<i64>) -> int
    decreases s.len(),
{
    if s.len() == 0 {
        1
    } else {
        seq_product(s.drop_last()) * s.last()
    }
}

/// Every modulus of the basis is positive.
pub open spec fn positive_moduli(base: Seq<i64>) -> bool {
    forall|i: int| 0 <= i < base.len() ==> #[trigger] base[i] > 0
}

/// Any two moduli at different places are coprime.
pub open spec fn pairwise_coprime(base: Seq<i64>) -> bool {
    forall|i: int, j: int|
        0 <= i < base.len() && 0 <= j < base.len() && i != j ==> coprime(
            #[trigger] base[i] as nat,
            #[trigger] base[j] as nat,
        )
}

/// A basis that represents every integer below its product exactly once:
/// positive, pairwise coprime moduli whose product fits the machine word.
pub open spec fn crt_base(base: Seq<i64>) -> bool {
    &&& positive_moduli(base)
    &&& pairwise_coprime(base)
    &&& seq_product(base) <= i64::MAX
}

/// The residues of `x` by each modulus of `base`.
pub open spec fn residues(x: int, base: Seq<i64>) -> Seq<i64> {
    Seq::new(base.len(), |i: int| (x % (base[i] as int)) as i64)
}

/// `r` lies below the product of the basis and has the given residues.
pub open spec fn is_crt_solution(r: int, digits: Seq<i64>, base: Seq<i64>) -> bool {
    &&& 0 <= r < seq_product(base)
    &&& forall|i: int|
        0 <= i < base.len() ==> r % (#[trigger] base[i] as int) == (digits[i] as int) % (
        base[i] as int)
}

/// The integer below the product of the basis that has the given residues.
pub open spec fn crt_value(digits: Seq<i64>, base: Seq<i64>) -> int {
    choose|r: int| is_crt_solution(r, digits, base)
}

/// A product of positive moduli is positive and no smaller than the product of any prefix.
pub proof fn lemma_product_positive(base: Seq<i64>)
    requires
        positive_moduli(base),
    ensures
        seq_product(base) >= 1,
        base.len() > 0 ==> seq_product(base) >= seq_product(base.drop_last()),
        base.len() > 0 ==> seq_product(base) >= base.last(),
    decreases base.len(),
{
    if base.len() > 0 {
        let front = base.drop_last();
        assert(positive_moduli(front)) by {
            assert forall|i: int| 0 <= i < front.len() implies #[trigger] front[i] > 0 by {
                assert(front[i] == base[i]);
                assert(base[i] > 0);
            }
        }
        lemma_product_positive(front);
        let p = seq_product(front);
        let l = base.last() as int;
        assert(l > 0);
        assert(p * l >= p && p * l >= l && p * l >= 1) by (nonlinear_arith)
            requires
                p >= 1,
                l >= 1,
        ;
    }
}

/// Dropping the last modulus keeps a basis pairwise coprime and positive.
pub proof fn lemma_front_base(base: Seq<i64>)
    requires
        base.len() > 0,
        positive_moduli(base),
        pairwise_coprime(base),
    ensures
        positive_moduli(base.drop_last()),
        pairwise_coprime(base.drop_last()),
{
    let front = base.drop_last();
    assert forall|i: int| 0 <= i < front.len() implies #[trigger] front[i] > 0 by {
        assert(front[i] == base[i]);
        assert(base[i] > 0);
    }
    assert forall|i: int, j: int|
        0 <= i < front.len() && 0 <= j < front.len() && i != j implies coprime(
        #[trigger] front[i] as nat,
        #[trigger] front[j] as nat,
    ) by {
        assert(front[i] == base[i] && front[j] == base[j]);
        assert(coprime(base[i] as nat, base[j] as nat));
    }
}

/// A product of moduli that are each coprime to `c` is coprime to `c`.
pub proof fn lemma_product_coprime(base: Seq<i64>, c: nat)
    requires
        positive_moduli(base),
        forall|i: int| 0 <= i < base.len() ==> coprime(#[trigger] base[i] as nat, c),
    ensures
        seq_product(base) >= 1,
        coprime(seq_product(base) as nat, c),
    decreases base.len(),
{
    lemma_product_positive(base);
    if base.len() == 0 {
        lemma_combination_one_coprime(1, c, 1, 0);
    } else {
        let front = base.drop_last();
        assert forall|i: int| 0 <= i < front.len() implies #[trigger] front[i] > 0 && coprime(
            front[i] as nat,
            c,
        ) by {
            assert(front[i] == base[i]);
            assert(base[i] > 0);
            assert(coprime(base[i] as nat, c));
        }
        lemma_product_coprime(front, c);
        assert(coprime(base[base.len() - 1] as nat, c));
        lemma_coprime_mul(seq_product(front) as nat, base.last() as nat, c);
    }
}

/// Each modulus splits the product into itself and a cofactor coprime to it.
pub proof fn lemma_cofactor(base: Seq<i64>, i: int)
    requires
        positive_moduli(base),
        pairwise_coprime(base),
        0 <= i < base.len(),
    ensures
        seq_product(base) == (base[i] as int) * (seq_product(base) / (base[i] as int)),
        seq_product(base) % (base[i] as int) == 0,
        seq_product(base) / (base[i] as int) >= 1,
        coprime((seq_product(base) / (base[i] as int)) as nat, base[i] as nat),
    decreases base.len(),
{
    let front = base.drop_last();
    let last = base.last() as int;
    let bi = base[i] as int;
    let m = seq_product(base);
    let mf = seq_product(front);
    lemma_front_base(base);
    lemma_product_positive(base);
    lemma_product_positive(front);
    assert(bi > 0);
    assert(last > 0);
    let cof: int;
    if i == base.len() - 1 {
        assert forall|k: int| 0 <= k < front.len() implies coprime(
            #[trigger] front[k] as nat,
            last as nat,
        ) by {
            assert(front[k] == base[k]);
            assert(coprime(base[k] as nat, base[i] as nat));
        }
        lemma_product_coprime(front, last as nat);
        cof = mf;
        assert(m == bi * cof) by (nonlinear_arith)
            requires
                m == mf * last,
                bi == last,
                cof == mf,
        ;
    } else {
        lemma_cofactor(front, i);
        assert(front[i] == base[i]);
        let cf = mf / bi;
        assert(coprime(base[base.len() - 1] as nat, base[i] as nat));
        lemma_coprime_mul(cf as nat, last as nat, bi as nat);
        cof = cf * last;
        assert(m == bi * cof) by (nonlinear_arith)
            requires
                m == mf * last,
                mf == bi * cf,
                cof == cf * last,
        ;
        assert(cof >= 1) by (nonlinear_arith)
            requires
                cof == cf * last,
                cf >= 1,
                last >= 1,
        ;
    }
    assert(m == cof * bi) by (nonlinear_arith)
        requires
            m == bi * cof,
    ;
    lemma_fundamental_div_mod_converse(m, bi, cof, 0);
}

/// A number that every modulus of a pairwise coprime basis divides is
/// divisible by their product.
pub proof fn lemma_product_divides(base: Seq<i64>, d: int)
    requires
        positive_moduli(base),
        pairwise_coprime(base),
        forall|i: int| 0 <= i < base.len() ==> d % (#[trigger] base[i] as int) == 0,
    ensures
        seq_product(base) >= 1,
        d % seq_product(base) == 0,
    decreases base.len(),
{
    lemma_product_positive(base);
    if base.len() == 0 {
        lemma_mod_multiples_basic(d, 1);
        assert(d * 1 == d);
    } else {
        let front = base.drop_last();
        let last = base.last() as int;
        lemma_front_base(base);
        assert forall|i: int| 0 <= i < front.len() implies d % (#[trigger] front[i] as int)
            == 0 by {
            assert(front[i] == base[i]);
            assert(d % (base[i] as int) == 0);
        }
        lemma_product_divides(front, d);
        assert forall|k: int| 0 <= k < front.len() implies coprime(
            #[trigger] front[k] as nat,
            last as nat,
        ) by {
            assert(front[k] == base[k]);
            assert(coprime(base[k] as nat, base[base.len() - 1] as nat));
        }
        lemma_product_coprime(front, last as nat);
        assert(base[base.len() - 1] > 0);
        assert(d % (base[base.len() - 1] as int) == 0);
        lemma_coprime_divisors(seq_product(front) as nat, last as nat, d);
    }
}

/// Two integers below the product with the same residues are equal.
pub proof fn lemma_crt_unique(r1: int, r2: int, digits: Seq<i64>, base: Seq<i64>)
    requires
        positive_moduli(base),
        pairwise_coprime(base),
        is_crt_solution(r1, digits, base),
        is_crt_solution(r2, digits, base),
    ensures
        r1 == r2,
{
    let d = r1 - r2;
    let m = seq_product(base);
    assert forall|i: int| 0 <= i < base.len() implies d % (#[trigger] base[i] as int) == 0 by {
        let b = base[i] as int;
        assert(b > 0);
        assert(r1 % b == (digits[i] as int) % b);
        assert(r2 % b == (digits[i] as int) % b);
        lemma_mod_equivalence(r1, r2, b);
    }
    lemma_product_divides(base, d);
    lemma_fundamental_div_mod(d, m);
    let q = d / m;
    assert(q == 0) by (nonlinear_arith)
        requires
            d == m * q,
            -m < d < m,
            m >= 1,
    ;
    assert(d == 0) by (nonlinear_arith)
        requires
            d == m * q,
            q == 0,
    ;
}

/// Round trip through the residue representation: rebuilding an integer
/// from its residues by a basis gives the integer modulo the product of the basis.
pub proof fn lemma_crt_round_trip(x: int, base: Seq<i64>)
    requires
        positive_moduli(base),
        pairwise_coprime(base),
    ensures
        crt_value(residues(x, base), base) == x % seq_product(base),
{
    let m = seq_product(base);
    let digits = residues(x, base);
    lemma_product_positive(base);
    let r = x % m;
    assert forall|i: int| 0 <= i < base.len() implies r % (#[trigger] base[i] as int) == (
    digits[i] as int) % (base[i] as int) by {
        let b = base[i] as int;
        assert(b > 0);
        lemma_cofactor(base, i);
        let c = m / b;
        lemma_mod_mod(x, b, c);
        assert(digits[i] == (x % b) as i64);
        lemma_mod_twice(x, b);
    }
    assert(is_crt_solution(r, digits, base));
    lemma_crt_unique(r, crt_value(digits, base), digits, base);
}

/// The product of a basis, or `None` where a modulus is not positive or the
/// product does not fit in an `i64`.
pub fn product(slice: &[i64]) -> (p: Option<i64>)
    ensures
        p is Some <==> positive_moduli(slice@) && seq_product(slice@) <= i64::MAX,
        p is Some ==> p->0 == seq_product(slice@),
{
    let mut acc: i64 = 1;
    let mut i: usize = 0;
    assert(slice@.take(0) =~= Seq::<i64>::empty());
    while i < slice.len()
        invariant
            i <= slice.len(),
            positive_moduli(slice@.take(i as int)),
            acc == seq_product(slice@.take(i as int)),
            acc >= 1,
        decreases slice.len() - i,
    {
        let b = slice[i];
        let ghost next = slice@.take(i + 1);
        proof {
            assert(next.drop_last() =~= slice@.take(i as int));
            assert(next.last() == b);
        }
        if b <= 0 {
            assert(!positive_moduli(slice@));
            return None;
        }
        match acc.checked_mul(b) {
            Some(v) => {
                acc = v;
            },
            None => {
                proof {
                    if positive_moduli(slice@) {
                        lemma_prefix_product(slice@, i + 1);
                    }
                }
                return None;
            },
        }
        proof {
            assert forall|k: int| 0 <= k < next.len() implies #[trigger] next[k] > 0 by {
                if k < i {
                    assert(slice@.take(i as int)[k] > 0);
                }
            }
            lemma_product_positive(next);
        }
        i += 1;
    }
    assert(slice@.take(i as int) =~= slice@);
    Some(acc)
}

/// With positive moduli, the product of a prefix is no larger than the product of all.
pub proof fn lemma_prefix_product(base: Seq<i64>, n: int)
    requires
        0 <= n <= base.len(),
        positive_moduli(base),
    ensures
        seq_product(base.take(n)) <= seq_product(base),
    decreases base.len() - n,
{
    if n < base.len() {
        let longer = base.take(n + 1);
        assert(longer.drop_last() =~= base.take(n));
        assert forall|k: int| 0 <= k < longer.len() implies #[trigger] longer[k] > 0 by {
            assert(longer[k] == base[k]);
            assert(base[k] > 0);
        }
        lemma_product_positive(longer);
        lemma_prefix_product(base, n + 1);
    } else {
        assert(base.take(n) =~= base);
    }
}

/// Whether `base` is a usable basis: positive, pairwise coprime moduli with
/// a product that fits in an `i64`.
pub fn is_crt_base(base: &[i64]) -> (ok: bool)
    ensures
        ok == crt_base(base@),
{
    if product(base).is_none() {
        return false;
    }
    let n = base.len();
    let mut i: usize = 0;
    while i < n
        invariant
            n == base.len(),
            i <= n,
            positive_moduli(base@),
            forall|a: int, b: int|
                0 <= a < i && 0 <= b < n && a != b ==> coprime(
                    #[trigger] base@[a] as nat,
                    #[trigger] base@[b] as nat,
                ),
        decreases n - i,
    {
        let mut j: usize = 0;
        while j < n
            invariant
                n == base.len(),
                i < n,
                j <= n,
                positive_moduli(base@),
                forall|b: int|
                    0 <= b < j && b != i ==> coprime(base@[i as int] as nat, #[trigger] base@[b] as nat),
            decreases n - j,
        {
            if j != i {
                assert(base@[i as int] > 0 && base@[j as int] > 0);
                let (g, _, _) = xgcd(base[i], base[j]);
                if g != 1 {
                    assert(!coprime(base@[i as int] as nat, base@[j as int] as nat));
                    return false;
                }
            }
            j += 1;
        }
        i += 1;
    }
    true
}

/// The residues of `x` by each modulus of `base`.
pub fn goto_crt(x: i64, base: &[i64]) -> (digits: Vec<i64>)
    requires
        positive_moduli(base@),
    ensures
        digits@ == residues(x as int, base@),
{
    let mut digits: Vec<i64> = Vec::new();
    let mut i: usize = 0;
    while i < base.len()
        invariant
            i <= base.len(),
            positive_moduli(base@),
            digits@.len() == i,
            forall|k: int| 0 <= k < i ==> digits@[k] == ((x as int) % (base@[k] as int)) as i64,
        decreases base.len() - i,
    {
        assert(base@[i as int] > 0);
        digits.push(rem_euclid(x, base[i]));
        i += 1;
    }
    assert(digits@ =~= residues(x as int, base@));
    digits
}

/// The first `k` residues of `x`.
pub fn goto_crt_k(x: i64, base: &[i64], k: usize) -> (digits: Vec<i64>)
    requires
        positive_moduli(base@),
    ensures
        digits@ == residues(x as int, base@.take(if k <= base@.len() {
            k as int
        } else {
            base@.len() as int
        })),
{
    let n: usize = if k <= base.len() {
        k
    } else {
        base.len()
    };
    let prefix = vstd::slice::slice_subrange(base, 0, n);
    assert(prefix@ =~= base@.take(n as int));
    assert forall|i: int| 0 <= i < prefix@.len() implies #[trigger] prefix@[i] > 0 by {
        assert(prefix@[i] == base@[i]);
        assert(base@[i] > 0);
    }
    goto_crt(x, prefix)
}

/// One reconstruction step: adding `c * cofactor` changes the residue by the
/// `i`-th modulus to the wanted digit and leaves every other residue alone.
proof fn lemma_crt_step(acc: int, c: int, d: int, inv: int, base: Seq<i64>, i: int, k: int)
    requires
        positive_moduli(base),
        pairwise_coprime(base),
        0 <= i < base.len(),
        0 <= k < base.len(),
        c == (d * inv) % (base[i] as int),
        0 <= d < base[i],
        is_inverse_mod(inv, seq_product(base) / (base[i] as int), base[i] as int),
    ensures
        ((acc + c * (seq_product(base) / (base[i] as int))) % seq_product(base)) % (base[k] as int)
            == (if k == i {
            (acc % (base[i] as int) + d) % (base[i] as int)
        } else {
            acc % (base[k] as int)
        }),
{
    let m = seq_product(base);
    let bi = base[i] as int;
    let bk = base[k] as int;
    let big = m / bi;
    let term = c * big;
    assert(bi > 0 && bk > 0);
    lemma_cofactor(base, i);
    lemma_cofactor(base, k);
    // reducing by the product first does not change the residue by a modulus
    lemma_mod_mod(acc + term, bk, m / bk);
    lemma_add_mod_noop(acc, term, bk);
    if k == i {
        // term % bi == ((d * inv) % bi * big) % bi == (d * (inv * big)) % bi == d
        lemma_mul_mod_noop_left(d * inv, big, bi);
        assert((d * inv) * big == d * (inv * big)) by (nonlinear_arith);
        lemma_mul_mod_noop_right(d, inv * big, bi);
        if bi == 1 {
            assert(d == 0);
            assert(d * ((inv * big) % bi) == 0) by (nonlinear_arith)
                requires
                    d == 0,
            ;
        } else {
            lemma_small_mod(1, bi as nat);
            assert(d * 1 == d);
            lemma_small_mod(d as nat, bi as nat);
        }
        assert(term % bi == d % bi);
        lemma_small_mod(d as nat, bi as nat);
        lemma_add_mod_noop(acc, d, bi);
    } else {
        // the cofactor of the i-th modulus is a multiple of every other modulus
        assert(coprime(base[k] as nat, base[i] as nat));
        assert(m == bi * big);
        lemma_euclid(bk as nat, bi as nat, big);
        lemma_fundamental_div_mod(big, bk);
        let q = big / bk;
        assert(term == (c * q) * bk) by (nonlinear_arith)
            requires
                term == c * big,
                big == bk * q,
        ;
        lemma_mod_multiples_basic(c * q, bk);
        lemma_mod_twice(acc, bk);
    }
}

/// Rebuild the integer below the product of `base` whose residues are `x_b`.
pub fn goback_crt(x_b: &[i64], base: &[i64]) -> (x: i64)
    requires
        crt_base(base@),
        x_b@.len() >= base@.len(),
    ensures
        is_crt_solution(x as int, x_b@, base@),
        x == crt_value(x_b@, base@),
{
    let n = base.len();
    let m: i64 = match product(base) {
        Some(p) => p,
        None => 1,
    };
    proof {
        lemma_product_positive(base@);
    }
    let mut acc: i64 = 0;
    let mut i: usize = 0;
    assert forall|k: int| 0 <= k < n implies 0int % (#[trigger] base@[k] as int) == 0 by {
        lemma_small_mod(0, base@[k] as nat);
    }
    while i < n
        invariant
            n == base.len(),
            i <= n,
            crt_base(base@),
            x_b@.len() >= base@.len(),
            m == seq_product(base@),
            0 <= acc < m,
            forall|k: int|
                0 <= k < n ==> (acc as int) % (#[trigger] base@[k] as int) == (if k < i {
                    (x_b@[k] as int) % (base@[k] as int)
                } else {
                    0
                }),
        decreases n - i,
    {
        let b = base[i];
        assert(base@[i as int] > 0);
        proof {
            lemma_cofactor(base@, i as int);
        }
        let big: i64 = m / b;
        let inv = inverse_mod(big, b);
        let d = rem_euclid(x_b[i], b);
        let c = mul_mod(d, inv, b);
        assert(0 <= c * big < m) by (nonlinear_arith)
            requires
                0 <= c < b,
                big >= 1,
                m == b * big,
        ;
        let term: i64 = c * big;
        let next = add_mod(acc, term, m);
        proof {
            assert forall|k: int| 0 <= k < n implies (next as int) % (#[trigger] base@[k] as int)
                == (if k < i + 1 {
                (x_b@[k] as int) % (base@[k] as int)
            } else {
                0
            }) by {
                lemma_crt_step(acc as int, c as int, d as int, inv as int, base@, i as int, k);
                if k == i {
                    lemma_small_mod(d as nat, b as nat);
                }
            }
        }
        acc = next;
        i += 1;
    }
    proof {
        assert(is_crt_solution(acc as int, x_b@, base@));
        lemma_crt_unique(acc as int, crt_value(x_b@, base@), x_b@, base@);
    }
    acc
}

/// Whether the residues of `original` by `base` are `expected_crt` and
/// rebuild to `original`.
pub fn verify_crt_operation(original: i64, base: &[i64], expected_crt: &[i64]) -> (ok: bool)
    requires
        crt_base(base@),
    ensures
        ok == (residues(original as int, base@) == expected_crt@ && crt_value(
            residues(original as int, base@),
            base@,
        ) == original),
{
    let crt_values = goto_crt(original, base);
    let reconstructed = goback_crt(crt_values.as_slice(), base);
    let same_digits = slices_equal(crt_values.as_slice(), expected_crt);
    same_digits && reconstructed == original
}

/// Whether two slices hold the same integers.
pub fn slices_equal(a: &[i64], b: &[i64]) -> (same: bool)
    ensures
        same == (a@ == b@),
{
    if a.len() != b.len() {
        return false;
    }
    let mut i: usize = 0;
    while i < a.len()
        invariant
            a.len() == b.len(),
            i <= a.len(),
            forall|k: int| 0 <= k < i ==> a@[k] == b@[k],
        decreases a.len() - i,
    {
        if a[i] != b[i] {
            return false;
        }
        i += 1;
    }
    assert(a@ =~= b@);
    true
}

} // verus!
