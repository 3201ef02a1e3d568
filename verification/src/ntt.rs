//! The number-theoretic transform of a ring vector: iterative Cooley-Tukey
//! butterflies over a bit-reversed buffer.

use vstd::prelude::*;
use vstd::arithmetic::div_mod::*;
use vstd::arithmetic::mul::*;
use vstd::arithmetic::power::*;
use vstd::arithmetic::power2::*;
use crate::lattice::{reduce_all, reduced, NTRUVector, RingError};
use crate::modular::{add_mod, mul_mod, rem_euclid, sub_mod};
use crate::ntt_spec::{
    bit_rev, forward_ntt, inverse_ntt, is_negacyclic_root, lemma_bit_rev_bound, lemma_butterfly,
    lemma_cong_add, lemma_cong_mul, lemma_first_stage, lemma_last_stage, lemma_pow2_double,
    lemma_pow2_monotonic, lemma_twisted_poly, poly_eval, power_of_two, stage_value, twisted,
};

verus! {

/// `x` with its lowest `bits` bits in reverse order.
pub fn bit_reverse(x: usize, bits: usize) -> (y: usize)
    requires
        pow2(bits as nat) <= usize::MAX,
    ensures
        y == bit_rev(x as nat, bits as nat),
{
    let mut y: usize = 0;
    let mut rest: usize = x;
    let mut t: usize = 0;
    proof {
        lemma2_to64();
        assert(0 * pow2(bits as nat) == 0);
    }
    while t < bits
        invariant
            t <= bits,
            pow2(bits as nat) <= usize::MAX,
            y < pow2(t as nat),
            bit_rev(x as nat, bits as nat) == y * pow2((bits - t) as nat) + bit_rev(
                rest as nat,
                (bits - t) as nat,
            ),
        decreases bits - t,
    {
        proof {
            lemma_pow2_double(t as nat);
            lemma_pow2_double((bits - t - 1) as nat);
            lemma_pow2_monotonic((t + 1) as nat, bits as nat);
            let h = pow2((bits - t - 1) as nat) as int;
            let yi = y as int;
            let low = (rest % 2) as int;
            assert((2 * yi + low) * h == yi * (2 * h) + low * h) by (nonlinear_arith);
        }
        y = y * 2 + rest % 2;
        rest = rest / 2;
        t += 1;
    }
    proof {
        lemma2_to64();
        assert(y * 1 == y);
    }
    y
}

/// The exponent `e` with `n == 2^e`, if there is one.
pub fn log2_exact(n: usize) -> (res: Option<usize>)
    ensures
        match res {
            Some(e) => n == pow2(e as nat),
            None => !power_of_two(n as int),
        },
{
    if n == 0 {
        proof {
            assert forall|k: nat| n != pow2(k) by {
                lemma_pow2_pos(k);
            }
        }
        return None;
    }
    let mut size: usize = 1;
    let mut e: usize = 0;
    proof {
        lemma2_to64();
    }
    while size < n
        invariant
            size == pow2(e as nat),
            size <= n,
            e < size,
        decreases n - size,
    {
        if size > n / 2 {
            proof {
                lemma_pow2_double(e as nat);
                assert forall|k: nat| n != pow2(k) by {
                    if k <= e {
                        lemma_pow2_monotonic(k, e as nat);
                    } else {
                        lemma_pow2_monotonic((e + 1) as nat, k);
                    }
                }
            }
            return None;
        }
        proof {
            lemma_pow2_double(e as nat);
        }
        size = size * 2;
        e += 1;
    }
    Some(e)
}

/// The value at `p` while stage `t` is under way: positions before the
/// current block, and the first `r` pairs of the current block, already
/// hold the values of stage `t`; the rest still hold those of stage `t - 1`.
pub open spec fn in_progress_value(
    w: Seq<i64>,
    omega: int,
    levels: nat,
    t: nat,
    block_start: int,
    half: int,
    r: int,
    p: int,
) -> int {
    if p < block_start || (block_start <= p < block_start + half && p - block_start < r) || (
    block_start + half <= p < block_start + 2 * half && p - block_start - half < r) {
        stage_value(w, omega, levels, t, p)
    } else {
        stage_value(w, omega, levels, (t - 1) as nat, p)
    }
}

/// The two residues a butterfly stores are the residues of the exact values.
proof fn lemma_butterfly_residues(
    left_r: int,
    right_r: int,
    tw_r: int,
    left: int,
    right: int,
    tw: int,
    q: int,
)
    requires
        q > 0,
        left_r == left % q,
        right_r == right % q,
        tw_r == tw % q,
    ensures
        (left_r + (right_r * tw_r) % q) % q == (left + tw * right) % q,
        (left_r - (right_r * tw_r) % q) % q == (left - tw * right) % q,
{
    lemma_mod_twice(left, q);
    lemma_mod_twice(right, q);
    lemma_mod_twice(tw, q);
    lemma_cong_mul(right_r, right, tw_r, tw, q);
    lemma_mod_twice(right_r * tw_r, q);
    assert(right * tw == tw * right) by (nonlinear_arith);
    lemma_cong_add(left_r, left, (right_r * tw_r) % q, tw * right, q);
}

/// Bit-reverse the samples, then run every butterfly stage.
///
/// `powtable[k]` holds `omega^k` modulo `q`. Where `omega^(n / 2)` is `-1`
/// modulo `q`, output `k` is the polynomial with coefficients `w` at `omega^k`.
fn butterfly_network(
    w: &Vec<i64>,
    powtable: &Vec<i64>,
    q: i64,
    levels: usize,
    Ghost(omega): Ghost<int>,
) -> (out: Vec<i64>)
    requires
        q > 0,
        w@.len() == pow2(levels as nat),
        reduced(w@, q as int),
        levels >= 1 ==> powtable@.len() == pow2((levels - 1) as nat),
        forall|k: int|
            0 <= k < powtable@.len() ==> powtable@[k] == pow(omega, k as nat) % (q as int),
    ensures
        out@.len() == w@.len(),
        (levels >= 1 ==> (pow(omega, pow2((levels - 1) as nat)) + 1) % (q as int) == 0)
            ==> forall|k: int|
            0 <= k < out@.len() ==> out@[k] == poly_eval(w@, pow(omega, k as nat), w@.len()) % (
            q as int),
{
    let n = w.len();
    let ghost lv = levels as nat;
    let ghost ws = w@;
    let ghost qi = q as int;
    let ghost valid = (levels >= 1 ==> (pow(omega, pow2((levels - 1) as nat)) + 1) % qi == 0);
    let mut vec: Vec<i64> = Vec::new();
    let mut p: usize = 0;
    while p < n
        invariant
            n == w@.len(),
            n == pow2(lv),
            lv == levels,
            ws == w@,
            p <= n,
            vec@.len() == p,
            forall|i: int| 0 <= i < p ==> vec@[i] == ws[bit_rev(i as nat, lv) as int],
        decreases n - p,
    {
        proof {
            lemma_bit_rev_bound(p as nat, lv);
        }
        let src = bit_reverse(p, levels);
        vec.push(w[src]);
        p += 1;
    }
    proof {
        lemma2_to64();
        assert forall|i: int| 0 <= i < n implies vec@[i] == stage_value(ws, omega, lv, 0, i) % qi by {
            lemma_first_stage(ws, omega, lv, i as nat);
            lemma_bit_rev_bound(i as nat, lv);
            let x = ws[bit_rev(i as nat, lv) as int];
            assert(0 <= x < qi);
            lemma_small_mod(x as nat, qi as nat);
        }
    }
    let mut half: usize = 1;
    let ghost mut t: nat = 1;
    while half < n
        invariant
            q > 0,
            qi == q,
            n == w@.len(),
            n == pow2(lv),
            lv == levels,
            ws == w@,
            1 <= t <= lv + 1,
            half == pow2((t - 1) as nat),
            vec@.len() == n,
            valid == (levels >= 1 ==> (pow(omega, pow2((levels - 1) as nat)) + 1) % qi == 0),
            levels >= 1 ==> powtable@.len() == pow2((levels - 1) as nat),
            forall|k: int| 0 <= k < powtable@.len() ==> powtable@[k] == pow(omega, k as nat) % qi,
            valid ==> forall|i: int|
                0 <= i < n ==> vec@[i] == stage_value(ws, omega, lv, (t - 1) as nat, i) % qi,
        decreases lv + 1 - t,
    {
        proof {
            if t > lv {
                lemma_pow2_monotonic(lv, (t - 1) as nat);
            }
            lemma_pow2_double((t - 1) as nat);
            lemma_pow2_monotonic(t, lv);
            lemma_pow2_adds((lv - t) as nat, t);
            lemma_pow2_pos((lv - t) as nat);
        }
        let size: usize = half * 2;
        let ghost blocks = pow2((lv - t) as nat) as int;
        proof {
            assert(n == blocks * size);
            lemma_fundamental_div_mod_converse(n as int, size as int, blocks, 0);
            lemma_pow2_adds((lv - t) as nat, (t - 1) as nat);
            assert(blocks * half == pow2((lv - 1) as nat));
        }
        let step: usize = n / size;
        let mut i: usize = 0;
        let ghost mut b: int = 0;
        assert(0 * (size as int) == 0);
        while i < n
            invariant
                q > 0,
                qi == q,
                n == w@.len(),
                n == pow2(lv),
                lv == levels,
                ws == w@,
                1 <= t <= lv,
                half == pow2((t - 1) as nat),
                half >= 1,
                size == 2 * half,
                size == pow2(t),
                blocks == pow2((lv - t) as nat),
                step == blocks,
                n == blocks * size,
                blocks * half == pow2((lv - 1) as nat),
                vec@.len() == n,
                valid == (levels >= 1 ==> (pow(omega, pow2((levels - 1) as nat)) + 1) % qi == 0),
                levels >= 1 ==> powtable@.len() == pow2((levels - 1) as nat),
                forall|k: int|
                    0 <= k < powtable@.len() ==> powtable@[k] == pow(omega, k as nat) % qi,
                0 <= b <= blocks,
                i == b * size,
                i <= n,
                valid ==> forall|x: int|
                    0 <= x < n ==> vec@[x] == in_progress_value(
                        ws,
                        omega,
                        lv,
                        t,
                        i as int,
                        half as int,
                        0,
                        x,
                    ) % qi,
            decreases n - i,
        {
            proof {
                let sz = size as int;
                assert(b < blocks) by (nonlinear_arith)
                    requires
                        b * sz < blocks * sz,
                        sz > 0,
                ;
                assert((b + 1) * sz <= blocks * sz && (b + 1) * sz == b * sz + sz)
                    by (nonlinear_arith)
                    requires
                        b + 1 <= blocks,
                        sz > 0,
                ;
            }
            let mut r: usize = 0;
            while r < half
                invariant
                    q > 0,
                    qi == q,
                    n == w@.len(),
                    n == pow2(lv),
                    lv == levels,
                    ws == w@,
                    1 <= t <= lv,
                    half == pow2((t - 1) as nat),
                    half >= 1,
                    size == 2 * half,
                    n == blocks * size,
                    size == pow2(t),
                    blocks == pow2((lv - t) as nat),
                    step == blocks,
                    blocks * half == pow2((lv - 1) as nat),
                    vec@.len() == n,
                    valid == (levels >= 1 ==> (pow(omega, pow2((levels - 1) as nat)) + 1) % qi
                        == 0),
                    levels >= 1 ==> powtable@.len() == pow2((levels - 1) as nat),
                    forall|k: int|
                        0 <= k < powtable@.len() ==> powtable@[k] == pow(omega, k as nat) % qi,
                    0 <= b < blocks,
                    i == b * size,
                    i + size <= n,
                    r <= half,
                    valid ==> forall|x: int|
                        0 <= x < n ==> vec@[x] == in_progress_value(
                            ws,
                            omega,
                            lv,
                            t,
                            i as int,
                            half as int,
                            r as int,
                            x,
                        ) % qi,
                decreases half - r,
            {
                let j: usize = i + r;
                let l: usize = j + half;
                proof {
                    let (ri, st, hf) = (r as int, step as int, half as int);
                    assert(0 <= ri * st < hf * st) by (nonlinear_arith)
                        requires
                            0 <= ri < hf,
                            st > 0,
                    ;
                    assert(hf * st == st * hf && st * (2 * hf) == 2 * (st * hf))
                        by (nonlinear_arith);
                }
                let k: usize = r * step;
                let left = vec[j];
                let right = mul_mod(vec[l], powtable[k], q);
                let up = add_mod(left, right, q);
                let down = sub_mod(left, right, q);
                let ghost before = vec@;
                vec.set(j, up);
                vec.set(l, down);
                proof {
                    if valid {
                        lemma_butterfly(ws, omega, qi, lv, t, b as nat, r as nat);
                        let lo = stage_value(ws, omega, lv, (t - 1) as nat, j as int);
                        let hi = stage_value(ws, omega, lv, (t - 1) as nat, l as int);
                        let tw = pow(omega, (r * step) as nat);
                        assert(before[j as int] == in_progress_value(
                            ws,
                            omega,
                            lv,
                            t,
                            i as int,
                            half as int,
                            r as int,
                            j as int,
                        ) % qi);
                        assert(before[l as int] == in_progress_value(
                            ws,
                            omega,
                            lv,
                            t,
                            i as int,
                            half as int,
                            r as int,
                            l as int,
                        ) % qi);
                        lemma_butterfly_residues(
                            left as int,
                            before[l as int] as int,
                            powtable@[k as int] as int,
                            lo,
                            hi,
                            tw,
                            qi,
                        );
                        assert forall|x: int| 0 <= x < n implies vec@[x] == in_progress_value(
                            ws,
                            omega,
                            lv,
                            t,
                            i as int,
                            half as int,
                            r + 1,
                            x,
                        ) % qi by {
                            if x != j && x != l {
                                assert(vec@[x] == before[x]);
                                assert(before[x] == in_progress_value(
                                    ws,
                                    omega,
                                    lv,
                                    t,
                                    i as int,
                                    half as int,
                                    r as int,
                                    x,
                                ) % qi);
                            }
                        }
                    }
                }
                r += 1;
            }
            proof {
                if valid {
                    assert forall|x: int| 0 <= x < n implies vec@[x] == in_progress_value(
                        ws,
                        omega,
                        lv,
                        t,
                        i + size,
                        half as int,
                        0,
                        x,
                    ) % qi by {
                        assert(vec@[x] == in_progress_value(
                            ws,
                            omega,
                            lv,
                            t,
                            i as int,
                            half as int,
                            half as int,
                            x,
                        ) % qi);
                    }
                }
            }
            i += size;
            proof {
                b = b + 1;
            }
        }
        proof {
            if valid {
                assert forall|x: int| 0 <= x < n implies vec@[x] == stage_value(
                    ws,
                    omega,
                    lv,
                    t,
                    x,
                ) % qi by {
                    assert(vec@[x] == in_progress_value(
                        ws,
                        omega,
                        lv,
                        t,
                        i as int,
                        half as int,
                        0,
                        x,
                    ) % qi);
                }
            }
        }
        half = size;
        proof {
            t = t + 1;
        }
    }
    proof {
        if t <= lv {
            lemma_pow2_monotonic(t, lv);
            lemma_pow2_double((t - 1) as nat);
        }
        assert(t == lv + 1);
        if valid {
            assert forall|k: int| 0 <= k < n implies vec@[k] == poly_eval(
                ws,
                pow(omega, k as nat),
                n as nat,
            ) % qi by {
                lemma_last_stage(ws, omega, lv, k as nat);
            }
        }
    }
    vec
}

/// Reducing the coefficients does not change a polynomial's value modulo `q`.
pub proof fn lemma_poly_eval_reduced(v: Seq<i64>, x: int, q: int, count: nat)
    requires
        0 < q <= i64::MAX,
        count <= v.len(),
    ensures
        poly_eval(reduce_all(v, q), x, count) % q == poly_eval(v, x, count) % q,
    decreases count,
{
    if count > 0 {
        let g = (count - 1) as nat;
        lemma_poly_eval_reduced(v, x, q, g);
        let a = v[g as int] as int;
        let ar = reduce_all(v, q)[g as int] as int;
        assert(ar == a % q);
        lemma_mod_twice(a, q);
        lemma_cong_mul(ar, a, pow(x, g), pow(x, g), q);
        lemma_cong_add(
            poly_eval(reduce_all(v, q), x, g),
            poly_eval(v, x, g),
            ar * pow(x, g),
            a * pow(x, g),
            q,
        );
    }
}

/// Powers of a square are even powers: `(x * x)^k == x^(2k)`.
pub proof fn lemma_pow_of_square(x: int, k: nat)
    ensures
        pow(x * x, k) == pow(x, 2 * k),
{
    lemma_square_is_pow2(x);
    lemma_pow_multiplies(x, 2, k);
}

/// The powers of `root` modulo `q`: all of them, and the even ones.
fn power_tables(root: i64, q: i64, n: usize) -> (tables: (Vec<i64>, Vec<i64>))
    requires
        q > 0,
    ensures
        tables.0@.len() == n,
        forall|i: int| 0 <= i < n ==> tables.0@[i] == pow(root as int, i as nat) % (q as int),
        tables.1@.len() == (n + 1) / 2,
        forall|k: int|
            0 <= k < tables.1@.len() ==> tables.1@[k] == pow((root as int) * (root as int), k as nat)
                % (q as int),
{
    let ghost ri = root as int;
    let ghost qi = q as int;
    let mut all: Vec<i64> = Vec::new();
    let mut even: Vec<i64> = Vec::new();
    let mut temp: i64 = rem_euclid(1, q);
    let mut i: usize = 0;
    proof {
        lemma_pow0(ri);
    }
    while i < n
        invariant
            q > 0,
            ri == root,
            qi == q,
            i <= n,
            temp == pow(ri, i as nat) % qi,
            all@.len() == i,
            forall|j: int| 0 <= j < i ==> all@[j] == pow(ri, j as nat) % qi,
            even@.len() == (i + 1) / 2,
            forall|k: int| 0 <= k < even@.len() ==> even@[k] == pow(ri * ri, k as nat) % qi,
        decreases n - i,
    {
        all.push(temp);
        if i % 2 == 0 {
            proof {
                lemma_pow_of_square(ri, (i / 2) as nat);
            }
            even.push(temp);
        }
        proof {
            // pow(root, i + 1) == pow(root, i) * root
            lemma_pow1(ri);
            lemma_pow_adds(ri, i as nat, 1);
            lemma_mul_mod_noop_left(pow(ri, i as nat), ri, qi);
        }
        temp = mul_mod(temp, root, q);
        i += 1;
    }
    (all, even)
}

impl NTRUVector {
    /// Which error, if any, a transform of this vector into the domain
    /// `target_ntt` gives.
    pub open spec fn transform_error(&self, target_ntt: bool) -> Option<RingError> {
        if self.ntt == target_ntt {
            Some(RingError::WrongDomain)
        } else if !power_of_two(self.degree as int) {
            Some(RingError::DegreeNotPowerOfTwo)
        } else {
            None
        }
    }

    /// Forward transform, in place: from the coefficient domain to the
    /// transform domain, with `root` a root of `X^n + 1` modulo the modulus.
    ///
    /// A vector already in the transform domain is refused and left as it is.
    pub fn goto_ntt(&mut self, root: i64) -> (res: Result<(), RingError>)
        requires
            old(self).wf(),
        ensures
            final(self).wf(),
            final(self).degree == old(self).degree,
            final(self).modulus == old(self).modulus,
            match res {
                Ok(()) => {
                    &&& old(self).transform_error(true) is None
                    &&& final(self).ntt
                    &&& final(self).checksum_ok()
                    &&& is_negacyclic_root(
                        root as int,
                        old(self).degree as nat,
                        old(self).modulus as int,
                    ) ==> final(self).vector@ == forward_ntt(
                        old(self).vector@,
                        root as int,
                        old(self).modulus as int,
                    )
                },
                Err(e) => {
                    &&& old(self).transform_error(true) == Some(e)
                    &&& final(self).vector@ == old(self).vector@
                    &&& final(self).ntt == old(self).ntt
                    &&& final(self).checksum@ == old(self).checksum@
                },
            },
    {
        if self.ntt {
            return Err(RingError::WrongDomain);
        }
        let n = self.degree;
        let q = self.modulus;
        let levels = match log2_exact(n) {
            Some(e) => e,
            None => {
                return Err(RingError::DegreeNotPowerOfTwo);
            },
        };
        let ghost v = self.vector@;
        let ghost ri = root as int;
        let ghost qi = q as int;
        let (powers, powtable) = power_tables(root, q, n);
        let mut w: Vec<i64> = Vec::new();
        let mut i: usize = 0;
        while i < n
            invariant
                q > 0,
                qi == q,
                ri == root,
                v == self.vector@,
                n == v.len(),
                i <= n,
                powers@.len() == n,
                forall|j: int| 0 <= j < n ==> powers@[j] == pow(ri, j as nat) % qi,
                w@.len() == i,
                forall|j: int| 0 <= j < i ==> w@[j] == ((v[j] * pow(ri, j as nat)) % qi) as i64,
            decreases n - i,
        {
            proof {
                lemma_mul_mod_noop_right(v[i as int] as int, pow(ri, i as nat), qi);
            }
            w.push(mul_mod(self.vector[i], powers[i], q));
            i += 1;
        }
        proof {
            assert(w@ =~= twisted(v, ri, qi));
            assert(reduced(w@, qi));
            if levels >= 1 {
                lemma_pow2_double((levels - 1) as nat);
                lemma_pow_of_square(ri, pow2((levels - 1) as nat));
            }
        }
        let out = butterfly_network(&w, &powtable, q, levels, Ghost(ri * ri));
        proof {
            if is_negacyclic_root(ri, n as nat, qi) {
                assert forall|k: int| 0 <= k < n implies out@[k] == (poly_eval(
                    v,
                    pow(ri, (2 * k + 1) as nat),
                    v.len(),
                ) % qi) as i64 by {
                    lemma_twisted_poly(v, ri, qi, k as nat, n as nat);
                }
                assert(out@ =~= forward_ntt(v, ri, qi));
            }
            assert(power_of_two(n as int));
        }
        self.vector = out;
        self.ntt = true;
        self.update_checksum();
        Ok(())
    }

    /// Inverse transform, in place: from the transform domain back to the
    /// coefficient domain, with `unroot` the inverse of the root and `ninv`
    /// the inverse of the degree modulo the modulus.
    ///
    /// A vector in the coefficient domain is refused and left as it is.
    pub fn goback_ntt(&mut self, unroot: i64, ninv: i64) -> (res: Result<(), RingError>)
        requires
            old(self).wf(),
        ensures
            final(self).wf(),
            final(self).degree == old(self).degree,
            final(self).modulus == old(self).modulus,
            match res {
                Ok(()) => {
                    &&& old(self).transform_error(false) is None
                    &&& !final(self).ntt
                    &&& final(self).checksum_ok()
                    &&& is_negacyclic_root(
                        unroot as int,
                        old(self).degree as nat,
                        old(self).modulus as int,
                    ) ==> final(self).vector@ == inverse_ntt(
                        old(self).vector@,
                        unroot as int,
                        ninv as int,
                        old(self).modulus as int,
                    )
                },
                Err(e) => {
                    &&& old(self).transform_error(false) == Some(e)
                    &&& final(self).vector@ == old(self).vector@
                    &&& final(self).ntt == old(self).ntt
                    &&& final(self).checksum@ == old(self).checksum@
                },
            },
    {
        if !self.ntt {
            return Err(RingError::WrongDomain);
        }
        let n = self.degree;
        let q = self.modulus;
        let levels = match log2_exact(n) {
            Some(e) => e,
            None => {
                return Err(RingError::DegreeNotPowerOfTwo);
            },
        };
        let ghost v = self.vector@;
        let ghost ui = unroot as int;
        let ghost qi = q as int;
        let (powers, powtable) = power_tables(unroot, q, n);
        let mut w: Vec<i64> = Vec::new();
        let mut i: usize = 0;
        while i < n
            invariant
                q > 0,
                qi == q,
                v == self.vector@,
                n == v.len(),
                i <= n,
                w@.len() == i,
                forall|j: int| 0 <= j < i ==> w@[j] == ((v[j] as int) % qi) as i64,
            decreases n - i,
        {
            w.push(rem_euclid(self.vector[i], q));
            i += 1;
        }
        proof {
            assert(w@ =~= reduce_all(v, qi));
            assert(reduced(w@, qi));
            if levels >= 1 {
                lemma_pow2_double((levels - 1) as nat);
                lemma_pow_of_square(ui, pow2((levels - 1) as nat));
            }
        }
        let spectrum = butterfly_network(&w, &powtable, q, levels, Ghost(ui * ui));
        let mut out: Vec<i64> = Vec::new();
        let mut k: usize = 0;
        while k < n
            invariant
                q > 0,
                qi == q,
                ui == unroot,
                n == v.len(),
                k <= n,
                spectrum@.len() == n,
                powers@.len() == n,
                forall|j: int| 0 <= j < n ==> powers@[j] == pow(ui, j as nat) % qi,
                out@.len() == k,
                forall|j: int|
                    0 <= j < k ==> out@[j] == (((spectrum@[j] * ninv) % qi) * powers@[j]) % qi,
            decreases n - k,
        {
            let scaled = mul_mod(spectrum[k], ninv, q);
            out.push(mul_mod(scaled, powers[k], q));
            k += 1;
        }
        proof {
            if is_negacyclic_root(ui, n as nat, qi) {
                assert forall|j: int| 0 <= j < n implies out@[j] == ((poly_eval(
                    v,
                    pow(ui, (2 * j) as nat),
                    v.len(),
                ) * ninv * pow(ui, j as nat)) % qi) as i64 by {
                    let exact = poly_eval(v, pow(ui, (2 * j) as nat), v.len());
                    lemma_pow_of_square(ui, j as nat);
                    lemma_poly_eval_reduced(v, pow(ui, (2 * j) as nat), qi, n as nat);
                    assert(spectrum@[j] == exact % qi);
                    lemma_mod_twice(exact, qi);
                    lemma_cong_mul(spectrum@[j] as int, exact, ninv as int, ninv as int, qi);
                    lemma_mod_twice(spectrum@[j] * ninv, qi);
                    lemma_mod_twice(pow(ui, j as nat), qi);
                    lemma_cong_mul(
                        (spectrum@[j] * ninv) % qi,
                        exact * ninv,
                        powers@[j] as int,
                        pow(ui, j as nat),
                        qi,
                    );
                }
                assert(out@ =~= inverse_ntt(v, ui, ninv as int, qi));
            }
            assert(power_of_two(n as int));
        }
        self.vector = out;
        self.ntt = false;
        self.update_checksum();
        Ok(())
    }
}

} // verus!
