//! Vectors of the negacyclic polynomial ring `Z_q[X] / (X^n + 1)`.

use vstd::prelude::*;
use vstd::arithmetic::div_mod::*;
use crate::checksum::{blake3_digest, compute_crt_checksum, digest_eq, i64_seq_le_bytes};
use crate::modular::{add_mod, mul_mod, rem_euclid, sub_mod};

verus! {

/// Why a ring operation was refused.
#[derive(Clone, Copy, Debug, PartialEq, Eq, Structural)]
pub enum RingError {
    /// The two operands have different degrees.
    DegreeMismatch,
    /// The two operands have different moduli.
    ModulusMismatch,
    /// A forward transform was asked of a vector already in the transform
    /// domain, or an inverse transform of one in the coefficient domain.
    WrongDomain,
    /// The degree is not a power of two, so no transform is defined.
    DegreeNotPowerOfTwo,
}

/// An element of the ring: `degree` coefficients modulo `modulus`, in the
/// coefficient domain or (when `ntt` is set) in the transform domain, with a
/// checksum of the coefficients.
#[derive(Debug)]
pub struct NTRUVector {
    pub vector: Vec<i64>,
    pub degree: usize,
    pub modulus: i64,
    pub ntt: bool,
    pub checksum: [u8; 32],
}

/// The material an encryptor needs: the ring and the public key.
#[derive(Debug)]
pub struct PubEncData {
    pub degree: usize,
    pub modulus: i64,
    pub pka: NTRUVector,
    pub pkb: NTRUVector,
    pub data_checksum: [u8; 32],
}

/// Coefficient-wise sum modulo `q`.
pub open spec fn ring_add(a: Seq<i64>, b: Seq<i64>, q: int) -> Seq<i64> {
    Seq::new(a.len(), |i: int| ((a[i] + b[i]) % q) as i64)
}

/// Coefficient-wise difference modulo `q`.
pub open spec fn ring_sub(a: Seq<i64>, b: Seq<i64>, q: int) -> Seq<i64> {
    Seq::new(a.len(), |i: int| ((a[i] - b[i]) % q) as i64)
}

/// Coefficient-wise negation modulo `q`.
pub open spec fn ring_neg(a: Seq<i64>, q: int) -> Seq<i64> {
    Seq::new(a.len(), |i: int| ((-a[i]) % q) as i64)
}

/// Coefficient-wise product modulo `q`: multiplication in the transform domain.
pub open spec fn pointwise_mul(a: Seq<i64>, b: Seq<i64>, q: int) -> Seq<i64> {
    Seq::new(a.len(), |i: int| ((a[i] * b[i]) % q) as i64)
}

/// The contribution of `a[i]` to coefficient `d` of a negacyclic product:
/// `a[i] * b[d - i]`, or, where the index wraps, minus `a[i] * b[d - i + n]`.
pub open spec fn negacyclic_term(a: Seq<i64>, b: Seq<i64>, d: int, i: int) -> int {
    if i <= d {
        a[i] * b[d - i]
    } else {
        -(a[i] * b[d - i + a.len()])
    }
}

/// Sum of the first `upto` contributions to coefficient `d`.
pub open spec fn negacyclic_sum(a: Seq<i64>, b: Seq<i64>, d: int, upto: nat) -> int
    decreases upto,
{
    if upto == 0 {
        0
    } else {
        negacyclic_sum(a, b, d, (upto - 1) as nat) + negacyclic_term(a, b, d, upto - 1)
    }
}

/// Product in `Z_q[X] / (X^n + 1)`: convolution where `X^n` counts as `-1`.
pub open spec fn negacyclic_mul(a: Seq<i64>, b: Seq<i64>, q: int) -> Seq<i64> {
    Seq::new(a.len(), |d: int| (negacyclic_sum(a, b, d, a.len()) % q) as i64)
}

/// Every coefficient is a residue in `[0, q)`.
pub open spec fn reduced(a: Seq<i64>, q: int) -> bool {
    forall|i: int| 0 <= i < a.len() ==> 0 <= #[trigger] a[i] < q
}

/// The coefficients reduced into `[0, q)`.
pub open spec fn reduce_all(a: Seq<i64>, q: int) -> Seq<i64> {
    Seq::new(a.len(), |i: int| ((a[i] as int) % q) as i64)
}

impl NTRUVector {
    /// The vector holds `degree` coefficients and its modulus is positive.
    pub open spec fn wf(&self) -> bool {
        &&& self.vector@.len() == self.degree
        &&& self.modulus > 0
    }

    /// The stored checksum is the checksum of the stored coefficients.
    pub open spec fn checksum_ok(&self) -> bool {
        self.checksum@ == blake3_digest(i64_seq_le_bytes(self.vector@))
    }

    /// Whether the vector is well formed, for callers outside the verifier.
    pub fn is_well_formed(&self) -> (ok: bool)
        ensures
            ok == self.wf(),
    {
        self.vector.len() == self.degree && self.modulus > 0
    }

    /// The zero vector of the given ring and domain.
    pub fn new(degree: usize, modulus: i64, ntt: bool) -> (res: NTRUVector)
        ensures
            res.vector@ == Seq::new(degree as nat, |i: int| 0i64),
            res.degree == degree,
            res.modulus == modulus,
            res.ntt == ntt,
            res.checksum_ok(),
    {
        let mut vector: Vec<i64> = Vec::new();
        let mut i: usize = 0;
        while i < degree
            invariant
                i <= degree,
                vector@.len() == i,
                forall|k: int| 0 <= k < i ==> vector@[k] == 0,
            decreases degree - i,
        {
            vector.push(0);
            i += 1;
        }
        assert(vector@ =~= Seq::new(degree as nat, |i: int| 0i64));
        let checksum = compute_crt_checksum(vector.as_slice());
        NTRUVector { vector, degree, modulus, ntt, checksum }
    }

    /// The vector with the given coefficients, reduced modulo `modulus`, in
    /// the coefficient domain.
    pub fn from_coefficients(coefficients: &[i64], modulus: i64) -> (res: NTRUVector)
        requires
            modulus > 0,
        ensures
            res.wf(),
            res.vector@ == reduce_all(coefficients@, modulus as int),
            res.degree == coefficients@.len(),
            res.modulus == modulus,
            !res.ntt,
            res.checksum_ok(),
    {
        let mut vector: Vec<i64> = Vec::new();
        let mut i: usize = 0;
        while i < coefficients.len()
            invariant
                modulus > 0,
                i <= coefficients.len(),
                vector@.len() == i,
                forall|k: int|
                    0 <= k < i ==> vector@[k] == ((coefficients@[k] as int) % (modulus as int)) as i64,
            decreases coefficients.len() - i,
        {
            vector.push(rem_euclid(coefficients[i], modulus));
            i += 1;
        }
        assert(vector@ =~= reduce_all(coefficients@, modulus as int));
        let checksum = compute_crt_checksum(vector.as_slice());
        NTRUVector { vector, degree: coefficients.len(), modulus, ntt: false, checksum }
    }

    /// A copy of this vector.
    pub fn duplicate(&self) -> (res: NTRUVector)
        ensures
            res.vector@ == self.vector@,
            res.degree == self.degree,
            res.modulus == self.modulus,
            res.ntt == self.ntt,
            res.checksum@ == self.checksum@,
    {
        let mut vector: Vec<i64> = Vec::new();
        let mut i: usize = 0;
        while i < self.vector.len()
            invariant
                i <= self.vector.len(),
                vector@.len() == i,
                forall|k: int| 0 <= k < i ==> vector@[k] == self.vector@[k],
            decreases self.vector.len() - i,
        {
            vector.push(self.vector[i]);
            i += 1;
        }
        assert(vector@ =~= self.vector@);
        let checksum = self.checksum;
        assert(checksum@ =~= self.checksum@);
        NTRUVector { vector, degree: self.degree, modulus: self.modulus, ntt: self.ntt, checksum }
    }

    /// Recompute the checksum after the coefficients were changed.
    pub fn update_checksum(&mut self)
        ensures
            final(self).checksum_ok(),
            final(self).vector@ == old(self).vector@,
            final(self).degree == old(self).degree,
            final(self).modulus == old(self).modulus,
            final(self).ntt == old(self).ntt,
    {
        self.checksum = compute_crt_checksum(self.vector.as_slice());
    }

    /// Whether the stored checksum matches the coefficients.
    pub fn verify_checksum(&self) -> (ok: bool)
        ensures
            ok == self.checksum_ok(),
    {
        let calculated = compute_crt_checksum(self.vector.as_slice());
        digest_eq(&calculated, &self.checksum)
    }

    /// Which error, if any, combining `self` with `other` gives.
    pub open spec fn mismatch(&self, other: &NTRUVector) -> Option<RingError> {
        if self.degree != other.degree {
            Some(RingError::DegreeMismatch)
        } else if self.modulus != other.modulus {
            Some(RingError::ModulusMismatch)
        } else {
            None
        }
    }

    fn check_compatible(&self, other: &NTRUVector) -> (res: Option<RingError>)
        ensures
            res == self.mismatch(other),
    {
        if self.degree != other.degree {
            Some(RingError::DegreeMismatch)
        } else if self.modulus != other.modulus {
            Some(RingError::ModulusMismatch)
        } else {
            None
        }
    }

    /// Sum of two vectors of the same ring, in the domain of `self`.
    pub fn add(&self, other: &NTRUVector) -> (res: Result<NTRUVector, RingError>)
        requires
            self.wf(),
            other.wf(),
        ensures
            match res {
                Ok(sum) => {
                    &&& self.mismatch(other) is None
                    &&& sum.wf()
                    &&& sum.checksum_ok()
                    &&& sum.degree == self.degree
                    &&& sum.modulus == self.modulus
                    &&& sum.ntt == self.ntt
                    &&& sum.vector@ == ring_add(self.vector@, other.vector@, self.modulus as int)
                },
                Err(e) => self.mismatch(other) == Some(e),
            },
    {
        if let Some(e) = self.check_compatible(other) {
            return Err(e);
        }
        let q = self.modulus;
        let mut vector: Vec<i64> = Vec::new();
        let mut i: usize = 0;
        while i < self.degree
            invariant
                self.wf(),
                other.wf(),
                self.degree == other.degree,
                q == self.modulus,
                i <= self.degree,
                vector@.len() == i,
                forall|k: int|
                    0 <= k < i ==> vector@[k] == ((self.vector@[k] + other.vector@[k]) % (q as int)) as i64,
            decreases self.degree - i,
        {
            vector.push(add_mod(self.vector[i], other.vector[i], q));
            i += 1;
        }
        assert(vector@ =~= ring_add(self.vector@, other.vector@, q as int));
        let checksum = compute_crt_checksum(vector.as_slice());
        Ok(NTRUVector { vector, degree: self.degree, modulus: q, ntt: self.ntt, checksum })
    }

    /// Difference of two vectors of the same ring, in the domain of `self`.
    pub fn sub(&self, other: &NTRUVector) -> (res: Result<NTRUVector, RingError>)
        requires
            self.wf(),
            other.wf(),
        ensures
            match res {
                Ok(diff) => {
                    &&& self.mismatch(other) is None
                    &&& diff.wf()
                    &&& diff.checksum_ok()
                    &&& diff.degree == self.degree
                    &&& diff.modulus == self.modulus
                    &&& diff.ntt == self.ntt
                    &&& diff.vector@ == ring_sub(self.vector@, other.vector@, self.modulus as int)
                },
                Err(e) => self.mismatch(other) == Some(e),
            },
    {
        if let Some(e) = self.check_compatible(other) {
            return Err(e);
        }
        let q = self.modulus;
        let mut vector: Vec<i64> = Vec::new();
        let mut i: usize = 0;
        while i < self.degree
            invariant
                self.wf(),
                other.wf(),
                self.degree == other.degree,
                q == self.modulus,
                i <= self.degree,
                vector@.len() == i,
                forall|k: int|
                    0 <= k < i ==> vector@[k] == ((self.vector@[k] - other.vector@[k]) % (q as int)) as i64,
            decreases self.degree - i,
        {
            vector.push(sub_mod(self.vector[i], other.vector[i], q));
            i += 1;
        }
        assert(vector@ =~= ring_sub(self.vector@, other.vector@, q as int));
        let checksum = compute_crt_checksum(vector.as_slice());
        Ok(NTRUVector { vector, degree: self.degree, modulus: q, ntt: self.ntt, checksum })
    }

    /// The additive inverse, in the same domain.
    pub fn neg(&self) -> (res: NTRUVector)
        requires
            self.wf(),
        ensures
            res.wf(),
            res.checksum_ok(),
            res.degree == self.degree,
            res.modulus == self.modulus,
            res.ntt == self.ntt,
            res.vector@ == ring_neg(self.vector@, self.modulus as int),
    {
        let q = self.modulus;
        let mut vector: Vec<i64> = Vec::new();
        let mut i: usize = 0;
        while i < self.degree
            invariant
                self.wf(),
                q == self.modulus,
                i <= self.degree,
                vector@.len() == i,
                forall|k: int| 0 <= k < i ==> vector@[k] == ((-self.vector@[k]) % (q as int)) as i64,
            decreases self.degree - i,
        {
            vector.push(sub_mod(0, self.vector[i], q));
            i += 1;
        }
        assert(vector@ =~= ring_neg(self.vector@, q as int));
        let checksum = compute_crt_checksum(vector.as_slice());
        NTRUVector { vector, degree: self.degree, modulus: q, ntt: self.ntt, checksum }
    }

    /// Coefficient `d` of the negacyclic product of `self` and `other`.
    fn convolution_coefficient(&self, other: &NTRUVector, d: usize) -> (c: i64)
        requires
            self.wf(),
            other.wf(),
            self.degree == other.degree,
            d < self.degree,
        ensures
            c == negacyclic_sum(self.vector@, other.vector@, d as int, self.degree as nat) % (
            self.modulus as int),
    {
        let q = self.modulus;
        let n = self.degree;
        let mut acc: i64 = 0;
        let mut i: usize = 0;
        proof {
            lemma_small_mod(0, q as nat);
        }
        while i < n
            invariant
                self.wf(),
                other.wf(),
                n == self.degree,
                n == other.degree,
                q == self.modulus,
                d < n,
                i <= n,
                acc == negacyclic_sum(self.vector@, other.vector@, d as int, i as nat) % (q as int),
            decreases n - i,
        {
            let ghost sum = negacyclic_sum(self.vector@, other.vector@, d as int, i as nat);
            let ghost a = self.vector@[i as int] as int;
            if i <= d {
                let prod = mul_mod(self.vector[i], other.vector[d - i], q);
                proof {
                    lemma_add_mod_noop(sum, a * (other.vector@[d - i] as int), q as int);
                }
                acc = add_mod(acc, prod, q);
            } else {
                let prod = mul_mod(self.vector[i], other.vector[n - i + d], q);
                proof {
                    lemma_sub_mod_noop(sum, a * (other.vector@[d - i + n] as int), q as int);
                }
                acc = sub_mod(acc, prod, q);
            }
            i += 1;
        }
        acc
    }

    /// Product of two vectors of the same ring: coefficient-wise in the
    /// transform domain, negacyclic convolution in the coefficient domain.
    pub fn mul(&self, other: &NTRUVector) -> (res: Result<NTRUVector, RingError>)
        requires
            self.wf(),
            other.wf(),
        ensures
            match res {
                Ok(prod) => {
                    &&& self.mismatch(other) is None
                    &&& prod.wf()
                    &&& prod.checksum_ok()
                    &&& prod.degree == self.degree
                    &&& prod.modulus == self.modulus
                    &&& prod.ntt == self.ntt
                    &&& prod.vector@ == (if self.ntt {
                        pointwise_mul(self.vector@, other.vector@, self.modulus as int)
                    } else {
                        negacyclic_mul(self.vector@, other.vector@, self.modulus as int)
                    })
                },
                Err(e) => self.mismatch(other) == Some(e),
            },
    {
        if let Some(e) = self.check_compatible(other) {
            return Err(e);
        }
        let q = self.modulus;
        let mut vector: Vec<i64> = Vec::new();
        let mut d: usize = 0;
        while d < self.degree
            invariant
                self.wf(),
                other.wf(),
                self.degree == other.degree,
                q == self.modulus,
                d <= self.degree,
                vector@.len() == d,
                self.ntt ==> forall|k: int|
                    0 <= k < d ==> vector@[k] == ((self.vector@[k] * other.vector@[k]) % (q as int)) as i64,
                !self.ntt ==> forall|k: int|
                    0 <= k < d ==> vector@[k] == (negacyclic_sum(
                        self.vector@,
                        other.vector@,
                        k,
                        self.degree as nat,
                    ) % (q as int)) as i64,
            decreases self.degree - d,
        {
            if self.ntt {
                vector.push(mul_mod(self.vector[d], other.vector[d], q));
            } else {
                vector.push(self.convolution_coefficient(other, d));
            }
            d += 1;
        }
        proof {
            if self.ntt {
                assert(vector@ =~= pointwise_mul(self.vector@, other.vector@, q as int));
            } else {
                assert(vector@ =~= negacyclic_mul(self.vector@, other.vector@, q as int));
            }
        }
        let checksum = compute_crt_checksum(vector.as_slice());
        Ok(NTRUVector { vector, degree: self.degree, modulus: q, ntt: self.ntt, checksum })
    }
}

} // verus!
