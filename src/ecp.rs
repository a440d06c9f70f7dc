//! Points of the BLS12-381 curve `y^2 = x^3 + 4` over the prime field (the
//! first pairing group) and of its M-type twist `y^2 = x^3 + 4 (1 + i)` over
//! the quadratic extension (the second), in homogeneous projective
//! coordinates, with Renes, Costello and Batina's complete formulas for
//! curves with `a = 0`.

use vstd::prelude::*;
use crate::fp::FP;
use crate::fp2::{FP2, F2, f2_red, f2_mul, f2_add, f2_sub, f2_neg, f2_mul_ip, f2_zero, f2_one, f2_conj};
use crate::big::{Big, bit, nbits};

verus! {

/// Projective coordinates `(X, Y, Z)` over the quadratic extension.
pub type G2Coords = (F2, F2, F2);

pub open spec fn m2(a: F2, b: F2) -> F2 {
    f2_red(f2_mul(a, b))
}

pub open spec fn ad2(a: F2, b: F2) -> F2 {
    f2_red(f2_add(a, b))
}

pub open spec fn sb2(a: F2, b: F2) -> F2 {
    f2_red(f2_sub(a, b))
}

/// `3 b` for the twist's `b = 4 (1 + i)`.
pub open spec fn twist_b3() -> F2 {
    f2_red(f2_mul_ip(f2_red((12int, 0int))))
}

/// Doubling on the twist (Renes, Costello and Batina, algorithm 9).
#[verifier::opaque]
pub open spec fn dbl2_spec(p: G2Coords) -> G2Coords {
    let b3 = twist_b3();
    let t0 = m2(p.1, p.1);
    let z3 = ad2(t0, t0);
    let z3 = ad2(z3, z3);
    let z3 = ad2(z3, z3);
    let t1 = m2(p.1, p.2);
    let t2 = m2(p.2, p.2);
    let t2 = m2(t2, b3);
    let x3 = m2(t2, z3);
    let y3 = ad2(t0, t2);
    let z3 = m2(t1, z3);
    let t1 = ad2(t2, t2);
    let t2 = ad2(t1, t2);
    let t0 = sb2(t0, t2);
    let y3 = m2(t0, y3);
    let y3 = ad2(x3, y3);
    let t1 = m2(p.0, p.1);
    let x3 = m2(t0, t1);
    let x3 = ad2(x3, x3);
    (x3, y3, z3)
}

/// Complete addition on the twist (Renes, Costello and Batina, algorithm 7).
#[verifier::opaque]
pub open spec fn add2_spec(p: G2Coords, q: G2Coords) -> G2Coords {
    let b3 = twist_b3();
    let t0 = m2(p.0, q.0);
    let t1 = m2(p.1, q.1);
    let t2 = m2(p.2, q.2);
    let t3 = ad2(p.0, p.1);
    let t4 = ad2(q.0, q.1);
    let t3 = m2(t3, t4);
    let t4 = ad2(t0, t1);
    let t3 = sb2(t3, t4);
    let t4 = ad2(p.1, p.2);
    let x3 = ad2(q.1, q.2);
    let t4 = m2(t4, x3);
    let x3 = ad2(t1, t2);
    let t4 = sb2(t4, x3);
    let x3 = ad2(p.0, p.2);
    let y3 = ad2(q.0, q.2);
    let x3 = m2(x3, y3);
    let y3 = ad2(t0, t2);
    let y3 = sb2(x3, y3);
    let x3 = ad2(t0, t0);
    let t0 = ad2(x3, t0);
    let t2 = m2(t2, b3);
    let z3 = ad2(t1, t2);
    let t1 = sb2(t1, t2);
    let y3 = m2(y3, b3);
    let x3 = m2(t4, y3);
    let t2 = m2(t3, t1);
    let x3 = sb2(t2, x3);
    let y3 = m2(y3, t0);
    let t1 = m2(t1, z3);
    let y3 = ad2(t1, y3);
    let t0 = m2(t0, t3);
    let z3 = m2(z3, t4);
    let z3 = ad2(z3, t0);
    (x3, y3, z3)
}

/// The twist's Frobenius with constant `f`: `(conj(X) f^2, conj(Y) f^2 f, conj(Z))`.
pub open spec fn frob2_spec(p: G2Coords, f: F2) -> G2Coords {
    let f2 = m2(f, f);
    (m2(f2_red(f2_conj(p.0)), f2), m2(m2(f2_red(f2_conj(p.1)), f2), f), f2_red(f2_conj(p.2)))
}

/// `a` is the affine form `(x, y, 1)` of the projective point `p`.
pub open spec fn affine_of(p: G2Coords, a: G2Coords) -> bool {
    &&& a.2 == f2_one()
    &&& m2(a.0, p.2) == p.0
    &&& m2(a.1, p.2) == p.1
}

/// Projective coordinates `(X, Y, Z)` over the prime field.
pub type G1Coords = (int, int, int);

pub open spec fn m1(a: int, b: int) -> int {
    (a * b) % crate::fp::modulus()
}

pub open spec fn ad1(a: int, b: int) -> int {
    (a + b) % crate::fp::modulus()
}

pub open spec fn sb1(a: int, b: int) -> int {
    (a - b) % crate::fp::modulus()
}

/// Doubling on the curve (Renes, Costello and Batina, algorithm 9), `3 b = 12`.
#[verifier::opaque]
pub open spec fn dbl1_spec(p: G1Coords) -> G1Coords {
    let b3 = 12;
    let t0 = m1(p.1, p.1);
    let z3 = ad1(t0, t0);
    let z3 = ad1(z3, z3);
    let z3 = ad1(z3, z3);
    let t1 = m1(p.1, p.2);
    let t2 = m1(p.2, p.2);
    let t2 = m1(t2, b3);
    let x3 = m1(t2, z3);
    let y3 = ad1(t0, t2);
    let z3 = m1(t1, z3);
    let t1 = ad1(t2, t2);
    let t2 = ad1(t1, t2);
    let t0 = sb1(t0, t2);
    let y3 = m1(t0, y3);
    let y3 = ad1(x3, y3);
    let t1 = m1(p.0, p.1);
    let x3 = m1(t0, t1);
    let x3 = ad1(x3, x3);
    (x3, y3, z3)
}

/// Complete addition on the curve (Renes, Costello and Batina, algorithm 7).
#[verifier::opaque]
pub open spec fn add1_spec(p: G1Coords, q: G1Coords) -> G1Coords {
    let b3 = 12;
    let t0 = m1(p.0, q.0);
    let t1 = m1(p.1, q.1);
    let t2 = m1(p.2, q.2);
    let t3 = ad1(p.0, p.1);
    let t4 = ad1(q.0, q.1);
    let t3 = m1(t3, t4);
    let t4 = ad1(t0, t1);
    let t3 = sb1(t3, t4);
    let t4 = ad1(p.1, p.2);
    let x3 = ad1(q.1, q.2);
    let t4 = m1(t4, x3);
    let x3 = ad1(t1, t2);
    let t4 = sb1(t4, x3);
    let x3 = ad1(p.0, p.2);
    let y3 = ad1(q.0, q.2);
    let x3 = m1(x3, y3);
    let y3 = ad1(t0, t2);
    let y3 = sb1(x3, y3);
    let x3 = ad1(t0, t0);
    let t0 = ad1(x3, t0);
    let t2 = m1(t2, b3);
    let z3 = ad1(t1, t2);
    let t1 = sb1(t1, t2);
    let y3 = m1(y3, b3);
    let x3 = m1(t4, y3);
    let t2 = m1(t3, t1);
    let x3 = sb1(t2, x3);
    let y3 = m1(y3, t0);
    let t1 = m1(t1, z3);
    let y3 = ad1(t1, y3);
    let t0 = m1(t0, t3);
    let z3 = m1(z3, t4);
    let z3 = ad1(z3, t0);
    (x3, y3, z3)
}

/// Double-and-add on the curve: the multiple of `p` by the bits of `e` from
/// `nbits(e) - 1` down to `i`.
pub open spec fn mul1_from(p: G1Coords, e: nat, i: int) -> G1Coords
    decreases nbits(e) - i,
{
    if i >= nbits(e) {
        (0, 1, 0)
    } else {
        let r = dbl1_spec(mul1_from(p, e, i + 1));
        if bit(e, i as nat) == 1 {
            add1_spec(r, p)
        } else {
            r
        }
    }
}

/// Double-and-add on the twist, as `mul1_from`.
pub open spec fn mul2_from(p: G2Coords, e: nat, i: int) -> G2Coords
    decreases nbits(e) - i,
{
    if i >= nbits(e) {
        (f2_zero(), f2_red((1int, 0int)), f2_zero())
    } else {
        let r = dbl2_spec(mul2_from(p, e, i + 1));
        if bit(e, i as nat) == 1 {
            add2_spec(r, p)
        } else {
            r
        }
    }
}

/// A point of the curve over the prime field.
pub struct ECP {
    x: FP,
    y: FP,
    z: FP,
}

/// A point of the twist over the quadratic extension.
pub struct ECP2 {
    x: FP2,
    y: FP2,
    z: FP2,
}

impl ECP {
    pub closed spec fn wf(&self) -> bool {
        self.x.wf() && self.y.wf() && self.z.wf()
    }

    /// The coordinates `(X, Y, Z)` of `(X/Z, Y/Z)`.
    pub closed spec fn coords(&self) -> (int, int, int) {
        (self.x.val(), self.y.val(), self.z.val())
    }

    /// The point at infinity `(0, 1, 0)`.
    pub fn new() -> (r: ECP)
        ensures
            r.wf(),
            r.coords() == (0int, 1int, 0int),
    {
        ECP { x: FP::new(), y: FP::one(), z: FP::new() }
    }

    /// The affine point `(x, y)`; the caller vouches that it is on the curve.
    pub fn new_fps(x: FP, y: FP) -> (r: ECP)
        requires
            x.wf(),
            y.wf(),
        ensures
            r.wf(),
            r.coords() == (x.val(), y.val(), 1int),
    {
        ECP { x, y, z: FP::one() }
    }

    pub fn copy(&self) -> (r: ECP)
        requires
            self.wf(),
        ensures
            r.wf(),
            r.coords() == self.coords(),
    {
        ECP { x: self.x.clone(), y: self.y.clone(), z: self.z.clone() }
    }

    pub fn is_infinity(&self) -> (r: bool)
        requires
            self.wf(),
        ensures
            r == (self.coords().2 == 0),
    {
        self.z.is_zilch()
    }

    pub fn getpx(&self) -> (r: FP)
        requires
            self.wf(),
        ensures
            r.wf(),
            r.val() == self.coords().0,
    {
        self.x.clone()
    }

    pub fn getpy(&self) -> (r: FP)
        requires
            self.wf(),
        ensures
            r.wf(),
            r.val() == self.coords().1,
    {
        self.y.clone()
    }

    /// Negation `(X, -Y, Z)`.
    pub fn neg(&mut self)
        requires
            old(self).wf(),
        ensures
            final(self).wf(),
            final(self).coords().0 == old(self).coords().0,
            final(self).coords().2 == old(self).coords().2,
            final(self).coords().1 == (-old(self).coords().1) % crate::fp::modulus(),
    {
        self.y = self.y.neg();
    }

    /// Scales to `Z = 1`; the point at infinity is left as it is.
    pub fn affine(&mut self)
        requires
            old(self).wf(),
        ensures
            final(self).wf(),
            old(self).coords().2 == 0 ==> final(self).coords() == old(self).coords(),
            old(self).coords().2 != 0 && crate::fp::invertible(old(self).coords().2) ==> {
                let (x, y, z) = old(self).coords();
                let a = final(self).coords();
                &&& a.2 == 1
                &&& (a.0 * z) % crate::fp::modulus() == x
                &&& (a.1 * z) % crate::fp::modulus() == y
            },
    {
        if self.z.is_zilch() {
            return;
        }
        let ghost (x, y, z) = self.coords();
        proof {
            self.x.lemma_bounds();
            self.y.lemma_bounds();
            self.z.lemma_bounds();
        }
        let zi = self.z.inverse();
        proof {
            zi.lemma_bounds();
        }
        self.x = self.x.mul(&zi);
        self.y = self.y.mul(&zi);
        self.z = FP::one();
        proof {
            if crate::fp::invertible(z) {
                lemma_fp_scaled_back(x, z, zi.val());
                lemma_fp_scaled_back(y, z, zi.val());
            }
        }
    }

    /// Whether two points are the same projective point.
    pub fn equals(&self, q: &ECP) -> (r: bool)
        requires
            self.wf(),
            q.wf(),
        ensures
            r == ((self.coords().0 * q.coords().2) % crate::fp::modulus() == (q.coords().0
                * self.coords().2) % crate::fp::modulus() && (self.coords().1 * q.coords().2)
                % crate::fp::modulus() == (q.coords().1 * self.coords().2) % crate::fp::modulus()),
    {
        let a = self.x.mul(&q.z);
        let b = q.x.mul(&self.z);
        let c = self.y.mul(&q.z);
        let d = q.y.mul(&self.z);
        let ex = a.equals(&b);
        let ey = c.equals(&d);
        ex && ey
    }

    /// Doubling.
    pub fn dbl(&mut self)
        requires
            old(self).wf(),
        ensures
            final(self).wf(),
            final(self).coords() == dbl1_spec(old(self).coords()),
    {
        reveal(dbl1_spec);
        proof {
            crate::fp::lemma_modulus_bound();
            vstd::arithmetic::div_mod::lemma_small_mod(12, crate::fp::modulus() as nat);
        }
        let b3 = FP::new_int(12);
        let t0 = self.y.sqr();
        let z3 = t0.add(&t0);
        let z3 = z3.add(&z3);
        let z3 = z3.add(&z3);
        let t1 = self.y.mul(&self.z);
        let t2 = self.z.sqr();
        let t2 = t2.mul(&b3);
        let x3 = t2.mul(&z3);
        let y3 = t0.add(&t2);
        let z3 = t1.mul(&z3);
        let t1 = t2.add(&t2);
        let t2 = t1.add(&t2);
        let t0 = t0.sub(&t2);
        let y3 = t0.mul(&y3);
        let y3 = x3.add(&y3);
        let t1 = self.x.mul(&self.y);
        let x3 = t0.mul(&t1);
        let x3 = x3.add(&x3);
        self.x = x3;
        self.y = y3;
        self.z = z3;
    }

    /// Addition `self = self + q`, complete: any two points.
    pub fn add(&mut self, q: &ECP)
        requires
            old(self).wf(),
            q.wf(),
        ensures
            final(self).wf(),
            final(self).coords() == add1_spec(old(self).coords(), q.coords()),
    {
        reveal(add1_spec);
        proof {
            crate::fp::lemma_modulus_bound();
            vstd::arithmetic::div_mod::lemma_small_mod(12, crate::fp::modulus() as nat);
        }
        let b3 = FP::new_int(12);
        let t0 = self.x.mul(&q.x);
        let t1 = self.y.mul(&q.y);
        let t2 = self.z.mul(&q.z);
        let t3 = self.x.add(&self.y);
        let t4 = q.x.add(&q.y);
        let t3 = t3.mul(&t4);
        let t4 = t0.add(&t1);
        let t3 = t3.sub(&t4);
        let t4 = self.y.add(&self.z);
        let x3 = q.y.add(&q.z);
        let t4 = t4.mul(&x3);
        let x3 = t1.add(&t2);
        let t4 = t4.sub(&x3);
        let x3 = self.x.add(&self.z);
        let y3 = q.x.add(&q.z);
        let x3 = x3.mul(&y3);
        let y3 = t0.add(&t2);
        let y3 = x3.sub(&y3);
        let x3 = t0.add(&t0);
        let t0 = x3.add(&t0);
        let t2 = t2.mul(&b3);
        let z3 = t1.add(&t2);
        let t1 = t1.sub(&t2);
        let y3 = y3.mul(&b3);
        let x3 = t4.mul(&y3);
        let t2 = t3.mul(&t1);
        let x3 = t2.sub(&x3);
        let y3 = y3.mul(&t0);
        let t1 = t1.mul(&z3);
        let y3 = t1.add(&y3);
        let t0 = t0.mul(&t3);
        let z3 = z3.mul(&t4);
        let z3 = z3.add(&t0);
        self.x = x3;
        self.y = y3;
        self.z = z3;
    }

    /// Multiplies the `X` coordinate by `c`: with `c` a cube root of unity,
    /// the curve's endomorphism `(x, y) -> (c x, y)`.
    pub fn mulx(&mut self, c: &FP)
        requires
            old(self).wf(),
            c.wf(),
        ensures
            final(self).wf(),
            final(self).coords().0 == (old(self).coords().0 * c.val()) % crate::fp::modulus(),
            final(self).coords().1 == old(self).coords().1,
            final(self).coords().2 == old(self).coords().2,
    {
        self.x = self.x.mul(c);
    }

    /// `e P + f Q`.
    pub fn mul2(&self, e: &Big, q: &ECP, f: &Big) -> (r: ECP)
        requires
            self.wf(),
            q.wf(),
        ensures
            r.wf(),
            r.coords() == add1_spec(
                mul1_from(self.coords(), e.val(), 0),
                mul1_from(q.coords(), f.val(), 0),
            ),
    {
        let mut r = self.mul(e);
        let s = q.mul(f);
        r.add(&s);
        r
    }

    /// The multiple `e P` by double-and-add.
    pub fn mul(&self, e: &Big) -> (r: ECP)
        requires
            self.wf(),
        ensures
            r.wf(),
            r.coords() == mul1_from(self.coords(), e.val(), 0),
    {
        let bits = e.bits();
        let mut r = ECP::new();
        let mut i: usize = bits.len();
        while i > 0
            invariant
                r.wf(),
                self.wf(),
                i <= bits@.len(),
                bits@.len() == nbits(e.val()),
                forall|k: int| 0 <= k < bits@.len() ==> bits@[k] as nat == bit(e.val(), k as nat),
                r.coords() == mul1_from(self.coords(), e.val(), i as int),
            decreases i,
        {
            i = i - 1;
            r.dbl();
            if bits[i] == 1 {
                r.add(self);
            }
        }
        r
    }
}

impl ECP2 {
    pub closed spec fn wf(&self) -> bool {
        self.x.wf() && self.y.wf() && self.z.wf()
    }

    pub closed spec fn coords(&self) -> (crate::fp2::F2, crate::fp2::F2, crate::fp2::F2) {
        (self.x.view(), self.y.view(), self.z.view())
    }

    /// The point at infinity `(0, 1, 0)`.
    pub fn new() -> (r: ECP2)
        ensures
            r.wf(),
            r.coords() == (f2_zero(), f2_red((1int, 0int)), f2_zero()),
    {
        ECP2 { x: FP2::new(), y: FP2::new_int(1), z: FP2::new() }
    }

    /// The affine point `(x, y)`; the caller vouches that it is on the twist.
    pub fn new_fp2s(x: FP2, y: FP2) -> (r: ECP2)
        requires
            x.wf(),
            y.wf(),
        ensures
            r.wf(),
            r.coords() == (x.view(), y.view(), f2_one()),
    {
        proof {
            crate::fp2::lemma_f2_const_red();
            assert(f2_red((1int, 0int)) == f2_one());
        }
        ECP2 { x, y, z: FP2::new_int(1) }
    }

    pub fn copy(&self) -> (r: ECP2)
        requires
            self.wf(),
        ensures
            r.wf(),
            r.coords() == self.coords(),
    {
        ECP2 { x: self.x.copy(), y: self.y.copy(), z: self.z.copy() }
    }

    pub fn is_infinity(&self) -> (r: bool)
        requires
            self.wf(),
        ensures
            r == (self.coords().2 == crate::fp2::f2_zero()),
    {
        self.z.is_zilch()
    }

    pub fn getpx(&self) -> (r: FP2)
        requires
            self.wf(),
        ensures
            r.wf(),
            r.view() == self.coords().0,
    {
        self.x.copy()
    }

    pub fn getpy(&self) -> (r: FP2)
        requires
            self.wf(),
        ensures
            r.wf(),
            r.view() == self.coords().1,
    {
        self.y.copy()
    }

    pub fn getpz(&self) -> (r: FP2)
        requires
            self.wf(),
        ensures
            r.wf(),
            r.view() == self.coords().2,
    {
        self.z.copy()
    }

    /// Negation `(X, -Y, Z)`.
    pub fn neg(&mut self)
        requires
            old(self).wf(),
        ensures
            final(self).wf(),
            final(self).coords().0 == old(self).coords().0,
            final(self).coords().2 == old(self).coords().2,
            final(self).coords().1 == crate::fp2::f2_red(crate::fp2::f2_neg(old(self).coords().1)),
    {
        self.y = self.y.neg();
    }

    /// Scales to `Z = 1`; the point at infinity is left as it is.
    pub fn affine(&mut self)
        requires
            old(self).wf(),
        ensures
            final(self).wf(),
            old(self).coords().2 == f2_zero() ==> final(self).coords() == old(self).coords(),
            old(self).coords().2 != f2_zero() && crate::fp4::f2_invertible(old(self).coords().2)
                ==> affine_of(old(self).coords(), final(self).coords()),
    {
        if self.z.is_zilch() {
            return;
        }
        let ghost p = self.coords();
        proof {
            self.x.lemma_reduced();
            self.y.lemma_reduced();
            self.z.lemma_reduced();
        }
        let zi = self.z.inverse();
        proof {
            zi.lemma_reduced();
        }
        self.x = self.x.mul(&zi);
        self.y = self.y.mul(&zi);
        self.z = FP2::new_int(1);
        proof {
            crate::fp2::lemma_f2_const_red();
            assert(f2_red((1int, 0int)) == f2_one());
            if crate::fp4::f2_invertible(p.2) {
                lemma_scaled_back(p.0, p.2, zi.view());
                lemma_scaled_back(p.1, p.2, zi.view());
            }
        }
    }

    /// Whether two points are the same projective point.
    pub fn equals(&self, q: &ECP2) -> (r: bool)
        requires
            self.wf(),
            q.wf(),
        ensures
            r == (m2(self.coords().0, q.coords().2) == m2(q.coords().0, self.coords().2) && m2(
                self.coords().1,
                q.coords().2,
            ) == m2(q.coords().1, self.coords().2)),
    {
        let a = self.x.mul(&q.z);
        let b = q.x.mul(&self.z);
        let c = self.y.mul(&q.z);
        let d = q.y.mul(&self.z);
        let ex = a.equals(&b);
        let ey = c.equals(&d);
        ex && ey
    }

    /// Doubling.
    pub fn dbl(&mut self)
        requires
            old(self).wf(),
        ensures
            final(self).wf(),
            final(self).coords() == dbl2_spec(old(self).coords()),
    {
        reveal(dbl2_spec);
        let b3 = FP2::new_int(12).mul_ip();
        let t0 = self.y.sqr();
        let z3 = t0.add(&t0);
        let z3 = z3.add(&z3);
        let z3 = z3.add(&z3);
        let t1 = self.y.mul(&self.z);
        let t2 = self.z.sqr();
        let t2 = t2.mul(&b3);
        let x3 = t2.mul(&z3);
        let y3 = t0.add(&t2);
        let z3 = t1.mul(&z3);
        let t1 = t2.add(&t2);
        let t2 = t1.add(&t2);
        let t0 = t0.sub(&t2);
        let y3 = t0.mul(&y3);
        let y3 = x3.add(&y3);
        let t1 = self.x.mul(&self.y);
        let x3 = t0.mul(&t1);
        let x3 = x3.add(&x3);
        self.x = x3;
        self.y = y3;
        self.z = z3;
    }

    /// Addition `self = self + q`, complete: any two points.
    pub fn add(&mut self, q: &ECP2)
        requires
            old(self).wf(),
            q.wf(),
        ensures
            final(self).wf(),
            final(self).coords() == add2_spec(old(self).coords(), q.coords()),
    {
        reveal(add2_spec);
        let b3 = FP2::new_int(12).mul_ip();
        let t0 = self.x.mul(&q.x);
        let t1 = self.y.mul(&q.y);
        let t2 = self.z.mul(&q.z);
        let t3 = self.x.add(&self.y);
        let t4 = q.x.add(&q.y);
        let t3 = t3.mul(&t4);
        let t4 = t0.add(&t1);
        let t3 = t3.sub(&t4);
        let t4 = self.y.add(&self.z);
        let x3 = q.y.add(&q.z);
        let t4 = t4.mul(&x3);
        let x3 = t1.add(&t2);
        let t4 = t4.sub(&x3);
        let x3 = self.x.add(&self.z);
        let y3 = q.x.add(&q.z);
        let x3 = x3.mul(&y3);
        let y3 = t0.add(&t2);
        let y3 = x3.sub(&y3);
        let x3 = t0.add(&t0);
        let t0 = x3.add(&t0);
        let t2 = t2.mul(&b3);
        let z3 = t1.add(&t2);
        let t1 = t1.sub(&t2);
        let y3 = y3.mul(&b3);
        let x3 = t4.mul(&y3);
        let t2 = t3.mul(&t1);
        let x3 = t2.sub(&x3);
        let y3 = y3.mul(&t0);
        let t1 = t1.mul(&z3);
        let y3 = t1.add(&y3);
        let t0 = t0.mul(&t3);
        let z3 = z3.mul(&t4);
        let z3 = z3.add(&t0);
        self.x = x3;
        self.y = y3;
        self.z = z3;
    }

    /// The twist's Frobenius endomorphism with constant `f`: conjugates the
    /// coordinates and scales `X` by `f^2` and `Y` by `f^3`.
    pub fn frob(&mut self, f: &FP2)
        requires
            old(self).wf(),
            f.wf(),
        ensures
            final(self).wf(),
            final(self).coords() == frob2_spec(old(self).coords(), f.view()),
    {
        let f2 = f.sqr();
        self.x = self.x.conj().mul(&f2);
        self.y = self.y.conj().mul(&f2).mul(f);
        self.z = self.z.conj();
    }

    /// The multiple `e P` by double-and-add.
    pub fn mul(&self, e: &Big) -> (r: ECP2)
        requires
            self.wf(),
        ensures
            r.wf(),
            r.coords() == mul2_from(self.coords(), e.val(), 0),
    {
        let bits = e.bits();
        let mut r = ECP2::new();
        let mut i: usize = bits.len();
        while i > 0
            invariant
                r.wf(),
                self.wf(),
                i <= bits@.len(),
                bits@.len() == nbits(e.val()),
                forall|k: int| 0 <= k < bits@.len() ==> bits@[k] as nat == bit(e.val(), k as nat),
                r.coords() == mul2_from(self.coords(), e.val(), i as int),
            decreases i,
        {
            i = i - 1;
            r.dbl();
            if bits[i] == 1 {
                r.add(self);
            }
        }
        r
    }
}

/// `(x z^-1) z = x` in the prime field.
proof fn lemma_fp_scaled_back(x: int, z: int, zi: int)
    requires
        0 <= x < crate::fp::modulus(),
        (z * zi) % crate::fp::modulus() == 1,
    ensures
        (((x * zi) % crate::fp::modulus()) * z) % crate::fp::modulus() == x,
{
    let m = crate::fp::modulus();
    crate::fp::lemma_modulus_bound();
    vstd::arithmetic::div_mod::lemma_mul_mod_noop_left(x * zi, z, m);
    assert((x * zi) * z == x * (z * zi)) by (nonlinear_arith);
    vstd::arithmetic::div_mod::lemma_mul_mod_noop_right(x, z * zi, m);
    assert(x * 1 == x);
    vstd::arithmetic::div_mod::lemma_small_mod(x as nat, m as nat);
}

/// `(x z^-1) z = x` for reduced `x` and `z` with inverse `zi`.
proof fn lemma_scaled_back(x: F2, z: F2, zi: F2)
    requires
        f2_red(x) == x,
        f2_red(z) == z,
        f2_red(zi) == zi,
        f2_red(f2_mul(z, zi)) == f2_one(),
    ensures
        m2(m2(x, zi), z) == x,
{
    crate::fp2::lemma_f2_red(f2_mul(x, zi), z);
    crate::fp2::lemma_f2_red(x, f2_mul(zi, z));
    crate::fp2::lemma_f2_red(x, f2_one());
    crate::fp2::lemma_f2_ring(x, zi, z);
    crate::fp2::lemma_f2_ring(zi, z, z);
    crate::fp2::lemma_f2_ring(x, f2_one(), z);
    crate::fp2::lemma_f2_red(f2_mul(zi, z), x);
    crate::fp2::lemma_f2_red(f2_mul(x, f2_mul(zi, z)), x);
    crate::fp2::lemma_f2_red(f2_mul(x, f2_red(f2_mul(zi, z))), x);
}

} // verus!
