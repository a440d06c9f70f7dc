//! The quartic extension `Fp2[s] / (s^2 - (1 + i))`.
//!
//! Elements are modelled as pairs `(a, b)` of quadratic-extension models
//! standing for `a + b s`.

use vstd::prelude::*;
use crate::fp::{FP, modulus, invertible};
use crate::fp2::{
    F2, FP2, f2_add, f2_sub, f2_neg, f2_mul, f2_conj, f2_mul_ip, f2_red, f2_zero, f2_one,
    f2_norm, lemma_f2_red, lemma_f2_ring, lemma_f2_const_red,
};

verus! {

pub type F4 = (F2, F2);

pub open spec fn f4_add(x: F4, y: F4) -> F4 {
    (f2_add(x.0, y.0), f2_add(x.1, y.1))
}

pub open spec fn f4_sub(x: F4, y: F4) -> F4 {
    (f2_sub(x.0, y.0), f2_sub(x.1, y.1))
}

pub open spec fn f4_neg(x: F4) -> F4 {
    (f2_neg(x.0), f2_neg(x.1))
}

pub open spec fn f4_mul(x: F4, y: F4) -> F4 {
    (
        f2_add(f2_mul(x.0, y.0), f2_mul_ip(f2_mul(x.1, y.1))),
        f2_add(f2_mul(x.0, y.1), f2_mul(x.1, y.0)),
    )
}

/// Multiplication by an element of the quadratic extension.
pub open spec fn f4_pmul(x: F4, k: F2) -> F4 {
    (f2_mul(x.0, k), f2_mul(x.1, k))
}

/// `a - b s`.
pub open spec fn f4_conj(x: F4) -> F4 {
    (x.0, f2_neg(x.1))
}

/// `-a + b s`, the negated conjugate.
pub open spec fn f4_nconj(x: F4) -> F4 {
    (f2_neg(x.0), x.1)
}

/// Multiplication by `s`, the non-residue of the cubic extension above.
pub open spec fn f4_times_i(x: F4) -> F4 {
    (f2_mul_ip(x.1), x.0)
}

/// The Frobenius map, with `f` the constant that scales the `s` part.
pub open spec fn f4_frob(x: F4, f: F2) -> F4 {
    (f2_conj(x.0), f2_mul(f2_conj(x.1), f))
}

pub open spec fn f4_zero() -> F4 {
    (f2_zero(), f2_zero())
}

pub open spec fn f4_one() -> F4 {
    (f2_one(), f2_zero())
}

/// The norm `a^2 - (1 + i) b^2` into the quadratic extension.
pub open spec fn f4_norm(x: F4) -> F2 {
    f2_sub(f2_mul(x.0, x.0), f2_mul_ip(f2_mul(x.1, x.1)))
}

pub open spec fn f4_red(x: F4) -> F4 {
    (f2_red(x.0), f2_red(x.1))
}

/// Whether an element of the quadratic extension has an inverse.
pub open spec fn f2_invertible(n: F2) -> bool {
    invertible(f2_norm(f2_red(n)) % modulus())
}

/// Reduction commutes with the model operations.
pub proof fn lemma_f4_red(x: F4, y: F4)
    ensures
        f4_red(f4_add(x, y)) == f4_red(f4_add(f4_red(x), f4_red(y))),
        f4_red(f4_sub(x, y)) == f4_red(f4_sub(f4_red(x), f4_red(y))),
        f4_red(f4_mul(x, y)) == f4_red(f4_mul(f4_red(x), f4_red(y))),
        f4_red(f4_pmul(x, y.0)) == f4_red(f4_pmul(f4_red(x), f2_red(y.0))),
        f4_red(f4_neg(x)) == f4_red(f4_neg(f4_red(x))),
        f4_red(f4_conj(x)) == f4_red(f4_conj(f4_red(x))),
        f4_red(f4_nconj(x)) == f4_red(f4_nconj(f4_red(x))),
        f4_red(f4_times_i(x)) == f4_red(f4_times_i(f4_red(x))),
        f4_red(f4_frob(x, y.0)) == f4_red(f4_frob(f4_red(x), f2_red(y.0))),
        f4_red(f4_red(x)) == f4_red(x),
{
    let (a, b, c, d) = (x.0, x.1, y.0, y.1);
    let (ra, rb, rc, rd) = (f2_red(a), f2_red(b), f2_red(c), f2_red(d));
    lemma_f2_red(a, c);
    lemma_f2_red(b, d);
    lemma_f2_red(a, d);
    lemma_f2_red(b, c);
    lemma_f2_red(c, d);
    lemma_f2_red(f2_mul(a, c), f2_mul_ip(f2_mul(b, d)));
    lemma_f2_red(f2_mul(ra, rc), f2_mul_ip(f2_mul(rb, rd)));
    lemma_f2_red(f2_mul(b, d), a);
    lemma_f2_red(f2_mul(rb, rd), a);
    lemma_f2_red(f2_mul(a, d), f2_mul(b, c));
    lemma_f2_red(f2_mul(ra, rd), f2_mul(rb, rc));
    lemma_f2_red(f2_conj(b), c);
    lemma_f2_red(f2_conj(rb), rc);
    lemma_f2_red(rb, c);
}

/// Ring laws of the model.
pub proof fn lemma_f4_ring(x: F4, y: F4, z: F4)
    ensures
        f4_mul(x, y) == f4_mul(y, x),
        f4_mul(x, f4_add(y, z)) == f4_add(f4_mul(x, y), f4_mul(x, z)),
        f4_mul(f4_add(x, y), z) == f4_add(f4_mul(x, z), f4_mul(y, z)),
        f4_mul(x, f4_sub(y, z)) == f4_sub(f4_mul(x, y), f4_mul(x, z)),
        f4_mul(f4_sub(x, y), z) == f4_sub(f4_mul(x, z), f4_mul(y, z)),
        f4_mul(f4_neg(x), y) == f4_neg(f4_mul(x, y)),
        f4_mul(f4_times_i(x), y) == f4_times_i(f4_mul(x, y)),
        f4_mul(x, f4_times_i(y)) == f4_times_i(f4_mul(x, y)),
        f4_times_i(f4_add(x, y)) == f4_add(f4_times_i(x), f4_times_i(y)),
        f4_times_i(f4_sub(x, y)) == f4_sub(f4_times_i(x), f4_times_i(y)),
        f4_times_i(f4_neg(x)) == f4_neg(f4_times_i(x)),
        f4_mul(x, f4_zero()) == f4_zero(),
        f4_mul(x, f4_one()) == x,
        f4_mul(f4_one(), x) == x,
        f4_mul(x, (f2_zero(), y.0)) == f4_times_i(f4_pmul(x, y.0)),
        f4_mul(x, (y.0, f2_zero())) == f4_pmul(x, y.0),
{
    let (x0, x1, y0, y1, z0, z1) = (x.0, x.1, y.0, y.1, z.0, z.1);
    lemma_f2_ring(x0, y0, z0);
    lemma_f2_ring(x0, y1, z1);
    lemma_f2_ring(x1, y0, z0);
    lemma_f2_ring(x1, y1, z1);
    lemma_f2_ring(x0, y0, z1);
    lemma_f2_ring(x1, y1, z0);
    lemma_f2_ring(y0, x0, z0);
    lemma_f2_ring(y1, x1, z1);
    lemma_f2_ring(y0, x1, z0);
    lemma_f2_ring(y1, x0, z0);
    lemma_f2_ring(x0, y1, z0);
    lemma_f2_ring(x1, y0, z1);
    lemma_f2_ring(f2_mul(x1, y1), f2_mul(x1, z1), z0);
    lemma_f2_ring(f2_mul(x1, z1), f2_mul(y1, z1), z0);
    lemma_f2_ring(f2_mul(x1, y1), z0, z0);
    lemma_f2_ring(f2_mul(x0, y1), f2_mul(x1, y0), z0);
    lemma_f2_ring(f2_mul(x0, y0), f2_mul(x1, y1), z0);
    lemma_f2_ring(x1, y0, y1);
    lemma_f2_ring(x0, f2_mul_ip(y1), z0);
    lemma_f2_ring(y1, x0, z0);
    lemma_f2_ring(x0, y0, y1);
    lemma_f2_ring(x1, f2_zero(), z0);
    lemma_f2_ring(x0, f2_zero(), z0);
    lemma_f2_ring(x1, f2_one(), z0);
    lemma_f2_ring(x0, f2_one(), z0);
    lemma_f2_ring(f2_zero(), x0, z0);
    lemma_f2_ring(f2_zero(), x1, z0);
    lemma_f2_ring(f2_one(), x0, z0);
    lemma_f2_ring(f2_one(), x1, z0);
    lemma_f2_ring(x0, y1, y0);
    lemma_f2_ring(x1, y1, y0);
    lemma_f2_ring(f2_mul(x1, y1), f2_zero(), z0);
    lemma_f2_ring(x1, f2_mul_ip(y1), z0);
    lemma_f2_ring(f2_mul_ip(y1), x1, z0);
    lemma_f2_ring(y1, x1, z0);
    lemma_f2_ring(f2_mul(x0, y1), f2_mul(x0, z1), z0);
    lemma_f2_ring(f2_mul(x1, y0), f2_mul(x1, z0), z0);
    lemma_f2_ring(f2_mul(x0, z1), f2_mul(y0, z1), z0);
    lemma_f2_ring(f2_mul(x1, z0), f2_mul(y1, z0), z0);
    assert(f4_mul(x, f4_times_i(y)) == f4_times_i(f4_mul(x, y)));
}

/// Multiplication in the model is associative.
pub proof fn lemma_f4_assoc(x: F4, y: F4, z: F4)
    ensures
        f4_mul(x, f4_mul(y, z)) == f4_mul(f4_mul(x, y), z),
{
    let (x0, x1, y0, y1, z0, z1) = (x.0, x.1, y.0, y.1, z.0, z.1);
    lemma_f2_ring(x0, f2_mul(y0, z0), f2_mul_ip(f2_mul(y1, z1)));
    lemma_f2_ring(x1, f2_mul(y0, z1), f2_mul(y1, z0));
    lemma_f2_ring(x0, f2_mul(y0, z1), f2_mul(y1, z0));
    lemma_f2_ring(x1, f2_mul(y0, z0), f2_mul_ip(f2_mul(y1, z1)));
    lemma_f2_ring(f2_mul(x0, y0), f2_mul_ip(f2_mul(x1, y1)), z0);
    lemma_f2_ring(f2_mul(x0, y1), f2_mul(x1, y0), z1);
    lemma_f2_ring(f2_mul(x0, y0), f2_mul_ip(f2_mul(x1, y1)), z1);
    lemma_f2_ring(f2_mul(x0, y1), f2_mul(x1, y0), z0);
    lemma_f2_ring(f2_mul(x1, f2_mul(y0, z1)), f2_mul(x1, f2_mul(y1, z0)), z0);
    lemma_f2_ring(f2_mul(f2_mul(x0, y1), z1), f2_mul(f2_mul(x1, y0), z1), z0);
    lemma_f2_ring(x0, f2_mul_ip(f2_mul(y1, z1)), z0);
    lemma_f2_ring(f2_mul(y1, z1), x0, z0);
    lemma_f2_ring(x1, f2_mul_ip(f2_mul(y1, z1)), z0);
    lemma_f2_ring(f2_mul(y1, z1), x1, z0);
    lemma_f2_ring(f2_mul(x1, y1), z0, z0);
    lemma_f2_ring(f2_mul(x1, y1), z1, z0);
    lemma_f2_ring(x0, f2_mul(y1, z1), z0);
    lemma_f2_ring(x1, f2_mul(y1, z1), z0);
    lemma_f2_ring(x0, y0, z0);
    lemma_f2_ring(x0, y1, z1);
    lemma_f2_ring(x1, y0, z1);
    lemma_f2_ring(x1, y1, z0);
    lemma_f2_ring(x0, y0, z1);
    lemma_f2_ring(x0, y1, z0);
    lemma_f2_ring(x1, y0, z0);
    lemma_f2_ring(x1, y1, z1);
}

/// An element of the quartic extension.
pub struct FP4 {
    a: FP2,
    b: FP2,
}

impl FP4 {
    pub closed spec fn view(&self) -> F4 {
        (self.a.view(), self.b.view())
    }

    pub closed spec fn wf(&self) -> bool {
        self.a.wf() && self.b.wf()
    }

    pub proof fn lemma_reduced(&self)
        requires
            self.wf(),
        ensures
            f4_red(self.view()) == self.view(),
    {
        self.a.lemma_reduced();
        self.b.lemma_reduced();
    }

    pub fn new() -> (r: FP4)
        ensures
            r.wf(),
            r.view() == f4_zero(),
    {
        FP4 { a: FP2::new(), b: FP2::new() }
    }

    /// The integer `a`, reduced.
    pub fn new_int(a: isize) -> (r: FP4)
        ensures
            r.wf(),
            r.view() == f4_red(((a as int, 0int), f2_zero())),
    {
        let r = FP4 { a: FP2::new_int(a), b: FP2::new() };
        proof {
            lemma_f2_const_red();
        }
        r
    }

    pub fn new_fp2s(a: FP2, b: FP2) -> (r: FP4)
        requires
            a.wf(),
            b.wf(),
        ensures
            r.wf(),
            r.view() == (a.view(), b.view()),
    {
        FP4 { a, b }
    }

    /// The element `a + 0 s`.
    pub fn new_fp2(a: FP2) -> (r: FP4)
        requires
            a.wf(),
        ensures
            r.wf(),
            r.view() == (a.view(), f2_zero()),
    {
        FP4 { a, b: FP2::new() }
    }

    pub fn geta(&self) -> (r: FP2)
        requires
            self.wf(),
        ensures
            r.wf(),
            r.view() == self.view().0,
    {
        self.a.copy()
    }

    pub fn getb(&self) -> (r: FP2)
        requires
            self.wf(),
        ensures
            r.wf(),
            r.view() == self.view().1,
    {
        self.b.copy()
    }

    pub fn copy(&self) -> (r: FP4)
        requires
            self.wf(),
        ensures
            r.wf(),
            r.view() == self.view(),
    {
        FP4 { a: self.a.copy(), b: self.b.copy() }
    }

    pub fn add(&self, y: &FP4) -> (r: FP4)
        requires
            self.wf(),
            y.wf(),
        ensures
            r.wf(),
            r.view() == f4_red(f4_add(self.view(), y.view())),
    {
        FP4 { a: self.a.add(&y.a), b: self.b.add(&y.b) }
    }

    pub fn sub(&self, y: &FP4) -> (r: FP4)
        requires
            self.wf(),
            y.wf(),
        ensures
            r.wf(),
            r.view() == f4_red(f4_sub(self.view(), y.view())),
    {
        FP4 { a: self.a.sub(&y.a), b: self.b.sub(&y.b) }
    }

    pub fn neg(&self) -> (r: FP4)
        requires
            self.wf(),
        ensures
            r.wf(),
            r.view() == f4_red(f4_neg(self.view())),
    {
        FP4 { a: self.a.neg(), b: self.b.neg() }
    }

    pub fn conj(&self) -> (r: FP4)
        requires
            self.wf(),
        ensures
            r.wf(),
            r.view() == f4_red(f4_conj(self.view())),
    {
        proof {
            self.lemma_reduced();
        }
        FP4 { a: self.a.copy(), b: self.b.neg() }
    }

    pub fn nconj(&self) -> (r: FP4)
        requires
            self.wf(),
        ensures
            r.wf(),
            r.view() == f4_red(f4_nconj(self.view())),
    {
        proof {
            self.lemma_reduced();
        }
        FP4 { a: self.a.neg(), b: self.b.copy() }
    }

    pub fn mul(&self, y: &FP4) -> (r: FP4)
        requires
            self.wf(),
            y.wf(),
        ensures
            r.wf(),
            r.view() == f4_red(f4_mul(self.view(), y.view())),
    {
        let ac = self.a.mul(&y.a);
        let bd = self.b.mul(&y.b);
        let ad = self.a.mul(&y.b);
        let bc = self.b.mul(&y.a);
        let r = FP4 { a: ac.add(&bd.mul_ip()), b: ad.add(&bc) };
        proof {
            let (a, b, c, d) = (self.a.view(), self.b.view(), y.a.view(), y.b.view());
            lemma_f2_red(f2_mul(a, c), f2_mul_ip(f2_mul(b, d)));
            lemma_f2_red(f2_mul(b, d), a);
            lemma_f2_red(f2_mul(a, d), f2_mul(b, c));
        }
        r
    }

    pub fn sqr(&self) -> (r: FP4)
        requires
            self.wf(),
        ensures
            r.wf(),
            r.view() == f4_red(f4_mul(self.view(), self.view())),
    {
        self.mul(self)
    }

    /// Multiplication by an element of the quadratic extension.
    pub fn pmul(&self, k: &FP2) -> (r: FP4)
        requires
            self.wf(),
            k.wf(),
        ensures
            r.wf(),
            r.view() == f4_red(f4_pmul(self.view(), k.view())),
    {
        FP4 { a: self.a.mul(k), b: self.b.mul(k) }
    }

    /// Multiplication by `s`.
    pub fn times_i(&self) -> (r: FP4)
        requires
            self.wf(),
        ensures
            r.wf(),
            r.view() == f4_red(f4_times_i(self.view())),
    {
        proof {
            self.lemma_reduced();
        }
        FP4 { a: self.b.mul_ip(), b: self.a.copy() }
    }

    /// The Frobenius map with constant `f`.
    pub fn frob(&self, f: &FP2) -> (r: FP4)
        requires
            self.wf(),
            f.wf(),
        ensures
            r.wf(),
            r.view() == f4_red(f4_frob(self.view(), f.view())),
    {
        let a = self.a.conj();
        let b = self.b.conj().mul(f);
        proof {
            self.lemma_reduced();
            f.lemma_reduced();
            lemma_f2_red(f2_conj(self.b.view()), f.view());
        }
        FP4 { a, b }
    }

    /// The inverse `conj(x) / norm(x)`; zero where the norm has no inverse.
    pub fn inverse(&self) -> (r: FP4)
        requires
            self.wf(),
        ensures
            r.wf(),
            f2_invertible(f4_norm(self.view())) ==> f4_red(f4_mul(self.view(), r.view()))
                == f4_one(),
            !f2_invertible(f4_norm(self.view())) ==> r.view() == f4_zero(),
    {
        let aa = self.a.sqr();
        let bb = self.b.sqr();
        let n = aa.sub(&bb.mul_ip());
        let ninv = n.inverse();
        let ra = self.a.mul(&ninv);
        let rb = self.b.neg().mul(&ninv);
        let r = FP4 { a: ra, b: rb };
        proof {
            let x = self.view();
            let (a, b) = (x.0, x.1);
            let k = ninv.view();
            self.lemma_reduced();
            ninv.lemma_reduced();
            n.lemma_reduced();
            lemma_f2_red(f2_mul(a, a), f2_mul_ip(f2_mul(b, b)));
            lemma_f2_red(f2_mul(b, b), a);
            assert(n.view() == f2_red(f4_norm(x)));
            lemma_f2_red(f2_neg(b), k);
            lemma_f2_red(b, k);
            assert(r.view() == f4_red((f2_mul(a, k), f2_mul(f2_neg(b), k))));
            lemma_f4_red(x, (f2_mul(a, k), f2_mul(f2_neg(b), k)));
            lemma_inverse_identity(a, b, k);
            let nk = f2_mul(f4_norm(x), k);
            lemma_f2_red(f4_norm(x), k);
            lemma_f2_red(f2_zero(), f2_zero());
            lemma_f4_red(x, r.view());
            r.lemma_reduced();
            lemma_f2_const_red();
            if f2_invertible(f4_norm(x)) {
                assert(f2_red(f2_mul(n.view(), k)) == f2_one());
                assert(f4_red(f4_mul(x, r.view())) == f4_red(f4_mul(x, (f2_mul(a, k), f2_mul(f2_neg(b), k)))));
                assert(f2_red(nk) == f2_one());
            } else {
                assert(k == f2_zero());
                lemma_f2_ring(a, k, k);
                lemma_f2_ring(f2_neg(b), k, k);
                lemma_f2_const_red();
                assert(r.view() == f4_red(f4_zero()));
            }
        }
        r
    }

    pub fn equals(&self, y: &FP4) -> (r: bool)
        requires
            self.wf(),
            y.wf(),
        ensures
            r == (self.view() == y.view()),
    {
        let ea = self.a.equals(&y.a);
        let eb = self.b.equals(&y.b);
        ea && eb
    }

    pub fn is_zilch(&self) -> (r: bool)
        requires
            self.wf(),
        ensures
            r == (self.view() == f4_zero()),
    {
        let za = self.a.is_zilch();
        let zb = self.b.is_zilch();
        za && zb
    }

    pub fn cmove(&mut self, g: &FP4, d: isize)
        requires
            old(self).wf(),
            g.wf(),
            d == 0 || d == 1,
        ensures
            final(self).wf(),
            final(self).view() == (if d == 1 { g.view() } else { old(self).view() }),
    {
        self.a.cmove(&g.a, d);
        self.b.cmove(&g.b, d);
    }
}

/// `(a + b s) (a k - b k s) = norm(a + b s) k`.
proof fn lemma_inverse_identity(a: F2, b: F2, k: F2)
    ensures
        f4_mul((a, b), (f2_mul(a, k), f2_mul(f2_neg(b), k))) == (f2_mul(f4_norm((a, b)), k),
        f2_zero()),
{
    let nb = f2_neg(b);
    lemma_f2_ring(a, a, k);
    lemma_f2_ring(b, nb, k);
    lemma_f2_ring(b, b, k);
    lemma_f2_ring(f2_mul(b, b), k, k);
    lemma_f2_ring(f2_mul(a, a), f2_mul_ip(f2_mul(b, b)), k);
    lemma_f2_ring(f2_mul_ip(f2_mul(b, b)), k, k);
    lemma_f2_ring(f2_mul(b, b), k, k);
    lemma_f2_ring(f2_mul_ip(f2_mul(b, b)), f2_mul(b, b), k);
    lemma_f2_ring(f2_mul(f2_mul(b, b), k), f2_mul(f2_mul(b, b), k), k);
    lemma_f2_ring(a, b, k);
    lemma_f2_ring(b, a, k);
    lemma_f2_ring(a, nb, k);
    lemma_f2_ring(f2_mul(a, b), k, k);
    lemma_f2_ring(f2_mul(b, a), k, k);
    lemma_f2_ring(a, f2_mul(b, k), k);
}

} // verus!
