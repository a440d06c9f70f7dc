//! The quadratic extension `Fp[i] / (i^2 + 1)`.
//!
//! Elements are modelled as pairs of integers `(a, b)` standing for `a + b i`;
//! the model operations work on unreduced integers, and an element's view is
//! the reduced pair.

use vstd::prelude::*;
use vstd::arithmetic::div_mod::{
    lemma_add_mod_noop, lemma_sub_mod_noop, lemma_mul_mod_noop, lemma_mod_twice,
    lemma_small_mod,
};
use crate::fp::{FP, modulus, lemma_modulus_bound, invertible};

verus! {

pub type F2 = (int, int);

pub open spec fn f2_add(x: F2, y: F2) -> F2 {
    (x.0 + y.0, x.1 + y.1)
}

pub open spec fn f2_sub(x: F2, y: F2) -> F2 {
    (x.0 - y.0, x.1 - y.1)
}

pub open spec fn f2_neg(x: F2) -> F2 {
    (-x.0, -x.1)
}

pub open spec fn f2_mul(x: F2, y: F2) -> F2 {
    (x.0 * y.0 - x.1 * y.1, x.0 * y.1 + x.1 * y.0)
}

/// Multiplication by the scalar `k` of the prime field.
pub open spec fn f2_scale(x: F2, k: int) -> F2 {
    (x.0 * k, x.1 * k)
}

pub open spec fn f2_conj(x: F2) -> F2 {
    (x.0, -x.1)
}

/// Multiplication by `1 + i`, the non-residue of the next extension.
pub open spec fn f2_mul_ip(x: F2) -> F2 {
    (x.0 - x.1, x.0 + x.1)
}

pub open spec fn f2_zero() -> F2 {
    (0, 0)
}

pub open spec fn f2_one() -> F2 {
    (1, 0)
}

/// Coefficients reduced into `[0, modulus())`.
pub open spec fn f2_red(x: F2) -> F2 {
    (x.0 % modulus(), x.1 % modulus())
}

/// The norm `a^2 + b^2`, a scalar of the prime field.
pub open spec fn f2_norm(x: F2) -> int {
    x.0 * x.0 + x.1 * x.1
}

pub proof fn lemma_red_add(x: int, y: int)
    ensures
        (x + y) % modulus() == (x % modulus() + y % modulus()) % modulus(),
{
    lemma_modulus_bound();
    lemma_add_mod_noop(x, y, modulus());
}

pub proof fn lemma_red_sub(x: int, y: int)
    ensures
        (x - y) % modulus() == (x % modulus() - y % modulus()) % modulus(),
{
    lemma_modulus_bound();
    lemma_sub_mod_noop(x, y, modulus());
}

pub proof fn lemma_red_mul(x: int, y: int)
    ensures
        (x * y) % modulus() == ((x % modulus()) * (y % modulus())) % modulus(),
{
    lemma_modulus_bound();
    lemma_mul_mod_noop(x, y, modulus());
}

pub proof fn lemma_red_neg(x: int)
    ensures
        (-x) % modulus() == (-(x % modulus())) % modulus(),
{
    lemma_red_sub(0, x);
    lemma_red_sub(0, x % modulus());
    lemma_modulus_bound();
    lemma_mod_twice(x, modulus());
    lemma_small_mod(0, modulus() as nat);
}

pub proof fn lemma_red_idem(x: int)
    ensures
        (x % modulus()) % modulus() == x % modulus(),
        0 <= x % modulus() < modulus(),
{
    lemma_modulus_bound();
    lemma_mod_twice(x, modulus());
}

/// Reduction commutes with the model operations.
pub proof fn lemma_f2_red(x: F2, y: F2)
    ensures
        f2_red(f2_add(x, y)) == f2_red(f2_add(f2_red(x), f2_red(y))),
        f2_red(f2_sub(x, y)) == f2_red(f2_sub(f2_red(x), f2_red(y))),
        f2_red(f2_mul(x, y)) == f2_red(f2_mul(f2_red(x), f2_red(y))),
        f2_red(f2_neg(x)) == f2_red(f2_neg(f2_red(x))),
        f2_red(f2_conj(x)) == f2_red(f2_conj(f2_red(x))),
        f2_red(f2_mul_ip(x)) == f2_red(f2_mul_ip(f2_red(x))),
        f2_red(f2_red(x)) == f2_red(x),
{
    let m = modulus();
    lemma_red_add(x.0, y.0);
    lemma_red_add(x.1, y.1);
    lemma_red_add(x.0 % m, y.0 % m);
    lemma_red_add(x.1 % m, y.1 % m);
    lemma_red_sub(x.0, y.0);
    lemma_red_sub(x.1, y.1);
    lemma_red_sub(x.0 % m, y.0 % m);
    lemma_red_sub(x.1 % m, y.1 % m);
    lemma_red_idem(x.0);
    lemma_red_idem(x.1);
    lemma_red_idem(y.0);
    lemma_red_idem(y.1);
    lemma_red_mul(x.0, y.0);
    lemma_red_mul(x.1, y.1);
    lemma_red_mul(x.0, y.1);
    lemma_red_mul(x.1, y.0);
    lemma_red_sub(x.0 * y.0, x.1 * y.1);
    lemma_red_add(x.0 * y.1, x.1 * y.0);
    let (a, b, c, d) = (x.0 % m, x.1 % m, y.0 % m, y.1 % m);
    lemma_red_mul(a, c);
    lemma_red_mul(b, d);
    lemma_red_mul(a, d);
    lemma_red_mul(b, c);
    lemma_red_sub(a * c, b * d);
    lemma_red_add(a * d, b * c);
    lemma_red_neg(x.0);
    lemma_red_neg(x.1);
    lemma_red_sub(x.0, x.1);
    lemma_red_add(x.0, x.1);
    lemma_red_sub(a, b);
    lemma_red_add(a, b);
}

pub proof fn lemma_f2_const_red()
    ensures
        f2_red(f2_zero()) == f2_zero(),
        f2_red(f2_one()) == f2_one(),
{
    lemma_modulus_bound();
    lemma_small_mod(0, modulus() as nat);
    lemma_small_mod(1, modulus() as nat);
}

/// Ring laws of the model.
pub proof fn lemma_f2_ring(x: F2, y: F2, z: F2)
    ensures
        f2_mul(x, y) == f2_mul(y, x),
        f2_mul(x, f2_mul(y, z)) == f2_mul(f2_mul(x, y), z),
        f2_mul(x, f2_add(y, z)) == f2_add(f2_mul(x, y), f2_mul(x, z)),
        f2_mul(x, f2_sub(y, z)) == f2_sub(f2_mul(x, y), f2_mul(x, z)),
        f2_mul(f2_add(x, y), z) == f2_add(f2_mul(x, z), f2_mul(y, z)),
        f2_mul(f2_sub(x, y), z) == f2_sub(f2_mul(x, z), f2_mul(y, z)),
        f2_mul(f2_neg(x), y) == f2_neg(f2_mul(x, y)),
        f2_mul(x, f2_neg(y)) == f2_neg(f2_mul(x, y)),
        f2_mul(f2_mul_ip(x), y) == f2_mul_ip(f2_mul(x, y)),
        f2_mul_ip(f2_add(x, y)) == f2_add(f2_mul_ip(x), f2_mul_ip(y)),
        f2_mul_ip(f2_sub(x, y)) == f2_sub(f2_mul_ip(x), f2_mul_ip(y)),
        f2_mul_ip(f2_neg(x)) == f2_neg(f2_mul_ip(x)),
        f2_mul(x, f2_zero()) == f2_zero(),
        f2_mul(f2_zero(), x) == f2_zero(),
        f2_mul(x, f2_one()) == x,
        f2_mul(f2_conj(x), f2_conj(y)) == f2_conj(f2_mul(x, y)),
{
    let (x0, x1, y0, y1, z0, z1) = (x.0, x.1, y.0, y.1, z.0, z.1);
    assert(x0 * y0 - x1 * y1 == y0 * x0 - y1 * x1 && x0 * y1 + x1 * y0 == y0 * x1 + y1 * x0)
        by (nonlinear_arith);
    assert(x0 * (y0 * z0) == x0 * y0 * z0) by (nonlinear_arith);
    assert(x0 * (y1 * z1) == x0 * y1 * z1) by (nonlinear_arith);
    assert(x1 * (y0 * z1) == x1 * y0 * z1) by (nonlinear_arith);
    assert(x1 * (y1 * z0) == x1 * y1 * z0) by (nonlinear_arith);
    assert(x0 * (y0 * z1) == x0 * y0 * z1) by (nonlinear_arith);
    assert(x0 * (y1 * z0) == x0 * y1 * z0) by (nonlinear_arith);
    assert(x1 * (y0 * z0) == x1 * y0 * z0) by (nonlinear_arith);
    assert(x1 * (y1 * z1) == x1 * y1 * z1) by (nonlinear_arith);
    let (p, q, u, v) = (y0 * z0, y1 * z1, y0 * z1, y1 * z0);
    assert(x0 * (p - q) == x0 * p - x0 * q) by (nonlinear_arith);
    assert(x1 * (u + v) == x1 * u + x1 * v) by (nonlinear_arith);
    assert(x0 * (u + v) == x0 * u + x0 * v) by (nonlinear_arith);
    assert(x1 * (p - q) == x1 * p - x1 * q) by (nonlinear_arith);
    let (e, f, g, h) = (x0 * y0, x1 * y1, x0 * y1, x1 * y0);
    assert((e - f) * z0 == e * z0 - f * z0) by (nonlinear_arith);
    assert((g + h) * z1 == g * z1 + h * z1) by (nonlinear_arith);
    assert((e - f) * z1 == e * z1 - f * z1) by (nonlinear_arith);
    assert((g + h) * z0 == g * z0 + h * z0) by (nonlinear_arith);
    assert(x0 * (y0 + z0) == x0 * y0 + x0 * z0 && x1 * (y1 + z1) == x1 * y1 + x1 * z1 && x0 * (y1
        + z1) == x0 * y1 + x0 * z1 && x1 * (y0 + z0) == x1 * y0 + x1 * z0) by (nonlinear_arith);
    assert(x0 * (y0 - z0) == x0 * y0 - x0 * z0 && x1 * (y1 - z1) == x1 * y1 - x1 * z1 && x0 * (y1
        - z1) == x0 * y1 - x0 * z1 && x1 * (y0 - z0) == x1 * y0 - x1 * z0) by (nonlinear_arith);
    assert((x0 + y0) * z0 == x0 * z0 + y0 * z0 && (x1 + y1) * z1 == x1 * z1 + y1 * z1 && (x0 + y0)
        * z1 == x0 * z1 + y0 * z1 && (x1 + y1) * z0 == x1 * z0 + y1 * z0) by (nonlinear_arith);
    assert((x0 - y0) * z0 == x0 * z0 - y0 * z0 && (x1 - y1) * z1 == x1 * z1 - y1 * z1 && (x0 - y0)
        * z1 == x0 * z1 - y0 * z1 && (x1 - y1) * z0 == x1 * z0 - y1 * z0) by (nonlinear_arith);
    assert((-x0) * y0 == -(x0 * y0) && (-x1) * y1 == -(x1 * y1) && (-x0) * y1 == -(x0 * y1) && (
    -x1) * y0 == -(x1 * y0)) by (nonlinear_arith);
    assert(x0 * (-y0) == -(x0 * y0) && x1 * (-y1) == -(x1 * y1) && x0 * (-y1) == -(x0 * y1) && x1
        * (-y0) == -(x1 * y0)) by (nonlinear_arith);
    assert((x0 - x1) * y0 - (x0 + x1) * y1 == (x0 * y0 - x1 * y1) - (x0 * y1 + x1 * y0) && (x0
        - x1) * y1 + (x0 + x1) * y0 == (x0 * y0 - x1 * y1) + (x0 * y1 + x1 * y0))
        by (nonlinear_arith);
    assert(x0 * 0 == 0 && x1 * 0 == 0 && 0 * x0 == 0 && 0 * x1 == 0) by (nonlinear_arith);
    assert(x0 * 1 == x0 && x1 * 1 == x1) by (nonlinear_arith);
    assert(x0 * y0 - (-x1) * (-y1) == x0 * y0 - x1 * y1 && x0 * (-y1) + (-x1) * y0 == -(x0 * y1
        + x1 * y0)) by (nonlinear_arith);
}

/// An element of the quadratic extension.
pub struct FP2 {
    a: FP,
    b: FP,
}

impl FP2 {
    pub closed spec fn view(&self) -> F2 {
        (self.a.val(), self.b.val())
    }

    pub closed spec fn wf(&self) -> bool {
        self.a.wf() && self.b.wf()
    }

    pub proof fn lemma_reduced(&self)
        requires
            self.wf(),
        ensures
            f2_red(self.view()) == self.view(),
    {
        lemma_modulus_bound();
        self.a.lemma_bounds();
        self.b.lemma_bounds();
        lemma_small_mod(self.a.val() as nat, modulus() as nat);
        lemma_small_mod(self.b.val() as nat, modulus() as nat);
    }

    pub fn new() -> (r: FP2)
        ensures
            r.wf(),
            r.view() == f2_zero(),
    {
        FP2 { a: FP::new(), b: FP::new() }
    }

    /// The element `a` of the prime field, reduced.
    pub fn new_int(a: isize) -> (r: FP2)
        ensures
            r.wf(),
            r.view() == f2_red((a as int, 0)),
    {
        let r = FP2 { a: FP::new_int(a), b: FP::new() };
        proof {
            lemma_modulus_bound();
            lemma_small_mod(0, modulus() as nat);
        }
        r
    }

    pub fn new_fps(a: FP, b: FP) -> (r: FP2)
        requires
            a.wf(),
            b.wf(),
        ensures
            r.wf(),
            r.view() == (a.val(), b.val()),
    {
        FP2 { a, b }
    }

    pub fn geta(&self) -> (r: FP)
        requires
            self.wf(),
        ensures
            r.wf(),
            r.val() == self.view().0,
    {
        self.a.clone()
    }

    pub fn getb(&self) -> (r: FP)
        requires
            self.wf(),
        ensures
            r.wf(),
            r.val() == self.view().1,
    {
        self.b.clone()
    }

    pub fn copy(&self) -> (r: FP2)
        requires
            self.wf(),
        ensures
            r.wf(),
            r.view() == self.view(),
    {
        FP2 { a: self.a.clone(), b: self.b.clone() }
    }

    pub fn add(&self, y: &FP2) -> (r: FP2)
        requires
            self.wf(),
            y.wf(),
        ensures
            r.wf(),
            r.view() == f2_red(f2_add(self.view(), y.view())),
    {
        FP2 { a: self.a.add(&y.a), b: self.b.add(&y.b) }
    }

    pub fn sub(&self, y: &FP2) -> (r: FP2)
        requires
            self.wf(),
            y.wf(),
        ensures
            r.wf(),
            r.view() == f2_red(f2_sub(self.view(), y.view())),
    {
        FP2 { a: self.a.sub(&y.a), b: self.b.sub(&y.b) }
    }

    pub fn neg(&self) -> (r: FP2)
        requires
            self.wf(),
        ensures
            r.wf(),
            r.view() == f2_red(f2_neg(self.view())),
    {
        FP2 { a: self.a.neg(), b: self.b.neg() }
    }

    pub fn conj(&self) -> (r: FP2)
        requires
            self.wf(),
        ensures
            r.wf(),
            r.view() == f2_red(f2_conj(self.view())),
    {
        proof {
            self.lemma_reduced();
        }
        FP2 { a: self.a.clone(), b: self.b.neg() }
    }

    pub fn mul(&self, y: &FP2) -> (r: FP2)
        requires
            self.wf(),
            y.wf(),
        ensures
            r.wf(),
            r.view() == f2_red(f2_mul(self.view(), y.view())),
    {
        let ac = self.a.mul(&y.a);
        let bd = self.b.mul(&y.b);
        let ad = self.a.mul(&y.b);
        let bc = self.b.mul(&y.a);
        let r = FP2 { a: ac.sub(&bd), b: ad.add(&bc) };
        proof {
            let (a, b, c, d) = (self.a.val(), self.b.val(), y.a.val(), y.b.val());
            lemma_red_sub(a * c, b * d);
            lemma_red_add(a * d, b * c);
        }
        r
    }

    pub fn sqr(&self) -> (r: FP2)
        requires
            self.wf(),
        ensures
            r.wf(),
            r.view() == f2_red(f2_mul(self.view(), self.view())),
    {
        self.mul(self)
    }

    /// Multiplication by a scalar of the prime field.
    pub fn pmul(&self, k: &FP) -> (r: FP2)
        requires
            self.wf(),
            k.wf(),
        ensures
            r.wf(),
            r.view() == f2_red(f2_scale(self.view(), k.val())),
    {
        FP2 { a: self.a.mul(k), b: self.b.mul(k) }
    }

    /// Multiplication by `1 + i`.
    pub fn mul_ip(&self) -> (r: FP2)
        requires
            self.wf(),
        ensures
            r.wf(),
            r.view() == f2_red(f2_mul_ip(self.view())),
    {
        FP2 { a: self.a.sub(&self.b), b: self.a.add(&self.b) }
    }

    /// The inverse `conj(x) / norm(x)`; zero where the norm is zero.
    pub fn inverse(&self) -> (r: FP2)
        requires
            self.wf(),
        ensures
            r.wf(),
            invertible(f2_norm(self.view()) % modulus()) ==> f2_red(f2_mul(self.view(), r.view()))
                == f2_one(),
            !invertible(f2_norm(self.view()) % modulus()) ==> r.view() == f2_zero(),
    {
        let aa = self.a.sqr();
        let bb = self.b.sqr();
        let n = aa.add(&bb);
        let ninv = n.inverse();
        let c = self.conj();
        let r = c.pmul(&ninv);
        proof {
            let (a, b) = (self.a.val(), self.b.val());
            let m = modulus();
            let k = ninv.val();
            lemma_red_add(a * a, b * b);
            self.lemma_reduced();
            lemma_f2_red(f2_conj(self.view()), f2_zero());
            // x * (conj(x) k) = (norm k, 0)
            let x = self.view();
            let cx = f2_conj(x);
            assert(a * (a * k) - b * (-b * k) == (a * a + b * b) * k && a * (-b * k) + b * (a * k)
                == 0) by (nonlinear_arith);
            assert(f2_mul(x, f2_scale(cx, k)) == (f2_norm(x) * k, 0int));
            lemma_f2_red(x, f2_scale(cx, k));
            lemma_scale_red(cx, k);
            lemma_red_mul(f2_norm(x), k);
            lemma_red_idem(k);
            lemma_modulus_bound();
            lemma_small_mod(0, m as nat);
            lemma_small_mod(1, m as nat);
            r.lemma_reduced();
            ninv.lemma_bounds();
            lemma_f2_red(x, r.view());
            lemma_small_mod(k as nat, m as nat);
            assert(k % m == k);
            assert(r.view() == f2_red(f2_scale(cx, k)));
            assert(f2_red(f2_mul(x, r.view())) == f2_red(f2_mul(x, f2_scale(cx, k))));
            assert(f2_red(f2_mul(x, r.view())) == ((f2_norm(x) * k) % m, 0int % m));
            assert(n.val() == f2_norm(x) % m);
            if !invertible(n.val()) {
                assert(k == 0);
                assert(c.view().0 * k == 0 && c.view().1 * k == 0);
                assert(r.view() == f2_zero());
            }
        }
        r
    }

    pub fn equals(&self, y: &FP2) -> (r: bool)
        requires
            self.wf(),
            y.wf(),
        ensures
            r == (self.view() == y.view()),
    {
        let ea = self.a.equals(&y.a);
        let eb = self.b.equals(&y.b);
        ea && eb
    }

    pub fn is_zilch(&self) -> (r: bool)
        requires
            self.wf(),
        ensures
            r == (self.view() == f2_zero()),
    {
        let za = self.a.is_zilch();
        let zb = self.b.is_zilch();
        za && zb
    }

    /// Takes the value of `g` when `d` is 1, keeps its own when `d` is 0, with
    /// the same operations either way.
    pub fn cmove(&mut self, g: &FP2, d: isize)
        requires
            old(self).wf(),
            g.wf(),
            d == 0 || d == 1,
        ensures
            final(self).wf(),
            final(self).view() == (if d == 1 { g.view() } else { old(self).view() }),
    {
        self.a.cmove(&g.a, d);
        self.b.cmove(&g.b, d);
    }

    pub fn to_bytes(&self) -> (r: (Vec<u8>, Vec<u8>))
        requires
            self.wf(),
        ensures
            r.0@.len() == crate::fp::MODBYTES,
            r.1@.len() == crate::fp::MODBYTES,
            crate::digits::be_val(r.0@) == self.view().0,
            crate::digits::be_val(r.1@) == self.view().1,
    {
        (self.a.to_big_bytes(), self.b.to_big_bytes())
    }
}

/// Scaling by a reduced or an unreduced scalar agrees after reduction.
pub proof fn lemma_scale_red(x: F2, k: int)
    ensures
        f2_red(f2_scale(x, k)) == f2_red(f2_scale(f2_red(x), k % modulus())),
        f2_red(f2_scale(x, k)) == f2_red(f2_scale(x, k % modulus())),
{
    let m = modulus();
    lemma_red_mul(x.0, k);
    lemma_red_mul(x.1, k);
    lemma_red_mul(x.0 % m, k % m);
    lemma_red_mul(x.1 % m, k % m);
    lemma_red_mul(x.0, k % m);
    lemma_red_mul(x.1, k % m);
    lemma_red_idem(x.0);
    lemma_red_idem(x.1);
    lemma_red_idem(k);
}

} // verus!
