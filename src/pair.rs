//! The parts of the optimal ate pairing on BLS12-381 that work in the target
//! field: the multi-pairing accumulator, the Miller loop over accumulated line
//! values, and the final exponentiation.

use vstd::prelude::*;
use crate::digits::limbs_val;
use crate::fp::{FP, modulus};
use crate::fp2::{F2, FP2};
use crate::big::Big;
use crate::fp4::FP4;
use crate::ecp::{ECP, ECP2, G2Coords, G1Coords, m2, ad2, sb2, dbl2_spec, add2_spec, affine_of, frob2_spec, mul2_from, mul1_from, add1_spec, m1};
use crate::fp2::{f2_red, f2_neg, f2_mul_ip, f2_scale, f2_zero};
use crate::fp4::{f4_zero, f4_red, f4_times_i};
use crate::fp12::{naf_digit, pow4_spec};
use crate::big::nbits;
use crate::fp12::{
    F12, FP12, ONE, SPARSER, sparser_shape, f12_mul, f12_red, f12_one, f12_conj, f12_usqr, f12_frob, f12_pow, f12_norm,
    f4_invertible, f12_zero,
};

verus! {

/// Number of digits in the Miller loop, one slot of the accumulator each.
pub const ATE_BITS: usize = 65;

/// The curve parameter is negative: results of powers by its magnitude are
/// conjugated.
pub const NEGATIVE_X: bool = true;

/// Magnitude of the curve parameter.
pub const CURVE_BNX: u64 = 0xd201000000010000;

/// Digits of the Frobenius constant's real and imaginary parts.
pub open spec fn fra_seq() -> Seq<u32> {
    seq![
        0x92235fb8u32, 0x8d0775edu32, 0x63e7813du32, 0xf67ea53du32, 0x84bab9c4u32, 0x7b2443d7u32,
        0x3cbd5f4fu32, 0xfd603fdu32, 0x202c0d1fu32, 0xc231beb4u32, 0x2bb0667u32, 0x1904d3bfu32,
    ]
}

pub open spec fn frb_seq() -> Seq<u32> {
    seq![
        0x6ddc4af3u32, 0x2cf78a12u32, 0x4d6c7ec2u32, 0x282d5ac1u32, 0x71f63c5fu32, 0xec0c8ec9u32,
        0xb6c7b36fu32, 0x54a14787u32, 0x231f9fb8u32, 0x88e9e902u32, 0x36c4e032u32, 0xfc3e2bu32,
    ]
}

/// The Frobenius constant of the tower.
pub open spec fn frob_const() -> F2 {
    (limbs_val(fra_seq()) % modulus(), limbs_val(frb_seq()) % modulus())
}

/// The Frobenius constant as an element.
pub fn frob_constant() -> (r: FP2)
    ensures
        r.wf(),
        r.view() == frob_const(),
{
    let a = vec![
        0x92235fb8u32, 0x8d0775edu32, 0x63e7813du32, 0xf67ea53du32, 0x84bab9c4u32, 0x7b2443d7u32,
        0x3cbd5f4fu32, 0xfd603fdu32, 0x202c0d1fu32, 0xc231beb4u32, 0x2bb0667u32, 0x1904d3bfu32,
    ];
    let b = vec![
        0x6ddc4af3u32, 0x2cf78a12u32, 0x4d6c7ec2u32, 0x282d5ac1u32, 0x71f63c5fu32, 0xec0c8ec9u32,
        0xb6c7b36fu32, 0x54a14787u32, 0x231f9fb8u32, 0x88e9e902u32, 0x36c4e032u32, 0xfc3e2bu32,
    ];
    assert(a@ =~= fra_seq());
    assert(b@ =~= frb_seq());
    FP2::new_fps(FP::from_digits(&a), FP::from_digits(&b))
}

/// Horner's rule over the accumulator: the product once slots `ATE_BITS - 1`
/// down to `i` are folded in, squaring before each.
pub open spec fn miller_acc(r: Seq<F12>, i: int) -> F12
    decreases ATE_BITS - i,
{
    if i >= ATE_BITS {
        f12_one()
    } else {
        let w = miller_acc(r, i + 1);
        f12_red(f12_mul(f12_red(f12_mul(w, w)), r[i]))
    }
}

/// The Miller loop's result from the accumulated line values: slots from the
/// top down to 1, the sign correction, then slot 0.
pub open spec fn miller_spec(r: Seq<F12>) -> F12 {
    f12_red(f12_mul(f12_red(f12_conj(miller_acc(r, 1))), r[0]))
}

/// `x` to the signed curve parameter divided by `2^s`, through the power by
/// its magnitude.
pub open spec fn pow_x(x: F12, s: nat) -> F12 {
    let y = f12_pow(x, (CURVE_BNX as nat) / vstd::arithmetic::power2::pow2(s));
    if NEGATIVE_X {
        f12_red(f12_conj(y))
    } else {
        y
    }
}

pub open spec fn mulr(x: F12, y: F12) -> F12 {
    f12_red(f12_mul(x, y))
}

pub open spec fn conjr(x: F12) -> F12 {
    f12_red(f12_conj(x))
}

pub open spec fn frobr(x: F12) -> F12 {
    f12_red(f12_frob(x, frob_const()))
}

#[verifier::opaque]
/// The easy part `m^((p^6 - 1)(p^2 + 1))`, with `lv` the inverse of `m`.
pub open spec fn fexp_easy(m: F12, lv: F12) -> F12 {
    let t = mulr(conjr(m), lv);
    mulr(frobr(frobr(t)), t)
}

#[verifier::opaque]
/// The hard part by Ghammam and Fouotsa's chain, which raises to three times
/// `(p^4 - p^2 + 1) / r`.
pub open spec fn fexp_hard(r: F12) -> F12 {
    let y0 = f12_red(f12_usqr(r));
    let y1 = pow_x(y0, 0);
    let y2 = pow_x(y1, 1);
    let y1 = mulr(conjr(mulr(y1, conjr(r))), y2);
    let y2 = pow_x(y1, 0);
    let y3 = mulr(pow_x(y2, 0), conjr(y1));
    let y1 = mulr(frobr(frobr(frobr(y1))), frobr(frobr(y2)));
    let y2 = mulr(mulr(pow_x(y3, 0), y0), r);
    mulr(mulr(y1, y2), frobr(y3))
}

/// `lv` is what inversion gives for `m`.
pub open spec fn inverse_of(m: F12, lv: F12) -> bool {
    &&& f12_red(lv) == lv
    &&& f4_invertible(f12_norm(m)) ==> f12_red(f12_mul(m, lv)) == f12_one()
    &&& !f4_invertible(f12_norm(m)) ==> lv == f12_zero()
}

/// Big-endian bytes of the order of the pairing groups.
pub open spec fn order_bytes() -> Seq<u8> {
    seq![
        0x73u8, 0xed, 0xa7, 0x53, 0x29, 0x9d, 0x7d, 0x48, 0x33, 0x39, 0xd8, 0x08, 0x09, 0xa1, 0xd8,
        0x05, 0x53, 0xbd, 0xa4, 0x02, 0xff, 0xfe, 0x5b, 0xfe, 0xff, 0xff, 0xff, 0xff, 0x00, 0x00,
        0x00, 0x01,
    ]
}

/// The order of the pairing groups.
pub open spec fn curve_order() -> nat {
    crate::digits::be_val(order_bytes()) as nat
}

pub proof fn lemma_order_positive()
    ensures
        curve_order() > 0,
        crate::digits::be_val(order_bytes()) > 0,
{
    let s = order_bytes();
    crate::digits::lemma_be_nonneg(s.drop_first());
    vstd::arithmetic::power::lemma_pow_positive(256, 31);
    let q = vstd::arithmetic::power::pow(256, 31);
    assert((s[0] as int) * q > 0) by (nonlinear_arith)
        requires
            s[0] >= 1,
            q > 0,
    ;
}

/// The order of the pairing groups as an integer.
pub fn curve_order_big() -> (r: Big)
    ensures
        r.val() == curve_order(),
{
    let d: [u8; 32] = [
        0x73, 0xed, 0xa7, 0x53, 0x29, 0x9d, 0x7d, 0x48, 0x33, 0x39, 0xd8, 0x08, 0x09, 0xa1, 0xd8,
        0x05, 0x53, 0xbd, 0xa4, 0x02, 0xff, 0xfe, 0x5b, 0xfe, 0xff, 0xff, 0xff, 0xff, 0x00, 0x00,
        0x00, 0x01,
    ];
    assert(d@ =~= order_bytes());
    proof {
        lemma_order_positive();
    }
    Big::from_bytes(&d)
}

/// Galbraith and Scott's decomposition of `e` into four digits in base `x`,
/// the curve parameter's magnitude; the odd ones negated modulo the group
/// order, as the parameter is negative.
pub open spec fn gs_spec(e: nat, i: int) -> nat {
    let x = CURVE_BNX as nat;
    let q = curve_order();
    let xi = vstd::arithmetic::power::pow(x as int, i as nat) as nat;
    let d = if i < 3 { (e / xi) % x } else { e / xi };
    if NEGATIVE_X && i % 2 == 1 {
        ((q - d % q) % (q as int)) as nat
    } else {
        d
    }
}

/// Galbraith and Scott's decomposition of `e`: base-`x` digits, the last
/// one carrying the rest, with the odd ones negated modulo the group order.
pub fn gs(e: &Big) -> (u: Vec<Big>)
    ensures
        u@.len() == 4,
        forall|i: int| 0 <= i < 4 ==> (#[trigger] u@[i]).val() == gs_spec(e.val(), i),
{
    let q = curve_order_big();
    let x = Big::new_int(CURVE_BNX);
    proof {
        lemma_order_positive();
    }
    let mut u: Vec<Big> = Vec::new();
    let mut w = e.copy();
    proof {
        vstd::arithmetic::power::lemma_pow0(CURVE_BNX as int);
    }
    let mut i: usize = 0;
    while i < 3
        invariant
            i <= 3,
            x.val() == CURVE_BNX,
            q.val() == curve_order(),
            curve_order() > 0,
            u@.len() == i,
            w.val() == e.val() / (vstd::arithmetic::power::pow(CURVE_BNX as int, i as nat) as nat),
            forall|k: int| 0 <= k < i ==> (#[trigger] u@[k]).val() == gs_spec(e.val(), k),
        decreases 3 - i,
    {
        let d = w.rmod(&x);
        let t = if NEGATIVE_X && i % 2 == 1 { Big::modneg(&d, &q) } else { d };
        u.push(t);
        w = w.div(&x);
        proof {
            lemma_div_pow(e.val(), CURVE_BNX as nat, i as nat);
        }
        i = i + 1;
    }
    let t = if NEGATIVE_X { Big::modneg(&w, &q) } else { w };
    u.push(t);
    proof {
        assert(u@[3].val() == gs_spec(e.val(), 3));
    }
    u
}

/// The decomposition reconstitutes its input: with `u = gs(e)` and the signed
/// parameter `-x`, `u0 + u1 (-x) + u2 x^2 + u3 (-x)^3` is `e` modulo the group
/// order.
pub proof fn lemma_gs_reconstructs(e: nat)
    ensures
        ({
            let x = CURVE_BNX as int;
            (gs_spec(e, 0) - gs_spec(e, 1) * x + gs_spec(e, 2) * (x * x) - gs_spec(e, 3) * (x * x
                * x)) % (curve_order() as int) == (e as int) % (curve_order() as int)
        }),
{
    let x = CURVE_BNX as int;
    let q = curve_order() as int;
    lemma_order_positive();
    reveal_with_fuel(vstd::arithmetic::power::pow, 4);
    let w1 = vstd::arithmetic::power::pow(x, 1);
    let w2 = vstd::arithmetic::power::pow(x, 2);
    let w3 = vstd::arithmetic::power::pow(x, 3);
    assert(w1 == x);
    assert(w2 == x * x);
    assert(w3 == x * (x * x));
    vstd::arithmetic::power::lemma_pow0(x);
    lemma_div_pow(e, x as nat, 0);
    lemma_div_pow(e, x as nat, 1);
    lemma_div_pow(e, x as nat, 2);
    let e0 = e as int;
    let e1 = e0 / x;
    let e2 = e1 / x;
    let e3 = e2 / x;
    assert(e / (w1 as nat) == e1);
    assert(e / (w2 as nat) == e2);
    assert(e / (w3 as nat) == e3);
    let (d0, d1, d2) = (e0 % x, e1 % x, e2 % x);
    vstd::arithmetic::div_mod::lemma_fundamental_div_mod(e0, x);
    vstd::arithmetic::div_mod::lemma_fundamental_div_mod(e1, x);
    vstd::arithmetic::div_mod::lemma_fundamental_div_mod(e2, x);
    assert(e0 == d0 + x * d1 + (x * x) * d2 + (x * (x * x)) * e3) by (nonlinear_arith)
        requires
            e0 == x * e1 + d0,
            e1 == x * e2 + d1,
            e2 == x * e3 + d2,
    ;
    assert(gs_spec(e, 0) == d0);
    assert(gs_spec(e, 2) == d2);
    let u1 = gs_spec(e, 1) as int;
    let u3 = gs_spec(e, 3) as int;
    assert(u1 == (q - d1 % q) % q);
    assert(u3 == (q - e3 % q) % q);
    lemma_neg_mod(d1, q);
    lemma_neg_mod(e3, q);
    let k1 = (u1 + d1) / q;
    let k3 = (u3 + e3) / q;
    let total = d0 - u1 * x + d2 * (x * x) - u3 * (x * (x * x));
    let x3 = x * (x * x);
    assert(u1 * x == (q * k1 - d1) * x);
    assert((q * k1 - d1) * x == q * (k1 * x) - d1 * x) by (nonlinear_arith);
    assert(u3 * x3 == (q * k3 - e3) * x3);
    assert((q * k3 - e3) * x3 == q * (k3 * x3) - e3 * x3) by (nonlinear_arith);
    assert(x * d1 == d1 * x) by (nonlinear_arith);
    assert(x3 * e3 == e3 * x3) by (nonlinear_arith);
    assert(q * (-(k1 * x) - k3 * x3) == -(q * (k1 * x)) - q * (k3 * x3)) by (nonlinear_arith);
    assert(total == e0 + q * (-(k1 * x) - k3 * (x * (x * x))));
    vstd::arithmetic::div_mod::lemma_mod_multiples_vanish(-(k1 * x) - k3 * (x * (x * x)), e0, q);
    assert(x * x * x == x * (x * x)) by (nonlinear_arith);
}

/// `(q - d mod q) mod q` is `-d` modulo `q`.
proof fn lemma_neg_mod(d: int, q: int)
    requires
        q > 0,
        d >= 0,
    ensures
        (((q - d % q) % q) + d) % q == 0,
        ((q - d % q) % q) + d == q * ((((q - d % q) % q) + d) / q),
{
    vstd::arithmetic::div_mod::lemma_fundamental_div_mod(d, q);
    let r = d % q;
    let u = (q - r) % q;
    if r == 0 {
        vstd::arithmetic::div_mod::lemma_mod_self_0(q);
        assert(u == 0);
        assert(u + d == q * (d / q));
    } else {
        vstd::arithmetic::div_mod::lemma_small_mod((q - r) as nat, q as nat);
        assert(u == q - r);
        assert(u + d == q * (d / q + 1)) by (nonlinear_arith)
            requires
                u == q - r,
                d == q * (d / q) + r,
        ;
    }
    vstd::arithmetic::div_mod::lemma_mod_multiples_basic((u + d) / q, q);
    vstd::arithmetic::div_mod::lemma_fundamental_div_mod(u + d, q);
    if r == 0 {
        vstd::arithmetic::div_mod::lemma_mod_multiples_basic(d / q, q);
    } else {
        vstd::arithmetic::div_mod::lemma_mod_multiples_basic(d / q + 1, q);
    }
}

/// Dividing by `x^i` and then by `x` divides by `x^(i+1)`.
proof fn lemma_div_pow(e: nat, x: nat, i: nat)
    requires
        x > 0,
    ensures
        (e / (vstd::arithmetic::power::pow(x as int, i) as nat)) / x == e / (vstd::arithmetic::power::pow(
            x as int,
            i + 1,
        ) as nat),
        vstd::arithmetic::power::pow(x as int, i) > 0,
{
    vstd::arithmetic::power::lemma_pow_positive(x as int, i);
    let p = vstd::arithmetic::power::pow(x as int, i);
    assert(vstd::arithmetic::power::pow(x as int, i + 1) == x * p) by {
        reveal(vstd::arithmetic::power::pow);
    }
    vstd::arithmetic::div_mod::lemma_div_denominator(e as int, p, x as int);
    assert(p * x == x * p) by (nonlinear_arith);
}

/// `d^e` in the pairing's target group by Galbraith and Scott's method: the
/// exponent is split by `gs`, each part applied to a Frobenius image of `d`,
/// negated (conjugated) where that shortens the exponent, and combined by
/// `pow4`.
pub fn gtpow(d: &FP12, e: &Big) -> (r: FP12)
    requires
        d.wf(),
    ensures
        r.wf(),
        r.view() == gtpow_spec(d.view(), e.val()),
{
    let f = frob_constant();
    let q = curve_order_big();
    proof {
        lemma_order_positive();
    }
    let mut u = gs(e);
    let mut g: Vec<FP12> = Vec::new();
    g.push(d.copy());
    let mut i: usize = 1;
    while i < 4
        invariant
            1 <= i <= 4,
            g@.len() == i,
            f.wf(),
            f.view() == frob_const(),
            forall|k: int| 0 <= k < g@.len() ==> (#[trigger] g@[k]).wf() && g@[k].view() == frob_iter(d.view(), k as nat),
        decreases 4 - i,
    {
        let mut t = g[i - 1].copy();
        t.frob(&f);
        g.push(t);
        i = i + 1;
    }
    let mut i: usize = 0;
    while i < 4
        invariant
            i <= 4,
            g@.len() == 4,
            u@.len() == 4,
            q.val() == curve_order(),
            q.val() > 0,
            forall|k: int| 0 <= k < 4 ==> (#[trigger] g@[k]).wf(),
            forall|k: int| 0 <= k < i ==> (#[trigger] g@[k]).view() == gt_base(d.view(), e.val(), k as nat),
            forall|k: int| 0 <= k < i ==> (#[trigger] u@[k]).val() == short_digit(gs_spec(e.val(), k)),
            forall|k: int| i <= k < 4 ==> (#[trigger] g@[k]).view() == frob_iter(d.view(), k as nat),
            forall|k: int| i <= k < 4 ==> (#[trigger] u@[k]).val() == gs_spec(e.val(), k),
        decreases 4 - i,
    {
        let np = u[i].nbits();
        let t = Big::modneg(&u[i], &q);
        let nn = t.nbits();
        assert(t.val() == neg_mod(u@[i as int].val()));
        assert((nn < np) == flips(u@[i as int].val()));
        if nn < np {
            u.set(i, t);
            let mut c = g[i].copy();
            c.conj();
            g.set(i, c);
        }
        i = i + 1;
    }
    assert(g@.map_values(|x: FP12| x.view()) =~= Seq::new(4, |k: int| gt_base(d.view(), e.val(), k as nat)));
    assert(u@.map_values(|b: Big| b.val()) =~= Seq::new(4, |k: int| short_digit(gs_spec(e.val(), k))));
    FP12::pow4(g.as_slice(), u.as_slice())
}

/// `d` after `i` Frobenius maps.
pub open spec fn frob_iter(d: F12, i: nat) -> F12
    decreases i,
{
    if i == 0 {
        d
    } else {
        frobr(frob_iter(d, (i - 1) as nat))
    }
}

/// The negation of `a` modulo the group order.
pub open spec fn neg_mod(a: nat) -> nat {
    let q = curve_order();
    ((q - a % q) % (q as int)) as nat
}

/// A digit is replaced by its negation when that has fewer bits.
pub open spec fn flips(a: nat) -> bool {
    nbits(neg_mod(a)) < nbits(a)
}

pub open spec fn short_digit(a: nat) -> nat {
    if flips(a) {
        neg_mod(a)
    } else {
        a
    }
}

/// Base `i` of `gtpow`: the `i`-th Frobenius image of `d`, conjugated where
/// the digit was negated.
pub open spec fn gt_base(d: F12, e: nat, i: nat) -> F12 {
    if flips(gs_spec(e, i as int)) {
        conjr(frob_iter(d, i))
    } else {
        frob_iter(d, i)
    }
}

/// `pow4` over the Frobenius images of `d` and the shortened `gs` digits of
/// `e`; on the target group, `d^e`.
pub open spec fn gtpow_spec(d: F12, e: nat) -> F12 {
    pow4_spec(
        Seq::new(4, |k: int| gt_base(d, e, k as nat)),
        Seq::new(4, |k: int| short_digit(gs_spec(e, k))),
    )
}

pub open spec fn sc2(x: F2, k: int) -> F2 {
    f2_red(f2_scale(x, k))
}

/// The tangent line at `a` evaluated at `(qx, qy)`, as `linedbl` lays it out.
#[verifier::opaque]
pub open spec fn line_dbl_spec(a: G2Coords, qx: int, qy: int) -> F12 {
    let yz = m2(a.1, a.2);
    let xx = m2(a.0, a.0);
    let yy = m2(a.1, a.1);
    let zz = m2(a.2, a.2);
    let yz = sc2(f2_red(f2_neg(sc2(yz, 4))), qy);
    let xx = sc2(sc2(xx, 6), qx);
    let zz = sc2(zz, 12);
    let zz = f2_red(f2_mul_ip(zz));
    let zz = ad2(zz, zz);
    let yz = f2_red(f2_mul_ip(yz));
    let yy = ad2(yy, yy);
    let zz = sb2(zz, yy);
    ((yz, zz), f4_zero(), f4_red(f4_times_i((xx, f2_zero()))))
}

/// The line through `a` and the affine `b` evaluated at `(qx, qy)`, as
/// `lineadd` lays it out.
#[verifier::opaque]
pub open spec fn line_add_spec(a: G2Coords, b: G2Coords, qx: int, qy: int) -> F12 {
    let t1 = m2(a.2, b.1);
    let t2 = m2(a.2, b.0);
    let x1 = sb2(a.0, t2);
    let y1 = sb2(a.1, t1);
    let t1 = m2(x1, b.1);
    let x1 = f2_red(f2_mul_ip(sc2(x1, qy)));
    let t2 = sb2(m2(y1, b.0), t1);
    let y1 = f2_red(f2_neg(sc2(y1, qx)));
    ((x1, t2), f4_zero(), f4_red(f4_times_i((y1, f2_zero()))))
}

/// The negation of a projective point.
pub open spec fn neg2(p: G2Coords) -> G2Coords {
    (p.0, f2_red(f2_neg(p.1)), p.2)
}

/// Index of the top digit of the Miller loop.
pub open spec fn ate_top() -> int {
    nbits(3 * (CURVE_BNX as nat)) - 1
}

/// One digit of the Miller loop: square the accumulator, double `A` with its
/// tangent line, and for a digit of `+1` or `-1` add `P` or `-P` with its
/// chord line, the two lines multiplied first.
pub open spec fn ate_step(st: (F12, G2Coords), p: G2Coords, qx: int, qy: int, d: int) -> (F12, G2Coords) {
    let acc = f12_red(f12_mul(st.0, st.0));
    let lv = line_dbl_spec(st.1, qx, qy);
    let a1 = dbl2_spec(st.1);
    if d == 1 {
        let lv2 = line_add_spec(a1, p, qx, qy);
        (f12_red(f12_mul(acc, f12_red(f12_mul(lv, lv2)))), add2_spec(a1, p))
    } else if d == -1 {
        let lv2 = line_add_spec(a1, neg2(p), qx, qy);
        (f12_red(f12_mul(acc, f12_red(f12_mul(lv, lv2)))), add2_spec(a1, neg2(p)))
    } else {
        (f12_red(f12_mul(acc, lv)), a1)
    }
}

/// The accumulator and the point `A` once digits `ate_top() - 1` down to `i`
/// are done, for affine `p` and `(qx, qy)`.
pub open spec fn ate_loop(p: G2Coords, qx: int, qy: int, i: int) -> (F12, G2Coords)
    decreases ate_top() - i,
{
    if i >= ate_top() {
        (f12_one(), p)
    } else {
        ate_step(ate_loop(p, qx, qy, i + 1), p, qx, qy, naf_digit(CURVE_BNX as nat, i as nat))
    }
}

/// One digit of the double Miller loop on `(p, q)` and `(r, s)`: the two
/// tangents multiplied and folded in, then the two chords for a non-zero digit.
pub open spec fn ate2_step(
    st: (F12, G2Coords, G2Coords),
    p: G2Coords,
    qx: int,
    qy: int,
    r: G2Coords,
    sx: int,
    sy: int,
    d: int,
) -> (F12, G2Coords, G2Coords) {
    let acc = f12_red(f12_mul(st.0, st.0));
    let lv = f12_red(f12_mul(line_dbl_spec(st.1, qx, qy), line_dbl_spec(st.2, sx, sy)));
    let acc = f12_red(f12_mul(acc, lv));
    let (a1, b1) = (dbl2_spec(st.1), dbl2_spec(st.2));
    if d == 1 {
        let lv = f12_red(f12_mul(line_add_spec(a1, p, qx, qy), line_add_spec(b1, r, sx, sy)));
        (f12_red(f12_mul(acc, lv)), add2_spec(a1, p), add2_spec(b1, r))
    } else if d == -1 {
        let lv = f12_red(
            f12_mul(line_add_spec(a1, neg2(p), qx, qy), line_add_spec(b1, neg2(r), sx, sy)),
        );
        (f12_red(f12_mul(acc, lv)), add2_spec(a1, neg2(p)), add2_spec(b1, neg2(r)))
    } else {
        (acc, a1, b1)
    }
}

pub open spec fn ate2_loop(p: G2Coords, qx: int, qy: int, r: G2Coords, sx: int, sy: int, i: int) -> (
    F12,
    G2Coords,
    G2Coords,
)
    decreases ate_top() - i,
{
    if i >= ate_top() {
        (f12_one(), p, r)
    } else {
        ate2_step(
            ate2_loop(p, qx, qy, r, sx, sy, i + 1),
            p,
            qx,
            qy,
            r,
            sx,
            sy,
            naf_digit(CURVE_BNX as nat, i as nat),
        )
    }
}

/// `pa`, `qa` are affine forms of `pp`, `qq`.
pub open spec fn affine_pair(pp: &ECP2, qq: &ECP, pa: G2Coords, qa: (int, int)) -> bool {
    &&& crate::fp4::f2_invertible(pp.coords().2) ==> affine_of(pp.coords(), pa)
    &&& crate::fp::invertible(qq.coords().2) ==> (qa.0 * qq.coords().2) % crate::fp::modulus()
        == qq.coords().0 && (qa.1 * qq.coords().2) % crate::fp::modulus() == qq.coords().1
}

/// The line value of digit `i`: the tangent at the running point, times the
/// chord through `P` or `-P` for a digit of `+1` or `-1`.
#[verifier::opaque]
pub open spec fn line_at(p: G2Coords, qx: int, qy: int, i: int) -> F12 {
    let a = ate_loop(p, qx, qy, i + 1).1;
    let lv = line_dbl_spec(a, qx, qy);
    let a1 = dbl2_spec(a);
    let d = naf_digit(CURVE_BNX as nat, i as nat);
    if d == 1 {
        f12_red(f12_mul(lv, line_add_spec(a1, p, qx, qy)))
    } else if d == -1 {
        f12_red(f12_mul(lv, line_add_spec(a1, neg2(p), qx, qy)))
    } else {
        lv
    }
}

/// The optimal ate Miller loop on affine `p` and `(qx, qy)`, with the sign
/// correction for the negative parameter.
pub open spec fn ate_spec(p: G2Coords, qx: int, qy: int) -> F12 {
    f12_red(f12_conj(ate_loop(p, qx, qy, 1).0))
}

/// The tangent line at `A`, evaluated at `(qx, qy)`, in the layout of the
/// M-type twist: `a` holds `-4 (1 + i) Y Z qy | 6 (1 + i) b Z^2 - 2 Y^2` and `c`
/// holds `6 X^2 qx` in its `s` part. `A` is doubled. Tagged `SPARSER`.
fn linedbl(a_pt: &mut ECP2, qx: &FP, qy: &FP) -> (r: FP12)
    requires
        old(a_pt).wf(),
        qx.wf(),
        qy.wf(),
    ensures
        final(a_pt).wf(),
        final(a_pt).coords() == dbl2_spec(old(a_pt).coords()),
        r.wf(),
        r.tag() == SPARSER,
        r.view() == line_dbl_spec(old(a_pt).coords(), qx.val(), qy.val()),
{
    reveal(line_dbl_spec);
    proof {
        crate::fp::lemma_modulus_bound();
        vstd::arithmetic::div_mod::lemma_small_mod(4, crate::fp::modulus() as nat);
        vstd::arithmetic::div_mod::lemma_small_mod(6, crate::fp::modulus() as nat);
        vstd::arithmetic::div_mod::lemma_small_mod(12, crate::fp::modulus() as nat);
    }
    let xx = a_pt.getpx();
    let yy = a_pt.getpy();
    let zz = a_pt.getpz();
    let yz = yy.mul(&zz);
    let xx = xx.sqr();
    let yy = yy.sqr();
    let zz = zz.sqr();
    let yz = yz.pmul(&FP::new_int(4)).neg().pmul(qy);
    let xx = xx.pmul(&FP::new_int(6)).pmul(qx);
    let zz = zz.pmul(&FP::new_int(12));
    let zz = zz.mul_ip();
    let zz = zz.add(&zz);
    let yz = yz.mul_ip();
    let yy = yy.add(&yy);
    let zz = zz.sub(&yy);
    let a = FP4::new_fp2s(yz, zz);
    let c = FP4::new_fp2(xx).times_i();
    a_pt.dbl();
    let mut res = FP12::new_fp4s(a, FP4::new(), c);
    proof {
        crate::fp2::lemma_f2_const_red();
        res.lemma_reduced();
    }
    res.settype(SPARSER);
    res
}

/// The line through `A` and the affine point `B`, evaluated at `(qx, qy)`, in
/// the same layout as `linedbl`. `A` becomes `A + B`. Tagged `SPARSER`.
fn lineadd(a_pt: &mut ECP2, b_pt: &ECP2, qx: &FP, qy: &FP) -> (r: FP12)
    requires
        old(a_pt).wf(),
        b_pt.wf(),
        qx.wf(),
        qy.wf(),
    ensures
        final(a_pt).wf(),
        final(a_pt).coords() == add2_spec(old(a_pt).coords(), b_pt.coords()),
        r.wf(),
        r.tag() == SPARSER,
        r.view() == line_add_spec(old(a_pt).coords(), b_pt.coords(), qx.val(), qy.val()),
{
    reveal(line_add_spec);
    let x1 = a_pt.getpx();
    let y1 = a_pt.getpy();
    let t1 = a_pt.getpz().mul(&b_pt.getpy());
    let t2 = a_pt.getpz().mul(&b_pt.getpx());
    let x1 = x1.sub(&t2);
    let y1 = y1.sub(&t1);
    let t1 = x1.copy();
    let x1 = x1.pmul(qy).mul_ip();
    let t1 = t1.mul(&b_pt.getpy());
    let t2 = y1.mul(&b_pt.getpx());
    let t2 = t2.sub(&t1);
    let y1 = y1.pmul(qx).neg();
    let a = FP4::new_fp2s(x1, t2);
    let c = FP4::new_fp2(y1).times_i();
    a_pt.add(b_pt);
    let mut res = FP12::new_fp4s(a, FP4::new(), c);
    proof {
        crate::fp2::lemma_f2_const_red();
        res.lemma_reduced();
    }
    res.settype(SPARSER);
    res
}

/// The curve parameter's magnitude `n` and `3n`, and the number of bits of `3n`.
fn lbits() -> (r: (Vec<u8>, Vec<u8>))
    ensures
        r.0@.len() >= 2,
        r.0@.len() == nbits(3 * (CURVE_BNX as nat)),
        forall|k: int| 0 <= k < r.0@.len() ==> r.0@[k] as nat == crate::big::bit(3 * (CURVE_BNX as nat), k as nat),
        r.1@.len() == nbits(CURVE_BNX as nat),
        forall|k: int| 0 <= k < r.1@.len() ==> r.1@[k] as nat == crate::big::bit(CURVE_BNX as nat, k as nat),
        forall|i: int| 0 <= i < r.0@.len() ==> r.0@[i] <= 1,
        forall|i: int| 0 <= i < r.1@.len() ==> r.1@[i] <= 1,
{
    let n = Big::new_int(CURVE_BNX);
    let n3 = n.triple();
    proof {
        crate::big::lemma_nbits_bound(3 * (CURVE_BNX as nat), 0);
    }
    let b3 = n3.bits();
    let b1 = n.bits();
    proof {
        assert forall|i: int| 0 <= i < b3@.len() implies b3@[i] <= 1 by {
            assert(b3@[i] as nat == crate::big::bit(3 * (CURVE_BNX as nat), i as nat));
        }
        assert forall|i: int| 0 <= i < b1@.len() implies b1@[i] <= 1 by {
            assert(b1@[i] as nat == crate::big::bit(CURVE_BNX as nat, i as nat));
        }
    }
    (b3, b1)
}

/// The signed digit `i` of the Miller loop, from the bits of `3n` and `n`.
fn loop_digit(b3: &Vec<u8>, b1: &Vec<u8>, i: usize) -> (r: i32)
    requires
        i < b3@.len(),
        forall|k: int| 0 <= k < b3@.len() ==> b3@[k] <= 1,
        forall|k: int| 0 <= k < b1@.len() ==> b1@[k] <= 1,
    ensures
        -1 <= r <= 1,
        b3@.len() == nbits(3 * (CURVE_BNX as nat)) && (forall|k: int| 0 <= k < b3@.len() ==> b3@[k] as nat == crate::big::bit(3 * (CURVE_BNX as nat), k as nat)) && b1@.len() == nbits(CURVE_BNX as nat) && (forall|k: int| 0 <= k < b1@.len() ==> b1@[k] as nat == crate::big::bit(CURVE_BNX as nat, k as nat)) ==> r == naf_digit(CURVE_BNX as nat, i as nat),
{
    proof {
        crate::big::lemma_nbits_bound(CURVE_BNX as nat, i as nat);
    }
    let d1: u8 = if i < b1.len() { b1[i] } else { 0 };
    b3[i] as i32 - d1 as i32
}

/// `pa` and `qa` are affine forms of `pp` and `qq`, and `after` is `before` with
/// slot `i` multiplied by the line value of digit `i` for them.
pub open spec fn accumulated(before: Seq<FP12>, after: Seq<FP12>, pp: &ECP2, qq: &ECP, pa: G2Coords, qa: (
    int,
    int,
)) -> bool {
    &&& crate::fp4::f2_invertible(pp.coords().2) ==> affine_of(pp.coords(), pa)
    &&& crate::fp::invertible(qq.coords().2) ==> (qa.0 * qq.coords().2) % crate::fp::modulus()
        == qq.coords().0 && (qa.1 * qq.coords().2) % crate::fp::modulus() == qq.coords().1
    &&& forall|i: int|
        1 <= i < ate_top() ==> (#[trigger] after[i]).view() == f12_red(
            f12_mul(before[i].view(), line_at(pa, qa.0, qa.1, i)),
        )
    &&& forall|i: int|
        0 <= i < ATE_BITS && !(1 <= i < ate_top()) ==> (#[trigger] after[i]).view() == before[i].view()
}

/// Accumulates the line functions of the pair `(P, Q)` into the slots of a
/// multi-pairing accumulator: slot `i` is multiplied by the line value of
/// digit `i` for the affine forms of `P` and `Q`. Nothing changes when either
/// point is at infinity.
#[verifier::rlimit(100)]
#[verifier::spinoff_prover]
pub fn another(r: &mut Vec<FP12>, pp: &ECP2, qq: &ECP)
    requires
        old(r)@.len() == ATE_BITS,
        forall|i: int| 0 <= i < ATE_BITS ==> (#[trigger] old(r)@[i]).wf(),
        pp.wf(),
        qq.wf(),
    ensures
        final(r)@.len() == ATE_BITS,
        forall|i: int| 0 <= i < ATE_BITS ==> (#[trigger] final(r)@[i]).wf(),
        pp.coords().2 == f2_zero() || qq.coords().2 == 0 ==> final(r)@ == old(r)@,
        pp.coords().2 != f2_zero() && qq.coords().2 != 0 ==> exists|pa: G2Coords, qa: (int, int)|
            accumulated(old(r)@, final(r)@, pp, qq, pa, qa),
{
    if pp.is_infinity() || qq.is_infinity() {
        return;
    }
    let ghost r0 = r@;
    let mut p = pp.copy();
    p.affine();
    let mut q = qq.copy();
    q.affine();
    let qx = q.getpx();
    let qy = q.getpy();
    let ghost pa = p.coords();
    let mut a = p.copy();
    let mut np = p.copy();
    np.neg();
    let (b3, b1) = lbits();
    let nb = b3.len();
    proof {
        crate::big::lemma_nbits_bound(3 * (CURVE_BNX as nat), 0);
        assert(nb <= ATE_BITS + 1) by {
            lemma_ate_top();
        }
    }
    let mut i: usize = nb - 1;
    while i > 1
        invariant
            1 <= i <= nb - 1,
            nb == b3@.len(),
            nb - 1 == ate_top(),
            ate_top() <= ATE_BITS,
            b3@.len() == nbits(3 * (CURVE_BNX as nat)),
            forall|k: int| 0 <= k < b3@.len() ==> b3@[k] as nat == crate::big::bit(3 * (CURVE_BNX as nat), k as nat),
            b1@.len() == nbits(CURVE_BNX as nat),
            forall|k: int| 0 <= k < b1@.len() ==> b1@[k] as nat == crate::big::bit(CURVE_BNX as nat, k as nat),
            forall|k: int| 0 <= k < b3@.len() ==> b3@[k] <= 1,
            forall|k: int| 0 <= k < b1@.len() ==> b1@[k] <= 1,
            a.wf(),
            p.wf(),
            np.wf(),
            qx.wf(),
            qy.wf(),
            p.coords() == pa,
            np.coords() == neg2(pa),
            a.coords() == ate_loop(pa, qx.val(), qy.val(), i as int).1,
            r@.len() == ATE_BITS,
            forall|k: int| 0 <= k < ATE_BITS ==> (#[trigger] r@[k]).wf(),
            forall|k: int|
                i <= k < ate_top() ==> (#[trigger] r@[k]).view() == f12_red(
                    f12_mul(r0[k].view(), line_at(pa, qx.val(), qy.val(), k)),
                ),
            forall|k: int| 0 <= k < ATE_BITS && !(i <= k < ate_top()) ==> (#[trigger] r@[k]).view() == r0[k].view(),
            crate::fp4::f2_invertible(pp.coords().2) ==> affine_of(pp.coords(), pa),
            crate::fp::invertible(qq.coords().2) ==> (qx.val() * qq.coords().2) % crate::fp::modulus()
                == qq.coords().0 && (qy.val() * qq.coords().2) % crate::fp::modulus() == qq.coords().1,
        decreases i,
    {
        i = i - 1;
        let mut lv = linedbl(&mut a, &qx, &qy);
        let bt = loop_digit(&b3, &b1, i);
        if bt == 1 {
            let lv2 = lineadd(&mut a, &p, &qx, &qy);
            proof {
                lv.lemma_reduced();
                lv2.lemma_reduced();
            }
            lv.smul(&lv2);
        }
        if bt == -1 {
            let lv2 = lineadd(&mut a, &np, &qx, &qy);
            proof {
                lv.lemma_reduced();
                lv2.lemma_reduced();
            }
            lv.smul(&lv2);
        }
        assert(lv.view() == line_at(pa, qx.val(), qy.val(), i as int)) by {
            reveal(line_at);
        }
        let mut t = r[i].copy();
        t.ssmul(&lv);
        r.set(i, t);
    }
    proof {
        let qa = (qx.val(), qy.val());
        assert(r0 == old(r)@);
        assert(forall|k: int|
            1 <= k < ate_top() ==> (#[trigger] r@[k]).view() == f12_red(
                f12_mul(old(r)@[k].view(), line_at(pa, qa.0, qa.1, k)),
            ));
        assert(forall|k: int|
            0 <= k < ATE_BITS && !(1 <= k < ate_top()) ==> (#[trigger] r@[k]).view() == old(r)@[k].view());
        assert(crate::fp4::f2_invertible(pp.coords().2) ==> affine_of(pp.coords(), pa));
        assert(accumulated(old(r)@, r@, pp, qq, pa, qa));
    }
}

/// The Miller loop's top index is the parameter's bit length plus one.
proof fn lemma_ate_top()
    ensures
        ate_top() == 65,
        nbits(3 * (CURVE_BNX as nat)) == 66,
{
    reveal_with_fuel(nbits, 70);
}

/// The optimal ate pairing `e(P, Q)` before the final exponentiation; one
/// when either point is at infinity, else the Miller loop on their affine
/// forms.
#[verifier::rlimit(60)]
#[verifier::spinoff_prover]
pub fn ate(pp: &ECP2, qq: &ECP) -> (r: FP12)
    requires
        pp.wf(),
        qq.wf(),
    ensures
        r.wf(),
        pp.coords().2 == f2_zero() || qq.coords().2 == 0 ==> r.view() == f12_one(),
        pp.coords().2 != f2_zero() && qq.coords().2 != 0 ==> exists|pa: G2Coords, qa: (int, int)|
            affine_pair(pp, qq, pa, qa) && r.view() == ate_spec(pa, qa.0, qa.1),
{
    if pp.is_infinity() || qq.is_infinity() {
        let mut one = FP12::new();
        one.one();
        return one;
    }
    let mut p = pp.copy();
    p.affine();
    let mut q = qq.copy();
    q.affine();
    let qx = q.getpx();
    let qy = q.getpy();
    let ghost pa = p.coords();
    let mut a = p.copy();
    let mut np = p.copy();
    np.neg();
    let (b3, b1) = lbits();
    let nb = b3.len();
    let mut r = FP12::new_int(1);
    proof {
        crate::fp2::lemma_f2_const_red();
        assert(f2_red((1int, 0int)) == crate::fp2::f2_one());
    }
    let mut i: usize = nb - 1;
    while i > 1
        invariant
            1 <= i <= nb - 1,
            nb == b3@.len(),
            b3@.len() == nbits(3 * (CURVE_BNX as nat)),
            forall|k: int| 0 <= k < b3@.len() ==> b3@[k] as nat == crate::big::bit(3 * (CURVE_BNX as nat), k as nat),
            b1@.len() == nbits(CURVE_BNX as nat),
            forall|k: int| 0 <= k < b1@.len() ==> b1@[k] as nat == crate::big::bit(CURVE_BNX as nat, k as nat),
            forall|k: int| 0 <= k < b3@.len() ==> b3@[k] <= 1,
            forall|k: int| 0 <= k < b1@.len() ==> b1@[k] <= 1,
            a.wf(),
            p.wf(),
            np.wf(),
            qx.wf(),
            qy.wf(),
            r.wf(),
            p.coords() == pa,
            np.coords() == neg2(pa),
            (r.view(), a.coords()) == ate_loop(pa, qx.val(), qy.val(), i as int),
            crate::fp4::f2_invertible(pp.coords().2) ==> affine_of(pp.coords(), pa),
            crate::fp::invertible(qq.coords().2) ==> (qx.val() * qq.coords().2) % crate::fp::modulus()
                == qq.coords().0 && (qy.val() * qq.coords().2) % crate::fp::modulus() == qq.coords().1,
        decreases i,
    {
        i = i - 1;
        r.sqr();
        let mut lv = linedbl(&mut a, &qx, &qy);
        let bt = loop_digit(&b3, &b1, i);
        if bt == 1 {
            let lv2 = lineadd(&mut a, &p, &qx, &qy);
            proof {
                lv.lemma_reduced();
                lv2.lemma_reduced();
            }
            lv.smul(&lv2);
        }
        if bt == -1 {
            let lv2 = lineadd(&mut a, &np, &qx, &qy);
            proof {
                lv.lemma_reduced();
                lv2.lemma_reduced();
            }
            lv.smul(&lv2);
        }
        r.ssmul(&lv);
    }
    if NEGATIVE_X {
        r.conj();
    }
    proof {
        let qa = (qx.val(), qy.val());
        assert(affine_pair(pp, qq, pa, qa) && r.view() == ate_spec(pa, qa.0, qa.1));
    }
    r
}

/// The product `e(P, Q) e(R, S)` of two pairings before the final
/// exponentiation, sharing the squarings of one loop.
#[verifier::rlimit(60)]
#[verifier::spinoff_prover]
pub fn ate2(pp: &ECP2, qq: &ECP, rr: &ECP2, ss: &ECP) -> (res: FP12)
    requires
        pp.wf(),
        qq.wf(),
        rr.wf(),
        ss.wf(),
    ensures
        res.wf(),
        (pp.coords().2 == f2_zero() || qq.coords().2 == 0) && (rr.coords().2 == f2_zero()
            || ss.coords().2 == 0) ==> res.view() == f12_one(),
        pp.coords().2 != f2_zero() && qq.coords().2 != 0 && rr.coords().2 != f2_zero()
            && ss.coords().2 != 0 ==> exists|pa: G2Coords, qa: (int, int), ra: G2Coords, sa: (int, int)|
            affine_pair(pp, qq, pa, qa) && affine_pair(rr, ss, ra, sa) && res.view() == f12_red(
                f12_conj(ate2_loop(pa, qa.0, qa.1, ra, sa.0, sa.1, 1).0),
            ),
        (pp.coords().2 == f2_zero() || qq.coords().2 == 0) && rr.coords().2 != f2_zero()
            && ss.coords().2 != 0 ==> exists|ra: G2Coords, sa: (int, int)|
            affine_pair(rr, ss, ra, sa) && res.view() == ate_spec(ra, sa.0, sa.1),
        pp.coords().2 != f2_zero() && qq.coords().2 != 0 && (rr.coords().2 == f2_zero()
            || ss.coords().2 == 0) ==> exists|pa: G2Coords, qa: (int, int)|
            affine_pair(pp, qq, pa, qa) && res.view() == ate_spec(pa, qa.0, qa.1),
{
    if pp.is_infinity() || qq.is_infinity() {
        return ate(rr, ss);
    }
    if rr.is_infinity() || ss.is_infinity() {
        return ate(pp, qq);
    }
    let mut p = pp.copy();
    p.affine();
    let mut q = qq.copy();
    q.affine();
    let mut rp = rr.copy();
    rp.affine();
    let mut sp = ss.copy();
    sp.affine();
    let qx = q.getpx();
    let qy = q.getpy();
    let sx = sp.getpx();
    let sy = sp.getpy();
    let ghost pa = p.coords();
    let ghost ra = rp.coords();
    let mut a = p.copy();
    let mut b = rp.copy();
    let mut np = p.copy();
    np.neg();
    let mut nr = rp.copy();
    nr.neg();
    let (b3, b1) = lbits();
    let nb = b3.len();
    let mut r = FP12::new_int(1);
    proof {
        crate::fp2::lemma_f2_const_red();
        assert(f2_red((1int, 0int)) == crate::fp2::f2_one());
    }
    let mut i: usize = nb - 1;
    while i > 1
        invariant
            1 <= i <= nb - 1,
            nb == b3@.len(),
            forall|k: int| 0 <= k < b3@.len() ==> b3@[k] <= 1,
            forall|k: int| 0 <= k < b1@.len() ==> b1@[k] <= 1,
            a.wf(),
            b.wf(),
            p.wf(),
            np.wf(),
            rp.wf(),
            nr.wf(),
            qx.wf(),
            qy.wf(),
            sx.wf(),
            sy.wf(),
            r.wf(),
            b3@.len() == nbits(3 * (CURVE_BNX as nat)),
            forall|k: int| 0 <= k < b3@.len() ==> b3@[k] as nat == crate::big::bit(3 * (CURVE_BNX as nat), k as nat),
            b1@.len() == nbits(CURVE_BNX as nat),
            forall|k: int| 0 <= k < b1@.len() ==> b1@[k] as nat == crate::big::bit(CURVE_BNX as nat, k as nat),
            p.coords() == pa,
            np.coords() == neg2(pa),
            rp.coords() == ra,
            nr.coords() == neg2(ra),
            (r.view(), a.coords(), b.coords()) == ate2_loop(pa, qx.val(), qy.val(), ra, sx.val(), sy.val(), i as int),
            affine_pair(pp, qq, pa, (qx.val(), qy.val())),
            affine_pair(rr, ss, ra, (sx.val(), sy.val())),
        decreases i,
    {
        i = i - 1;
        r.sqr();
        let mut lv = linedbl(&mut a, &qx, &qy);
        let lv2 = linedbl(&mut b, &sx, &sy);
        proof {
            lv.lemma_reduced();
            lv2.lemma_reduced();
        }
        lv.smul(&lv2);
        r.ssmul(&lv);
        let bt = loop_digit(&b3, &b1, i);
        if bt == 1 {
            let mut lv = lineadd(&mut a, &p, &qx, &qy);
            let lv2 = lineadd(&mut b, &rp, &sx, &sy);
            proof {
                lv.lemma_reduced();
                lv2.lemma_reduced();
            }
            lv.smul(&lv2);
            r.ssmul(&lv);
        }
        if bt == -1 {
            let mut lv = lineadd(&mut a, &np, &qx, &qy);
            let lv2 = lineadd(&mut b, &nr, &sx, &sy);
            proof {
                lv.lemma_reduced();
                lv2.lemma_reduced();
            }
            lv.smul(&lv2);
            r.ssmul(&lv);
        }
    }
    if NEGATIVE_X {
        r.conj();
    }
    proof {
        let qa = (qx.val(), qy.val());
        let sa = (sx.val(), sy.val());
        assert(affine_pair(pp, qq, pa, qa) && affine_pair(rr, ss, ra, sa) && r.view() == f12_red(
            f12_conj(ate2_loop(pa, qa.0, qa.1, ra, sa.0, sa.1, 1).0),
        ));
    }
    r
}

/// The GLV decomposition of `e`: `e mod x^2` and the negation modulo the group
/// order of `e / x^2`, with `x` the curve parameter's magnitude.
pub open spec fn glv_spec(e: nat, i: int) -> nat {
    let x2 = (CURVE_BNX as nat) * (CURVE_BNX as nat);
    let q = curve_order();
    if i == 0 {
        e % x2
    } else {
        ((q - (e / x2) % q) % (q as int)) as nat
    }
}

/// The GLV digits reconstitute their input: `u0 - x^2 u1` is `e` modulo the
/// group order.
pub proof fn lemma_glv_reconstructs(e: nat)
    ensures
        ({
            let x2 = (CURVE_BNX as int) * (CURVE_BNX as int);
            (glv_spec(e, 0) - x2 * glv_spec(e, 1)) % (curve_order() as int) == (e as int) % (
            curve_order() as int)
        }),
{
    let x2 = (CURVE_BNX as int) * (CURVE_BNX as int);
    let q = curve_order() as int;
    lemma_order_positive();
    let e0 = e as int;
    let d0 = e0 % x2;
    let d1 = e0 / x2;
    vstd::arithmetic::div_mod::lemma_fundamental_div_mod(e0, x2);
    let u1 = glv_spec(e, 1) as int;
    assert(u1 == (q - d1 % q) % q);
    lemma_neg_mod(d1, q);
    let k1 = (u1 + d1) / q;
    let total = d0 - x2 * u1;
    assert(total == e0 + q * (-(x2 * k1))) by (nonlinear_arith)
        requires
            u1 + d1 == q * k1,
            e0 == x2 * d1 + d0,
            total == d0 - x2 * u1,
    ;
    vstd::arithmetic::div_mod::lemma_mod_multiples_vanish(-(x2 * k1), e0, q);
}

/// The GLV decomposition of a scalar into two halves.
pub fn glv(e: &Big) -> (u: Vec<Big>)
    ensures
        u@.len() == 2,
        u@[0].val() == glv_spec(e.val(), 0),
        u@[1].val() == glv_spec(e.val(), 1),
{
    let q = curve_order_big();
    proof {
        lemma_order_positive();
    }
    let x = Big::new_int(CURVE_BNX);
    let x2 = Big::smul(&x, &x);
    let u0 = e.rmod(&x2);
    let d1 = e.div(&x2);
    let u1 = Big::modneg(&d1, &q);
    let mut u: Vec<Big> = Vec::new();
    u.push(u0);
    u.push(u1);
    u
}

/// Big-endian bytes of a cube root of unity of the prime field, the constant
/// of the curve's endomorphism `(x, y) -> (c x, y)`.
pub open spec fn cru_bytes() -> Seq<u8> {
    seq![
        0x5fu8, 0x19, 0x67, 0x2f, 0xdf, 0x76, 0xce, 0x51, 0xba, 0x69, 0xc6, 0x07, 0x6a, 0x0f, 0x77,
        0xea, 0xdd, 0xb3, 0xa9, 0x3b, 0xe6, 0xf8, 0x96, 0x88, 0xde, 0x17, 0xd8, 0x13, 0x62, 0x0a,
        0x00, 0x02, 0x2e, 0x01, 0xff, 0xff, 0xff, 0xfe, 0xff, 0xfe,
    ]
}

pub open spec fn cru() -> int {
    crate::digits::be_val(cru_bytes()) % modulus()
}

/// The negation of a projective point of the curve.
pub open spec fn neg1(p: G1Coords) -> G1Coords {
    (p.0, (-p.1) % modulus(), p.2)
}

/// `a` is what scaling to `Z = 1` gives for `p`.
pub open spec fn affine1_of(p: G1Coords, a: G1Coords) -> bool {
    &&& p.2 == 0 ==> a == p
    &&& p.2 != 0 && crate::fp::invertible(p.2) ==> a.2 == 1 && (a.0 * p.2) % modulus() == p.0 && (
    a.1 * p.2) % modulus() == p.1
}

/// `u0 A + u1 B` with the GLV digits of `e`, shortened by negation where
/// that has fewer bits, `A = +-p` and `B = +-` the endomorphism image of the
/// affine `pa`.
pub open spec fn g1mul_spec(p: G1Coords, pa: G1Coords, e: nat) -> G1Coords {
    let u0 = glv_spec(e, 0);
    let u1 = glv_spec(e, 1);
    let b0 = if flips(u0) {
        neg1(p)
    } else {
        p
    };
    let phi = (m1(pa.0, cru()), pa.1, pa.2);
    let b1 = if flips(u1) {
        neg1(phi)
    } else {
        phi
    };
    add1_spec(mul1_from(b0, short_digit(u0), 0), mul1_from(b1, short_digit(u1), 0))
}

/// Multiplication `e P` in the first group by the GLV method: `P` and its
/// image under the curve's endomorphism, each by a half-length scalar,
/// negated where that shortens the scalar.
pub fn g1mul(p: &ECP, e: &Big) -> (r: ECP)
    requires
        p.wf(),
    ensures
        r.wf(),
        exists|pa: G1Coords| affine1_of(p.coords(), pa) && r.coords() == g1mul_spec(p.coords(), pa, e.val()),
{
    let mut rp = p.copy();
    let mut qp = p.copy();
    qp.affine();
    let ghost pa = qp.coords();
    let q = curve_order_big();
    proof {
        lemma_order_positive();
    }
    let cru_b: [u8; 40] = [
        0x5f, 0x19, 0x67, 0x2f, 0xdf, 0x76, 0xce, 0x51, 0xba, 0x69, 0xc6, 0x07, 0x6a, 0x0f, 0x77,
        0xea, 0xdd, 0xb3, 0xa9, 0x3b, 0xe6, 0xf8, 0x96, 0x88, 0xde, 0x17, 0xd8, 0x13, 0x62, 0x0a,
        0x00, 0x02, 0x2e, 0x01, 0xff, 0xff, 0xff, 0xfe, 0xff, 0xfe,
    ];
    assert(cru_b@ =~= cru_bytes());
    let c = FP::from_big_bytes(&cru_b);
    let u = glv(e);
    qp.mulx(&c);
    let mut u0 = u[0].copy();
    let mut u1 = u[1].copy();
    let np = u0.nbits();
    let t = Big::modneg(&u0, &q);
    let nn = t.nbits();
    assert(t.val() == neg_mod(u0.val()));
    if nn < np {
        u0 = t;
        rp.neg();
    }
    let np = u1.nbits();
    let t = Big::modneg(&u1, &q);
    let nn = t.nbits();
    assert(t.val() == neg_mod(u1.val()));
    if nn < np {
        u1 = t;
        qp.neg();
    }
    let r = rp.mul2(&u0, &qp, &u1);
    assert(affine1_of(p.coords(), pa) && r.coords() == g1mul_spec(p.coords(), pa, e.val()));
    r
}

/// `fi` is what inversion gives for the tower's Frobenius constant.
pub open spec fn frob_inverse(fi: F2) -> bool {
    crate::fp4::f2_invertible(frob_const()) ==> f2_red(crate::fp2::f2_mul(frob_const(), fi))
        == crate::fp2::f2_one()
}

/// The `i`-th image of `p` under the twist's Frobenius with constant `f`.
pub open spec fn frob2_iter(p: G2Coords, f: F2, i: nat) -> G2Coords
    decreases i,
{
    if i == 0 {
        p
    } else {
        frob2_spec(frob2_iter(p, f, (i - 1) as nat), f)
    }
}

/// Point `i` of `g2mul`: the `i`-th Frobenius image, negated where the digit was.
pub open spec fn g2_base(p: G2Coords, f: F2, e: nat, i: nat) -> G2Coords {
    if flips(gs_spec(e, i as int)) {
        neg2(frob2_iter(p, f, i))
    } else {
        frob2_iter(p, f, i)
    }
}

/// The sum of the first `i` terms `u_k Q_k` of `g2mul`, from the point at infinity.
pub open spec fn g2_sum(p: G2Coords, f: F2, e: nat, i: nat) -> G2Coords
    decreases i,
{
    if i == 0 {
        (f2_zero(), f2_red((1int, 0int)), f2_zero())
    } else {
        let k = (i - 1) as nat;
        add2_spec(
            g2_sum(p, f, e, k),
            mul2_from(g2_base(p, f, e, k), short_digit(gs_spec(e, k as int)), 0),
        )
    }
}

/// Multiplication `e P` in the second group by Galbraith and Scott's method:
/// the scalar is split by `gs`, each part applied to a Frobenius image of
/// `P` (with the inverse of the tower's Frobenius constant, as the twist is of
/// M type), negated where that shortens the part, and the products summed.
pub fn g2mul(p: &ECP2, e: &Big) -> (r: ECP2)
    requires
        p.wf(),
    ensures
        r.wf(),
        exists|fi: F2| frob_inverse(fi) && r.coords() == g2_sum(p.coords(), fi, e.val(), 4),
{
    let q = curve_order_big();
    proof {
        lemma_order_positive();
    }
    let fc = frob_constant();
    let f = fc.inverse();
    let ghost fi = f.view();
    proof {
        crate::fp2::lemma_f2_red((limbs_val(fra_seq()), limbs_val(frb_seq())), f2_zero());
        assert(frob_inverse(fi));
    }
    let u = gs(e);
    let mut pts: Vec<ECP2> = Vec::new();
    pts.push(p.copy());
    let mut i: usize = 1;
    while i < 4
        invariant
            1 <= i <= 4,
            pts@.len() == i,
            f.wf(),
            f.view() == fi,
            forall|k: int| 0 <= k < pts@.len() ==> (#[trigger] pts@[k]).wf() && pts@[k].coords() == frob2_iter(p.coords(), fi, k as nat),
        decreases 4 - i,
    {
        let mut t = pts[i - 1].copy();
        t.frob(&f);
        pts.push(t);
        i = i + 1;
    }
    let mut r = ECP2::new();
    let mut i: usize = 0;
    while i < 4
        invariant
            i <= 4,
            pts@.len() == 4,
            u@.len() == 4,
            q.val() == curve_order(),
            q.val() > 0,
            r.wf(),
            forall|k: int| 0 <= k < 4 ==> (#[trigger] pts@[k]).wf() && pts@[k].coords() == frob2_iter(p.coords(), fi, k as nat),
            forall|k: int| 0 <= k < 4 ==> (#[trigger] u@[k]).val() == gs_spec(e.val(), k),
            r.coords() == g2_sum(p.coords(), fi, e.val(), i as nat),
        decreases 4 - i,
    {
        let np = u[i].nbits();
        let t = Big::modneg(&u[i], &q);
        let nn = t.nbits();
        assert(t.val() == neg_mod(u@[i as int].val()));
        assert((nn < np) == flips(u@[i as int].val()));
        let mut pt = pts[i].copy();
        let d = if nn < np {
            pt.neg();
            t
        } else {
            u[i].copy()
        };
        let s = pt.mul(&d);
        r.add(&s);
        i = i + 1;
    }
    assert(frob_inverse(fi) && r.coords() == g2_sum(p.coords(), fi, e.val(), 4));
    r
}

/// An accumulator for a product of pairings: `ATE_BITS` slots, all one.
pub fn initmp() -> (r: Vec<FP12>)
    ensures
        r@.len() == ATE_BITS,
        forall|i: int| 0 <= i < ATE_BITS ==> (#[trigger] r@[i]).wf() && r@[i].view() == f12_one()
            && r@[i].tag() == ONE,
{
    let mut r: Vec<FP12> = Vec::new();
    let mut i: usize = 0;
    while i < ATE_BITS
        invariant
            i <= ATE_BITS,
            r@.len() == i,
            forall|k: int| 0 <= k < i ==> (#[trigger] r@[k]).wf() && r@[k].view() == f12_one()
                && r@[k].tag() == ONE,
        decreases ATE_BITS - i,
    {
        let mut v = FP12::new();
        v.one();
        r.push(v);
        i = i + 1;
    }
    r
}

/// The Miller loop over an accumulator of line values: one squaring and one
/// product per slot from the top down, the sign correction, then slot 0.
pub fn miller(r: &[FP12]) -> (res: FP12)
    requires
        r@.len() == ATE_BITS,
        forall|i: int| 0 <= i < ATE_BITS ==> (#[trigger] r@[i]).wf(),
    ensures
        res.wf(),
        res.view() == miller_spec(r@.map_values(|v: FP12| v.view())),
{
    let ghost rv = r@.map_values(|v: FP12| v.view());
    let mut res = FP12::new();
    res.one();
    let mut i: usize = ATE_BITS;
    while i > 1
        invariant
            1 <= i <= ATE_BITS,
            r@.len() == ATE_BITS,
            forall|k: int| 0 <= k < ATE_BITS ==> (#[trigger] r@[k]).wf(),
            rv == r@.map_values(|v: FP12| v.view()),
            res.wf(),
            res.view() == miller_acc(rv, i as int),
        decreases i,
    {
        i = i - 1;
        res.sqr();
        res.ssmul(&r[i]);
    }
    if NEGATIVE_X {
        res.conj();
    }
    res.ssmul(&r[0]);
    res
}

/// `y` to the signed curve parameter, halved when `halve` holds.
fn powx(y: &FP12, halve: bool) -> (r: FP12)
    requires
        y.wf(),
    ensures
        r.wf(),
        r.view() == pow_x(y.view(), if halve { 1nat } else { 0nat }),
{
    proof {
        vstd::arithmetic::power2::lemma2_to64();
    }
    let x = if halve { Big::new_int(CURVE_BNX / 2) } else { Big::new_int(CURVE_BNX) };
    let mut r = y.pow(&x);
    if NEGATIVE_X {
        r.conj();
    }
    r
}

/// The easy part of the final exponentiation.
fn fexp_easy_part(m: &FP12, f: &FP2) -> (r: FP12)
    requires
        m.wf(),
        f.wf(),
        f.view() == frob_const(),
    ensures
        r.wf(),
        exists|lv: F12| inverse_of(m.view(), lv) && r.view() == fexp_easy(m.view(), lv),
{
    let mut r = m.copy();
    let mut lv = r.copy();
    lv.inverse();
    let ghost lvv = lv.view();
    proof {
        lv.lemma_reduced();
    }
    r.conj();
    r.mul(&lv);
    lv = r.copy();
    r.frob(f);
    r.frob(f);
    r.mul(&lv);
    assert(inverse_of(m.view(), lvv));
    assert(r.view() == fexp_easy(m.view(), lvv)) by {
        reveal(fexp_easy);
    }
    r
}

/// The hard part of the final exponentiation.
#[verifier::rlimit(40)]
fn fexp_hard_part(r: &FP12, f: &FP2) -> (res: FP12)
    requires
        r.wf(),
        f.wf(),
        f.view() == frob_const(),
    ensures
        res.wf(),
        res.view() == fexp_hard(r.view()),
{
    let mut y0 = r.copy();
    y0.usqr();
    let mut y1 = powx(&y0, false);
    let mut y2 = powx(&y1, true);
    let mut y3 = r.copy();
    y3.conj();
    y1.mul(&y3);
    y1.conj();
    y1.mul(&y2);
    y2 = powx(&y1, false);
    y3 = powx(&y2, false);
    let ghost y1a = y1.view();
    proof {
        y1.lemma_reduced();
        crate::fp12::lemma_conj_involution(y1a);
    }
    y1.conj();
    y3.mul(&y1);
    y1.conj();
    assert(y1.view() == y1a);
    y1.frob(f);
    y1.frob(f);
    y1.frob(f);
    y2.frob(f);
    y2.frob(f);
    y1.mul(&y2);
    y2 = powx(&y3, false);
    y2.mul(&y0);
    y2.mul(r);
    y1.mul(&y2);
    y2 = y3.copy();
    y2.frob(f);
    y1.mul(&y2);
    y1.reduce();
    assert(y1.view() == fexp_hard(r.view())) by {
        reveal(fexp_hard);
    }
    y1
}

/// The final exponentiation: the easy part, then the hard part.
pub fn fexp(m: &FP12) -> (r: FP12)
    requires
        m.wf(),
    ensures
        r.wf(),
        exists|lv: F12| inverse_of(m.view(), lv) && r.view() == fexp_hard(fexp_easy(m.view(), lv)),
{
    let f = frob_constant();
    let e = fexp_easy_part(m, &f);
    fexp_hard_part(&e, &f)
}

} // verus!
