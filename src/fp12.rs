//! The degree-twelve extension `Fp4[v] / (v^3 - s)` on top of the quartic
//! extension, the target field of the pairing.
//!
//! An element `a + b v + c v^2` carries a sparsity tag. The tag is part of the
//! element's well-formedness: a tag promises a pattern of zero coefficients,
//! which the fast multiplication paths rely on.

use vstd::prelude::*;
use crate::digits::be_val;
use crate::big::{Big, bit, nbits, lemma_nbits_bound, hex_value, all_hex};
use vstd::arithmetic::power2::pow2;
use crate::fp::{FP, MODBYTES, modulus};
use crate::fp2::{
    F2, FP2, f2_add, f2_neg, f2_mul, f2_zero, f2_mul_ip, f2_red, lemma_f2_const_red, lemma_f2_ring,
    lemma_f2_red,
};
use crate::fp4::{
    F4, FP4, f4_add, f4_sub, f4_neg, f4_mul, f4_pmul, f4_conj, f4_nconj, f4_times_i, f4_frob,
    f4_zero, f4_one, f4_red, f4_norm, f2_invertible, lemma_f4_red, lemma_f4_ring, lemma_f4_assoc,
};

verus! {

/// Tag: the element is zero.
pub const ZERO: usize = 0;

/// Tag: the element is one.
pub const ONE: usize = 1;

/// Tag: `b` is zero and `c` has only its `s` part, the shape of a line function.
pub const SPARSER: usize = 2;

/// Tag: `b` has only its `s` part, the shape of a product of two line functions.
pub const SPARSE: usize = 3;

/// Tag: no shape is promised.
pub const DENSE: usize = 4;

pub type F12 = (F4, F4, F4);

pub open spec fn f12_mul(x: F12, y: F12) -> F12 {
    (
        f4_add(f4_mul(x.0, y.0), f4_times_i(f4_add(f4_mul(x.1, y.2), f4_mul(x.2, y.1)))),
        f4_add(f4_add(f4_mul(x.0, y.1), f4_mul(x.1, y.0)), f4_times_i(f4_mul(x.2, y.2))),
        f4_add(f4_add(f4_mul(x.0, y.2), f4_mul(x.1, y.1)), f4_mul(x.2, y.0)),
    )
}

pub open spec fn f12_red(x: F12) -> F12 {
    (f4_red(x.0), f4_red(x.1), f4_red(x.2))
}

pub open spec fn f12_one() -> F12 {
    (f4_one(), f4_zero(), f4_zero())
}

pub open spec fn f12_zero() -> F12 {
    (f4_zero(), f4_zero(), f4_zero())
}

/// The conjugation `a - b v + c v^2` in this basis: conjugates `a` and `c`
/// and negates the conjugate of `b`.
pub open spec fn f12_conj(x: F12) -> F12 {
    (f4_conj(x.0), f4_nconj(x.1), f4_conj(x.2))
}

pub open spec fn f4_dbl(x: F4) -> F4 {
    f4_add(x, x)
}

pub open spec fn f4_triple(x: F4) -> F4 {
    f4_add(x, f4_dbl(x))
}

/// Granger and Scott's squaring formula. On the cyclotomic subgroup, where all
/// Miller loop outputs land after the easy part of the final exponentiation,
/// it equals the square.
pub open spec fn f12_usqr(x: F12) -> F12 {
    (
        f4_add(f4_triple(f4_mul(x.0, x.0)), f4_dbl(f4_nconj(x.0))),
        f4_add(f4_triple(f4_times_i(f4_mul(x.2, x.2))), f4_dbl(f4_conj(x.1))),
        f4_add(f4_triple(f4_mul(x.1, x.1)), f4_dbl(f4_nconj(x.2))),
    )
}

/// The Frobenius map with constant `f`; `f^2` and `f^3` scale the higher parts.
pub open spec fn f12_frob(x: F12, f: F2) -> F12 {
    let f2 = crate::fp2::f2_mul(f, f);
    let f3 = crate::fp2::f2_mul(f, f2);
    (f4_frob(x.0, f3), f4_pmul(f4_frob(x.1, f3), f), f4_pmul(f4_frob(x.2, f3), f2))
}

/// The cofactors of the adjugate of `x`.
pub open spec fn adj0(x: F12) -> F4 {
    f4_sub(f4_mul(x.0, x.0), f4_times_i(f4_mul(x.1, x.2)))
}

pub open spec fn adj1(x: F12) -> F4 {
    f4_sub(f4_times_i(f4_mul(x.2, x.2)), f4_mul(x.0, x.1))
}

pub open spec fn adj2(x: F12) -> F4 {
    f4_sub(f4_mul(x.1, x.1), f4_mul(x.0, x.2))
}

/// The norm of `x` into the quartic extension: `x` times its adjugate.
pub open spec fn f12_norm(x: F12) -> F4 {
    f4_add(
        f4_add(f4_times_i(f4_mul(x.1, adj2(x))), f4_mul(x.0, adj0(x))),
        f4_times_i(f4_mul(x.2, adj1(x))),
    )
}

/// Whether an element of the quartic extension has an inverse.
pub open spec fn f4_invertible(n: F4) -> bool {
    f2_invertible(f4_norm(f4_red(n)))
}

/// Digit `i` of the signed binary form of `e` read off `3e` and `e`, in
/// `{-1, 0, 1}`.
pub open spec fn naf_digit(e: nat, i: nat) -> int {
    bit(3 * e, i) - bit(e, i)
}

/// One step of signed binary exponentiation: a cyclotomic squaring, then a
/// product by the base, by its conjugate, or by nothing.
pub open spec fn pow_step(w: F12, x: F12, d: int) -> F12 {
    let s = f12_red(f12_usqr(w));
    if d == 1 {
        f12_red(f12_mul(s, x))
    } else if d == -1 {
        f12_red(f12_mul(s, f12_red(f12_conj(x))))
    } else {
        s
    }
}

/// The accumulator once the digits from `top - 1` down to `i` are done.
pub open spec fn pow_from(x: F12, e: nat, i: nat, top: nat) -> F12
    decreases top - i,
{
    if i >= top {
        x
    } else {
        pow_step(pow_from(x, e, i + 1, top), x, naf_digit(e, i))
    }
}

/// The exponent that `pow_from` builds once the digits from `top - 1` down to
/// `i` are done, counting a squaring as doubling and a product by the base or
/// its conjugate as adding `+1` or `-1`.
pub open spec fn naf_exp(e: nat, i: nat, top: nat) -> int
    decreases top - i,
{
    if i >= top {
        1
    } else {
        2 * naf_exp(e, i + 1, top) + naf_digit(e, i)
    }
}

/// The signed digits below `i`, summed: `sum naf_digit(e, k) 2^k` for `k < i`.
pub open spec fn naf_sum(e: nat, i: nat) -> int
    decreases i,
{
    if i == 0 {
        0
    } else {
        naf_sum(e, (i - 1) as nat) + naf_digit(e, (i - 1) as nat) * pow2((i - 1) as nat)
    }
}

proof fn lemma_naf_sum(e: nat, i: nat)
    ensures
        naf_sum(e, i) == crate::big::bits_sum(3 * e, i) - crate::big::bits_sum(e, i),
    decreases i,
{
    if i > 0 {
        lemma_naf_sum(e, (i - 1) as nat);
        let k = (i - 1) as nat;
        assert((bit(3 * e, k) - bit(e, k)) * pow2(k) == bit(3 * e, k) * pow2(k) - bit(e, k) * pow2(k))
            by (nonlinear_arith);
    }
}

proof fn lemma_naf_exp_sum(e: nat, i: nat, top: nat)
    requires
        i <= top,
    ensures
        naf_exp(e, i, top) * pow2(i) + naf_sum(e, i) == pow2(top) + naf_sum(e, top),
    decreases top - i,
{
    if i < top {
        lemma_naf_exp_sum(e, i + 1, top);
        vstd::arithmetic::power2::lemma_pow2_unfold(i + 1);
        let a = naf_exp(e, i + 1, top);
        let d = naf_digit(e, i);
        assert((2 * a + d) * pow2(i) == a * (2 * pow2(i)) + d * pow2(i)) by (nonlinear_arith);
    }
}

/// The signed binary recoding of `pow` is exact: with squarings that double
/// the exponent and products by the base or its conjugate that add `+1` or
/// `-1`, the loop builds the exponent `e`.
pub proof fn lemma_pow_recoding(e: nat)
    requires
        e >= 1,
    ensures
        naf_exp(e, 1, (nbits(3 * e) - 1) as nat) == e,
{
    let top = (nbits(3 * e) - 1) as nat;
    lemma_nbits_bound(3 * e, 0);
    crate::big::lemma_nbits_low(3 * e);
    vstd::arithmetic::power2::lemma2_to64();
    vstd::arithmetic::power2::lemma_pow2_unfold(top + 1);
    lemma_naf_exp_sum(e, 1, top);
    lemma_naf_sum(e, top);
    lemma_naf_sum(e, 1);
    crate::big::lemma_bits_sum(3 * e, top);
    crate::big::lemma_bits_sum(e, top);
    // 3e lies in [2^top, 2^(top + 1)) and e below 2^top
    assert(pow2(top + 1) == 2 * pow2(top));
    assert(3 * e < 2 * pow2(top));
    assert(e < pow2(top));
    vstd::arithmetic::div_mod::lemma_small_mod(e, pow2(top));
    vstd::arithmetic::div_mod::lemma_fundamental_div_mod((3 * e) as int, pow2(top) as int);
    let pt = pow2(top) as int;
    let t3 = (3 * e) as int;
    vstd::arithmetic::div_mod::lemma_mod_bound(t3, pt);
    assert(t3 / pt == 1) by (nonlinear_arith)
        requires
            t3 == pt * (t3 / pt) + t3 % pt,
            0 <= t3 % pt < pt,
            pt <= t3 < 2 * pt,
    ;
    assert(naf_sum(e, 1) == 0) by {
        reveal_with_fuel(crate::big::bits_sum, 2);
        assert(pow2(0) == 1);
        assert(bit(3 * e, 0) == bit(e, 0));
    }
    assert(naf_exp(e, 1, top) * 2 == 2 * e);
}

/// The exponents of the two ladder slots once bits `bts - 1` down to `i` of
/// `e` are done, counting a squaring as doubling and a product as a sum.
pub open spec fn ladder_exp(e: u32, i: int, bts: int) -> (int, int)
    decreases bts - i,
{
    if i >= bts {
        (0, 1)
    } else {
        let (a, b) = ladder_exp(e, i + 1, bts);
        if (e >> (i as u32)) & 1 == 0 {
            (2 * a, a + b)
        } else {
            (a + b, 2 * b)
        }
    }
}

/// The ladder of `pinpow` is exact: for `e < 2^bts`, with squarings that
/// double the exponent and products that add, the slots hold the exponents
/// `(e / 2^i, e / 2^i + 1)`, so the first slot ends with `e`.
pub proof fn lemma_ladder_exponent(e: u32, i: int, bts: int)
    requires
        0 <= i <= bts <= 31,
        e < pow2(bts as nat),
    ensures
        ladder_exp(e, i, bts) == (e as int / pow2(i as nat) as int, e as int / pow2(i as nat) as int + 1),
    decreases bts - i,
{
    vstd::arithmetic::power2::lemma_pow2_pos(i as nat);
    if i >= bts {
        vstd::arithmetic::div_mod::lemma_basic_div(e as int, pow2(i as nat) as int);
    } else {
        lemma_ladder_exponent(e, i + 1, bts);
        lemma_half_pow2(e as nat, i as nat);
        vstd::bits::lemma_u32_shr_is_div(e, i as u32);
        let sh: u32 = e >> (i as u32);
        assert(sh & 1 == sh % 2) by (bit_vector);
        let c = e as int / pow2(i as nat) as int;
        vstd::arithmetic::div_mod::lemma_fundamental_div_mod(c, 2);
    }
}

/// `x^e` by signed binary exponentiation; on the cyclotomic subgroup, where
/// the squaring is exact and the conjugate is the inverse, this is the power:
/// `lemma_pow_recoding` shows that the exponent the steps build is `e`.
pub open spec fn f12_pow(x: F12, e: nat) -> F12 {
    pow_from(x, e, 1, (nbits(3 * e) - 1) as nat)
}

/// The ladder state `(x^k, x^(k+1))` (`lemma_ladder_exponent` gives `k`) once
/// bits `bts - 1` down to `i` of `e`
/// are done.
pub open spec fn ladder(x: F12, e: u32, i: int, bts: int) -> (F12, F12)
    decreases bts - i,
{
    if i >= bts {
        (f12_one(), x)
    } else {
        let (r0, r1) = ladder(x, e, i + 1, bts);
        if (e >> (i as u32)) & 1 == 0 {
            (f12_red(f12_usqr(r0)), f12_red(f12_mul(r1, r0)))
        } else {
            (f12_red(f12_mul(r0, r1)), f12_red(f12_usqr(r1)))
        }
    }
}

/// Entry of an eight-entry table for a signed odd index `b`: entry
/// `(|b| - 1) / 2`, conjugated when `b` is negative.
pub open spec fn sel_spec(g: Seq<F12>, b: int) -> F12 {
    if b > 0 {
        g[(b - 1) / 2]
    } else {
        f12_red(f12_conj(g[(-b - 1) / 2]))
    }
}

/// The table of `pow4`: `q0` times every product of a subset of `q1, q2, q3`,
/// entry `k` holding `q1` for bit 0 of `k`, `q2` for bit 1 and `q3` for bit 2.
pub open spec fn pow4_table(q: Seq<F12>) -> Seq<F12> {
    let g0 = q[0];
    let g1 = f12_red(f12_mul(g0, q[1]));
    let g2 = f12_red(f12_mul(g0, q[2]));
    let g3 = f12_red(f12_mul(g1, q[2]));
    seq![
        g0,
        g1,
        g2,
        g3,
        f12_red(f12_mul(g0, q[3])),
        f12_red(f12_mul(g1, q[3])),
        f12_red(f12_mul(g2, q[3])),
        f12_red(f12_mul(g3, q[3])),
    ]
}

/// 1 when the first exponent is even: it is made odd by adding this.
pub open spec fn pow4_parity(u: Seq<nat>) -> nat {
    (1 - u[0] % 2) as nat
}

pub open spec fn max_nat(a: nat, b: nat) -> nat {
    if a > b {
        a
    } else {
        b
    }
}

/// Number of signed digits: one more than the longest exponent (the first one
/// made odd), the length held below `2^31`.
pub open spec fn pow4_len(u: Seq<nat>) -> nat {
    let t0 = u[0] + pow4_parity(u);
    let mx = max_nat(max_nat(max_nat(nbits(t0), nbits(u[1])), nbits(u[2])), nbits(u[3]));
    if mx >= 0x7fff_ffff {
        0x7fff_ffff
    } else {
        mx + 1
    }
}

/// Sign digit `i`: `+1` at the top, else `+1` or `-1` as bit `i + 1` of the
/// odd first exponent is 1 or 0, so that the signs recode it.
pub open spec fn pow4_sign(u: Seq<nat>, i: int) -> int {
    let t0 = u[0] + pow4_parity(u);
    if i == pow4_len(u) - 1 {
        1
    } else if (t0 / pow2((i + 1) as nat)) % 2 == 1 {
        1
    } else {
        -1
    }
}

/// What is left of exponent `t` after `i` recoding steps: each step takes the
/// low bit as a digit of the current sign, borrowing one when the sign is
/// negative.
pub open spec fn pow4_rest(u: Seq<nat>, t: nat, i: nat) -> nat
    decreases i,
{
    if i == 0 {
        t
    } else {
        let p = pow4_rest(u, t, (i - 1) as nat);
        p / 2 + (if pow4_sign(u, i - 1) == -1 && p % 2 == 1 {
            1nat
        } else {
            0nat
        })
    }
}

/// Table index of step `i`: the low bits of the other three exponents.
pub open spec fn pow4_index(u: Seq<nat>, i: nat) -> int {
    ((pow4_rest(u, u[1], i) % 2) + 2 * (pow4_rest(u, u[2], i) % 2) + 4 * (pow4_rest(u, u[3], i)
        % 2)) as int
}

/// The accumulator of `pow4` once digits from the top down to `i` are done:
/// a cyclotomic squaring, then the signed table entry, per digit.
pub open spec fn pow4_acc(g: Seq<F12>, u: Seq<nat>, i: int) -> F12
    decreases pow4_len(u) - i,
{
    let top = pow4_len(u) - 1;
    if i >= top {
        sel_spec(g, 2 * pow4_index(u, top as nat) + 1)
    } else {
        f12_red(
            f12_mul(
                f12_red(f12_usqr(pow4_acc(g, u, i + 1))),
                sel_spec(g, pow4_sign(u, i) * (2 * pow4_index(u, i as nat) + 1)),
            ),
        )
    }
}

/// `q0^u0 q1^u1 q2^u2 q3^u3` by the joint signed-digit method, with the
/// division by `q0` that undoes making the first exponent odd. On the
/// cyclotomic subgroup this is the product of the four powers: the signed
/// digits reconstruct each exponent (`lemma_pow4_recodes_first`,
/// `lemma_pow4_recodes_others`).
pub open spec fn pow4_spec(q: Seq<F12>, u: Seq<nat>) -> F12 {
    let p = pow4_acc(pow4_table(q), u, 0);
    if pow4_parity(u) == 1 {
        f12_red(f12_mul(f12_red(f12_conj(q[0])), p))
    } else {
        p
    }
}

/// The signed digits of exponent `j` below `n`, summed: `sum s_i b_i 2^i`,
/// `s_i` the sign and `b_i` the low bit of what is left of exponent `j`
/// (for `j = 0`, `b_i = 1`).
pub open spec fn pow4_digits_sum(u: Seq<nat>, j: int, n: nat) -> int
    decreases n,
{
    if n == 0 {
        0
    } else {
        let i = (n - 1) as nat;
        let b: int = if j == 0 {
            1
        } else {
            (pow4_rest(u, u[j], i) % 2) as int
        };
        pow4_digits_sum(u, j, i) + pow4_sign(u, i as int) * b * pow2(i)
    }
}

proof fn lemma_rest_step(u: Seq<nat>, t: nat, i: nat)
    ensures
        pow4_rest(u, t, i) == pow4_sign(u, i as int) * ((pow4_rest(u, t, i) % 2) as int) + 2
            * pow4_rest(u, t, i + 1),
        pow4_rest(u, t, i + 1) <= pow4_rest(u, t, i) / 2 + pow4_rest(u, t, i) % 2,
        pow4_sign(u, i as int) == 1 ==> pow4_rest(u, t, i + 1) == pow4_rest(u, t, i) / 2,
{
    let p = pow4_rest(u, t, i);
    assert(p == 2 * (p / 2) + p % 2);
}

/// The recoding reconstructs exponents 1 to 3: `sum s_i b_i 2^i` over the
/// `pow4_len(u)` digits is `u[j]`.
pub proof fn lemma_pow4_recodes_others(u: Seq<nat>, j: int)
    requires
        u.len() == 4,
        1 <= j < 4,
        pow4_len(u) < 0x7fff_ffff,
    ensures
        pow4_digits_sum(u, j, pow4_len(u)) == u[j],
{
    let nb = pow4_len(u);
    let t0 = u[0] + pow4_parity(u);
    let mx = max_nat(max_nat(max_nat(nbits(t0), nbits(u[1])), nbits(u[2])), nbits(u[3]));
    assert(nb == mx + 1);
    assert(nbits(u[j]) <= mx);
    lemma_nbits_bound(u[j], 0);
    vstd::arithmetic::power2::lemma2_to64();
    if nbits(u[j]) < mx {
        vstd::arithmetic::power2::lemma_pow2_strictly_increases(nbits(u[j]), mx);
    }
    assert(u[j] < pow2(mx));
    lemma_recode_inv(u, j, nb, (nb - 1) as nat);
    lemma_recode_inv(u, j, nb, nb);
    let r = pow4_rest(u, u[j], (nb - 1) as nat);
    lemma_rest_step(u, u[j], (nb - 1) as nat);
    assert(pow4_sign(u, nb - 1) == 1);
    assert(pow2(0) == 1);
    assert(r <= 1);
    assert(pow4_rest(u, u[j], nb) == 0);
    assert(pow2(nb) * 0 == 0);
}

/// The recoding reconstructs the first exponent made odd: `sum s_i 2^i` over
/// the `pow4_len(u)` digits is `u[0] + pow4_parity(u)`.
pub proof fn lemma_pow4_recodes_first(u: Seq<nat>)
    requires
        u.len() == 4,
        pow4_len(u) < 0x7fff_ffff,
    ensures
        pow4_digits_sum(u, 0, pow4_len(u)) == u[0] + pow4_parity(u),
{
    let nb = pow4_len(u);
    let t0 = u[0] + pow4_parity(u);
    let mx = max_nat(max_nat(max_nat(nbits(t0), nbits(u[1])), nbits(u[2])), nbits(u[3]));
    assert(nb == mx + 1);
    vstd::arithmetic::power2::lemma2_to64();
    lemma_nbits_bound(t0, 0);
    if nbits(t0) < nb {
        vstd::arithmetic::power2::lemma_pow2_strictly_increases(nbits(t0), nb);
    }
    lemma_first_sum(u, (nb - 1) as nat);
    crate::big::lemma_bits_sum(t0, nb);
    vstd::arithmetic::div_mod::lemma_small_mod(t0, pow2(nb));
    assert(pow4_sign(u, nb - 1) == 1);
}

/// `sum_{i < n} s_i 2^i == bits_sum(t0, n + 1) - 2^n` below the top digit.
proof fn lemma_first_sum(u: Seq<nat>, n: nat)
    requires
        u.len() == 4,
        n <= pow4_len(u) - 1,
    ensures
        pow4_digits_sum(u, 0, n) == crate::big::bits_sum(u[0] + pow4_parity(u), n + 1) - pow2(n),
    decreases n,
{
    let t0 = u[0] + pow4_parity(u);
    vstd::arithmetic::power2::lemma2_to64();
    if n == 0 {
        reveal_with_fuel(crate::big::bits_sum, 2);
        assert(pow2(0) == 1);
        assert(t0 % 2 == 1);
        assert(bit(t0, 0) == 1);
    } else {
        let k = (n - 1) as nat;
        lemma_first_sum(u, k);
        vstd::arithmetic::power2::lemma_pow2_unfold(n);
        let b = bit(t0, n);
        assert(pow4_sign(u, k as int) == 2 * b - 1);
        assert((2 * b - 1) * 1 * pow2(k) == b * pow2(n) - pow2(k)) by (nonlinear_arith)
            requires
                pow2(n) == 2 * pow2(k),
        ;
    }
}

/// `u[j] == sum_{k < i} s_k b_k 2^k + 2^i rest_i` and `rest_i <= 2^(nb-1-i)`.
proof fn lemma_recode_inv(u: Seq<nat>, j: int, nb: nat, i: nat)
    requires
        u.len() == 4,
        1 <= j < 4,
        nb >= 1,
        u[j] < pow2((nb - 1) as nat),
        i <= nb,
    ensures
        (pow4_digits_sum(u, j, i) + pow2(i) * pow4_rest(u, u[j], i)) == u[j],
        i <= nb - 1 ==> pow4_rest(u, u[j], i) <= pow2((nb - 1 - i) as nat),
    decreases i,
{
    vstd::arithmetic::power2::lemma2_to64();
    if i == 0 {
        assert(pow2(0) == 1);
        assert(u[j] <= pow2((nb - 1) as nat));
    } else {
        let k = (i - 1) as nat;
        lemma_recode_inv(u, j, nb, k);
        lemma_rest_step(u, u[j], k);
        vstd::arithmetic::power2::lemma_pow2_unfold(i);
        let p = pow4_rest(u, u[j], k);
        let q = pow4_rest(u, u[j], i);
        let sg = pow4_sign(u, k as int);
        let b = (p % 2) as int;
        assert(pow2(k) * p == sg * b * pow2(k) + pow2(i) * q) by (nonlinear_arith)
            requires
                p == sg * b + 2 * q,
                pow2(i) == 2 * pow2(k),
        ;
        if i <= nb - 1 {
            let m = (nb - 1 - i) as nat;
            vstd::arithmetic::power2::lemma_pow2_unfold(m + 1);
            assert(nb - 1 - k == m + 1);
            assert(p <= 2 * pow2(m));
            assert(q <= pow2(m));
        }
    }
}

proof fn lemma_half_pow2(t: nat, i: nat)
    ensures
        (t / pow2(i)) / 2 == t / pow2(i + 1),
        pow2(i) > 0,
{
    vstd::arithmetic::power2::lemma_pow2_pos(i);
    vstd::arithmetic::power2::lemma_pow2_unfold(i + 1);
    vstd::arithmetic::div_mod::lemma_div_denominator(t as int, pow2(i) as int, 2);
    assert(pow2(i) * 2 == pow2(i + 1));
}

/// Number of bytes in the serialised form of an element.
pub const FP12_BYTES: usize = 576;

/// Value of the `k`-th field-sized big-endian block of `w`.
pub open spec fn block(w: Seq<u8>, k: int) -> int {
    be_val(w.subrange(48 * k, 48 * k + 48))
}

/// The element that the first twelve blocks of `w` encode, each reduced, in the
/// order `a`, `b`, `c` and, within each, the quadratic parts and their
/// coefficients, most significant nesting first.
pub open spec fn f12_of_bytes(w: Seq<u8>) -> F12 {
    let m = modulus();
    (
        ((block(w, 0) % m, block(w, 1) % m), (block(w, 2) % m, block(w, 3) % m)),
        ((block(w, 4) % m, block(w, 5) % m), (block(w, 6) % m, block(w, 7) % m)),
        ((block(w, 8) % m, block(w, 9) % m), (block(w, 10) % m, block(w, 11) % m)),
    )
}

/// Twelve non-empty hexadecimal tokens lead the sequence.
pub open spec fn hex_tokens_ok(ts: Seq<Seq<u8>>) -> bool {
    ts.len() >= 12 && forall|k: int| 0 <= k < 12 ==> (#[trigger] ts[k]).len() > 0 && all_hex(ts[k])
}

/// The element whose coefficients the first twelve tokens write in
/// hexadecimal, each reduced, in the order of `f12_of_bytes`.
pub open spec fn f12_of_hex(ts: Seq<Seq<u8>>) -> F12 {
    let m = modulus();
    (
        ((hex_value(ts[0]) % m, hex_value(ts[1]) % m), (hex_value(ts[2]) % m, hex_value(ts[3]) % m)),
        ((hex_value(ts[4]) % m, hex_value(ts[5]) % m), (hex_value(ts[6]) % m, hex_value(ts[7]) % m)),
        ((hex_value(ts[8]) % m, hex_value(ts[9]) % m), (hex_value(ts[10]) % m, hex_value(ts[11])
            % m)),
    )
}

/// Lower-case hexadecimal digit of a nibble.
pub open spec fn hex_char(n: int) -> u8 {
    if n < 10 {
        (48 + n) as u8
    } else {
        (87 + n) as u8
    }
}

/// Length of the hexadecimal text of an element.
pub const FP12_HEX_LEN: usize = 1163;

/// The twelve blocks of `w` in hexadecimal, two digits a byte, the blocks
/// separated by single spaces.
pub open spec fn hex_text(w: Seq<u8>) -> Seq<u8> {
    Seq::new(
        1163,
        |j: int|
            if j % 97 == 96 {
                32u8
            } else {
                let b = w[48 * (j / 97) + (j % 97) / 2];
                if (j % 97) % 2 == 0 {
                    hex_char((b / 16) as int)
                } else {
                    hex_char((b % 16) as int)
                }
            },
    )
}

fn hex_char_of(n: u8) -> (r: u8)
    requires
        n < 16,
    ensures
        r == hex_char(n as int),
{
    if n < 10 {
        48 + n
    } else {
        87 + n
    }
}

/// The coefficient of `x` that the `k`-th block holds.
pub open spec fn coeff(x: F12, k: int) -> int {
    let q = if k < 4 { x.0 } else if k < 8 { x.1 } else { x.2 };
    let h = if k % 4 < 2 { q.0 } else { q.1 };
    if k % 2 == 0 { h.0 } else { h.1 }
}

/// Shape of a line function: `b` zero, `c` with only its `s` part.
pub open spec fn sparser_shape(x: F12) -> bool {
    x.1 == f4_zero() && x.2.0 == f2_zero()
}

/// Shape of a product of two line functions: `b` with only its `s` part.
pub open spec fn sparse_shape(x: F12) -> bool {
    x.1.0 == f2_zero()
}

/// What the tag `t` promises of the value `x`.
pub open spec fn tag_ok(t: usize, x: F12) -> bool {
    if t == ZERO {
        x == f12_zero()
    } else if t == ONE {
        x == f12_one()
    } else if t == SPARSER {
        sparser_shape(x)
    } else if t == SPARSE {
        sparse_shape(x)
    } else {
        t == DENSE
    }
}

/// An element of the degree-twelve extension with its sparsity tag.
pub struct FP12 {
    a: FP4,
    b: FP4,
    c: FP4,
    stype: usize,
}

fn g_add(x: &FP4, ex: Ghost<F4>, y: &FP4, ey: Ghost<F4>) -> (r: FP4)
    requires
        x.wf(),
        y.wf(),
        x.view() == f4_red(ex@),
        y.view() == f4_red(ey@),
    ensures
        r.wf(),
        r.view() == f4_red(f4_add(ex@, ey@)),
{
    proof {
        lemma_f4_red(ex@, ey@);
    }
    x.add(y)
}

fn g_sub(x: &FP4, ex: Ghost<F4>, y: &FP4, ey: Ghost<F4>) -> (r: FP4)
    requires
        x.wf(),
        y.wf(),
        x.view() == f4_red(ex@),
        y.view() == f4_red(ey@),
    ensures
        r.wf(),
        r.view() == f4_red(f4_sub(ex@, ey@)),
{
    proof {
        lemma_f4_red(ex@, ey@);
    }
    x.sub(y)
}

fn g_mul(x: &FP4, ex: Ghost<F4>, y: &FP4, ey: Ghost<F4>) -> (r: FP4)
    requires
        x.wf(),
        y.wf(),
        x.view() == f4_red(ex@),
        y.view() == f4_red(ey@),
    ensures
        r.wf(),
        r.view() == f4_red(f4_mul(ex@, ey@)),
{
    proof {
        lemma_f4_red(ex@, ey@);
    }
    x.mul(y)
}

fn g_neg(x: &FP4, ex: Ghost<F4>) -> (r: FP4)
    requires
        x.wf(),
        x.view() == f4_red(ex@),
    ensures
        r.wf(),
        r.view() == f4_red(f4_neg(ex@)),
{
    proof {
        lemma_f4_red(ex@, ex@);
    }
    x.neg()
}

fn g_times_i(x: &FP4, ex: Ghost<F4>) -> (r: FP4)
    requires
        x.wf(),
        x.view() == f4_red(ex@),
    ensures
        r.wf(),
        r.view() == f4_red(f4_times_i(ex@)),
{
    proof {
        lemma_f4_red(ex@, ex@);
    }
    x.times_i()
}

fn g_pmul(x: &FP4, ex: Ghost<F4>, k: &FP2, ek: Ghost<F2>) -> (r: FP4)
    requires
        x.wf(),
        k.wf(),
        x.view() == f4_red(ex@),
        k.view() == f2_red(ek@),
    ensures
        r.wf(),
        r.view() == f4_red(f4_pmul(ex@, ek@)),
{
    proof {
        lemma_f4_red(ex@, (ek@, ek@));
    }
    x.pmul(k)
}

fn g_frob(x: &FP4, ex: Ghost<F4>, k: &FP2, ek: Ghost<F2>) -> (r: FP4)
    requires
        x.wf(),
        k.wf(),
        x.view() == f4_red(ex@),
        k.view() == f2_red(ek@),
    ensures
        r.wf(),
        r.view() == f4_red(f4_frob(ex@, ek@)),
{
    proof {
        lemma_f4_red(ex@, (ek@, ek@));
    }
    x.frob(k)
}

fn g_conj(x: &FP4, ex: Ghost<F4>) -> (r: FP4)
    requires
        x.wf(),
        x.view() == f4_red(ex@),
    ensures
        r.wf(),
        r.view() == f4_red(f4_conj(ex@)),
{
    proof {
        lemma_f4_red(ex@, ex@);
    }
    x.conj()
}

fn g_nconj(x: &FP4, ex: Ghost<F4>) -> (r: FP4)
    requires
        x.wf(),
        x.view() == f4_red(ex@),
    ensures
        r.wf(),
        r.view() == f4_red(f4_nconj(ex@)),
{
    proof {
        lemma_f4_red(ex@, ex@);
    }
    x.nconj()
}

fn h_add(x: &FP2, ex: Ghost<F2>, y: &FP2, ey: Ghost<F2>) -> (r: FP2)
    requires
        x.wf(),
        y.wf(),
        x.view() == f2_red(ex@),
        y.view() == f2_red(ey@),
    ensures
        r.wf(),
        r.view() == f2_red(f2_add(ex@, ey@)),
{
    proof {
        lemma_f2_red(ex@, ey@);
    }
    x.add(y)
}

fn h_mul(x: &FP2, ex: Ghost<F2>, y: &FP2, ey: Ghost<F2>) -> (r: FP2)
    requires
        x.wf(),
        y.wf(),
        x.view() == f2_red(ex@),
        y.view() == f2_red(ey@),
    ensures
        r.wf(),
        r.view() == f2_red(f2_mul(ex@, ey@)),
{
    proof {
        lemma_f2_red(ex@, ey@);
    }
    x.mul(y)
}

fn h_neg(x: &FP2, ex: Ghost<F2>) -> (r: FP2)
    requires
        x.wf(),
        x.view() == f2_red(ex@),
    ensures
        r.wf(),
        r.view() == f2_red(f2_neg(ex@)),
{
    proof {
        lemma_f2_red(ex@, ex@);
    }
    x.neg()
}

fn h_mul_ip(x: &FP2, ex: Ghost<F2>) -> (r: FP2)
    requires
        x.wf(),
        x.view() == f2_red(ex@),
    ensures
        r.wf(),
        r.view() == f2_red(f2_mul_ip(ex@)),
{
    proof {
        lemma_f2_red(ex@, ex@);
    }
    x.mul_ip()
}

/// The cross term `(p + q)(u + w) - (p u + q w)` of a three-multiplication product.
pub open spec fn f2_cross(p: F2, q: F2, u: F2, w: F2) -> F2 {
    f2_add(f2_mul(f2_add(p, q), f2_add(u, w)), f2_neg(f2_add(f2_mul(p, u), f2_mul(q, w))))
}

/// The product of two line-function shapes, in the form that `smul` computes it.
pub open spec fn line_product(x: F12, y: F12) -> F12 {
    let (x0, x1, x2, y0, y1, y2) = (x.0.0, x.0.1, x.2.1, y.0.0, y.0.1, y.2.1);
    (
        (f2_add(f2_mul(x0, y0), f2_mul_ip(f2_mul(x1, y1))), f2_cross(x0, x1, y0, y1)),
        (f2_zero(), f2_mul_ip(f2_mul(x2, y2))),
        (f2_mul_ip(f2_cross(x1, x2, y1, y2)), f2_cross(x0, x2, y0, y2)),
    )
}

proof fn lemma_cross(p: F2, q: F2, u: F2, w: F2)
    ensures
        f2_cross(p, q, u, w) == f2_add(f2_mul(p, w), f2_mul(q, u)),
{
    lemma_f2_ring(p, u, w);
    lemma_f2_ring(q, u, w);
    lemma_f2_ring(p, q, f2_add(u, w));
}

proof fn lemma_line_product(x: F12, y: F12)
    requires
        sparser_shape(x),
        sparser_shape(y),
    ensures
        line_product(x, y) == f12_mul(x, y),
{
    let (x0, x1, x2, y0, y1, y2) = (x.0.0, x.0.1, x.2.1, y.0.0, y.0.1, y.2.1);
    lemma_cross(x0, x1, y0, y1);
    lemma_cross(x1, x2, y1, y2);
    lemma_cross(x0, x2, y0, y2);
    lemma_f4_ring(x.0, f4_zero(), y.0);
    lemma_f4_ring(f4_zero(), y.0, y.0);
    lemma_f4_ring(f4_zero(), y.2, y.0);
    lemma_f4_ring(x.2, f4_zero(), y.0);
    lemma_f4_ring(f4_zero(), f4_zero(), y.0);
    lemma_f2_ring(x1, y2, y1);
    lemma_f2_ring(x2, y1, y0);
    lemma_f2_ring(x2, y2, y0);
    lemma_f2_ring(x0, f2_zero(), y0);
    lemma_f2_ring(x1, f2_zero(), y0);
    lemma_f2_ring(x2, f2_zero(), y0);
    lemma_f2_ring(f2_zero(), y0, y0);
    lemma_f2_ring(f2_zero(), y1, y0);
    lemma_f2_ring(f2_zero(), y2, y0);
    lemma_f2_ring(f2_zero(), f2_zero(), y0);
    lemma_f2_ring(f2_mul(x1, y2), f2_mul(x2, y1), y0);
    lemma_f2_ring(x2, y0, y0);
    assert(f2_mul_ip(f2_zero()) == f2_zero());
}

/// Karatsuba's cubic product with negations added, as `ssmul` computes it.
proof fn lemma_karatsuba_neg(x: F12, y: F12, z2: F4)
    requires
        z2 == f4_mul(x.1, y.1),
    ensures
        f4_add(
            f4_mul(x.0, y.0),
            f4_times_i(
                f4_add(f4_add(f4_mul(f4_add(x.1, x.2), f4_add(y.1, y.2)), f4_neg(z2)),
                f4_neg(f4_mul(x.2, y.2))),
            ),
        ) == f12_mul(x, y).0,
        f4_add(
            f4_add(f4_add(f4_mul(f4_add(x.0, x.1), f4_add(y.0, y.1)), f4_neg(f4_mul(x.0, y.0))), f4_neg(z2)),
            f4_times_i(f4_mul(x.2, y.2)),
        ) == f12_mul(x, y).1,
        f4_add(
            f4_add(f4_add(z2, f4_neg(f4_mul(x.0, y.0))), f4_mul(f4_add(x.0, x.2), f4_add(y.0, y.2))),
            f4_neg(f4_mul(x.2, y.2)),
        ) == f12_mul(x, y).2,
{
    lemma_karatsuba(x, y);
}

/// The product by a line-function shape, as the dense-by-sparser path computes it.
#[verifier::rlimit(80)]
#[verifier::spinoff_prover]
proof fn lemma_dense_by_sparser(x: F12, y: F12)
    requires
        sparser_shape(y),
    ensures
        f4_add(
            f4_mul(x.0, y.0),
            f4_times_i(
                f4_add(f4_times_i(f4_pmul(f4_add(x.1, x.2), y.2.1)), f4_neg(f4_times_i(f4_pmul(x.2, y.2.1)))),
            ),
        ) == f12_mul(x, y).0,
        f4_add(
            f4_add(f4_mul(f4_add(x.0, x.1), y.0), f4_neg(f4_mul(x.0, y.0))),
            f4_times_i(f4_times_i(f4_pmul(x.2, y.2.1))),
        ) == f12_mul(x, y).1,
        f4_add(
            f4_add(f4_neg(f4_mul(x.0, y.0)), f4_mul(f4_add(x.0, x.2), f4_add(y.0, y.2))),
            f4_neg(f4_times_i(f4_pmul(x.2, y.2.1))),
        ) == f12_mul(x, y).2,
{
    let (a, b, c, d, f) = (x.0, x.1, x.2, y.0, y.2);
    let g = f.1;
    assert(f == (f2_zero(), g));
    lemma_f4_ring(f4_add(b, c), (g, g), f);
    lemma_f4_ring(c, (g, g), f);
    lemma_f4_ring(b, (g, g), f);
    lemma_f4_ring(b, c, f);
    lemma_f4_ring(a, b, d);
    lemma_f4_ring(a, c, f4_add(d, f));
    lemma_f4_ring(a, d, f);
    lemma_f4_ring(c, d, f);
    lemma_f4_ring(a, f4_zero(), d);
    lemma_f4_ring(b, f4_zero(), d);
    lemma_f4_ring(c, f4_zero(), d);
    lemma_f4_ring(f4_zero(), d, d);
    lemma_f4_ring(f4_mul(b, f), f4_mul(c, f4_zero()), d);
}

/// Reads the `k`-th field-sized block of `w`.
fn fp_at(w: &[u8], k: usize) -> (r: FP)
    requires
        k < 12,
        w@.len() >= FP12_BYTES,
    ensures
        r.wf(),
        r.val() == block(w@, k as int) % modulus(),
{
    let mut t: Vec<u8> = Vec::new();
    let base: usize = k * MODBYTES;
    let mut i: usize = 0;
    while i < MODBYTES
        invariant
            base == 48 * k,
            k < 12,
            w@.len() >= FP12_BYTES,
            i <= MODBYTES,
            t@ =~= w@.subrange(base as int, base + i),
        decreases MODBYTES - i,
    {
        t.push(w[base + i]);
        i = i + 1;
    }
    FP::from_big_bytes(t.as_slice())
}

/// Writes `v` as the `k`-th field-sized block of `w`.
fn put_fp(w: &mut [u8], k: usize, v: &FP)
    requires
        k < 12,
        old(w)@.len() >= FP12_BYTES,
        v.wf(),
    ensures
        final(w)@.len() == old(w)@.len(),
        block(final(w)@, k as int) == v.val(),
        forall|j: int|
            0 <= j < final(w)@.len() && !(48 * k <= j < 48 * k + 48) ==> final(w)@[j] == old(w)@[j],
{
    let t = v.to_big_bytes();
    let base: usize = k * MODBYTES;
    let mut i: usize = 0;
    while i < MODBYTES
        invariant
            base == 48 * k,
            k < 12,
            w@.len() == old(w)@.len(),
            w@.len() >= FP12_BYTES,
            t@.len() == MODBYTES,
            i <= MODBYTES,
            forall|j: int| 0 <= j < i ==> w@[base + j] == t@[j],
            forall|j: int|
                0 <= j < w@.len() && !(base <= j < base + i) ==> w@[j] == old(w)@[j],
        decreases MODBYTES - i,
    {
        w[base + i] = t[i];
        i = i + 1;
    }
    assert(w@.subrange(base as int, base + 48) =~= t@);
}

/// Decoding what was encoded gives the element back.
pub proof fn lemma_bytes_round_trip(x: F12, w: Seq<u8>)
    requires
        f12_red(x) == x,
        w.len() >= FP12_BYTES,
        forall|k: int| 0 <= k < 12 ==> block(w, k) == #[trigger] coeff(x, k),
    ensures
        f12_of_bytes(w) == x,
{
    let m = modulus();
    assert forall|k: int| 0 <= k < 12 implies block(w, k) % m == coeff(x, k) by {
        crate::fp2::lemma_red_idem(coeff(x, k));
        assert(coeff(x, k) % m == coeff(x, k));
    }
    assert(coeff(x, 0) == x.0.0.0);
    assert(coeff(x, 1) == x.0.0.1);
    assert(coeff(x, 2) == x.0.1.0);
    assert(coeff(x, 3) == x.0.1.1);
    assert(coeff(x, 4) == x.1.0.0);
    assert(coeff(x, 5) == x.1.0.1);
    assert(coeff(x, 6) == x.1.1.0);
    assert(coeff(x, 7) == x.1.1.1);
    assert(coeff(x, 8) == x.2.0.0);
    assert(coeff(x, 9) == x.2.0.1);
    assert(coeff(x, 10) == x.2.1.0);
    assert(coeff(x, 11) == x.2.1.1);
}

/// Multiplication is commutative.
pub proof fn lemma_f12_mul_comm(x: F12, y: F12)
    ensures
        f12_mul(x, y) == f12_mul(y, x),
{
    lemma_f4_ring(x.0, y.0, y.0);
    lemma_f4_ring(x.1, y.2, y.0);
    lemma_f4_ring(x.2, y.1, y.0);
    lemma_f4_ring(x.0, y.1, y.0);
    lemma_f4_ring(x.1, y.0, y.0);
    lemma_f4_ring(x.2, y.2, y.0);
    lemma_f4_ring(x.0, y.2, y.0);
    lemma_f4_ring(x.1, y.1, y.0);
    lemma_f4_ring(x.2, y.0, y.0);
}

/// Field laws: one is neutral, and an inverse found by `inverse` (a right
/// inverse) is also a left inverse.
pub proof fn lemma_field_laws(x: F12, r: F12)
    requires
        f12_red(x) == x,
        f12_red(f12_mul(x, r)) == f12_one(),
    ensures
        f12_red(f12_mul(x, f12_one())) == x,
        f12_red(f12_mul(f12_one(), x)) == x,
        f12_red(f12_mul(r, x)) == f12_one(),
{
    lemma_shapes(x, x);
    lemma_f12_mul_comm(x, r);
}

/// Conjugating twice gives the element back.
pub proof fn lemma_conj_involution(x: F12)
    requires
        f12_red(x) == x,
    ensures
        f12_red(f12_conj(f12_red(f12_conj(x)))) == x,
{
    lemma_f4_red(f4_conj(x.0), x.0);
    lemma_f4_red(f4_nconj(x.1), x.0);
    lemma_f4_red(f4_conj(x.2), x.0);
    assert(f4_conj(f4_conj(x.0)) == x.0);
    assert(f4_nconj(f4_nconj(x.1)) == x.1);
    assert(f4_conj(f4_conj(x.2)) == x.2);
}

/// Reduction commutes with the product.
pub proof fn lemma_f12_red_mul(x: F12, y: F12)
    ensures
        f12_red(f12_mul(x, y)) == f12_red(f12_mul(f12_red(x), f12_red(y))),
        f12_red(f12_red(x)) == f12_red(x),
{
    let (rx, ry) = (f12_red(x), f12_red(y));
    lemma_f4_red(x.0, y.0);
    lemma_f4_red(x.1, y.2);
    lemma_f4_red(x.2, y.1);
    lemma_f4_red(x.0, y.1);
    lemma_f4_red(x.1, y.0);
    lemma_f4_red(x.2, y.2);
    lemma_f4_red(x.0, y.2);
    lemma_f4_red(x.1, y.1);
    lemma_f4_red(x.2, y.0);
    lemma_f4_red(f4_mul(x.1, y.2), f4_mul(x.2, y.1));
    lemma_f4_red(f4_mul(rx.1, ry.2), f4_mul(rx.2, ry.1));
    lemma_f4_red(f4_add(f4_mul(x.1, y.2), f4_mul(x.2, y.1)), x.0);
    lemma_f4_red(f4_add(f4_mul(rx.1, ry.2), f4_mul(rx.2, ry.1)), x.0);
    lemma_f4_red(f4_mul(x.0, y.0), f4_times_i(f4_add(f4_mul(x.1, y.2), f4_mul(x.2, y.1))));
    lemma_f4_red(f4_mul(rx.0, ry.0), f4_times_i(f4_add(f4_mul(rx.1, ry.2), f4_mul(rx.2, ry.1))));
    lemma_f4_red(f4_mul(x.0, y.1), f4_mul(x.1, y.0));
    lemma_f4_red(f4_mul(rx.0, ry.1), f4_mul(rx.1, ry.0));
    lemma_f4_red(f4_mul(x.2, y.2), x.0);
    lemma_f4_red(f4_mul(rx.2, ry.2), x.0);
    lemma_f4_red(f4_add(f4_mul(x.0, y.1), f4_mul(x.1, y.0)), f4_times_i(f4_mul(x.2, y.2)));
    lemma_f4_red(f4_add(f4_mul(rx.0, ry.1), f4_mul(rx.1, ry.0)), f4_times_i(f4_mul(rx.2, ry.2)));
    lemma_f4_red(f4_mul(x.0, y.2), f4_mul(x.1, y.1));
    lemma_f4_red(f4_mul(rx.0, ry.2), f4_mul(rx.1, ry.1));
    lemma_f4_red(f4_add(f4_mul(x.0, y.2), f4_mul(x.1, y.1)), f4_mul(x.2, y.0));
    lemma_f4_red(f4_add(f4_mul(rx.0, ry.2), f4_mul(rx.1, ry.1)), f4_mul(rx.2, ry.0));
}

/// `x` times its adjugate is its norm.
#[verifier::rlimit(80)]
#[verifier::spinoff_prover]
proof fn lemma_adjugate(x: F12)
    ensures
        f12_mul(x, (adj0(x), adj1(x), adj2(x))) == (f12_norm(x), f4_zero(), f4_zero()),
{
    let (a, b, c) = (x.0, x.1, x.2);
    let (f0, f1, f2) = (adj0(x), adj1(x), adj2(x));
    lemma_f4_ring(a, f4_times_i(f4_mul(c, c)), f4_mul(a, b));
    lemma_f4_ring(b, f4_mul(a, a), f4_times_i(f4_mul(b, c)));
    lemma_f4_ring(c, f4_mul(b, b), f4_mul(a, c));
    lemma_f4_ring(a, f4_mul(b, b), f4_mul(a, c));
    lemma_f4_ring(b, f4_times_i(f4_mul(c, c)), f4_mul(a, b));
    lemma_f4_ring(c, f4_mul(a, a), f4_times_i(f4_mul(b, c)));
    lemma_f4_ring(a, f4_mul(c, c), c);
    lemma_f4_ring(b, f4_mul(b, c), c);
    lemma_f4_ring(b, f4_mul(c, c), c);
    lemma_f4_ring(c, f4_mul(b, c), c);
    lemma_f4_ring(a, c, c);
    lemma_f4_ring(a, b, c);
    lemma_f4_ring(b, c, c);
    lemma_f4_ring(f4_mul(a, c), c, c);
    lemma_f4_ring(f4_mul(a, b), b, c);
    lemma_f4_ring(f4_mul(b, b), c, c);
    lemma_f4_ring(f4_mul(a, a), b, c);
    lemma_f4_ring(f4_mul(a, a), c, c);
    lemma_f4_ring(f4_mul(a, c), a, c);
    lemma_f4_ring(f4_mul(a, c), b, c);
    lemma_f4_ring(f4_mul(b, c), b, c);
    lemma_f4_ring(f4_mul(b, c), a, c);
    lemma_f4_ring(f4_mul(b, f2), f4_mul(c, f1), c);
    lemma_f4_ring(f4_mul(a, f0), f4_times_i(f4_mul(b, f2)), c);
    lemma_f4_assoc(a, a, b);
    lemma_f4_assoc(b, a, a);
    lemma_f4_assoc(a, b, b);
    lemma_f4_assoc(c, a, c);
    lemma_f4_assoc(a, c, c);
    lemma_f4_assoc(b, b, c);
    lemma_f4_assoc(c, b, b);
    lemma_f4_assoc(b, c, c);
    lemma_f4_assoc(c, b, c);
    lemma_f4_assoc(a, a, c);
    lemma_f4_assoc(c, a, a);
    lemma_f4_assoc(a, b, c);
    lemma_f4_assoc(b, a, c);
    lemma_f4_assoc(c, a, b);
    lemma_f4_assoc(b, c, a);
    lemma_f4_ring(c, a, a);
    lemma_f4_ring(b, a, a);
    lemma_f4_ring(c, b, b);
    lemma_f4_ring(f4_mul(c, a), c, c);
    lemma_f4_ring(f4_mul(a, a), b, b);
    lemma_f4_ring(f4_mul(b, b), c, c);
    lemma_f4_ring(f4_mul(b, a), c, c);
    lemma_f4_ring(f4_mul(c, b), c, c);
    lemma_f4_ring(f4_mul(a, c), b, b);
    lemma_f4_ring(f4_mul(a, b), c, c);
    lemma_f4_ring(f4_mul(c, a), b, b);
    lemma_f4_ring(f4_mul(b, c), a, a);
    lemma_f4_ring(b, c, a);
}

/// Scaling the second factor scales the product.
proof fn lemma_mul_scaled(x: F12, f: F12, k: F4)
    ensures
        f12_mul(x, (f4_mul(f.0, k), f4_mul(f.1, k), f4_mul(f.2, k))) == (
            f4_mul(f12_mul(x, f).0, k),
            f4_mul(f12_mul(x, f).1, k),
            f4_mul(f12_mul(x, f).2, k),
        ),
{
    let (a, b, c) = (x.0, x.1, x.2);
    lemma_f4_assoc(a, f.0, k);
    lemma_f4_assoc(a, f.1, k);
    lemma_f4_assoc(a, f.2, k);
    lemma_f4_assoc(b, f.0, k);
    lemma_f4_assoc(b, f.1, k);
    lemma_f4_assoc(b, f.2, k);
    lemma_f4_assoc(c, f.0, k);
    lemma_f4_assoc(c, f.1, k);
    lemma_f4_assoc(c, f.2, k);
    lemma_f4_ring(f4_mul(b, f.2), f4_mul(c, f.1), k);
    lemma_f4_ring(f4_add(f4_mul(b, f.2), f4_mul(c, f.1)), k, k);
    lemma_f4_ring(f4_mul(a, f.0), f4_times_i(f4_add(f4_mul(b, f.2), f4_mul(c, f.1))), k);
    lemma_f4_ring(f4_mul(a, f.1), f4_mul(b, f.0), k);
    lemma_f4_ring(f4_mul(c, f.2), k, k);
    lemma_f4_ring(f4_add(f4_mul(a, f.1), f4_mul(b, f.0)), f4_times_i(f4_mul(c, f.2)), k);
    lemma_f4_ring(f4_mul(a, f.2), f4_mul(b, f.1), k);
    lemma_f4_ring(f4_add(f4_mul(a, f.2), f4_mul(b, f.1)), f4_mul(c, f.0), k);
}

/// Chung and Hasan's squaring equals the product of the element with itself.
proof fn lemma_chung_hasan(x: F12)
    ensures
        f4_add(f4_mul(x.0, x.0), f4_times_i(f4_dbl(f4_mul(x.1, x.2)))) == f12_mul(x, x).0,
        f4_add(f4_times_i(f4_mul(x.2, x.2)), f4_dbl(f4_mul(x.0, x.1))) == f12_mul(x, x).1,
        f4_add(
            f4_mul(f4_add(f4_add(x.2, x.0), x.1), f4_add(f4_add(x.2, x.0), x.1)),
            f4_neg(
                f4_add(
                    f4_add(f4_add(f4_mul(x.0, x.0), f4_dbl(f4_mul(x.1, x.2))), f4_mul(x.2, x.2)),
                    f4_dbl(f4_mul(x.0, x.1)),
                ),
            ),
        ) == f12_mul(x, x).2,
{
    let (a, b, c) = (x.0, x.1, x.2);
    let t = f4_add(f4_add(c, a), b);
    lemma_f4_ring(f4_add(c, a), b, t);
    lemma_f4_ring(c, a, t);
    lemma_f4_ring(t, c, a);
    lemma_f4_ring(t, f4_add(c, a), b);
    lemma_f4_ring(f4_add(c, a), b, c);
    lemma_f4_ring(f4_add(c, a), b, a);
    lemma_f4_ring(f4_add(c, a), b, b);
    lemma_f4_ring(c, a, c);
    lemma_f4_ring(c, a, a);
    lemma_f4_ring(c, a, b);
    lemma_f4_ring(b, c, c);
    lemma_f4_ring(c, b, c);
    lemma_f4_ring(a, b, c);
    lemma_f4_ring(b, a, c);
    lemma_f4_ring(a, c, c);
    lemma_f4_ring(f4_mul(b, c), f4_mul(b, c), c);
    lemma_f4_ring(f4_mul(c, b), f4_mul(b, c), c);
}

/// The product of two line-function shapes has the shape `SPARSE` promises,
/// and the product by one is the other factor.
proof fn lemma_shapes(x: F12, y: F12)
    ensures
        sparser_shape(x) && sparser_shape(y) ==> sparse_shape(f12_red(f12_mul(x, y))),
        f12_mul(f12_one(), y) == y,
        f12_mul(y, f12_one()) == y,
        f12_red(f12_one()) == f12_one(),
        f12_red(f12_zero()) == f12_zero(),
{
    lemma_f2_const_red();
    lemma_f4_ring(x.0, y.1, y.0);
    lemma_f4_ring(x.1, y.0, y.0);
    lemma_f4_ring(y.0, x.1, y.0);
    lemma_f4_ring(y.0, f4_one(), y.0);
    lemma_f4_ring(y.1, f4_one(), y.0);
    lemma_f4_ring(y.2, f4_one(), y.0);
    lemma_f4_ring(y.0, f4_zero(), y.0);
    lemma_f4_ring(y.1, f4_zero(), y.0);
    lemma_f4_ring(y.2, f4_zero(), y.0);
    lemma_f4_ring(f4_zero(), f4_zero(), y.0);
    lemma_f4_ring(f4_one(), f4_zero(), y.0);
    lemma_f4_ring(f4_zero(), f4_one(), y.0);
    lemma_f4_ring(f4_zero(), y.0, y.0);
    lemma_f4_ring(f4_zero(), y.1, y.0);
    lemma_f4_ring(f4_zero(), y.2, y.0);
    lemma_f4_ring(x.0, f4_zero(), y.0);
    lemma_f4_ring(f4_zero(), y.0, y.0);
    let (u, w) = (x.2.1, y.2.1);
    lemma_f2_ring(u, w, f2_zero());
    lemma_f2_ring(f2_zero(), w, f2_zero());
    lemma_f2_ring(u, f2_zero(), f2_zero());
    lemma_f2_ring(f2_zero(), f2_zero(), f2_zero());
    assert(f2_mul_ip(f2_zero()) == f2_zero());
}

/// Conjugation keeps every shape that a tag promises.
proof fn lemma_conj_shape(t: usize, x: F12)
    requires
        tag_ok(t, x),
    ensures
        tag_ok(t, f12_red(f12_conj(x))),
{
    lemma_f2_const_red();
    crate::fp2::lemma_red_neg(0);
}

/// Karatsuba's cubic product equals the schoolbook product.
proof fn lemma_karatsuba(x: F12, y: F12)
    ensures
        f4_add(
            f4_mul(x.0, y.0),
            f4_times_i(
                f4_sub(f4_sub(f4_mul(f4_add(x.1, x.2), f4_add(y.1, y.2)), f4_mul(x.1, y.1)),
                f4_mul(x.2, y.2)),
            ),
        ) == f12_mul(x, y).0,
        f4_add(
            f4_sub(f4_sub(f4_mul(f4_add(x.0, x.1), f4_add(y.0, y.1)), f4_mul(x.0, y.0)), f4_mul(x.1, y.1)),
            f4_times_i(f4_mul(x.2, y.2)),
        ) == f12_mul(x, y).1,
        f4_sub(
            f4_add(f4_sub(f4_mul(x.1, y.1), f4_mul(x.0, y.0)), f4_mul(f4_add(x.0, x.2), f4_add(y.0, y.2))),
            f4_mul(x.2, y.2),
        ) == f12_mul(x, y).2,
{
    let (a, b, c, d, e, f) = (x.0, x.1, x.2, y.0, y.1, y.2);
    lemma_f4_ring(f4_add(b, c), e, f);
    lemma_f4_ring(b, c, e);
    lemma_f4_ring(b, c, f);
    lemma_f4_ring(f4_add(a, b), d, e);
    lemma_f4_ring(a, b, d);
    lemma_f4_ring(a, b, e);
    lemma_f4_ring(f4_add(a, c), d, f);
    lemma_f4_ring(a, c, d);
    lemma_f4_ring(a, c, f);
    lemma_f4_ring(
        f4_sub(f4_sub(f4_mul(f4_add(b, c), f4_add(e, f)), f4_mul(b, e)), f4_mul(c, f)),
        f4_add(f4_mul(b, f), f4_mul(c, e)),
        f4_zero(),
    );
}

impl FP12 {
    pub closed spec fn view(&self) -> F12 {
        (self.a.view(), self.b.view(), self.c.view())
    }

    /// The sparsity tag.
    pub closed spec fn tag(&self) -> usize {
        self.stype
    }

    pub closed spec fn wf(&self) -> bool {
        &&& self.a.wf()
        &&& self.b.wf()
        &&& self.c.wf()
        &&& tag_ok(self.stype, self.view())
    }

    pub proof fn lemma_reduced(&self)
        requires
            self.wf(),
        ensures
            f12_red(self.view()) == self.view(),
            tag_ok(self.tag(), self.view()),
    {
        self.a.lemma_reduced();
        self.b.lemma_reduced();
        self.c.lemma_reduced();
    }

    /// Zero, tagged `ZERO`.
    pub fn new() -> (r: FP12)
        ensures
            r.wf(),
            r.view() == f12_zero(),
            r.tag() == ZERO,
    {
        FP12 { a: FP4::new(), b: FP4::new(), c: FP4::new(), stype: ZERO }
    }

    /// Sets the tag, which must hold of the value.
    pub fn settype(&mut self, t: usize)
        requires
            old(self).wf(),
            tag_ok(t, old(self).view()),
        ensures
            final(self).wf(),
            final(self).view() == old(self).view(),
            final(self).tag() == t,
    {
        self.stype = t;
    }

    pub fn gettype(&self) -> (r: usize)
        ensures
            r == self.tag(),
    {
        self.stype
    }

    /// The integer `a`, reduced; tagged `ONE` for 1 and `SPARSER` otherwise.
    pub fn new_int(a: isize) -> (r: FP12)
        ensures
            r.wf(),
            r.view() == f12_red(((((a as int, 0int), f2_zero()), f4_zero(), f4_zero()))),
            r.tag() == (if a == 1 { ONE } else { SPARSER }),
    {
        let stype = if a == 1 { ONE } else { SPARSER };
        let fa = FP4::new_int(a);
        proof {
            lemma_f2_const_red();
            if a == 1 {
                assert(f2_red((1int, 0int)) == f2_red(crate::fp2::f2_one()));
            }
        }
        FP12 { a: fa, b: FP4::new(), c: FP4::new(), stype }
    }

    /// The element `a + b v + c v^2`, tagged `DENSE`.
    pub fn new_fp4s(a: FP4, b: FP4, c: FP4) -> (r: FP12)
        requires
            a.wf(),
            b.wf(),
            c.wf(),
        ensures
            r.wf(),
            r.view() == (a.view(), b.view(), c.view()),
            r.tag() == DENSE,
    {
        FP12 { a, b, c, stype: DENSE }
    }

    /// The element `a`, tagged `SPARSER`.
    pub fn new_fp4(a: FP4) -> (r: FP12)
        requires
            a.wf(),
        ensures
            r.wf(),
            r.view() == (a.view(), f4_zero(), f4_zero()),
            r.tag() == SPARSER,
    {
        FP12 { a, b: FP4::new(), c: FP4::new(), stype: SPARSER }
    }

    pub fn copy(&self) -> (r: FP12)
        requires
            self.wf(),
        ensures
            r.wf(),
            r.view() == self.view(),
            r.tag() == self.tag(),
    {
        FP12 { a: self.a.copy(), b: self.b.copy(), c: self.c.copy(), stype: self.stype }
    }

    /// Full multiplication `self = self * y`, by Karatsuba's method.
    pub fn mul(&mut self, y: &FP12)
        requires
            old(self).wf(),
            y.wf(),
        ensures
            final(self).wf(),
            final(self).view() == f12_red(f12_mul(old(self).view(), y.view())),
            final(self).tag() == DENSE,
    {
        let ghost x = self.view();
        let ghost w = y.view();
        proof {
            self.lemma_reduced();
            y.lemma_reduced();
        }
        let ghost (ea, eb, ec, ed, ee, ef) = (x.0, x.1, x.2, w.0, w.1, w.2);
        let z0 = g_mul(&self.a, Ghost(ea), &y.a, Ghost(ed));
        let z2 = g_mul(&self.b, Ghost(eb), &y.b, Ghost(ee));
        let t0 = g_add(&self.a, Ghost(ea), &self.b, Ghost(eb));
        let t1 = g_add(&y.a, Ghost(ed), &y.b, Ghost(ee));
        let ghost e_z1 = f4_mul(f4_add(ea, eb), f4_add(ed, ee));
        let z1 = g_mul(&t0, Ghost(f4_add(ea, eb)), &t1, Ghost(f4_add(ed, ee)));
        let t0 = g_add(&self.b, Ghost(eb), &self.c, Ghost(ec));
        let t1 = g_add(&y.b, Ghost(ee), &y.c, Ghost(ef));
        let ghost e_z3 = f4_mul(f4_add(eb, ec), f4_add(ee, ef));
        let z3 = g_mul(&t0, Ghost(f4_add(eb, ec)), &t1, Ghost(f4_add(ee, ef)));
        let ghost (e_z0, e_z2) = (f4_mul(ea, ed), f4_mul(eb, ee));
        // b = z1 - z0 - z2
        let rb = g_sub(&z1, Ghost(e_z1), &z0, Ghost(e_z0));
        let ghost e_rb = f4_sub(e_z1, e_z0);
        let rb = g_sub(&rb, Ghost(e_rb), &z2, Ghost(e_z2));
        let ghost e_rb = f4_sub(e_rb, e_z2);
        let z3 = g_sub(&z3, Ghost(e_z3), &z2, Ghost(e_z2));
        let ghost e_z3 = f4_sub(e_z3, e_z2);
        let z2 = g_sub(&z2, Ghost(e_z2), &z0, Ghost(e_z0));
        let ghost e_z2 = f4_sub(e_z2, e_z0);
        let t0 = g_add(&self.a, Ghost(ea), &self.c, Ghost(ec));
        let t1 = g_add(&y.a, Ghost(ed), &y.c, Ghost(ef));
        let t0 = g_mul(&t0, Ghost(f4_add(ea, ec)), &t1, Ghost(f4_add(ed, ef)));
        let z2 = g_add(&z2, Ghost(e_z2), &t0, Ghost(f4_mul(f4_add(ea, ec), f4_add(ed, ef))));
        let ghost e_z2 = f4_add(e_z2, f4_mul(f4_add(ea, ec), f4_add(ed, ef)));
        let t0 = g_mul(&self.c, Ghost(ec), &y.c, Ghost(ef));
        let ghost e_t0 = f4_mul(ec, ef);
        let rc = g_sub(&z2, Ghost(e_z2), &t0, Ghost(e_t0));
        let z3 = g_sub(&z3, Ghost(e_z3), &t0, Ghost(e_t0));
        let ghost e_z3 = f4_sub(e_z3, e_t0);
        let t0 = g_times_i(&t0, Ghost(e_t0));
        let rb = g_add(&rb, Ghost(e_rb), &t0, Ghost(f4_times_i(e_t0)));
        let z3 = g_times_i(&z3, Ghost(e_z3));
        let ra = g_add(&z0, Ghost(e_z0), &z3, Ghost(f4_times_i(e_z3)));
        proof {
            lemma_karatsuba(x, w);
        }
        self.a = ra;
        self.b = rb;
        self.c = rc;
        self.stype = DENSE;
    }

    /// The product of two line functions, `self = self * y` with both of the
    /// `SPARSER` shape; tagged `SPARSE`.
    pub fn smul(&mut self, y: &FP12)
        requires
            old(self).wf(),
            y.wf(),
            sparser_shape(old(self).view()),
            sparser_shape(y.view()),
        ensures
            final(self).wf(),
            final(self).view() == f12_red(f12_mul(old(self).view(), y.view())),
            final(self).tag() == SPARSE,
    {
        let ghost x = self.view();
        let ghost w = y.view();
        proof {
            self.lemma_reduced();
            y.lemma_reduced();
            lemma_line_product(x, w);
            lemma_f2_const_red();
        }
        let ghost (x0, x1, x2, y0, y1, y2) = (x.0.0, x.0.1, x.2.1, w.0.0, w.0.1, w.2.1);
        let sa0 = self.a.geta();
        let sa1 = self.a.getb();
        let sc1 = self.c.getb();
        let ya0 = y.a.geta();
        let ya1 = y.a.getb();
        let yc1 = y.c.getb();
        let w1 = h_mul(&sa0, Ghost(x0), &ya0, Ghost(y0));
        let w2 = h_mul(&sa1, Ghost(x1), &ya1, Ghost(y1));
        let w3 = h_mul(&sc1, Ghost(x2), &yc1, Ghost(y2));
        let ghost (e1, e2, e3) = (f2_mul(x0, y0), f2_mul(x1, y1), f2_mul(x2, y2));

        let ta = h_add(&sa0, Ghost(x0), &sa1, Ghost(x1));
        let tb = h_add(&ya0, Ghost(y0), &ya1, Ghost(y1));
        let tc = h_mul(&ta, Ghost(f2_add(x0, x1)), &tb, Ghost(f2_add(y0, y1)));
        let t = h_add(&w1, Ghost(e1), &w2, Ghost(e2));
        let t = h_neg(&t, Ghost(f2_add(e1, e2)));
        let tc = h_add(
            &tc,
            Ghost(f2_mul(f2_add(x0, x1), f2_add(y0, y1))),
            &t,
            Ghost(f2_neg(f2_add(e1, e2))),
        );

        let ta = h_add(&sa0, Ghost(x0), &sc1, Ghost(x2));
        let tb = h_add(&ya0, Ghost(y0), &yc1, Ghost(y2));
        let td = h_mul(&ta, Ghost(f2_add(x0, x2)), &tb, Ghost(f2_add(y0, y2)));
        let t = h_add(&w1, Ghost(e1), &w3, Ghost(e3));
        let t = h_neg(&t, Ghost(f2_add(e1, e3)));
        let td = h_add(
            &td,
            Ghost(f2_mul(f2_add(x0, x2), f2_add(y0, y2))),
            &t,
            Ghost(f2_neg(f2_add(e1, e3))),
        );

        let ta = h_add(&sa1, Ghost(x1), &sc1, Ghost(x2));
        let tb = h_add(&ya1, Ghost(y1), &yc1, Ghost(y2));
        let te = h_mul(&ta, Ghost(f2_add(x1, x2)), &tb, Ghost(f2_add(y1, y2)));
        let t = h_add(&w2, Ghost(e2), &w3, Ghost(e3));
        let t = h_neg(&t, Ghost(f2_add(e2, e3)));
        let te = h_add(
            &te,
            Ghost(f2_mul(f2_add(x1, x2), f2_add(y1, y2))),
            &t,
            Ghost(f2_neg(f2_add(e2, e3))),
        );

        let w2i = h_mul_ip(&w2, Ghost(e2));
        let w1 = h_add(&w1, Ghost(e1), &w2i, Ghost(f2_mul_ip(e2)));
        self.a = FP4::new_fp2s(w1, tc);
        let w3i = h_mul_ip(&w3, Ghost(e3));
        self.b = FP4::new_fp2s(FP2::new(), w3i);
        let tei = h_mul_ip(&te, Ghost(f2_cross(x1, x2, y1, y2)));
        self.c = FP4::new_fp2s(tei, td);
        self.stype = SPARSE;
        proof {
            lemma_shapes(x, w);
        }
    }

    /// Multiplication `self = self * y` that takes the fast path the tags
    /// allow: by one, by a line function, by a product of line functions, or
    /// in full. The result is tagged as the path promises.
    #[verifier::rlimit(40)]
    pub fn ssmul(&mut self, y: &FP12)
        requires
            old(self).wf(),
            y.wf(),
        ensures
            final(self).wf(),
            final(self).view() == f12_red(f12_mul(old(self).view(), y.view())),
            final(self).tag() == (if old(self).tag() == ONE {
                y.tag()
            } else if y.tag() == ONE {
                old(self).tag()
            } else if y.tag() < SPARSE && old(self).tag() == SPARSER {
                SPARSE
            } else {
                DENSE
            }),
    {
        let ghost x = self.view();
        let ghost w = y.view();
        proof {
            self.lemma_reduced();
            y.lemma_reduced();
            lemma_shapes(x, w);
            lemma_shapes(w, x);
            lemma_f2_const_red();
        }
        if self.stype == ONE {
            *self = y.copy();
            return;
        }
        if y.stype == ONE {
            return;
        }
        let ghost (ea, eb, ec, ed, ee, ef) = (x.0, x.1, x.2, w.0, w.1, w.2);
        if y.stype >= SPARSE {
            let z0 = g_mul(&self.a, Ghost(ea), &y.a, Ghost(ed));
            let ghost e_z0 = f4_mul(ea, ed);
            let ghost e_z2 = f4_mul(eb, ee);
            let z2 = if y.stype == SPARSE || self.stype == SPARSE {
                let sb0 = self.b.geta();
                let sb1 = self.b.getb();
                let yb0 = y.b.geta();
                let yb1 = y.b.getb();
                let gb = h_mul(&sb1, Ghost(eb.1), &yb1, Ghost(ee.1));
                let mut ga = FP2::new();
                if y.stype != SPARSE {
                    ga = h_mul(&sb1, Ghost(eb.1), &yb0, Ghost(ee.0));
                }
                if self.stype != SPARSE {
                    ga = h_mul(&sb0, Ghost(eb.0), &yb1, Ghost(ee.1));
                }
                let t = FP4::new_fp2s(ga, gb);
                let r = t.times_i();
                proof {
                    t.lemma_reduced();
                    lemma_f2_ring(eb.0, ee.0, ee.1);
                    lemma_f2_ring(eb.1, ee.0, ee.1);
                    lemma_f2_ring(eb.0, ee.1, ee.0);
                    lemma_f2_ring(eb.1, f2_zero(), ee.0);
                    lemma_f2_ring(eb.0, f2_zero(), ee.0);
                    lemma_f2_ring(f2_zero(), ee.0, ee.0);
                    lemma_f2_ring(f2_zero(), ee.1, ee.0);
                    lemma_f2_ring(f2_zero(), f2_zero(), ee.0);
                    lemma_f2_red(f2_mul(eb.1, ee.1), f2_zero());
                    lemma_f2_red(f2_mul_ip(f2_mul(eb.1, ee.1)), f2_zero());
                    lemma_f4_red(e_z2, e_z2);
                    assert(r.view() == f4_red(e_z2));
                }
                r
            } else {
                g_mul(&self.b, Ghost(eb), &y.b, Ghost(ee))
            };
            let t0 = g_add(&self.a, Ghost(ea), &self.b, Ghost(eb));
            let t1 = g_add(&y.a, Ghost(ed), &y.b, Ghost(ee));
            let ghost e_z1 = f4_mul(f4_add(ea, eb), f4_add(ed, ee));
            let z1 = g_mul(&t0, Ghost(f4_add(ea, eb)), &t1, Ghost(f4_add(ed, ee)));
            let t0 = g_add(&self.b, Ghost(eb), &self.c, Ghost(ec));
            let t1 = g_add(&y.b, Ghost(ee), &y.c, Ghost(ef));
            let ghost e_z3 = f4_mul(f4_add(eb, ec), f4_add(ee, ef));
            let z3 = g_mul(&t0, Ghost(f4_add(eb, ec)), &t1, Ghost(f4_add(ee, ef)));
            let t0 = g_neg(&z0, Ghost(e_z0));
            let t1 = g_neg(&z2, Ghost(e_z2));
            let ghost (n0, n2) = (f4_neg(e_z0), f4_neg(e_z2));
            let z1 = g_add(&z1, Ghost(e_z1), &t0, Ghost(n0));
            let ghost e_z1 = f4_add(e_z1, n0);
            let rb = g_add(&z1, Ghost(e_z1), &t1, Ghost(n2));
            let ghost e_rb = f4_add(e_z1, n2);
            let z3 = g_add(&z3, Ghost(e_z3), &t1, Ghost(n2));
            let ghost e_z3 = f4_add(e_z3, n2);
            let z2 = g_add(&z2, Ghost(e_z2), &t0, Ghost(n0));
            let ghost e_z2b = f4_add(e_z2, n0);
            let t0 = g_add(&self.a, Ghost(ea), &self.c, Ghost(ec));
            let t1 = g_add(&y.a, Ghost(ed), &y.c, Ghost(ef));
            let ghost e_t0 = f4_mul(f4_add(ea, ec), f4_add(ed, ef));
            let t0 = g_mul(&t0, Ghost(f4_add(ea, ec)), &t1, Ghost(f4_add(ed, ef)));
            let z2 = g_add(&z2, Ghost(e_z2b), &t0, Ghost(e_t0));
            let ghost e_z2b = f4_add(e_z2b, e_t0);
            let t0 = g_mul(&self.c, Ghost(ec), &y.c, Ghost(ef));
            let ghost e_cf = f4_mul(ec, ef);
            let t1 = g_neg(&t0, Ghost(e_cf));
            let rc = g_add(&z2, Ghost(e_z2b), &t1, Ghost(f4_neg(e_cf)));
            let z3 = g_add(&z3, Ghost(e_z3), &t1, Ghost(f4_neg(e_cf)));
            let ghost e_z3 = f4_add(e_z3, f4_neg(e_cf));
            let t0 = g_times_i(&t0, Ghost(e_cf));
            let rb = g_add(&rb, Ghost(e_rb), &t0, Ghost(f4_times_i(e_cf)));
            let z3 = g_times_i(&z3, Ghost(e_z3));
            let ra = g_add(&z0, Ghost(e_z0), &z3, Ghost(f4_times_i(e_z3)));
            proof {
                lemma_karatsuba_neg(x, w, e_z2);
            }
            self.a = ra;
            self.b = rb;
            self.c = rc;
        } else {
            if self.stype == SPARSER {
                self.smul(y);
                return;
            }
            let g = y.c.getb();
            let ghost eg = ef.1;
            let z0 = g_mul(&self.a, Ghost(ea), &y.a, Ghost(ed));
            let ghost e_z0 = f4_mul(ea, ed);
            let t0 = g_add(&self.a, Ghost(ea), &self.b, Ghost(eb));
            let z1 = g_mul(&t0, Ghost(f4_add(ea, eb)), &y.a, Ghost(ed));
            let ghost e_z1 = f4_mul(f4_add(ea, eb), ed);
            let t0 = g_add(&self.b, Ghost(eb), &self.c, Ghost(ec));
            let z3 = g_pmul(&t0, Ghost(f4_add(eb, ec)), &g, Ghost(eg));
            let z3 = g_times_i(&z3, Ghost(f4_pmul(f4_add(eb, ec), eg)));
            let ghost e_z3 = f4_times_i(f4_pmul(f4_add(eb, ec), eg));
            let t0 = g_neg(&z0, Ghost(e_z0));
            let ghost n0 = f4_neg(e_z0);
            let rb = g_add(&z1, Ghost(e_z1), &t0, Ghost(n0));
            let ghost e_rb = f4_add(e_z1, n0);
            let t0a = g_add(&self.a, Ghost(ea), &self.c, Ghost(ec));
            let t1 = g_add(&y.a, Ghost(ed), &y.c, Ghost(ef));
            let ghost e_t = f4_mul(f4_add(ea, ec), f4_add(ed, ef));
            let t0a = g_mul(&t0a, Ghost(f4_add(ea, ec)), &t1, Ghost(f4_add(ed, ef)));
            let z2 = g_add(&t0, Ghost(n0), &t0a, Ghost(e_t));
            let ghost e_z2 = f4_add(n0, e_t);
            let t0 = g_pmul(&self.c, Ghost(ec), &g, Ghost(eg));
            let t0 = g_times_i(&t0, Ghost(f4_pmul(ec, eg)));
            let ghost e_cg = f4_times_i(f4_pmul(ec, eg));
            let t1 = g_neg(&t0, Ghost(e_cg));
            let rc = g_add(&z2, Ghost(e_z2), &t1, Ghost(f4_neg(e_cg)));
            let z3 = g_add(&z3, Ghost(e_z3), &t1, Ghost(f4_neg(e_cg)));
            let ghost e_z3 = f4_add(e_z3, f4_neg(e_cg));
            let t0 = g_times_i(&t0, Ghost(e_cg));
            let rb = g_add(&rb, Ghost(e_rb), &t0, Ghost(f4_times_i(e_cg)));
            let z3 = g_times_i(&z3, Ghost(e_z3));
            let ra = g_add(&z0, Ghost(e_z0), &z3, Ghost(f4_times_i(e_z3)));
            proof {
                lemma_dense_by_sparser(x, w);
            }
            self.a = ra;
            self.b = rb;
            self.c = rc;
        }
        self.stype = DENSE;
    }

    /// Brings the coefficients into canonical form. Coefficients are kept
    /// fully reduced by every operation, so the value is unchanged.
    pub fn reduce(&mut self)
        requires
            old(self).wf(),
        ensures
            final(self).wf(),
            final(self).view() == old(self).view(),
            final(self).tag() == old(self).tag(),
    {
    }

    /// Normalises the coefficients; as with `reduce`, they are already canonical.
    pub fn norm(&mut self)
        requires
            old(self).wf(),
        ensures
            final(self).wf(),
            final(self).view() == old(self).view(),
            final(self).tag() == old(self).tag(),
    {
    }

    pub fn is_zilch(&self) -> (r: bool)
        requires
            self.wf(),
        ensures
            r == (self.view() == f12_zero()),
    {
        let za = self.a.is_zilch();
        let zb = self.b.is_zilch();
        let zc = self.c.is_zilch();
        za && zb && zc
    }

    pub fn is_unity(&self) -> (r: bool)
        requires
            self.wf(),
        ensures
            r == (self.view() == f12_one()),
    {
        let one = FP4::new_int(1);
        proof {
            lemma_f2_const_red();
            assert(f2_red((1int, 0int)) == crate::fp2::f2_one());
        }
        let ea = self.a.equals(&one);
        let zb = self.b.is_zilch();
        let zc = self.c.is_zilch();
        ea && zb && zc
    }

    /// Equality of values; tags are not compared.
    pub fn equals(&self, x: &FP12) -> (r: bool)
        requires
            self.wf(),
            x.wf(),
        ensures
            r == (self.view() == x.view()),
    {
        let ea = self.a.equals(&x.a);
        let eb = self.b.equals(&x.b);
        let ec = self.c.equals(&x.c);
        ea && eb && ec
    }

    pub fn geta(&self) -> (r: FP4)
        requires
            self.wf(),
        ensures
            r.wf(),
            r.view() == self.view().0,
    {
        self.a.copy()
    }

    pub fn getb(&self) -> (r: FP4)
        requires
            self.wf(),
        ensures
            r.wf(),
            r.view() == self.view().1,
    {
        self.b.copy()
    }

    pub fn getc(&mut self) -> (r: FP4)
        requires
            old(self).wf(),
        ensures
            r.wf(),
            r.view() == old(self).view().2,
            *final(self) == *old(self),
    {
        self.c.copy()
    }

    /// Sets the value to one, tagged `ONE`.
    pub fn one(&mut self)
        ensures
            final(self).wf(),
            final(self).view() == f12_one(),
            final(self).tag() == ONE,
    {
        let one = FP4::new_int(1);
        proof {
            lemma_f2_const_red();
            assert(f2_red((1int, 0int)) == crate::fp2::f2_one());
        }
        self.a = one;
        self.b = FP4::new();
        self.c = FP4::new();
        self.stype = ONE;
    }

    /// Sets the value to zero, tagged `ZERO`.
    pub fn zero(&mut self)
        ensures
            final(self).wf(),
            final(self).view() == f12_zero(),
            final(self).tag() == ZERO,
    {
        self.a = FP4::new();
        self.b = FP4::new();
        self.c = FP4::new();
        self.stype = ZERO;
    }

    /// Takes the value and tag of `g` when `d` is 1 and keeps its own when `d`
    /// is 0, with the same operations either way.
    pub fn cmove(&mut self, g: &FP12, d: isize)
        requires
            old(self).wf(),
            g.wf(),
            d == 0 || d == 1,
        ensures
            final(self).wf(),
            final(self).view() == (if d == 1 { g.view() } else { old(self).view() }),
            final(self).tag() == (if d == 1 { g.tag() } else { old(self).tag() }),
    {
        self.a.cmove(&g.a, d);
        self.b.cmove(&g.b, d);
        self.c.cmove(&g.c, d);
        let mask: u64 = (0u64).wrapping_sub(d as u64);
        let x: u64 = self.stype as u64;
        let y: u64 = g.stype as u64;
        let t: u64 = x ^ ((x ^ y) & mask);
        assert(d == 0 ==> mask == 0) by (bit_vector)
            requires
                mask == (0u64).wrapping_sub(d as u64),
                d == 0 || d == 1,
        ;
        assert(d == 1 ==> mask == 0xffff_ffff_ffff_ffffu64) by (bit_vector)
            requires
                mask == (0u64).wrapping_sub(d as u64),
                d == 0 || d == 1,
        ;
        assert(mask == 0 ==> t == x) by (bit_vector)
            requires
                t == x ^ ((x ^ y) & mask),
        ;
        assert(mask == 0xffff_ffff_ffff_ffffu64 ==> t == y) by (bit_vector)
            requires
                t == x ^ ((x ^ y) & mask),
        ;
        let t = t as usize;
        self.stype = t;
    }

    /// 1 when `b == c`, else 0, computed without a branch.
    fn teq(b: i32, c: i32) -> (r: isize)
        requires
            0 <= b < 8,
            0 <= c < 8,
        ensures
            r == (if b == c { 1isize } else { 0isize }),
    {
        let x: u32 = (b ^ c) as u32;
        let y: u32 = (x.wrapping_sub(1) >> 31u32) & 1;
        assert(0 <= b < 8 && 0 <= c < 8 ==> (b ^ c) >= 0 && (b ^ c) < 8) by (bit_vector);
        assert(x < 8 ==> (x == 0 <==> ((x.wrapping_sub(1) >> 31u32) & 1) == 1)) by (bit_vector);
        assert(x < 8 ==> ((x.wrapping_sub(1) >> 31u32) & 1) <= 1) by (bit_vector);
        assert((b ^ c) == 0 <==> b == c) by (bit_vector);
        y as isize
    }

    /// Constant-time selection from a table of eight entries: entry
    /// `(|b| - 1) / 2`, conjugated when `b` is negative. Every entry is read
    /// and the same operations run whatever `b` is.
    pub fn selector(&mut self, g: &[FP12], b: i32)
        requires
            old(self).wf(),
            g@.len() == 8,
            forall|i: int| 0 <= i < 8 ==> (#[trigger] g@[i]).wf(),
            -15 <= b <= 15,
            b % 2 != 0,
        ensures
            final(self).wf(),
            final(self).view() == (if b > 0 {
                g@[(b - 1) / 2].view()
            } else {
                f12_red(f12_conj(g@[(-b - 1) / 2].view()))
            }),
            final(self).tag() == g@[(if b > 0 { b - 1 } else { -b - 1 }) / 2].tag(),
    {
        let m: i32 = b >> 31u32;
        assert(b < 0i32 ==> (b >> 31u32) == -1i32) by (bit_vector);
        assert(b >= 0i32 ==> (b >> 31u32) == 0i32) by (bit_vector);
        proof {
            if b < 0 {
                assert(m == -1);
                assert(2 * m + 1 == -1);
                assert(b * (-1int) == -b) by (nonlinear_arith);
            } else {
                assert(m == 0);
                assert(2 * m + 1 == 1);
                assert(b * 1int == b);
            }
        }
        let babs0: i32 = b * (2 * m + 1);
        assert(babs0 == (if b < 0 { -b } else { b as int }));
        let babs: i32 = (babs0 - 1) / 2;
        let ghost k = babs as int;
        let mut i: usize = 0;
        while i < 8
            invariant
                0 <= k < 8,
                babs as int == k,
                g@.len() == 8,
                forall|j: int| 0 <= j < 8 ==> (#[trigger] g@[j]).wf(),
                i <= 8,
                self.wf(),
                i > k ==> self.view() == g@[k].view() && self.tag() == g@[k].tag(),
            decreases 8 - i,
        {
            let d = FP12::teq(babs, i as i32);
            self.cmove(&g[i], d);
            i = i + 1;
        }
        let mut invf = self.copy();
        invf.conj();
        let neg: isize = (m & 1i32) as isize;
        assert(m == -1i32 ==> (m & 1i32) == 1i32) by (bit_vector);
        assert(m == 0i32 ==> (m & 1i32) == 0i32) by (bit_vector);
        self.cmove(&invf, neg);
    }

    /// Three times the `a` part, the trace over the quartic extension.
    pub fn trace(&mut self) -> (r: FP4)
        requires
            old(self).wf(),
        ensures
            r.wf(),
            r.view() == f4_red(f4_triple(old(self).view().0)),
            *final(self) == *old(self),
    {
        let ghost ea = self.a.view();
        proof {
            self.a.lemma_reduced();
        }
        let d = g_add(&self.a, Ghost(ea), &self.a, Ghost(ea));
        g_add(&self.a, Ghost(ea), &d, Ghost(f4_dbl(ea)))
    }

    /// Inversion through the adjugate: `self = adj(self) / norm(self)`, so
    /// that `self * inverse == 1` whenever the norm has an inverse, and zero
    /// otherwise. Tagged `DENSE`.
    #[verifier::rlimit(40)]
    pub fn inverse(&mut self)
        requires
            old(self).wf(),
        ensures
            final(self).wf(),
            f4_invertible(f12_norm(old(self).view())) ==> f12_red(
                f12_mul(old(self).view(), final(self).view()),
            ) == f12_one(),
            !f4_invertible(f12_norm(old(self).view())) ==> final(self).view() == f12_zero(),
            final(self).tag() == DENSE,
    {
        let ghost x = self.view();
        proof {
            self.lemma_reduced();
        }
        let ghost (ea, eb, ec) = (x.0, x.1, x.2);
        let ghost (e0, e1, e2) = (adj0(x), adj1(x), adj2(x));
        let f0 = g_mul(&self.a, Ghost(ea), &self.a, Ghost(ea));
        let f1 = g_mul(&self.b, Ghost(eb), &self.c, Ghost(ec));
        let f1 = g_times_i(&f1, Ghost(f4_mul(eb, ec)));
        let f0 = g_sub(&f0, Ghost(f4_mul(ea, ea)), &f1, Ghost(f4_times_i(f4_mul(eb, ec))));
        let f1 = g_mul(&self.c, Ghost(ec), &self.c, Ghost(ec));
        let f1 = g_times_i(&f1, Ghost(f4_mul(ec, ec)));
        let f2 = g_mul(&self.a, Ghost(ea), &self.b, Ghost(eb));
        let f1 = g_sub(&f1, Ghost(f4_times_i(f4_mul(ec, ec))), &f2, Ghost(f4_mul(ea, eb)));
        let f2 = g_mul(&self.b, Ghost(eb), &self.b, Ghost(eb));
        let f3 = g_mul(&self.a, Ghost(ea), &self.c, Ghost(ec));
        let f2 = g_sub(&f2, Ghost(f4_mul(eb, eb)), &f3, Ghost(f4_mul(ea, ec)));
        let f3 = g_mul(&self.b, Ghost(eb), &f2, Ghost(e2));
        let f3 = g_times_i(&f3, Ghost(f4_mul(eb, e2)));
        let ta = g_mul(&self.a, Ghost(ea), &f0, Ghost(e0));
        let f3 = g_add(&f3, Ghost(f4_times_i(f4_mul(eb, e2))), &ta, Ghost(f4_mul(ea, e0)));
        let ghost e3 = f4_add(f4_times_i(f4_mul(eb, e2)), f4_mul(ea, e0));
        let tc = g_mul(&self.c, Ghost(ec), &f1, Ghost(e1));
        let tc = g_times_i(&tc, Ghost(f4_mul(ec, e1)));
        let f3 = g_add(&f3, Ghost(e3), &tc, Ghost(f4_times_i(f4_mul(ec, e1))));
        let ghost n = f12_norm(x);
        assert(f3.view() == f4_red(n));
        let k = f3.inverse();
        let ghost ek = k.view();
        proof {
            k.lemma_reduced();
        }
        let ra = g_mul(&f0, Ghost(e0), &k, Ghost(ek));
        let rb = g_mul(&f1, Ghost(e1), &k, Ghost(ek));
        let rc = g_mul(&f2, Ghost(e2), &k, Ghost(ek));
        self.a = ra;
        self.b = rb;
        self.c = rc;
        self.stype = DENSE;
        proof {
            let big_r = (f4_mul(e0, ek), f4_mul(e1, ek), f4_mul(e2, ek));
            lemma_f12_red_mul(x, big_r);
            lemma_adjugate(x);
            lemma_mul_scaled(x, (e0, e1, e2), ek);
            lemma_f4_ring(ek, f4_zero(), ek);
            lemma_f4_ring(f4_zero(), ek, ek);
            lemma_f4_red(n, ek);
            lemma_shapes(x, x);
            f3.lemma_reduced();
            if !f4_invertible(n) {
                assert(ek == f4_zero());
                lemma_f4_ring(e0, f4_zero(), ek);
                lemma_f4_ring(e1, f4_zero(), ek);
                lemma_f4_ring(e2, f4_zero(), ek);
            }
        }
    }

    /// Decodes twelve big-endian field-sized blocks, each reduced; tagged
    /// `DENSE`. The buffer must hold at least `FP12_BYTES` bytes.
    pub fn from_bytes(w: &[u8]) -> (r: FP12)
        requires
            w@.len() >= FP12_BYTES,
        ensures
            r.wf(),
            r.view() == f12_of_bytes(w@),
            r.tag() == DENSE,
    {
        let a = FP2::new_fps(fp_at(w, 0), fp_at(w, 1));
        let b = FP2::new_fps(fp_at(w, 2), fp_at(w, 3));
        let e = FP4::new_fp2s(a, b);
        let a = FP2::new_fps(fp_at(w, 4), fp_at(w, 5));
        let b = FP2::new_fps(fp_at(w, 6), fp_at(w, 7));
        let f = FP4::new_fp2s(a, b);
        let a = FP2::new_fps(fp_at(w, 8), fp_at(w, 9));
        let b = FP2::new_fps(fp_at(w, 10), fp_at(w, 11));
        let g = FP4::new_fp2s(a, b);
        FP12::new_fp4s(e, f, g)
    }

    /// Encodes the twelve coefficients as big-endian field-sized blocks into
    /// the first `FP12_BYTES` bytes of `w`.
    pub fn to_bytes(&self, w: &mut [u8])
        requires
            self.wf(),
            old(w)@.len() >= FP12_BYTES,
        ensures
            final(w)@.len() == old(w)@.len(),
            forall|k: int| 0 <= k < 12 ==> block(final(w)@, k) == #[trigger] coeff(self.view(), k),
            forall|j: int| FP12_BYTES <= j < final(w)@.len() ==> final(w)@[j] == old(w)@[j],
    {
        let ghost w0 = w@;
        let parts = [
            self.a.geta().geta(), self.a.geta().getb(), self.a.getb().geta(), self.a.getb().getb(),
            self.b.geta().geta(), self.b.geta().getb(), self.b.getb().geta(), self.b.getb().getb(),
            self.c.geta().geta(), self.c.geta().getb(), self.c.getb().geta(), self.c.getb().getb(),
        ];
        let mut k: usize = 0;
        while k < 12
            invariant
                k <= 12,
                w@.len() == w0.len(),
                w0.len() >= FP12_BYTES,
                self.wf(),
                forall|i: int| 0 <= i < 12 ==> (#[trigger] parts@[i]).wf() && parts@[i].val() == coeff(self.view(), i),
                forall|i: int| 0 <= i < k ==> block(w@, i) == #[trigger] coeff(self.view(), i),
                forall|j: int| 48 * k <= j < w@.len() ==> w@[j] == w0[j],
            decreases 12 - k,
        {
            let ghost before = w@;
            put_fp(w, k, &parts[k]);
            proof {
                assert forall|i: int| 0 <= i < k implies block(w@, i) == #[trigger] coeff(self.view(), i) by {
                    assert(w@.subrange(48 * i, 48 * i + 48) =~= before.subrange(48 * i, 48 * i + 48));
                }
            }
            k = k + 1;
        }
    }

    /// `self^e` for `e >= 1` by signed binary exponentiation with cyclotomic
    /// squarings; the power itself on the cyclotomic subgroup.
    pub fn pow(&self, e: &Big) -> (r: FP12)
        requires
            self.wf(),
            e.val() >= 1,
        ensures
            r.wf(),
            r.view() == f12_pow(self.view(), e.val()),
    {
        let ghost x = self.view();
        let ghost ev = e.val();
        let r = self.copy();
        let e3 = e.triple();
        let b3 = e3.bits();
        let b1 = e.bits();
        proof {
            lemma_nbits_bound(3 * ev, 0);
        }
        let nb = b3.len();
        let mut rc = r.copy();
        rc.conj();
        let mut w = r.copy();
        let mut i: usize = nb - 1;
        while i > 1
            invariant
                1 <= i <= nb - 1,
                nb == nbits(3 * ev),
                b3@.len() == nb,
                b1@.len() == nbits(ev),
                forall|k: int| 0 <= k < nb ==> b3@[k] as nat == bit(3 * ev, k as nat),
                forall|k: int| 0 <= k < b1@.len() ==> b1@[k] as nat == bit(ev, k as nat),
                r.wf(),
                r.view() == x,
                rc.wf(),
                rc.view() == f12_red(f12_conj(x)),
                w.wf(),
                w.view() == pow_from(x, ev, i as nat, (nb - 1) as nat),
            decreases i,
        {
            i = i - 1;
            w.usqr();
            let d1: u8 = if i < b1.len() { b1[i] } else { 0 };
            proof {
                lemma_nbits_bound(ev, i as nat);
            }
            let bt: i32 = b3[i] as i32 - d1 as i32;
            if bt == 1 {
                w.mul(&r);
            }
            if bt == -1 {
                w.mul(&rc);
            }
        }
        proof {
            self.lemma_reduced();
        }
        w
    }

    /// Constant-time `self = self^e` for an exponent of at most `bts` bits, by
    /// a Montgomery ladder whose two slots are chosen by masked moves.
    pub fn pinpow(&mut self, e: i32, bts: i32)
        requires
            old(self).wf(),
            0 <= e,
            0 <= bts <= 31,
        ensures
            final(self).wf(),
            final(self).view() == ladder(old(self).view(), e as u32, 0, bts as int).0,
    {
        let ghost x = self.view();
        let eu: u32 = e as u32;
        let mut r0 = FP12::new_int(1);
        let mut r1 = self.copy();
        proof {
            self.lemma_reduced();
            lemma_shapes(x, x);
            lemma_f2_const_red();
            assert(f2_red((1int, 0int)) == crate::fp2::f2_one());
        }
        let mut i: i32 = bts;
        while i > 0
            invariant
                0 <= i <= bts <= 31,
                r0.wf(),
                r1.wf(),
                (r0.view(), r1.view()) == ladder(x, eu, i as int, bts as int),
            decreases i,
        {
            i = i - 1;
            let b: u32 = (eu >> (i as u32)) & 1;
            assert(b <= 1) by (bit_vector)
                requires
                    b == (eu >> (i as u32)) & 1,
            ;
            let bi: isize = b as isize;
            let mut t = r0.copy();
            t.cmove(&r1, bi);
            let mut u = r1.copy();
            u.cmove(&r0, bi);
            u.mul(&t);
            t.usqr();
            let mut n0 = u.copy();
            n0.cmove(&t, 1 - bi);
            let mut n1 = t.copy();
            n1.cmove(&u, 1 - bi);
            r0 = n0;
            r1 = n1;
        }
        *self = r0;
    }

    /// Simultaneous exponentiation `q0^u0 q1^u1 q2^u2 q3^u3` of elements of
    /// the cyclotomic subgroup (Bos and Costello; Faz-Hernandez, Longa and
    /// Sanchez). The exponents are recoded jointly into signed digits that
    /// index a table of the eight products of subsets of `q1, q2, q3` with
    /// `q0`; each step reads the table in constant time.
    #[verifier::rlimit(60)]
    pub fn pow4(q: &[FP12], u: &[Big]) -> (r: FP12)
        requires
            q@.len() == 4,
            u@.len() == 4,
            forall|i: int| 0 <= i < 4 ==> (#[trigger] q@[i]).wf(),
        ensures
            r.wf(),
            r.view() == pow4_spec(q@.map_values(|x: FP12| x.view()), u@.map_values(|b: Big| b.val())),
    {
        let ghost qv = q@.map_values(|x: FP12| x.view());
        let ghost uv = u@.map_values(|b: Big| b.val());
        let ghost gt = pow4_table(qv);
        let ghost nbv = pow4_len(uv);
        let ghost t0v = uv[0] + pow4_parity(uv);
        let mut g: Vec<FP12> = Vec::new();
        g.push(q[0].copy());
        let mut t1 = g[0].copy();
        t1.mul(&q[1]);
        g.push(t1);
        let mut t2 = g[0].copy();
        t2.mul(&q[2]);
        g.push(t2);
        let mut t3 = g[1].copy();
        t3.mul(&q[2]);
        g.push(t3);
        let mut i: usize = 0;
        while i < 4
            invariant
                g@.len() == 4 + i,
                i <= 4,
                q@.len() == 4,
                qv == q@.map_values(|x: FP12| x.view()),
                gt == pow4_table(qv),
                forall|k: int| 0 <= k < 4 ==> (#[trigger] q@[k]).wf(),
                forall|k: int| 0 <= k < g@.len() ==> (#[trigger] g@[k]).wf() && g@[k].view() == gt[k],
            decreases 4 - i,
        {
            let mut t = g[i].copy();
            t.mul(&q[3]);
            g.push(t);
            i = i + 1;
        }

        let mut t: Vec<Big> = Vec::new();
        let mut j: usize = 0;
        while j < 4
            invariant
                j <= 4,
                t@.len() == j,
                u@.len() == 4,
                uv == u@.map_values(|b: Big| b.val()),
                forall|k: int| 0 <= k < j ==> (#[trigger] t@[k]).val() == uv[k],
            decreases 4 - j,
        {
            t.push(u[j].copy());
            j = j + 1;
        }
        // make the first exponent odd
        let pb: u8 = 1 - t[0].parity();
        let t0 = t[0].add(&Big::new_int(pb as u64));
        t.set(0, t0);
        assert(pb as nat == pow4_parity(uv));
        let mut mx: usize = 0;
        let mut j: usize = 0;
        while j < 4
            invariant
                j <= 4,
                t@.len() == 4,
                t@[0].val() == t0v,
                forall|k: int| 1 <= k < 4 ==> (#[trigger] t@[k]).val() == uv[k],
                mx == (if j == 0 {
                    0
                } else if j == 1 {
                    nbits(t0v)
                } else if j == 2 {
                    max_nat(nbits(t0v), nbits(uv[1]))
                } else if j == 3 {
                    max_nat(max_nat(nbits(t0v), nbits(uv[1])), nbits(uv[2]))
                } else {
                    max_nat(max_nat(max_nat(nbits(t0v), nbits(uv[1])), nbits(uv[2])), nbits(uv[3]))
                }),
            decreases 4 - j,
        {
            let nbj = t[j].nbits();
            if nbj > mx {
                mx = nbj;
            }
            j = j + 1;
        }
        if mx >= 0x7fff_ffff {
            mx = 0x7fff_fffe;
        }
        let nb: usize = 1 + mx;
        assert(nb == nbv);
        // sign pivot
        let mut s: Vec<i8> = Vec::new();
        let mut i: usize = 0;
        proof {
            vstd::arithmetic::power2::lemma2_to64();
        }
        while i < nb - 1
            invariant
                i <= nb - 1,
                nb == nbv,
                nbv == pow4_len(uv),
                t0v == uv[0] + pow4_parity(uv),
                s@.len() == i,
                t@.len() == 4,
                t@[0].val() == t0v / pow2(i as nat),
                forall|k: int| 1 <= k < 4 ==> (#[trigger] t@[k]).val() == uv[k],
                forall|k: int| 0 <= k < i ==> s@[k] as int == pow4_sign(uv, k),
            decreases nb - 1 - i,
        {
            let h = t[0].half();
            t.set(0, h);
            proof {
                lemma_half_pow2(t0v, i as nat);
            }
            let sv: i8 = if t[0].parity() == 1 { 1 } else { -1 };
            s.push(sv);
            i = i + 1;
        }
        s.push(1);
        // recoded digits: `m[i]` collects the low bits of exponents 1 to 3
        let mut m: Vec<i32> = Vec::new();
        let mut i: usize = 0;
        while i < nb
            invariant
                i <= nb,
                nb == nbv,
                nbv == pow4_len(uv),
                s@.len() == nb,
                m@.len() == i,
                t@.len() == 4,
                forall|k: int| 0 <= k < nb ==> s@[k] as int == pow4_sign(uv, k),
                forall|k: int| 1 <= k < 4 ==> (#[trigger] t@[k]).val() == pow4_rest(uv, uv[k], i as nat),
                forall|k: int| 0 <= k < i ==> 0 <= #[trigger] m@[k] < 8 && m@[k] == pow4_index(uv, k as nat),
            decreases nb - i,
        {
            let ghost tb = t@;
            let mut acc: i32 = 0;
            let mut k: i32 = 1;
            let mut j: usize = 1;
            while j < 4
                invariant
                    1 <= j <= 4,
                    k == (if j == 1 { 1i32 } else if j == 2 { 2i32 } else if j == 3 { 4i32 } else { 8i32 }),
                    0 <= acc < k,
                    t@.len() == 4,
                    i < nb,
                    s@.len() == nb,
                    s@[i as int] as int == pow4_sign(uv, i as int),
                    forall|l: int| 1 <= l < 4 ==> (#[trigger] tb[l]).val() == pow4_rest(uv, uv[l], i as nat),
                    forall|l: int| 1 <= l < j ==> (#[trigger] t@[l]).val() == pow4_rest(uv, uv[l], (i + 1) as nat),
                    forall|l: int| j <= l < 4 ==> (#[trigger] t@[l]).val() == tb[l].val(),
                    acc == (if j == 1 {
                        0int
                    } else if j == 2 {
                        (pow4_rest(uv, uv[1], i as nat) % 2) as int
                    } else if j == 3 {
                        (pow4_rest(uv, uv[1], i as nat) % 2 + 2 * (pow4_rest(uv, uv[2], i as nat) % 2)) as int
                    } else {
                        pow4_index(uv, i as nat)
                    }),
                decreases 4 - j,
            {
                let par = t[j].parity();
                let h = t[j].half();
                // a digit of -1 borrows one from the rest of the exponent
                let next = if s[i] == -1 && par == 1 { h.add(&Big::new_int(1)) } else { h };
                t.set(j, next);
                acc = acc + (par as i32) * k;
                k = k * 2;
                j = j + 1;
            }
            m.push(acc);
            i = i + 1;
        }
        // main loop
        assert forall|k: int| 0 <= k < nb implies (s@[k] == 1 || s@[k] == -1) by {
            assert(s@[k] as int == pow4_sign(uv, k));
        }
        let mut p = FP12::new();
        let top: i32 = 2 * m[nb - 1] + 1;
        p.selector(g.as_slice(), top);
        let mut r = FP12::new();
        let mut i: usize = nb - 1;
        while i > 0
            invariant
                i <= nb - 1,
                nb == nbv,
                nbv == pow4_len(uv),
                p.wf(),
                r.wf(),
                g@.len() == 8,
                forall|k: int| 0 <= k < 8 ==> (#[trigger] g@[k]).wf() && g@[k].view() == gt[k],
                s@.len() == nb,
                m@.len() == nb,
                forall|k: int| 0 <= k < nb ==> s@[k] as int == pow4_sign(uv, k),
                forall|k: int| 0 <= k < nb ==> (s@[k] == 1 || s@[k] == -1),
                forall|k: int| 0 <= k < nb ==> 0 <= #[trigger] m@[k] < 8 && m@[k] == pow4_index(uv, k as nat),
                p.view() == pow4_acc(gt, uv, i as int),
            decreases i,
        {
            i = i - 1;
            p.usqr();
            let sv: i32 = s[i] as i32;
            let mi: i32 = m[i];
            assert(-15 <= sv * (2 * mi + 1) <= 15 && (sv * (2 * mi + 1)) % 2 != 0) by (nonlinear_arith)
                requires
                    sv == 1 || sv == -1,
                    0 <= mi < 8,
            ;
            let b: i32 = sv * (2 * mi + 1);
            r.selector(g.as_slice(), b);
            p.mul(&r);
        }
        // undo making the first exponent odd
        let mut c = q[0].copy();
        c.conj();
        c.mul(&p);
        p.cmove(&c, pb as isize);
        p.reduce();
        p
    }

    /// Reads an element from twelve hexadecimal tokens, one per coefficient in
    /// the order of `from_bytes`, each reduced; `None` when fewer than twelve
    /// tokens are given or one of the first twelve is empty or not hexadecimal.
    /// Tagged `DENSE`.
    pub fn from_hex_tokens(tokens: &[Vec<u8>]) -> (r: Option<FP12>)
        ensures
            r.is_some() == hex_tokens_ok(tokens@.map_values(|v: Vec<u8>| v@)),
            r.is_some() ==> r.unwrap().wf() && r.unwrap().view() == f12_of_hex(
                tokens@.map_values(|v: Vec<u8>| v@),
            ) && r.unwrap().tag() == DENSE,
    {
        let ghost ts = tokens@.map_values(|v: Vec<u8>| v@);
        if tokens.len() < 12 {
            return None;
        }
        let mut fps: Vec<FP> = Vec::new();
        let mut k: usize = 0;
        while k < 12
            invariant
                k <= 12,
                fps@.len() == k,
                tokens@.len() >= 12,
                ts == tokens@.map_values(|v: Vec<u8>| v@),
                forall|j: int| 0 <= j < k ==> (#[trigger] fps@[j]).wf() && fps@[j].val() == hex_value(ts[j]) % modulus(),
                forall|j: int| 0 <= j < k ==> (#[trigger] ts[j]).len() > 0 && all_hex(ts[j]),
            decreases 12 - k,
        {
            match Big::from_hex(tokens[k].as_slice()) {
                Some(b) => {
                    fps.push(b.to_fp());
                },
                None => {
                    assert(!((ts[k as int]).len() > 0 && all_hex(ts[k as int])));
                    return None;
                },
            }
            k = k + 1;
        }
        let a = FP2::new_fps(fps[0].clone(), fps[1].clone());
        let b = FP2::new_fps(fps[2].clone(), fps[3].clone());
        let e = FP4::new_fp2s(a, b);
        let a = FP2::new_fps(fps[4].clone(), fps[5].clone());
        let b = FP2::new_fps(fps[6].clone(), fps[7].clone());
        let f = FP4::new_fp2s(a, b);
        let a = FP2::new_fps(fps[8].clone(), fps[9].clone());
        let b = FP2::new_fps(fps[10].clone(), fps[11].clone());
        let g = FP4::new_fp2s(a, b);
        Some(FP12::new_fp4s(e, f, g))
    }

    /// The coefficients as text: twelve big-endian blocks of lower-case
    /// hexadecimal, `2 * MODBYTES` digits each, separated by single spaces.
    pub fn to_hex_text(&self) -> (r: Vec<u8>)
        requires
            self.wf(),
        ensures
            r@.len() == FP12_HEX_LEN,
            exists|w: Seq<u8>|
                w.len() == FP12_BYTES && (forall|k: int| 0 <= k < 12 ==> block(w, k) == #[trigger] coeff(
                    self.view(),
                    k,
                )) && r@ == hex_text(w),
    {
        let mut w: Vec<u8> = vec![0u8; FP12_BYTES];
        self.to_bytes(w.as_mut_slice());
        let ghost wv = w@;
        let mut r: Vec<u8> = Vec::new();
        let mut j: usize = 0;
        while j < FP12_HEX_LEN
            invariant
                j <= FP12_HEX_LEN,
                w@ == wv,
                wv.len() == FP12_BYTES,
                r@ =~= hex_text(wv).subrange(0, j as int),
            decreases FP12_HEX_LEN - j,
        {
            let c: usize = j % 97;
            let ch: u8 = if c == 96 {
                32
            } else {
                let b: u8 = w[48 * (j / 97) + c / 2];
                if c % 2 == 0 {
                    hex_char_of(b / 16)
                } else {
                    hex_char_of(b % 16)
                }
            };
            r.push(ch);
            j = j + 1;
        }
        assert(r@ =~= hex_text(wv));
        r
    }

    /// Squaring `self = self^2` by Chung and Hasan's method. One stays one, a
    /// line-function shape becomes `SPARSE`, anything else `DENSE`.
    #[verifier::rlimit(80)]
    #[verifier::spinoff_prover]
    pub fn sqr(&mut self)
        requires
            old(self).wf(),
        ensures
            final(self).wf(),
            final(self).view() == f12_red(f12_mul(old(self).view(), old(self).view())),
            final(self).tag() == (if old(self).tag() == ONE {
                ONE
            } else if old(self).tag() == SPARSER {
                SPARSE
            } else {
                DENSE
            }),
    {
        let ghost x = self.view();
        proof {
            self.lemma_reduced();
            lemma_shapes(x, x);
        }
        if self.stype == ONE {
            return;
        }
        let ghost (ea, eb, ec) = (x.0, x.1, x.2);
        let a2 = g_mul(&self.a, Ghost(ea), &self.a, Ghost(ea));
        let bc = g_mul(&self.b, Ghost(eb), &self.c, Ghost(ec));
        let ghost e_bc = f4_mul(eb, ec);
        let bc2 = g_add(&bc, Ghost(e_bc), &bc, Ghost(e_bc));
        let ghost e_bc2 = f4_dbl(e_bc);
        let c2 = g_mul(&self.c, Ghost(ec), &self.c, Ghost(ec));
        let ab = g_mul(&self.a, Ghost(ea), &self.b, Ghost(eb));
        let ghost e_ab = f4_mul(ea, eb);
        let ab2 = g_add(&ab, Ghost(e_ab), &ab, Ghost(e_ab));
        let ghost e_ab2 = f4_dbl(e_ab);
        let s = g_add(&self.c, Ghost(ec), &self.a, Ghost(ea));
        let s = g_add(&s, Ghost(f4_add(ec, ea)), &self.b, Ghost(eb));
        let ghost e_s = f4_add(f4_add(ec, ea), eb);
        let s = g_mul(&s, Ghost(e_s), &s, Ghost(e_s));
        let ghost e_a2 = f4_mul(ea, ea);
        let ghost e_c2 = f4_mul(ec, ec);
        let t = g_add(&a2, Ghost(e_a2), &bc2, Ghost(e_bc2));
        let ghost e_t = f4_add(e_a2, e_bc2);
        let t = g_add(&t, Ghost(e_t), &c2, Ghost(e_c2));
        let ghost e_t = f4_add(e_t, e_c2);
        let t = g_add(&t, Ghost(e_t), &ab2, Ghost(e_ab2));
        let ghost e_t = f4_add(e_t, e_ab2);
        let t = g_neg(&t, Ghost(e_t));
        let bc2i = g_times_i(&bc2, Ghost(e_bc2));
        let c2i = g_times_i(&c2, Ghost(e_c2));
        let ra = g_add(&a2, Ghost(e_a2), &bc2i, Ghost(f4_times_i(e_bc2)));
        let rb = g_add(&c2i, Ghost(f4_times_i(e_c2)), &ab2, Ghost(e_ab2));
        let rc = g_add(&s, Ghost(f4_mul(e_s, e_s)), &t, Ghost(f4_neg(e_t)));
        proof {
            lemma_chung_hasan(x);
        }
        self.a = ra;
        self.b = rb;
        self.c = rc;
        if self.stype == SPARSER {
            self.stype = SPARSE;
        } else {
            self.stype = DENSE;
        }
    }

    /// Granger and Scott's squaring, the square of an element of the
    /// cyclotomic subgroup; tagged `DENSE`.
    pub fn usqr(&mut self)
        requires
            old(self).wf(),
        ensures
            final(self).wf(),
            final(self).view() == f12_red(f12_usqr(old(self).view())),
            final(self).tag() == DENSE,
    {
        let ghost x = self.view();
        proof {
            self.lemma_reduced();
        }
        let ghost (ea, eb, ec) = (x.0, x.1, x.2);
        let ghost e_a2 = f4_mul(ea, ea);
        let a2 = g_mul(&self.a, Ghost(ea), &self.a, Ghost(ea));
        let d = g_add(&a2, Ghost(e_a2), &a2, Ghost(e_a2));
        let a3 = g_add(&a2, Ghost(e_a2), &d, Ghost(f4_dbl(e_a2)));
        let na = g_nconj(&self.a, Ghost(ea));
        let na2 = g_add(&na, Ghost(f4_nconj(ea)), &na, Ghost(f4_nconj(ea)));
        let ra = g_add(&a3, Ghost(f4_triple(e_a2)), &na2, Ghost(f4_dbl(f4_nconj(ea))));
        let ghost e_c2i = f4_times_i(f4_mul(ec, ec));
        let c2 = g_mul(&self.c, Ghost(ec), &self.c, Ghost(ec));
        let c2i = g_times_i(&c2, Ghost(f4_mul(ec, ec)));
        let d = g_add(&c2i, Ghost(e_c2i), &c2i, Ghost(e_c2i));
        let c3 = g_add(&c2i, Ghost(e_c2i), &d, Ghost(f4_dbl(e_c2i)));
        let ghost e_b2 = f4_mul(eb, eb);
        let b2 = g_mul(&self.b, Ghost(eb), &self.b, Ghost(eb));
        let d = g_add(&b2, Ghost(e_b2), &b2, Ghost(e_b2));
        let b3 = g_add(&b2, Ghost(e_b2), &d, Ghost(f4_dbl(e_b2)));
        let cb = g_conj(&self.b, Ghost(eb));
        let cb2 = g_add(&cb, Ghost(f4_conj(eb)), &cb, Ghost(f4_conj(eb)));
        let nc = g_nconj(&self.c, Ghost(ec));
        let nc2 = g_add(&nc, Ghost(f4_nconj(ec)), &nc, Ghost(f4_nconj(ec)));
        let rb = g_add(&c3, Ghost(f4_triple(e_c2i)), &cb2, Ghost(f4_dbl(f4_conj(eb))));
        let rc = g_add(&b3, Ghost(f4_triple(e_b2)), &nc2, Ghost(f4_dbl(f4_nconj(ec))));
        self.a = ra;
        self.b = rb;
        self.c = rc;
        self.stype = DENSE;
    }

    /// Conjugation; the tag is kept.
    pub fn conj(&mut self)
        requires
            old(self).wf(),
        ensures
            final(self).wf(),
            final(self).view() == f12_red(f12_conj(old(self).view())),
            final(self).tag() == old(self).tag(),
    {
        proof {
            self.lemma_reduced();
            lemma_conj_shape(self.stype, self.view());
        }
        let ra = self.a.conj();
        let rb = self.b.nconj();
        let rc = self.c.conj();
        self.a = ra;
        self.b = rb;
        self.c = rc;
    }

    /// The Frobenius map with constant `f`; tagged `DENSE`.
    pub fn frob(&mut self, f: &FP2)
        requires
            old(self).wf(),
            f.wf(),
        ensures
            final(self).wf(),
            final(self).view() == f12_red(f12_frob(old(self).view(), f.view())),
            final(self).tag() == DENSE,
    {
        let ghost x = self.view();
        let ghost ef = f.view();
        proof {
            self.lemma_reduced();
            f.lemma_reduced();
            crate::fp2::lemma_f2_red(ef, ef);
            crate::fp2::lemma_f2_red(ef, crate::fp2::f2_mul(ef, ef));
        }
        let f2 = f.sqr();
        let f3 = f.mul(&f2);
        let ghost e_f2 = crate::fp2::f2_mul(ef, ef);
        let ghost e_f3 = crate::fp2::f2_mul(ef, e_f2);
        let ra = g_frob(&self.a, Ghost(x.0), &f3, Ghost(e_f3));
        let rb = g_frob(&self.b, Ghost(x.1), &f3, Ghost(e_f3));
        let rc = g_frob(&self.c, Ghost(x.2), &f3, Ghost(e_f3));
        let rb = g_pmul(&rb, Ghost(f4_frob(x.1, e_f3)), f, Ghost(ef));
        let rc = g_pmul(&rc, Ghost(f4_frob(x.2, e_f3)), &f2, Ghost(e_f2));
        self.a = ra;
        self.b = rb;
        self.c = rc;
        self.stype = DENSE;
    }
}

} // verus!
