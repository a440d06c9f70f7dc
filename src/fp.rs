//! The prime field of the BLS12-381 curve.

use vstd::prelude::*;
use vstd::arithmetic::power::{pow, lemma_pow_positive, lemma_pow_increases};
use vstd::arithmetic::div_mod::*;
use crate::digits::{
    radix, limbs_val, be_val, lemma_limbs_nonneg, lemma_minimal_len, lemma_be_minimal_len,
    lemma_push_zero, lemma_prepend_zero, lemma_limbs2, lemma_limbs_bound, lemma_limbs_differ, big_add, big_sub, big_mul, big_rem,
    big_modinv, big_from_bytes_be, big_to_bytes_be,
};

verus! {

/// Digits of the field's prime modulus
/// 0x1a0111ea397fe69a4b1ba7b6434bacd764774b84f38512bf6730d2a0f6b0f6241eabfffeb153ffffb9feffffffffaaab,
/// least significant first.
pub open spec fn modulus_seq() -> Seq<u32> {
    seq![
        0xffffaaabu32, 0xb9feffffu32, 0xb153ffffu32, 0x1eabfffeu32, 0xf6b0f624u32, 0x6730d2a0u32,
        0xf38512bfu32, 0x64774b84u32, 0x434bacd7u32, 0x4b1ba7b6u32, 0x397fe69au32, 0x1a0111eau32,
    ]
}

/// The field's prime modulus.
pub open spec fn modulus() -> int {
    limbs_val(modulus_seq())
}

/// `n` has a multiplicative inverse modulo the prime; as the modulus is prime,
/// every `n` that the modulus does not divide has one.
pub open spec fn invertible(n: int) -> bool {
    exists|x: int| 0 <= x && #[trigger] ((n * x) % modulus()) == 1
}

/// Number of digits in the fixed-width representation of a field element.
pub const NDIGITS: usize = 12;

/// Number of bytes in the serialised form of a field element.
pub const MODBYTES: usize = 48;

/// An element of the prime field, held as twelve base 2^32 digits, fully reduced.
pub struct FP {
    d: Vec<u32>,
}

pub proof fn lemma_radix_pow_12()
    ensures
        pow(256, 48) == pow(radix(), 12),
{
    reveal_with_fuel(pow, 49);
}

pub proof fn lemma_modulus_bound()
    ensures
        1 < modulus() < pow(radix(), 12),
        modulus() > 0x1_0000_0000,
        pow(radix(), 12) == pow(256, 48),
{
    lemma_radix_pow_12();
    lemma_limbs_bound(modulus_seq());
    let s = modulus_seq();
    lemma_limbs_nonneg(s.drop_last());
    lemma_pow_positive(radix(), 11);
    lemma_pow_increases(radix() as nat, 1, 11);
    reveal_with_fuel(pow, 2);
    let q = pow(radix(), 11);
    assert(q >= radix());
    assert((s.last() as int) * q >= q) by (nonlinear_arith)
        requires
            s.last() >= 1,
            q > 0,
    ;
}

fn modulus_digits() -> (r: Vec<u32>)
    ensures
        limbs_val(r@) == modulus(),
        r@.len() == NDIGITS,
{
    let r = vec![
        0xffffaaabu32, 0xb9feffffu32, 0xb153ffffu32, 0x1eabfffeu32, 0xf6b0f624u32, 0x6730d2a0u32,
        0xf38512bfu32, 0x64774b84u32, 0x434bacd7u32, 0x4b1ba7b6u32, 0x397fe69au32, 0x1a0111eau32,
    ];
    assert(r@ =~= modulus_seq());
    r
}

/// Pads a digit sequence with zero digits to the fixed width.
fn pad_digits(v: Vec<u32>) -> (r: Vec<u32>)
    requires
        v@.len() <= NDIGITS,
    ensures
        r@.len() == NDIGITS,
        limbs_val(r@) == limbs_val(v@),
{
    let mut r = v;
    while r.len() < NDIGITS
        invariant
            r@.len() <= NDIGITS,
            limbs_val(r@) == limbs_val(v@),
        decreases NDIGITS - r@.len(),
    {
        proof {
            lemma_push_zero(r@);
        }
        r.push(0);
    }
    r
}

impl FP {
    /// The element's value in `[0, modulus())`.
    pub closed spec fn val(&self) -> int {
        limbs_val(self.d@)
    }

    pub proof fn lemma_bounds(&self)
        requires
            self.wf(),
        ensures
            0 <= self.val() < modulus(),
    {
    }

    /// Fixed width and fully reduced.
    pub closed spec fn wf(&self) -> bool {
        &&& self.d@.len() == NDIGITS
        &&& 0 <= limbs_val(self.d@) < modulus()
    }

    /// The element whose value is that of a digit sequence, reduced.
    pub(crate) fn from_digits(v: &Vec<u32>) -> (r: FP)
        ensures
            r.wf(),
            r.val() == limbs_val(v@) % modulus(),
    {
        let p = modulus_digits();
        proof {
            lemma_modulus_bound();
        }
        let m = big_rem(v, &p);
        proof {
            lemma_limbs_nonneg(m@);
            lemma_minimal_len(m@, 12);
        }
        FP { d: pad_digits(m) }
    }

    /// Zero.
    pub fn new() -> (r: FP)
        ensures
            r.wf(),
            r.val() == 0,
    {
        let v: Vec<u32> = Vec::new();
        proof {
            lemma_modulus_bound();
        }
        FP { d: pad_digits(v) }
    }

    /// The element `a mod modulus()`.
    pub fn new_int(a: isize) -> (r: FP)
        ensures
            r.wf(),
            r.val() == (a as int) % modulus(),
    {
        let mag: u64 = if a >= 0 { a as u64 } else { (-(a as i128)) as u64 };
        let lo: u32 = (mag % 4294967296) as u32;
        let hi: u32 = (mag / 4294967296) as u32;
        let v = vec![lo, hi];
        proof {
            lemma_limbs2(lo, hi);
            assert(v@ =~= seq![lo, hi]);
        }
        let m = FP::from_digits(&v);
        if a >= 0 {
            m
        } else {
            let r = m.neg();
            proof {
                lemma_sub_mod_noop(0, mag as int, modulus());
                lemma_mod_twice(-(mag as int), modulus());
                lemma_small_mod(0, modulus() as nat);
            }
            r
        }
    }

    /// The element whose big-endian bytes are `b`, reduced.
    pub fn from_big_bytes(b: &[u8]) -> (r: FP)
        ensures
            r.wf(),
            r.val() == be_val(b@) % modulus(),
    {
        let v = big_from_bytes_be(b);
        FP::from_digits(&v)
    }

    /// The value as `MODBYTES` big-endian bytes.
    pub fn to_big_bytes(&self) -> (r: Vec<u8>)
        requires
            self.wf(),
        ensures
            r@.len() == MODBYTES,
            be_val(r@) == self.val(),
    {
        let v = big_to_bytes_be(&self.d);
        proof {
            lemma_modulus_bound();
            if v@.len() > 1 {
                lemma_be_minimal_len(v@, 48);
            }
        }
        let mut r: Vec<u8> = Vec::new();
        let pad: usize = MODBYTES - v.len();
        let mut i: usize = 0;
        while i < pad
            invariant
                i <= pad,
                pad + v@.len() == MODBYTES,
                r@.len() == i,
                forall|k: int| 0 <= k < i ==> r@[k] == 0,
            decreases pad - i,
        {
            r.push(0);
            i = i + 1;
        }
        let mut j: usize = 0;
        while j < v.len()
            invariant
                j <= v@.len(),
                pad + v@.len() == MODBYTES,
                r@.len() == pad + j,
                forall|k: int| 0 <= k < pad ==> r@[k] == 0,
                forall|k: int| 0 <= k < j ==> r@[pad + k] == v@[k],
            decreases v@.len() - j,
        {
            r.push(v[j]);
            j = j + 1;
        }
        proof {
            lemma_leading_zeros(r@, v@, pad as nat);
        }
        r
    }

    pub fn zero() -> (r: FP)
        ensures
            r.wf(),
            r.val() == 0,
    {
        FP::new()
    }

    pub fn one() -> (r: FP)
        ensures
            r.wf(),
            r.val() == 1,
    {
        proof {
            lemma_modulus_bound();
            lemma_small_mod(1, modulus() as nat);
        }
        FP::new_int(1)
    }

    pub fn add(&self, b: &FP) -> (r: FP)
        requires
            self.wf(),
            b.wf(),
        ensures
            r.wf(),
            r.val() == (self.val() + b.val()) % modulus(),
    {
        FP::from_digits(&big_add(&self.d, &b.d))
    }

    pub fn sub(&self, b: &FP) -> (r: FP)
        requires
            self.wf(),
            b.wf(),
        ensures
            r.wf(),
            r.val() == (self.val() - b.val()) % modulus(),
    {
        let p = modulus_digits();
        let s = big_add(&self.d, &p);
        let t = big_sub(&s, &b.d);
        let r = FP::from_digits(&t);
        proof {
            lemma_mod_add_multiples_vanish(self.val() - b.val(), modulus());
        }
        r
    }

    pub fn neg(&self) -> (r: FP)
        requires
            self.wf(),
        ensures
            r.wf(),
            r.val() == (-self.val()) % modulus(),
    {
        let p = modulus_digits();
        let t = big_sub(&p, &self.d);
        let r = FP::from_digits(&t);
        proof {
            lemma_mod_add_multiples_vanish(-self.val(), modulus());
        }
        r
    }

    pub fn mul(&self, b: &FP) -> (r: FP)
        requires
            self.wf(),
            b.wf(),
        ensures
            r.wf(),
            r.val() == (self.val() * b.val()) % modulus(),
    {
        FP::from_digits(&big_mul(&self.d, &b.d))
    }

    pub fn sqr(&self) -> (r: FP)
        requires
            self.wf(),
        ensures
            r.wf(),
            r.val() == (self.val() * self.val()) % modulus(),
    {
        self.mul(self)
    }

    /// The multiplicative inverse; zero for zero, which has none.
    pub fn inverse(&self) -> (r: FP)
        requires
            self.wf(),
        ensures
            r.wf(),
            invertible(self.val()) ==> (self.val() * r.val()) % modulus() == 1,
            !invertible(self.val()) ==> r.val() == 0,
    {
        let p = modulus_digits();
        proof {
            lemma_modulus_bound();
        }
        match big_modinv(&self.d, &p) {
            Some(x) => {
                proof {
                    lemma_minimal_len(x@, 12);
                }
                FP { d: pad_digits(x) }
            },
            None => FP::new(),
        }
    }

    pub fn equals(&self, b: &FP) -> (r: bool)
        requires
            self.wf(),
            b.wf(),
        ensures
            r == (self.val() == b.val()),
    {
        let mut i: usize = 0;
        while i < NDIGITS
            invariant
                self.wf(),
                b.wf(),
                i <= NDIGITS,
                forall|k: int| 0 <= k < i ==> self.d@[k] == b.d@[k],
            decreases NDIGITS - i,
        {
            if self.d[i] != b.d[i] {
                proof {
                    lemma_limbs_differ(self.d@, b.d@, i as int);
                }
                return false;
            }
            i = i + 1;
        }
        assert(self.d@ =~= b.d@);
        true
    }

    pub fn is_zilch(&self) -> (r: bool)
        requires
            self.wf(),
        ensures
            r == (self.val() == 0),
    {
        let z = FP::new();
        self.equals(&z)
    }

    /// Replaces the value by that of `g` when `d` is 1 and keeps it when `d` is
    /// 0, with the same operations on every digit either way.
    pub fn cmove(&mut self, g: &FP, d: isize)
        requires
            old(self).wf(),
            g.wf(),
            d == 0 || d == 1,
        ensures
            final(self).wf(),
            final(self).val() == (if d == 1 { g.val() } else { old(self).val() }),
    {
        let mask: u32 = (0u32).wrapping_sub(d as u32);
        assert(d == 1 ==> mask == 0xffffffffu32) by (bit_vector)
            requires
                mask == (0u32).wrapping_sub(d as u32),
        ;
        let ghost s0 = self.d@;
        let mut i: usize = 0;
        while i < NDIGITS
            invariant
                i <= NDIGITS,
                self.d@.len() == NDIGITS,
                g.wf(),
                s0.len() == NDIGITS,
                d == 0 || d == 1,
                d == 0 ==> mask == 0,
                d == 1 ==> mask == 0xffffffffu32,
                forall|k: int| 0 <= k < i ==> self.d@[k] == (if d == 1 { g.d@[k] } else { s0[k] }),
                forall|k: int| i <= k < NDIGITS ==> self.d@[k] == s0[k],
            decreases NDIGITS - i,
        {
            let x: u32 = self.d[i];
            let y: u32 = g.d[i];
            let z: u32 = x ^ ((x ^ y) & mask);
            assert(mask == 0 ==> z == x) by (bit_vector)
                requires
                    z == x ^ ((x ^ y) & mask),
            ;
            assert(mask == 0xffffffffu32 ==> z == y) by (bit_vector)
                requires
                    z == x ^ ((x ^ y) & mask),
            ;
            self.d.set(i, z);
            i = i + 1;
        }
        proof {
            if d == 1 {
                assert(self.d@ =~= g.d@);
            } else {
                assert(self.d@ =~= s0);
            }
        }
    }
}

impl Clone for FP {
    fn clone(&self) -> (r: FP)
        ensures
            self.wf() ==> r.wf(),
            r.val() == self.val(),
    {
        FP { d: self.d.clone() }
    }
}

/// Leading zero bytes keep the value.
proof fn lemma_leading_zeros(r: Seq<u8>, v: Seq<u8>, pad: nat)
    requires
        r.len() == pad + v.len(),
        forall|k: int| 0 <= k < pad ==> r[k] == 0,
        forall|k: int| 0 <= k < v.len() ==> r[pad + k] == v[k],
    ensures
        be_val(r) == be_val(v),
    decreases pad,
{
    if pad == 0 {
        assert(r =~= v);
    } else {
        lemma_leading_zeros(r.drop_first(), v, (pad - 1) as nat);
        lemma_prepend_zero(r.drop_first());
        assert(r =~= seq![0u8] + r.drop_first());
    }
}

} // verus!
