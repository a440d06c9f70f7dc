//! Non-negative integers used as exponents, and their binary digits.

use vstd::prelude::*;
use vstd::arithmetic::power2::{pow2, lemma_pow2_unfold, lemma_pow2_pos};
use vstd::arithmetic::div_mod::lemma_div_denominator;
use crate::digits::{
    limbs_val, minimal, lemma_limbs_nonneg, lemma_minimal_zero, lemma_limbs2, radix, big_add,
    big_sub, big_div, big_rem, big_mul, big_from_bytes_be, be_val,
};

verus! {

/// Bit `i` of `n`.
pub open spec fn bit(n: nat, i: nat) -> nat {
    (n / pow2(i)) % 2
}

/// Number of binary digits of `n`.
pub open spec fn nbits(n: nat) -> nat
    decreases n,
{
    if n == 0 {
        0
    } else {
        1 + nbits(n / 2)
    }
}

/// `n` is below `2^nbits(n)`, so its bits from `nbits(n)` on are zero.
pub proof fn lemma_nbits_bound(n: nat, i: nat)
    ensures
        n < pow2(nbits(n)),
        i >= nbits(n) ==> bit(n, i) == 0,
        n >= 2 ==> nbits(n) >= 2,
    decreases n,
{
    vstd::arithmetic::power2::lemma2_to64();
    if n > 0 {
        lemma_nbits_bound(n / 2, i);
        lemma_pow2_unfold(nbits(n));
        assert(nbits(n) == 1 + nbits(n / 2));
        assert(pow2(nbits(n)) == 2 * pow2(nbits(n / 2)));
    }
    assert(n < pow2(nbits(n)));
    if i >= nbits(n) {
        if i > nbits(n) {
            vstd::arithmetic::power2::lemma_pow2_strictly_increases(nbits(n), i);
        }
        vstd::arithmetic::div_mod::lemma_basic_div(n as int, pow2(i) as int);
    }
    if n >= 2 {
        assert(n / 2 >= 1);
        assert(nbits(n / 2) >= 1);
    }
}

/// The low `n` bits of `x`, summed: `sum bit(x, k) 2^k` for `k < n`.
pub open spec fn bits_sum(x: nat, n: nat) -> int
    decreases n,
{
    if n == 0 {
        0
    } else {
        bits_sum(x, (n - 1) as nat) + bit(x, (n - 1) as nat) * pow2((n - 1) as nat)
    }
}

/// The low `n` bits of `x` make `x mod 2^n`.
pub proof fn lemma_bits_sum(x: nat, n: nat)
    ensures
        bits_sum(x, n) == x % pow2(n),
    decreases n,
{
    vstd::arithmetic::power2::lemma2_to64();
    if n == 0 {
        assert(pow2(0) == 1);
    } else {
        let k = (n - 1) as nat;
        lemma_bits_sum(x, k);
        lemma_pow2_pos(k);
        lemma_pow2_unfold(n);
        vstd::arithmetic::div_mod::lemma_mod_breakdown(x as int, pow2(k) as int, 2);
        assert(pow2(k) * 2 == pow2(n));
        assert(pow2(k) * ((x / pow2(k)) % 2) == ((x / pow2(k)) % 2) * pow2(k)) by (nonlinear_arith);
    }
}

/// A positive `n` has its top bit at `nbits(n) - 1`.
pub proof fn lemma_nbits_low(n: nat)
    requires
        n >= 1,
    ensures
        n >= pow2((nbits(n) - 1) as nat),
    decreases n,
{
    vstd::arithmetic::power2::lemma2_to64();
    reveal_with_fuel(nbits, 2);
    if n >= 2 {
        lemma_nbits_low(n / 2);
        assert(nbits(n) == 1 + nbits(n / 2));
        assert(nbits(n / 2) >= 1);
        lemma_pow2_unfold(nbits(n / 2));
        assert(pow2(nbits(n / 2)) == 2 * pow2((nbits(n / 2) - 1) as nat));
    } else {
        assert(nbits(1) == 1);
    }
}

/// Value of an ASCII hexadecimal digit, upper or lower case; -1 for any other byte.
pub open spec fn hex_digit(c: u8) -> int {
    if 48 <= c <= 57 {
        c - 48
    } else if 97 <= c <= 102 {
        c - 87
    } else if 65 <= c <= 70 {
        c - 55
    } else {
        -1
    }
}

/// Value of a string of hexadecimal digits, most significant first.
pub open spec fn hex_value(s: Seq<u8>) -> int
    decreases s.len(),
{
    if s.len() == 0 {
        0
    } else {
        hex_value(s.drop_last()) * 16 + hex_digit(s.last())
    }
}

/// Every byte of `s` is a hexadecimal digit.
pub open spec fn all_hex(s: Seq<u8>) -> bool {
    forall|i: int| 0 <= i < s.len() ==> hex_digit(#[trigger] s[i]) >= 0
}

fn hex_digit_of(c: u8) -> (r: i32)
    ensures
        r == hex_digit(c),
{
    if 48 <= c && c <= 57 {
        c as i32 - 48
    } else if 97 <= c && c <= 102 {
        c as i32 - 87
    } else if 65 <= c && c <= 70 {
        c as i32 - 55
    } else {
        -1
    }
}

/// A non-negative integer.
pub struct Big {
    d: Vec<u32>,
}

impl Big {
    pub closed spec fn val(&self) -> nat {
        limbs_val(self.d@) as nat
    }

    proof fn lemma_val(&self)
        ensures
            self.val() == limbs_val(self.d@),
    {
        lemma_limbs_nonneg(self.d@);
    }

    pub fn new_int(v: u64) -> (r: Big)
        ensures
            r.val() == v,
    {
        let lo: u32 = (v % 4294967296) as u32;
        let hi: u32 = (v / 4294967296) as u32;
        let d = vec![lo, hi];
        proof {
            lemma_limbs2(lo, hi);
            assert(d@ =~= seq![lo, hi]);
        }
        Big { d }
    }

    /// The integer whose big-endian bytes are `b`.
    pub fn from_bytes(b: &[u8]) -> (r: Big)
        ensures
            r.val() == be_val(b@),
    {
        let d = big_from_bytes_be(b);
        proof {
            lemma_limbs_nonneg(d@);
        }
        Big { d }
    }

    /// Remainder by a positive `m`.
    pub fn rmod(&self, m: &Big) -> (r: Big)
        requires
            m.val() > 0,
        ensures
            r.val() == self.val() % m.val(),
    {
        proof {
            self.lemma_val();
            m.lemma_val();
        }
        let d = big_rem(&self.d, &m.d);
        proof {
            lemma_limbs_nonneg(d@);
        }
        Big { d }
    }

    /// Quotient by a positive `m`, rounded down.
    pub fn div(&self, m: &Big) -> (r: Big)
        requires
            m.val() > 0,
        ensures
            r.val() == self.val() / m.val(),
    {
        proof {
            self.lemma_val();
            m.lemma_val();
        }
        let d = big_div(&self.d, &m.d);
        proof {
            lemma_limbs_nonneg(d@);
        }
        Big { d }
    }

    /// The product.
    pub fn smul(a: &Big, b: &Big) -> (r: Big)
        ensures
            r.val() == a.val() * b.val(),
    {
        proof {
            a.lemma_val();
            b.lemma_val();
        }
        let d = big_mul(&a.d, &b.d);
        proof {
            lemma_limbs_nonneg(d@);
        }
        Big { d }
    }

    /// The negation `-a` modulo a positive `m`, in `[0, m)`.
    pub fn modneg(a: &Big, m: &Big) -> (r: Big)
        requires
            m.val() > 0,
        ensures
            r.val() == (m.val() - a.val() % m.val()) % (m.val() as int),
    {
        proof {
            a.lemma_val();
            m.lemma_val();
        }
        let t = big_rem(&a.d, &m.d);
        proof {
            lemma_limbs_nonneg(t@);
            lemma_limbs_nonneg(m.d@);
        }
        let u = big_sub(&m.d, &t);
        let d = big_rem(&u, &m.d);
        proof {
            lemma_limbs_nonneg(d@);
        }
        Big { d }
    }

    /// The sum.
    pub fn add(&self, b: &Big) -> (r: Big)
        ensures
            r.val() == self.val() + b.val(),
    {
        proof {
            self.lemma_val();
            b.lemma_val();
        }
        let d = big_add(&self.d, &b.d);
        proof {
            lemma_limbs_nonneg(d@);
        }
        Big { d }
    }

    /// The lowest bit, 0 or 1.
    pub fn parity(&self) -> (r: u8)
        ensures
            r as nat == self.val() % 2,
    {
        let two = Big::new_int(2);
        let m = self.rmod(&two);
        if m.is_zilch() {
            0
        } else {
            1
        }
    }

    /// Half the value, rounded down.
    pub fn half(&self) -> (r: Big)
        ensures
            r.val() == self.val() / 2,
    {
        let two = Big::new_int(2);
        self.div(&two)
    }

    /// Number of binary digits.
    pub fn nbits(&self) -> (r: usize)
        ensures
            r == nbits(self.val()),
    {
        self.bits().len()
    }

    pub fn is_zilch(&self) -> (r: bool)
        ensures
            r == (self.val() == 0),
    {
        self.nbits() == 0
    }

    /// The integer written by a non-empty string of hexadecimal digits; `None`
    /// when the string is empty or holds another byte.
    pub fn from_hex(t: &[u8]) -> (r: Option<Big>)
        ensures
            r.is_some() == (t@.len() > 0 && all_hex(t@)),
            r.is_some() ==> r.unwrap().val() == hex_value(t@),
    {
        if t.len() == 0 {
            return None;
        }
        let sixteen = Big::new_int(16);
        let mut acc = Big::new_int(0);
        let mut i: usize = 0;
        while i < t.len()
            invariant
                i <= t@.len(),
                sixteen.val() == 16,
                all_hex(t@.subrange(0, i as int)),
                acc.val() == hex_value(t@.subrange(0, i as int)),
            decreases t@.len() - i,
        {
            let d = hex_digit_of(t[i]);
            if d < 0 {
                assert(!all_hex(t@));
                return None;
            }
            proof {
                assert(t@.subrange(0, i + 1).drop_last() =~= t@.subrange(0, i as int));
                assert(all_hex(t@.subrange(0, i + 1)));
            }
            let m = Big::smul(&acc, &sixteen);
            acc = m.add(&Big::new_int(d as u64));
            i = i + 1;
        }
        assert(t@.subrange(0, t@.len() as int) =~= t@);
        Some(acc)
    }

    /// The element of the prime field that the value gives, reduced.
    pub fn to_fp(&self) -> (r: crate::fp::FP)
        ensures
            r.wf(),
            r.val() == (self.val() as int) % crate::fp::modulus(),
    {
        proof {
            self.lemma_val();
        }
        crate::fp::FP::from_digits(&self.d)
    }

    pub fn copy(&self) -> (r: Big)
        ensures
            r.val() == self.val(),
    {
        Big { d: self.d.clone() }
    }

    /// Three times the value.
    pub fn triple(&self) -> (r: Big)
        ensures
            r.val() == 3 * self.val(),
    {
        proof {
            lemma_limbs_nonneg(self.d@);
        }
        let two = big_add(&self.d, &self.d);
        let d = big_add(&two, &self.d);
        proof {
            lemma_limbs_nonneg(d@);
        }
        Big { d }
    }

    /// The binary digits, least significant first, without leading zeros.
    pub fn bits(&self) -> (r: Vec<u8>)
        ensures
            r@.len() == nbits(self.val()),
            forall|i: int| 0 <= i < r@.len() ==> r@[i] as nat == bit(self.val(), i as nat),
    {
        let two = vec![2u32];
        proof {
            lemma_limbs2(2, 0);
            reveal_with_fuel(limbs_val, 2);
            assert(two@.drop_last() =~= Seq::<u32>::empty());
            vstd::arithmetic::power::lemma_pow0(radix());
            assert(limbs_val(two@) == 2);
            lemma_limbs_nonneg(self.d@);
        }
        let ghost n = self.val();
        let mut cur: Vec<u32> = big_add(&self.d, &Vec::new());
        proof {
            assert(limbs_val(Seq::<u32>::empty()) == 0);
        }
        let mut r: Vec<u8> = Vec::new();
        let mut i: usize = 0;
        proof {
            lemma_pow2_pos(0);
            vstd::arithmetic::power2::lemma2_to64();
        }
        while cur.len() > 0
            invariant
                minimal(cur@),
                limbs_val(two@) == 2,
                limbs_val(cur@) >= 0,
                limbs_val(cur@) == n / pow2(i as nat),
                r@.len() == i,
                forall|k: int| 0 <= k < i ==> r@[k] as nat == bit(n, k as nat),
                nbits(n) == i + nbits(limbs_val(cur@) as nat),
            decreases limbs_val(cur@),
        {
            let ghost c = limbs_val(cur@);
            proof {
                lemma_minimal_zero(cur@);
            }
            let m = big_rem(&cur, &two);
            let b: u8 = if m.len() == 0 { 0 } else { 1 };
            proof {
                if m@.len() > 0 {
                    lemma_minimal_zero(m@);
                }
                lemma_pow2_pos(i as nat);
                lemma_pow2_unfold((i + 1) as nat);
                lemma_div_denominator(n as int, pow2(i as nat) as int, 2);
                assert(pow2((i + 1) as nat) == pow2(i as nat) * 2);
            }
            r.push(b);
            cur = big_div(&cur, &two);
            proof {
                lemma_limbs_nonneg(cur@);
            }
            i = r.len();
        }
        proof {
            assert(limbs_val(cur@) == 0) by {
                reveal_with_fuel(limbs_val, 1);
            }
        }
        r
    }
}

} // verus!
