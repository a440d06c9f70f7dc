//! Base 2^32 digit sequences and the big-integer operations of `num_bigint`
//! that the prime field is built on.

use vstd::prelude::*;
use vstd::arithmetic::power::pow;
use vstd::arithmetic::power::lemma_pow_increases;
use vstd::arithmetic::power::lemma_pow_positive;
use num_bigint::BigUint;

verus! {

/// The radix of a digit sequence.
pub open spec fn radix() -> int {
    4294967296
}

/// Value of a little-endian sequence of base 2^32 digits.
pub open spec fn limbs_val(s: Seq<u32>) -> int
    decreases s.len(),
{
    if s.len() == 0 {
        0
    } else {
        limbs_val(s.drop_last()) + (s.last() as int) * pow(radix(), (s.len() - 1) as nat)
    }
}

/// Value of a big-endian byte sequence.
pub open spec fn be_val(s: Seq<u8>) -> int
    decreases s.len(),
{
    if s.len() == 0 {
        0
    } else {
        (s[0] as int) * pow(256, (s.len() - 1) as nat) + be_val(s.drop_first())
    }
}

/// A digit sequence without a most significant zero digit.
pub open spec fn minimal(s: Seq<u32>) -> bool {
    s.len() == 0 || s.last() != 0
}

pub proof fn lemma_limbs_nonneg(s: Seq<u32>)
    ensures
        limbs_val(s) >= 0,
    decreases s.len(),
{
    if s.len() > 0 {
        lemma_limbs_nonneg(s.drop_last());
        lemma_pow_positive(radix(), (s.len() - 1) as nat);
        assert((s.last() as int) * pow(radix(), (s.len() - 1) as nat) >= 0) by (nonlinear_arith)
            requires
                pow(radix(), (s.len() - 1) as nat) > 0,
        ;
    }
}

pub proof fn lemma_be_nonneg(s: Seq<u8>)
    ensures
        be_val(s) >= 0,
    decreases s.len(),
{
    if s.len() > 0 {
        lemma_be_nonneg(s.drop_first());
        lemma_pow_positive(256, (s.len() - 1) as nat);
        assert((s[0] as int) * pow(256, (s.len() - 1) as nat) >= 0) by (nonlinear_arith)
            requires
                pow(256, (s.len() - 1) as nat) > 0,
        ;
    }
}

/// A minimal digit sequence of a value below 2^(32 n) has at most n digits.
pub proof fn lemma_minimal_len(s: Seq<u32>, n: nat)
    requires
        minimal(s),
        limbs_val(s) < pow(radix(), n),
    ensures
        s.len() <= n,
{
    if s.len() > n {
        lemma_limbs_nonneg(s.drop_last());
        lemma_pow_increases(radix() as nat, n, (s.len() - 1) as nat);
        let q = pow(radix(), (s.len() - 1) as nat);
        lemma_pow_positive(radix(), (s.len() - 1) as nat);
        assert((s.last() as int) * q >= q) by (nonlinear_arith)
            requires
                s.last() >= 1,
                q > 0,
        ;
    }
}

/// A minimal big-endian byte sequence of a value below 256^n has at most n bytes.
pub proof fn lemma_be_minimal_len(s: Seq<u8>, n: nat)
    requires
        s.len() >= 1,
        s[0] != 0,
        be_val(s) < pow(256, n),
    ensures
        s.len() <= n,
{
    if s.len() > n {
        lemma_be_nonneg(s.drop_first());
        lemma_pow_increases(256, n, (s.len() - 1) as nat);
        let q = pow(256, (s.len() - 1) as nat);
        lemma_pow_positive(256, (s.len() - 1) as nat);
        assert((s[0] as int) * q >= q) by (nonlinear_arith)
            requires
                s[0] >= 1,
                q > 0,
        ;
    }
}

/// Appending a zero digit keeps the value.
pub proof fn lemma_push_zero(s: Seq<u32>)
    ensures
        limbs_val(s.push(0)) == limbs_val(s),
{
    let t = s.push(0);
    assert(t.drop_last() =~= s);
    assert(t.last() == 0);
    assert((t.last() as int) * pow(radix(), (t.len() - 1) as nat) == 0);
}

/// A leading zero byte keeps the value.
pub proof fn lemma_prepend_zero(s: Seq<u8>)
    ensures
        be_val(seq![0u8] + s) == be_val(s),
{
    let t = seq![0u8] + s;
    assert(t.drop_first() =~= s);
    assert(t[0] == 0);
    assert((t[0] as int) * pow(256, (t.len() - 1) as nat) == 0);
}

/// Value of a two-digit sequence.
pub proof fn lemma_limbs2(a: u32, b: u32)
    ensures
        limbs_val(seq![a, b]) == a + radix() * b,
{
    let t = seq![a, b];
    assert(t.drop_last() =~= seq![a]);
    assert(seq![a].drop_last() =~= Seq::<u32>::empty());
    reveal_with_fuel(pow, 2);
    assert(pow(radix(), 0) == 1);
    assert(pow(radix(), 1) == radix());
    assert(limbs_val(Seq::<u32>::empty()) == 0);
    assert(limbs_val(seq![a]) == a);
    assert(limbs_val(t) == limbs_val(seq![a]) + (b as int) * pow(radix(), 1));
}

/// A digit sequence is below radix^len.
pub proof fn lemma_limbs_bound(s: Seq<u32>)
    ensures
        limbs_val(s) < pow(radix(), s.len()),
    decreases s.len(),
{
    reveal(pow);
    if s.len() > 0 {
        lemma_limbs_bound(s.drop_last());
        lemma_limbs_nonneg(s.drop_last());
        let q = pow(radix(), (s.len() - 1) as nat);
        assert(pow(radix(), s.len()) == radix() * q);
        let l = s.last() as int;
        let a = limbs_val(s.drop_last());
        assert(l * q <= 4294967295 * q) by (nonlinear_arith)
            requires
                q >= 0,
                0 <= l <= 4294967295,
        ;
    }
}

/// Two sequences of equal length that differ in one digit differ in value.
pub proof fn lemma_limbs_differ(s: Seq<u32>, t: Seq<u32>, i: int)
    requires
        s.len() == t.len(),
        0 <= i < s.len(),
        s[i] != t[i],
    ensures
        limbs_val(s) != limbs_val(t),
    decreases s.len(),
{
    let n = s.len();
    let q = pow(radix(), (n - 1) as nat);
    lemma_limbs_bound(s.drop_last());
    lemma_limbs_bound(t.drop_last());
    lemma_limbs_nonneg(s.drop_last());
    lemma_limbs_nonneg(t.drop_last());
    if s.last() == t.last() {
        assert(i < n - 1);
        lemma_limbs_differ(s.drop_last(), t.drop_last(), i);
    } else {
        let a = limbs_val(s.drop_last());
        let b = limbs_val(t.drop_last());
        let x = s.last() as int;
        let y = t.last() as int;
        assert(a + x * q != b + y * q) by (nonlinear_arith)
            requires
                0 <= a < q,
                0 <= b < q,
                x != y,
        ;
    }
}

/// Relies on `BigUint::new` and `BigUint::to_u32_digits`, which read and write
/// least significant first base 2^32 digits, with the result normalised; and on
/// `BigUint` addition.
#[verifier::external_body]
pub(crate) fn big_add(a: &Vec<u32>, b: &Vec<u32>) -> (r: Vec<u32>)
    ensures
        limbs_val(r@) == limbs_val(a@) + limbs_val(b@),
        minimal(r@),
{
    (BigUint::new(a.clone()) + BigUint::new(b.clone())).to_u32_digits()
}

/// Relies on `BigUint` subtraction, which panics when the result would be
/// negative, hence the precondition.
#[verifier::external_body]
pub(crate) fn big_sub(a: &Vec<u32>, b: &Vec<u32>) -> (r: Vec<u32>)
    requires
        limbs_val(a@) >= limbs_val(b@),
    ensures
        limbs_val(r@) == limbs_val(a@) - limbs_val(b@),
        minimal(r@),
{
    (BigUint::new(a.clone()) - BigUint::new(b.clone())).to_u32_digits()
}

/// Relies on `BigUint` multiplication.
#[verifier::external_body]
pub(crate) fn big_mul(a: &Vec<u32>, b: &Vec<u32>) -> (r: Vec<u32>)
    ensures
        limbs_val(r@) == limbs_val(a@) * limbs_val(b@),
        minimal(r@),
{
    (BigUint::new(a.clone()) * BigUint::new(b.clone())).to_u32_digits()
}

/// Relies on `BigUint` remainder, which panics on a zero divisor.
#[verifier::external_body]
pub(crate) fn big_rem(a: &Vec<u32>, m: &Vec<u32>) -> (r: Vec<u32>)
    requires
        limbs_val(m@) > 0,
    ensures
        limbs_val(r@) == limbs_val(a@) % limbs_val(m@),
        minimal(r@),
{
    (BigUint::new(a.clone()) % BigUint::new(m.clone())).to_u32_digits()
}

/// Relies on `BigUint` division, which truncates and panics on a zero divisor.
#[verifier::external_body]
pub(crate) fn big_div(a: &Vec<u32>, m: &Vec<u32>) -> (r: Vec<u32>)
    requires
        limbs_val(m@) > 0,
    ensures
        limbs_val(r@) == limbs_val(a@) / limbs_val(m@),
        minimal(r@),
{
    (BigUint::new(a.clone()) / BigUint::new(m.clone())).to_u32_digits()
}

/// A minimal digit sequence of zero is empty.
pub proof fn lemma_minimal_zero(s: Seq<u32>)
    requires
        minimal(s),
        s.len() > 0,
    ensures
        limbs_val(s) > 0,
{
    lemma_limbs_nonneg(s.drop_last());
    lemma_pow_positive(radix(), (s.len() - 1) as nat);
    let q = pow(radix(), (s.len() - 1) as nat);
    assert((s.last() as int) * q > 0) by (nonlinear_arith)
        requires
            s.last() >= 1,
            q > 0,
    ;
}

/// Relies on `BigUint::modinv`: the inverse in `[0, m)` when one exists, else
/// `None`; it panics on a zero modulus.
#[verifier::external_body]
pub(crate) fn big_modinv(a: &Vec<u32>, m: &Vec<u32>) -> (r: Option<Vec<u32>>)
    requires
        limbs_val(m@) > 1,
    ensures
        match r {
            Some(x) => minimal(x@) && 0 <= limbs_val(x@) < limbs_val(m@) && (limbs_val(a@)
                * limbs_val(x@)) % limbs_val(m@) == 1,
            None => forall|x: int| 0 <= x ==> #[trigger] ((limbs_val(a@) * x) % limbs_val(m@)) != 1,
        },
{
    BigUint::new(a.clone()).modinv(&BigUint::new(m.clone())).map(|x| x.to_u32_digits())
}

/// Relies on `BigUint::from_bytes_be`, which reads big-endian bytes.
#[verifier::external_body]
pub(crate) fn big_from_bytes_be(b: &[u8]) -> (r: Vec<u32>)
    ensures
        limbs_val(r@) == be_val(b@),
        minimal(r@),
{
    BigUint::from_bytes_be(b).to_u32_digits()
}

/// Relies on `BigUint::to_bytes_be`: big-endian bytes without leading zeros,
/// and the single byte `0` for zero.
#[verifier::external_body]
pub(crate) fn big_to_bytes_be(a: &Vec<u32>) -> (r: Vec<u8>)
    ensures
        be_val(r@) == limbs_val(a@),
        r@.len() >= 1,
        r@.len() == 1 || r@[0] != 0,
{
    BigUint::new(a.clone()).to_bytes_be()
}

} // verus!
