use bls_pairing::fp::FP;
use bls_pairing::fp2::FP2;
use bls_pairing::fp4::FP4;
use bls_pairing::fp12::{FP12, DENSE, ONE, SPARSE, SPARSER, ZERO, FP12_BYTES};
use bls_pairing::big::Big;
use bls_pairing::pair::frob_constant;

fn bytes(seed: u32) -> Vec<u8> {
    let mut w = vec![0u8; FP12_BYTES];
    for (i, b) in w.iter_mut().enumerate() {
        *b = ((i as u32 * 31 + seed * 17 + 7) % 251) as u8;
    }
    for k in 0..12 {
        w[48 * k] = 0;
    }
    w
}

fn sample(seed: u32) -> FP12 {
    FP12::from_bytes(&bytes(seed))
}

fn fp2(a: isize, b: isize) -> FP2 {
    FP2::new_fps(FP::new_int(a), FP::new_int(b))
}

/// A line-function shaped element: `b` zero, `c` with only its `s` part.
fn line(seed: isize) -> FP12 {
    let a = FP4::new_fp2s(fp2(seed, 3), fp2(7, seed + 1));
    let c = FP4::new_fp2s(FP2::new(), fp2(seed * 5, 11));
    let mut x = FP12::new_fp4s(a, FP4::new(), c);
    x.settype(SPARSER);
    x
}

/// An element of the cyclotomic subgroup: `x^((p^6 - 1)(p^2 + 1))`.
fn cyclotomic(seed: u32) -> FP12 {
    let f = frob_constant();
    let x = sample(seed);
    let mut inv = x.copy();
    inv.inverse();
    let mut r = x.copy();
    r.conj();
    r.mul(&inv);
    let lv = r.copy();
    r.frob(&f);
    r.frob(&f);
    r.mul(&lv);
    r
}

fn product(x: &FP12, y: &FP12) -> FP12 {
    let mut r = x.copy();
    r.mul(y);
    r
}

#[test]
fn inverse_times_element_is_one() {
    let x = sample(3);
    let mut r = x.copy();
    r.inverse();
    let mut left = r.copy();
    left.mul(&x);
    assert!(left.is_unity());
    assert!(product(&x, &r).is_unity());
    assert_eq!(r.gettype(), DENSE);
}

#[test]
fn inverse_of_zero_is_zero() {
    let mut z = FP12::new();
    z.inverse();
    assert!(z.is_zilch());
}

#[test]
fn new_int_tags() {
    assert_eq!(FP12::new_int(1).gettype(), ONE);
    assert_eq!(FP12::new_int(5).gettype(), SPARSER);
    assert_eq!(FP12::new().gettype(), ZERO);
    assert!(FP12::new_int(1).is_unity());
}

#[test]
fn multiplying_by_one_keeps_the_element() {
    let x = sample(5);
    let mut one = FP12::new();
    one.one();
    assert!(product(&x, &one).equals(&x));
    assert!(product(&one, &x).equals(&x));
    let mut s = x.copy();
    s.ssmul(&one);
    assert!(s.equals(&x));
    let mut o = one.copy();
    o.ssmul(&x);
    assert!(o.equals(&x));
}

#[test]
fn multiplication_commutes() {
    let x = sample(1);
    let y = sample(2);
    assert!(product(&x, &y).equals(&product(&y, &x)));
    assert!(!product(&x, &y).equals(&x));
}

#[test]
fn square_matches_product_for_every_tag() {
    for x in [sample(9), line(4), FP12::new_int(1), FP12::new_int(6)] {
        let mut s = x.copy();
        s.sqr();
        assert!(s.equals(&product(&x, &x)));
    }
    let mut l = line(2);
    l.sqr();
    assert_eq!(l.gettype(), SPARSE);
    let mut d = sample(2);
    d.sqr();
    assert_eq!(d.gettype(), DENSE);
    let mut o = FP12::new_int(1);
    o.sqr();
    assert_eq!(o.gettype(), ONE);
}

#[test]
fn sparse_products_match_full_product() {
    let l1 = line(3);
    let l2 = line(8);
    let mut s = l1.copy();
    s.smul(&l2);
    assert_eq!(s.gettype(), SPARSE);
    assert!(s.equals(&product(&l1, &l2)));

    let d = sample(4);
    let mut a = d.copy();
    a.ssmul(&l1);
    assert!(a.equals(&product(&d, &l1)));
    assert_eq!(a.gettype(), DENSE);

    let mut b = d.copy();
    b.ssmul(&s);
    assert!(b.equals(&product(&d, &s)));

    let mut c = s.copy();
    c.ssmul(&d);
    assert!(c.equals(&product(&s, &d)));

    let mut e = s.copy();
    e.ssmul(&s);
    assert!(e.equals(&product(&s, &s)));

    let mut f = l1.copy();
    f.ssmul(&l2);
    assert_eq!(f.gettype(), SPARSE);
    assert!(f.equals(&product(&l1, &l2)));

    let mut g = d.copy();
    g.ssmul(&d);
    assert!(g.equals(&product(&d, &d)));
}

#[test]
fn conjugating_twice_is_identity() {
    let x = sample(7);
    let mut c = x.copy();
    c.conj();
    assert!(!c.equals(&x));
    c.conj();
    assert!(c.equals(&x));
}

#[test]
fn frobenius_has_order_twelve() {
    let f = frob_constant();
    let x = sample(11);
    let mut y = x.copy();
    y.frob(&f);
    assert!(!y.equals(&x));
    for _ in 1..12 {
        y.frob(&f);
    }
    assert!(y.equals(&x));
    let mut z = x.copy();
    for _ in 0..6 {
        z.frob(&f);
    }
    let mut c = x.copy();
    c.conj();
    assert!(z.equals(&c));
}

#[test]
fn bytes_round_trip() {
    let x = sample(13);
    let mut w = vec![0u8; FP12_BYTES];
    x.to_bytes(&mut w);
    let y = FP12::from_bytes(&w);
    assert!(y.equals(&x));
    assert_eq!(w, bytes(13));
}

#[test]
fn from_bytes_reduces_each_block() {
    let mut w = vec![0u8; FP12_BYTES];
    for b in w[0..48].iter_mut() {
        *b = 0xff;
    }
    let x = FP12::from_bytes(&w);
    let mut out = vec![0u8; FP12_BYTES];
    x.to_bytes(&mut out);
    assert_ne!(out[0..48], w[0..48]);
    assert!(out[0] < 0x1a);
}

#[test]
fn unitary_square_matches_square_on_cyclotomic_elements() {
    let c = cyclotomic(5);
    let mut u = c.copy();
    u.usqr();
    assert!(u.equals(&product(&c, &c)));
}

#[test]
fn power_matches_repeated_products() {
    let c = cyclotomic(6);
    let p = c.pow(&Big::new_int(5));
    let mut q = c.copy();
    for _ in 1..5 {
        q.mul(&c);
    }
    assert!(p.equals(&q));
    let mut r = c.copy();
    r.pinpow(5, 3);
    assert!(r.equals(&q));
    let big = c.pow(&Big::new_int(1000003));
    let mut lad = c.copy();
    lad.pinpow(1000003, 20);
    assert!(big.equals(&lad));
}

#[test]
fn selector_picks_entry_and_conjugates_for_negative_index() {
    let g: Vec<FP12> = (0..8).map(|i| sample(20 + i)).collect();
    let mut p = FP12::new();
    p.selector(&g, 3);
    assert!(p.equals(&g[1]));
    for b in [1i32, 3, 5, 7, 9, 11, 13, 15] {
        let mut q = FP12::new();
        q.selector(&g, b);
        assert!(q.equals(&g[((b - 1) / 2) as usize]));
        let mut n = FP12::new();
        n.selector(&g, -b);
        let mut c = g[((b - 1) / 2) as usize].copy();
        c.conj();
        assert!(n.equals(&c));
    }
}

#[test]
fn conditional_move_follows_flag() {
    let x = sample(1);
    let y = line(2);
    let mut a = x.copy();
    a.cmove(&y, 0);
    assert!(a.equals(&x));
    assert_eq!(a.gettype(), DENSE);
    a.cmove(&y, 1);
    assert!(a.equals(&y));
    assert_eq!(a.gettype(), SPARSER);
}

#[test]
fn trace_is_three_times_a() {
    let mut x = sample(4);
    let t = x.trace();
    let a = x.geta();
    let three = a.add(&a).add(&a);
    assert!(t.equals(&three));
}

#[test]
fn hex_text_round_trip() {
    let x = sample(17);
    let text = x.to_hex_text();
    assert_eq!(text.len(), bls_pairing::fp12::FP12_HEX_LEN);
    assert_eq!(text[96], b' ');
    let tokens: Vec<Vec<u8>> = text.split(|c| *c == b' ').map(|t| t.to_vec()).collect();
    assert_eq!(tokens.len(), 12);
    assert_eq!(tokens[0].len(), 96);
    let y = FP12::from_hex_tokens(&tokens).unwrap();
    assert!(y.equals(&x));
}

#[test]
fn hex_tokens_are_checked() {
    let mut tokens: Vec<Vec<u8>> = (0..12).map(|i| format!("{:x}", i + 1).into_bytes()).collect();
    let x = FP12::from_hex_tokens(&tokens).unwrap();
    assert!(!x.is_zilch());
    let mut expect = vec![0u8; FP12_BYTES];
    for k in 0..12 {
        expect[48 * k + 47] = (k + 1) as u8;
    }
    assert!(x.equals(&FP12::from_bytes(&expect)));
    assert!(FP12::from_hex_tokens(&tokens[..11]).is_none());
    tokens[3] = b"12g4".to_vec();
    assert!(FP12::from_hex_tokens(&tokens).is_none());
    tokens[3] = Vec::new();
    assert!(FP12::from_hex_tokens(&tokens).is_none());
    tokens[3] = b"AbC".to_vec();
    assert!(FP12::from_hex_tokens(&tokens).is_some());
}

#[test]
fn big_from_hex_reads_digits() {
    assert_eq!(Big::from_hex(b"1F").unwrap().bits(), Big::new_int(31).bits());
    assert!(Big::from_hex(b"").is_none());
    assert!(Big::from_hex(b"x1").is_none());
}
