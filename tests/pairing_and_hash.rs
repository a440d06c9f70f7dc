use bls_pairing::big::Big;
use bls_pairing::fp::FP;
use bls_pairing::fp12::{FP12, FP12_BYTES};
use bls_pairing::hash256::HASH256;
use bls_pairing::pair::{fexp, gs, gtpow, initmp, miller, ATE_BITS, CURVE_BNX};

fn hex(s: &str) -> Vec<u8> {
    (0..s.len()).step_by(2).map(|i| u8::from_str_radix(&s[i..i + 2], 16).unwrap()).collect()
}

fn sample(seed: u32) -> FP12 {
    let mut w = vec![0u8; FP12_BYTES];
    for (i, b) in w.iter_mut().enumerate() {
        *b = ((i as u32 * 13 + seed * 29 + 3) % 253) as u8;
    }
    for k in 0..12 {
        w[48 * k] = 0;
    }
    FP12::from_bytes(&w)
}

#[test]
fn final_exponentiation_of_one_is_one() {
    let one = FP12::new_int(1);
    assert!(fexp(&one).is_unity());
}

#[test]
fn final_exponentiation_lands_in_the_group_of_prime_order() {
    let order = Big::from_bytes(&hex("73eda753299d7d483339d80809a1d80553bda402fffe5bfeffffffff00000001"));
    let g = fexp(&sample(2));
    assert!(!g.is_unity());
    assert!(g.pow(&order).is_unity());
}

#[test]
fn miller_of_fresh_accumulator_is_one() {
    let acc = initmp();
    assert_eq!(acc.len(), ATE_BITS);
    assert!(miller(&acc).is_unity());
}

#[test]
fn miller_combines_slots_by_horner_rule() {
    let mut acc = initmp();
    let x = sample(4);
    let y = sample(5);
    acc[0] = x.copy();
    acc[1] = y.copy();
    // slot 1 is squared zero times, then conjugated; slot 0 is multiplied last
    let mut expect = y.copy();
    expect.conj();
    expect.mul(&x);
    assert!(miller(&acc).equals(&expect));
}

#[test]
fn field_negation_wraps_modulus() {
    let m1 = FP::new_int(-1).to_big_bytes();
    let p = hex("1a0111ea397fe69a4b1ba7b6434bacd764774b84f38512bf6730d2a0f6b0f6241eabfffeb153ffffb9feffffffffaaaa");
    assert_eq!(m1, p);
    let two = FP::new_int(2);
    let inv = two.inverse();
    assert!(inv.mul(&two).equals(&FP::new_int(1)));
}

#[test]
fn big_bits_are_little_endian() {
    let b = Big::new_int(0b1011).bits();
    assert_eq!(b, vec![1, 1, 0, 1]);
    assert_eq!(Big::new_int(0).bits().len(), 0);
    assert_eq!(Big::new_int(1u64 << 40).bits().len(), 41);
}

#[test]
fn sha256_known_vectors() {
    let mut h = HASH256::new();
    h.process_array(b"abc");
    assert_eq!(h.hash().to_vec(), hex("ba7816bf8f01cfea414140de5dae2223b00361a396177a9cb410ff61f20015ad"));
    let mut e = HASH256::new();
    assert_eq!(e.hash().to_vec(), hex("e3b0c44298fc1c149afbf4c8996fb92427ae41e4649b934ca495991b7852b855"));
    let mut l = HASH256::new();
    l.process_array(b"abcdbcdecdefdefgefghfghighijhijkijkljklmklmnlmnomnopnopq");
    assert_eq!(l.hash().to_vec(), hex("248d6a61d20638b8e5c026930c3e6039a33ce45964ff2167f6ecedd419db06c1"));
}

#[test]
fn sha256_process_num_is_big_endian() {
    let mut a = HASH256::new();
    a.process_num(0x61626364);
    let mut b = HASH256::new();
    b.process_array(b"abcd");
    assert_eq!(a.hash(), b.hash());
}

#[test]
fn hmac_rfc4231_case_1() {
    let key = vec![0x0bu8; 20];
    let mac = HASH256::hmac(&key, b"Hi There");
    assert_eq!(mac.to_vec(), hex("b0344c61d8db38535ca8afceaf0bf12b881dc200c9833da726e9376c2e32cff7"));
}

#[test]
fn hmac_long_key_is_hashed_first() {
    let key = vec![0xaau8; 131];
    let mac = HASH256::hmac(&key, b"Test Using Larger Than Block-Size Key - Hash Key First");
    assert_eq!(mac.to_vec(), hex("60e431591ee0b67f0d8a26aacbf5b77f8e0bc6213728c5140546040f0ee37f54"));
}

#[test]
fn hkdf_rfc5869_case_1() {
    let ikm = vec![0x0bu8; 22];
    let salt = hex("000102030405060708090a0b0c");
    let info = hex("f0f1f2f3f4f5f6f7f8f9");
    let prk = HASH256::hkdf_extract(&salt, &ikm);
    assert_eq!(prk.to_vec(), hex("077709362c2e32df0ddc3f0dc47bba6390b6c73bb50f9c3122ec844ad7c2b3e5"));
    let okm = HASH256::hkdf_extend(&prk, &info, 42);
    assert_eq!(okm, hex("3cb25f25faacd57a90434f64d0362f2a2d2d0a90cf1a5a4c5db02d56ecc4c5bf34007208d5b887185865"));
}

fn order() -> Big {
    Big::from_bytes(&hex("73eda753299d7d483339d80809a1d80553bda402fffe5bfeffffffff00000001"))
}

#[test]
fn pow4_matches_product_of_powers() {
    let q: Vec<FP12> = (0..4).map(|i| fexp(&sample(30 + i))).collect();
    let e: Vec<u64> = vec![0x1234_5678_9abc, 77, 0xfedc_ba98_7654_3210, 1_000_001];
    let u: Vec<Big> = e.iter().map(|v| Big::new_int(*v)).collect();
    let r = FP12::pow4(&q, &u);
    let mut expect = q[0].pow(&u[0]);
    for i in 1..4 {
        expect.mul(&q[i].pow(&u[i]));
    }
    assert!(r.equals(&expect));
    // an odd first exponent takes the other branch of the final correction
    let u2: Vec<Big> = vec![Big::new_int(11), Big::new_int(2), Big::new_int(3), Big::new_int(4)];
    let r2 = FP12::pow4(&q, &u2);
    let mut e2 = q[0].pow(&u2[0]);
    for i in 1..4 {
        e2.mul(&q[i].pow(&u2[i]));
    }
    assert!(r2.equals(&e2));
}

#[test]
fn gs_reconstructs_scalar() {
    let e = Big::from_bytes(&hex("2a4f6e8d0c1b3a5968778695a4b3c2d1e0f0e1d2c3b4a5968778695a4b3c2d1e"));
    let u = gs(&e);
    assert_eq!(u.len(), 4);
    let x = Big::new_int(CURVE_BNX);
    let q = order();
    // u0 + (q - u1) x + u2 x^2 + (q - u3) x^3 == e mod q, as (-x)^i with u1, u3 negated
    let x2 = Big::smul(&x, &x);
    let x3 = Big::smul(&x2, &x);
    let t0 = u[0].copy();
    let t1 = Big::smul(&Big::modneg(&u[1], &q), &x);
    let t2 = Big::smul(&u[2], &x2);
    let t3 = Big::smul(&Big::modneg(&u[3], &q), &x3);
    let sum = t0.add(&t1).add(&t2).add(&t3).rmod(&q);
    assert_eq!(sum.bits(), e.rmod(&q).bits());
}

#[test]
fn gtpow_matches_plain_power() {
    let c = fexp(&sample(8));
    let e = Big::from_bytes(&hex("1f2e3d4c5b6a79880123456789abcdef0fedcba9876543210112233445566778"));
    let fast = gtpow(&c, &e);
    let plain = c.pow(&e);
    assert!(fast.equals(&plain));
}
