use bls_pairing::big::Big;
use bls_pairing::ecp::{ECP, ECP2};
use bls_pairing::fp::FP;
use bls_pairing::fp2::FP2;
use bls_pairing::fp12::FP12;
use bls_pairing::pair::{another, ate, ate2, fexp, g1mul, g2mul, glv, initmp, miller, CURVE_BNX};

fn hex(s: &str) -> Vec<u8> {
    (0..s.len()).step_by(2).map(|i| u8::from_str_radix(&s[i..i + 2], 16).unwrap()).collect()
}

fn fp(s: &str) -> FP {
    FP::from_big_bytes(&hex(s))
}

fn g1() -> ECP {
    ECP::new_fps(
        fp("17f1d3a73197d7942695638c4fa9ac0fc3688c4f9774b905a14e3a3f171bac586c55e83ff97a1aeffb3af00adb22c6bb"),
        fp("08b3f481e3aaa0f1a09e30ed741d8ae4fcf5e095d5d00af600db18cb2c04b3edd03cc744a2888ae40caa232946c5e7e1"),
    )
}

fn g2() -> ECP2 {
    ECP2::new_fp2s(
        FP2::new_fps(
            fp("024aa2b2f08f0a91260805272dc51051c6e47ad4fa403b02b4510b647ae3d1770bac0326a805bbefd48056c8c121bdb8"),
            fp("13e02b6052719f607dacd3a088274f65596bd0d09920b61ab5da61bbdc7f5049334cf11213945d57e5ac7d055d042b7e"),
        ),
        FP2::new_fps(
            fp("0ce5d527727d6e118cc9cdc6da2e351aadfd9baa8cbdd3a76d429a695160d12c923ac9cc3baca289e193548608b82801"),
            fp("0606c4a02ea734cc32acd2b02bc28b99cb3e287e85a763af267492ab572e99ab3f370d275cec1da1aaa9075ff05f79be"),
        ),
    )
}

fn pairing(p: &ECP2, q: &ECP) -> FP12 {
    fexp(&ate(p, q))
}

fn times(x: &FP12, y: &FP12) -> FP12 {
    let mut r = x.copy();
    r.mul(y);
    r
}

#[test]
fn pairing_is_not_degenerate() {
    let e = pairing(&g2(), &g1());
    assert!(!e.is_unity());
}

#[test]
fn pairing_is_bilinear_in_first_argument() {
    let pa = g2();
    let pb = g2().mul(&Big::new_int(3));
    let mut sum = pa.copy();
    sum.add(&pb);
    let q = g1();
    let lhs = pairing(&sum, &q);
    let rhs = times(&pairing(&pa, &q), &pairing(&pb, &q));
    assert!(lhs.equals(&rhs));
}

#[test]
fn pairing_is_bilinear_in_second_argument() {
    let p = g2();
    let qa = g1();
    let qb = g1().mul(&Big::new_int(5));
    let mut sum = qa.copy();
    sum.add(&qb);
    let lhs = pairing(&p, &sum);
    let rhs = times(&pairing(&p, &qa), &pairing(&p, &qb));
    assert!(lhs.equals(&rhs));
}

#[test]
fn pairing_with_identity_is_one() {
    assert!(ate(&ECP2::new(), &g1()).is_unity());
    assert!(ate(&g2(), &ECP::new()).is_unity());
    assert!(fexp(&FP12::new_int(1)).is_unity());
}

#[test]
fn multi_pairing_matches_product_of_pairings() {
    let pa = g2();
    let qa = g1().mul(&Big::new_int(7));
    let pb = g2().mul(&Big::new_int(11));
    let qb = g1();
    let mut acc = initmp();
    another(&mut acc, &pa, &qa);
    another(&mut acc, &pb, &qb);
    let combined = fexp(&miller(&acc));
    let separate = fexp(&times(&ate(&pa, &qa), &ate(&pb, &qb)));
    assert!(combined.equals(&separate));
    let double = fexp(&ate2(&pa, &qa, &pb, &qb));
    assert!(double.equals(&separate));
}

#[test]
fn pairing_of_negated_point_is_inverse() {
    let p = g2();
    let q = g1();
    let mut nq = q.copy();
    nq.neg();
    let prod = times(&pairing(&p, &q), &pairing(&p, &nq));
    assert!(prod.is_unity());
}

fn order() -> Big {
    Big::from_bytes(&hex("73eda753299d7d483339d80809a1d80553bda402fffe5bfeffffffff00000001"))
}

#[test]
fn glv_multiplication_matches_plain_multiplication() {
    let e = Big::from_bytes(&hex("5a3c9e1f2b4d6f8091a2b3c4d5e6f708192a3b4c5d6e7f8091a2b3c4d5e6f701"));
    let p = g1();
    assert!(g1mul(&p, &e).equals(&p.mul(&e)));
    let small = Big::new_int(12345);
    assert!(g1mul(&p, &small).equals(&p.mul(&small)));
}

#[test]
fn glv_digits_reconstitute_scalar() {
    let e = Big::from_bytes(&hex("5a3c9e1f2b4d6f8091a2b3c4d5e6f708192a3b4c5d6e7f8091a2b3c4d5e6f701"));
    let u = glv(&e);
    let q = order();
    let x = Big::new_int(CURVE_BNX);
    let x2 = Big::smul(&x, &x);
    // u0 - x^2 u1 == e mod q, written as u0 + x^2 (q - u1)
    let back = u[0].add(&Big::smul(&x2, &Big::modneg(&u[1], &q))).rmod(&q);
    assert_eq!(back.bits(), e.rmod(&q).bits());
}

#[test]
fn g2_multiplication_matches_plain_multiplication() {
    let p = g2();
    let mut three = p.copy();
    three.add(&p);
    three.add(&p);
    assert!(g2mul(&p, &Big::new_int(3)).equals(&three));
    assert!(g2mul(&p, &order()).is_infinity());
    let e = Big::from_bytes(&hex("3b7c9e1f2b4d6f8091a2b3c4d5e6f708192a3b4c5d6e7f8091a2b3c4d5e6f7aa"));
    assert!(g2mul(&p, &e).equals(&p.mul(&e)));
}
