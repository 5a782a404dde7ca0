use algebra::cyclotomic::{characteristic_square_mod_6_is_one, Fp12ParamsWrapper};
use algebra::fp::{Fp, FpParams};
use algebra::fp12::{Fp12, Fp12Parameters};
use algebra::fp2::{Fp2, Fp2Parameters};
use algebra::fp6::{Fp6, Fp6Parameters};

fn params17() -> FpParams {
    FpParams::new(17, 3).expect("17 is an odd prime and 3 generates its units")
}

fn params2() -> Fp2Parameters {
    Fp2Parameters::new(params17(), 3).expect("3 is a quadratic nonresidue modulo 17")
}

fn fp(v: u64, pp: &FpParams) -> Fp {
    Fp::from_repr(v, pp)
}

fn fp2(a: u64, b: u64, pp2: &Fp2Parameters) -> Fp2 {
    Fp2::new(fp(a, &pp2.fp), fp(b, &pp2.fp))
}

fn params6() -> Fp6Parameters {
    let pp2 = params2();
    let nonresidue = fp2(2, 1, &pp2);
    let one = Fp2::one(&pp2);
    let c1 = vec![one, one, one, one, one, one];
    let c2 = vec![one, one, one, one, one, one];
    Fp6Parameters::new(pp2, nonresidue, c1, c2).expect("a nonzero nonresidue and unit tables")
}

fn params12() -> Fp12Parameters {
    let pp6 = params6();
    let one = Fp2::one(&pp6.fp2);
    let c1 = vec![one, one, one, one, one, one, one, one, one, one, one, one];
    Fp12Parameters::new(pp6, c1).expect("a twelve-entry unit table")
}

fn fp6_one(pp6: &Fp6Parameters) -> Fp6 {
    Fp6::new(Fp2::one(&pp6.fp2), Fp2::zero(), Fp2::zero())
}

fn repr2(x: &Fp2, pp: &FpParams) -> (u64, u64) {
    (x.c0.into_repr(pp), x.c1.into_repr(pp))
}

#[test]
fn karatsuba_matches_schoolbook() {
    let pp2 = params2();
    let pp = &pp2.fp;
    let nr = fp(3, pp);
    let samples = [(0u64, 0u64), (1, 0), (0, 1), (5, 14), (16, 16), (7, 2), (12, 9)];
    for &(a0, a1) in &samples {
        for &(b0, b1) in &samples {
            let a = fp2(a0, a1, &pp2);
            let b = fp2(b0, b1, &pp2);
            let karatsuba = a.mul(&b, &pp2);
            // the plain expansion: c0 = a0 b0 + nr a1 b1, c1 = a0 b1 + a1 b0
            let c0 = a.c0.mul(&b.c0, pp).add(&nr.mul(&a.c1.mul(&b.c1, pp), pp), pp);
            let c1 = a.c0.mul(&b.c1, pp).add(&a.c1.mul(&b.c0, pp), pp);
            assert_eq!(repr2(&karatsuba, pp), (c0.into_repr(pp), c1.into_repr(pp)));
        }
    }
}

#[test]
fn square_matches_mul() {
    let pp2 = params2();
    for &(a0, a1) in &[(0u64, 0u64), (1, 1), (5, 14), (16, 3), (8, 8)] {
        let a = fp2(a0, a1, &pp2);
        assert_eq!(
            repr2(&a.square(&pp2), &pp2.fp),
            repr2(&a.mul(&a, &pp2), &pp2.fp)
        );
    }
}

#[test]
fn fp2_frobenius_has_order_two() {
    let pp2 = params2();
    for &(a0, a1) in &[(0u64, 0u64), (1, 0), (0, 1), (5, 14), (16, 3)] {
        let mut x = fp2(a0, a1, &pp2);
        let before = repr2(&x, &pp2.fp);
        x.frobenius_map(1, &pp2);
        x.frobenius_map(1, &pp2);
        assert_eq!(repr2(&x, &pp2.fp), before);
    }
    // one application conjugates: the second coordinate is negated
    let mut y = fp2(4, 5, &pp2);
    y.frobenius_map(1, &pp2);
    assert_eq!(repr2(&y, &pp2.fp), (4, 12));
}

#[test]
fn fp6_frobenius_power_zero_is_identity() {
    let pp6 = params6();
    let pp = &pp6.fp2.fp;
    let mut x = Fp6::new(
        fp2(1, 2, &pp6.fp2),
        fp2(3, 4, &pp6.fp2),
        fp2(5, 6, &pp6.fp2),
    );
    let before = (repr2(&x.c0, pp), repr2(&x.c1, pp), repr2(&x.c2, pp));
    x.frobenius_map(0, &pp6);
    assert_eq!(
        (repr2(&x.c0, pp), repr2(&x.c1, pp), repr2(&x.c2, pp)),
        before
    );
}

#[test]
fn sparse_034_matches_full_product() {
    let pp12 = params12();
    let pp2 = &pp12.fp6.fp2;
    let a = Fp12::new(
        Fp6::new(fp2(1, 2, pp2), fp2(3, 4, pp2), fp2(5, 6, pp2)),
        Fp6::new(fp2(7, 8, pp2), fp2(9, 10, pp2), fp2(11, 12, pp2)),
    );
    let c0 = fp2(13, 1, pp2);
    let c3 = fp2(2, 15, pp2);
    let c4 = fp2(6, 9, pp2);
    let sparse = Fp12::new(
        Fp6::new(c0, Fp2::zero(), Fp2::zero()),
        Fp6::new(c3, c4, Fp2::zero()),
    );
    let full = a.mul(&sparse, &pp12);
    let mut shortcut = a;
    shortcut.mul_by_034(&c0, &c3, &c4, &pp12);
    assert_eq!(shortcut, full);
}

#[test]
fn sparse_014_matches_full_product() {
    let pp12 = params12();
    let pp2 = &pp12.fp6.fp2;
    let a = Fp12::new(
        Fp6::new(fp2(16, 2, pp2), fp2(0, 4, pp2), fp2(5, 0, pp2)),
        Fp6::new(fp2(1, 8, pp2), fp2(9, 16, pp2), fp2(3, 12, pp2)),
    );
    let c0 = fp2(4, 11, pp2);
    let c1 = fp2(7, 0, pp2);
    let c4 = fp2(0, 5, pp2);
    let sparse = Fp12::new(
        Fp6::new(c0, c1, Fp2::zero()),
        Fp6::new(Fp2::zero(), c4, Fp2::zero()),
    );
    let full = a.mul(&sparse, &pp12);
    let mut shortcut = a;
    shortcut.mul_by_014(&c0, &c1, &c4, &pp12);
    assert_eq!(shortcut, full);
}

#[test]
fn scaling_by_fp_matches_full_product() {
    let pp12 = params12();
    let pp2 = &pp12.fp6.fp2;
    let a = Fp12::new(
        Fp6::new(fp2(1, 2, pp2), fp2(3, 4, pp2), fp2(5, 6, pp2)),
        Fp6::new(fp2(7, 8, pp2), fp2(9, 10, pp2), fp2(11, 12, pp2)),
    );
    let k = fp(5, &pp2.fp);
    let embedded = Fp12::new(
        Fp6::new(Fp2::new(k, Fp::zero()), Fp2::zero(), Fp2::zero()),
        Fp6::zero(),
    );
    let full = a.mul(&embedded, &pp12);
    let mut scaled = a;
    scaled.mul_by_fp(&k, &pp12);
    assert_eq!(scaled, full);
}

#[test]
fn characteristic_gate() {
    // seventeen is odd and prime to three
    assert!(characteristic_square_mod_6_is_one(&[17]));
    // three divides three, and two is even
    assert!(!characteristic_square_mod_6_is_one(&[3]));
    assert!(!characteristic_square_mod_6_is_one(&[2]));
    // 2^64 is even; 2^64 + 1 is odd and congruent to two modulo three
    assert!(!characteristic_square_mod_6_is_one(&[0, 1]));
    assert!(characteristic_square_mod_6_is_one(&[1, 1]));
    // 2^64 + 2 is even and a multiple of three
    assert!(!characteristic_square_mod_6_is_one(&[2, 1]));
    // 2^64 + 4 is congruent to two modulo three, but even
    assert!(!characteristic_square_mod_6_is_one(&[4, 1]));
    // 2^64 + 7 is odd and congruent to two modulo three
    assert!(characteristic_square_mod_6_is_one(&[7, 1]));
}

#[test]
fn cyclotomic_square_of_one_matches_square() {
    let pp12 = params12();
    let wrapper = Fp12ParamsWrapper { params: pp12 };
    let one = Fp12::new(fp6_one(&wrapper.params.fp6), Fp6::zero());
    let cyc = wrapper.cyclotomic_square(&one);
    let sq = one.square(&wrapper.params);
    assert_eq!(cyc, sq);
    assert_eq!(cyc, one);
}

#[test]
fn fp12_frobenius_power_zero_is_identity() {
    let pp12 = params12();
    let pp2 = &pp12.fp6.fp2;
    let mut x = Fp12::new(
        Fp6::new(fp2(1, 2, pp2), fp2(3, 4, pp2), fp2(5, 6, pp2)),
        Fp6::new(fp2(7, 8, pp2), fp2(9, 10, pp2), fp2(11, 12, pp2)),
    );
    let before = x;
    x.frobenius_map(0, &pp12);
    assert_eq!(x, before);
}

#[test]
fn nonresidue_rotation() {
    let pp12 = params12();
    let pp2 = &pp12.fp6.fp2;
    let x = Fp6::new(fp2(1, 2, pp2), fp2(3, 4, pp2), fp2(5, 6, pp2));
    let rotated = pp12.mul_fp6_by_nonresidue(&x);
    // the low coordinates move up, the top one is scaled by the nonresidue
    assert_eq!(rotated.c1, x.c0);
    assert_eq!(rotated.c2, x.c1);
    let scaled = pp12.fp6.mul_fp2_by_nonresidue(&x.c2);
    assert_eq!(rotated.c0, scaled);
}

#[test]
fn tower_addition_and_subtraction() {
    let pp12 = params12();
    let pp2 = &pp12.fp6.fp2;
    let a = Fp12::new(
        Fp6::new(fp2(1, 2, pp2), fp2(3, 4, pp2), fp2(5, 6, pp2)),
        Fp6::new(fp2(7, 8, pp2), fp2(9, 10, pp2), fp2(11, 12, pp2)),
    );
    let b = Fp12::new(
        Fp6::new(fp2(16, 15, pp2), fp2(14, 13, pp2), fp2(12, 11, pp2)),
        Fp6::new(fp2(10, 9, pp2), fp2(8, 7, pp2), fp2(6, 5, pp2)),
    );
    let sum = a.add(&b, &pp12);
    let back = sum.sub(&b, &pp12);
    assert_eq!(back, a);
    assert_eq!(sum.c0.c0.c0.into_repr(&pp2.fp), 0);
    assert_eq!(sum.c0.c0.c1.into_repr(&pp2.fp), 0);
    assert_eq!(sum.c1.c2.c0.into_repr(&pp2.fp), 0);
}
