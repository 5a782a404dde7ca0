use algebra::fp::{Fp, FpParams};
use algebra::sqrt::LegendreSymbol;

fn params17() -> FpParams {
    FpParams::new(17, 3).expect("17 is an odd prime and 3 generates its units")
}

fn fp(v: u64, pp: &FpParams) -> Fp {
    Fp::from_repr(v, pp)
}

#[test]
fn toy_scenario_add_mul_invert() {
    let pp = params17();
    let a = fp(5, &pp);
    let b = fp(14, &pp);
    assert_eq!(a.add(&b, &pp).into_repr(&pp), 2);
    assert_eq!(a.mul(&a, &pp).into_repr(&pp), 8);
    let inv = a.inverse(&pp).expect("5 is invertible modulo 17");
    assert_eq!(inv.into_repr(&pp), 7);
    assert!(Fp::zero().inverse(&pp).is_none());
}

#[test]
fn field_axioms_sampled() {
    let pp = params17();
    for &(x, y, z) in &[(3u64, 7u64, 11u64), (0, 16, 1), (8, 8, 8), (2, 15, 13)] {
        let a = fp(x, &pp);
        let b = fp(y, &pp);
        let c = fp(z, &pp);
        // commutativity and associativity of addition
        assert_eq!(
            a.add(&b, &pp).into_repr(&pp),
            b.add(&a, &pp).into_repr(&pp)
        );
        assert_eq!(
            a.add(&b, &pp).add(&c, &pp).into_repr(&pp),
            a.add(&b.add(&c, &pp), &pp).into_repr(&pp)
        );
        // distributivity
        assert_eq!(
            a.mul(&b.add(&c, &pp), &pp).into_repr(&pp),
            a.mul(&b, &pp).add(&a.mul(&c, &pp), &pp).into_repr(&pp)
        );
        // identities and the additive inverse
        assert_eq!(a.add(&Fp::zero(), &pp).into_repr(&pp), x % 17);
        assert_eq!(a.mul(&Fp::one(&pp), &pp).into_repr(&pp), x % 17);
        assert_eq!(a.add(&a.neg(&pp), &pp).into_repr(&pp), 0);
    }
}

#[test]
fn inversion_round_trip_all_nonzero() {
    let pp = params17();
    for v in 1u64..17 {
        let a = fp(v, &pp);
        let inv = a.inverse(&pp).expect("nonzero elements invert");
        assert!(a.mul(&inv, &pp).is_one(&pp));
    }
    assert!(Fp::zero().inverse(&pp).is_none());
}

#[test]
fn legendre_and_sqrt_all_elements() {
    let pp = params17();
    assert_eq!(Fp::zero().legendre(&pp), LegendreSymbol::Zero);
    let squares: [u64; 8] = [1, 4, 9, 16, 8, 2, 15, 13];
    for v in 1u64..17 {
        let a = fp(v, &pp);
        let is_square = squares.contains(&v);
        match a.legendre(&pp) {
            LegendreSymbol::QuadraticResidue => {
                assert!(is_square);
                let r = a.sqrt(&pp).expect("a residue has a root");
                assert_eq!(r.mul(&r, &pp).into_repr(&pp), v);
            }
            LegendreSymbol::QuadraticNonResidue => {
                assert!(!is_square);
                assert!(a.sqrt(&pp).is_none());
            }
            LegendreSymbol::Zero => panic!("nonzero element classified as zero"),
        }
    }
    let root_of_zero = Fp::zero().sqrt(&pp).expect("zero has a root");
    assert_eq!(root_of_zero.into_repr(&pp), 0);
}

#[test]
fn pow_and_generator() {
    let pp = params17();
    let g = Fp::multiplicative_generator(&pp);
    assert_eq!(g.into_repr(&pp), 3);
    assert_eq!(g.pow(4, &pp).into_repr(&pp), 81 % 17);
    assert_eq!(g.pow(16, &pp).into_repr(&pp), 1);
    // the root of unity has exact order two to the two-adicity
    let w = Fp::root_of_unity(&pp);
    assert_eq!(w.pow(16, &pp).into_repr(&pp), 1);
    assert_ne!(w.pow(8, &pp).into_repr(&pp), 1);
}

#[test]
fn from_repr_silent_zero_policy() {
    let pp = params17();
    assert_eq!(fp(20, &pp).into_repr(&pp), 0);
    assert_eq!(fp(17, &pp).into_repr(&pp), 0);
    assert_eq!(fp(16, &pp).into_repr(&pp), 16);
    // the raw paths
    assert_eq!(Fp::from_repr_raw(20, &pp).into_repr_raw(), 0);
    assert_eq!(Fp::from_repr_raw(9, &pp).into_repr_raw(), 9);
}

#[test]
fn ordering_is_by_canonical_value() {
    let pp = params17();
    let a = fp(3, &pp);
    let b = fp(12, &pp);
    assert!(a.lt(&b, &pp));
    assert!(!b.lt(&a, &pp));
    assert!(!a.lt(&a, &pp));
}

#[test]
fn params_reject_bad_moduli() {
    assert!(FpParams::new(15, 2).is_none());
    assert!(FpParams::new(4, 3).is_none());
    assert!(FpParams::new(2, 1).is_none());
    assert!(FpParams::new(17, 0).is_none());
    assert!(FpParams::new(17, 17).is_none());
    assert!(FpParams::new(101, 2).is_some());
}

#[test]
fn frobenius_is_identity_on_prime_field() {
    let pp = params17();
    let mut a = fp(11, &pp);
    a.frobenius_map(1);
    assert_eq!(a.into_repr(&pp), 11);
}

#[test]
fn division_by_nonzero() {
    let pp = params17();
    let a = fp(10, &pp);
    let b = fp(5, &pp);
    assert_eq!(a.div(&b, &pp).into_repr(&pp), 2);
    for v in 1u64..17 {
        let x = fp(13, &pp);
        let y = fp(v, &pp);
        let q = x.div(&y, &pp);
        assert_eq!(q.mul(&y, &pp).into_repr(&pp), 13);
    }
}

#[test]
fn random_bytes_are_shaved_and_checked() {
    let pp = params17();
    // 17 spans five bits, so the kept width is five: values are taken
    // modulo 32 and then range-checked
    assert_eq!(pp.repr_shave_bits, 59);
    let got = Fp::from_random_bytes(&[40], &pp).expect("40 masks to 8");
    assert_eq!(got.into_repr(&pp), 8);
    assert!(Fp::from_random_bytes(&[31], &pp).is_none());
    assert!(Fp::from_random_bytes(&[49], &pp).is_none());
    let zero = Fp::from_random_bytes(&[], &pp).expect("no bytes mask to zero");
    assert_eq!(zero.into_repr(&pp), 0);
    // bytes beyond the first eight are ignored
    let long = Fp::from_random_bytes(&[45, 0, 0, 0, 0, 0, 0, 0, 0xff, 0xff], &pp)
        .expect("45 masks to 13");
    assert_eq!(long.into_repr(&pp), 13);
}

#[test]
fn params_require_a_nonresidue_generator() {
    // two and four are squares modulo seventeen: their root-of-unity
    // candidates cannot reach minus one, so the set is refused
    assert!(FpParams::new(17, 2).is_none());
    assert!(FpParams::new(17, 4).is_none());
    // five and three are non-residues and are accepted
    assert!(FpParams::new(17, 5).is_some());
    assert!(FpParams::new(17, 3).is_some());
}
