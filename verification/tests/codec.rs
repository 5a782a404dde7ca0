use algebra::fp::{Fp, FpParams};

fn params17() -> FpParams {
    FpParams::new(17, 3).expect("17 is an odd prime and 3 generates its units")
}

#[test]
fn byte_round_trip_all_elements() {
    let pp = params17();
    for v in 0u64..17 {
        let a = Fp::from_repr(v, &pp);
        let bytes = a.write(&pp);
        assert_eq!(bytes.len(), 8);
        let back = Fp::read(bytes.as_slice(), &pp).expect("written bytes decode");
        assert_eq!(back.into_repr(&pp), v);
    }
}

#[test]
fn byte_read_rejects_out_of_range() {
    let pp = params17();
    let over = [17u8, 0, 0, 0, 0, 0, 0, 0];
    assert!(Fp::read(&over, &pp).is_err());
    let big = [0xffu8; 8];
    assert!(Fp::read(&big, &pp).is_err());
    let short = [1u8, 0, 0];
    assert!(Fp::read(&short, &pp).is_err());
    let boundary = [16u8, 0, 0, 0, 0, 0, 0, 0];
    assert_eq!(Fp::read(&boundary, &pp).unwrap().into_repr(&pp), 16);
}

#[test]
fn byte_encoding_is_little_endian() {
    let pp = FpParams::new(65537, 3).expect("a Fermat prime");
    let a = Fp::from_repr(0x0102, &pp);
    let bytes = a.write(&pp);
    assert_eq!(bytes.as_slice(), &[0x02, 0x01, 0, 0, 0, 0, 0, 0]);
}

#[test]
fn string_round_trip_all_elements() {
    let pp = params17();
    for v in 0u64..17 {
        let a = Fp::from_repr(v, &pp);
        let s = a.to_decimal(&pp);
        let back = Fp::from_str(s.as_str(), &pp).expect("canonical output parses");
        assert_eq!(back.into_repr(&pp), v);
    }
}

#[test]
fn string_parse_rejects_bad_inputs() {
    let pp = params17();
    assert!(Fp::from_str("", &pp).is_err());
    assert!(Fp::from_str("00", &pp).is_err());
    assert!(Fp::from_str("01", &pp).is_err());
    assert!(Fp::from_str("1a", &pp).is_err());
    assert!(Fp::from_str("-5", &pp).is_err());
    assert!(Fp::from_str("17", &pp).is_err());
    assert!(Fp::from_str("9999999999999999999999999", &pp).is_err());
}

#[test]
fn string_parse_accepts_canonical() {
    let pp = params17();
    assert_eq!(Fp::from_str("0", &pp).unwrap().into_repr(&pp), 0);
    assert_eq!(Fp::from_str("16", &pp).unwrap().into_repr(&pp), 16);
    let wide = FpParams::new(1000003, 2).expect("a larger prime");
    assert_eq!(
        Fp::from_str("999983", &wide).unwrap().into_repr(&wide),
        999983
    );
    let a = Fp::from_repr(999983, &wide);
    assert_eq!(a.to_decimal(&wide).as_str(), "999983");
    assert_eq!(Fp::zero().to_decimal(&wide).as_str(), "0");
}
