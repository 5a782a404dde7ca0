use algebra::biginteger::BigInteger;

#[test]
fn widening_and_zero_test() {
    let a = BigInteger::from_u64(0, 4);
    assert!(a.is_zero());
    let b = BigInteger::from_u64(7, 4);
    assert!(!b.is_zero());
    assert_eq!(b.limbs.as_slice(), &[7, 0, 0, 0]);
}

#[test]
fn parity() {
    assert!(BigInteger::from_u64(0, 2).is_even());
    assert!(BigInteger::from_u64(4, 2).is_even());
    assert!(!BigInteger::from_u64(9, 2).is_even());
    // the upper limbs never change parity
    assert!(!BigInteger::new(vec![1, 0xffff_ffff_ffff_ffff]).is_even());
}

#[test]
fn comparison_is_by_value() {
    let small = BigInteger::new(vec![0xffff_ffff_ffff_ffff, 0]);
    let big = BigInteger::new(vec![0, 1]);
    assert!(small.lt(&big));
    assert!(!big.lt(&small));
    assert!(!big.lt(&big));
}

#[test]
fn addition_with_carry() {
    let mut a = BigInteger::new(vec![0xffff_ffff_ffff_ffff, 0xffff_ffff_ffff_ffff]);
    let one = BigInteger::from_u64(1, 2);
    let carry = a.add_with_carry(&one);
    assert!(carry);
    assert!(a.is_zero());

    let mut b = BigInteger::new(vec![0xffff_ffff_ffff_ffff, 0]);
    let carry2 = b.add_with_carry(&one);
    assert!(!carry2);
    assert_eq!(b.limbs.as_slice(), &[0, 1]);
}

#[test]
fn subtraction_with_borrow() {
    let mut a = BigInteger::new(vec![0, 1]);
    let one = BigInteger::from_u64(1, 2);
    let borrow = a.sub_with_borrow(&one);
    assert!(!borrow);
    assert_eq!(a.limbs.as_slice(), &[0xffff_ffff_ffff_ffff, 0]);

    let mut zero = BigInteger::from_u64(0, 2);
    let borrow2 = zero.sub_with_borrow(&one);
    assert!(borrow2);
    assert_eq!(zero.limbs.as_slice(), &[0xffff_ffff_ffff_ffff, 0xffff_ffff_ffff_ffff]);
}

#[test]
fn shifting_both_ways() {
    let mut a = BigInteger::new(vec![0x8000_0000_0000_0000, 0]);
    let carry = a.mul2();
    assert!(!carry);
    assert_eq!(a.limbs.as_slice(), &[0, 1]);

    let mut top = BigInteger::new(vec![0, 0x8000_0000_0000_0000]);
    let carry2 = top.mul2();
    assert!(carry2);
    assert!(top.is_zero());

    let mut odd = BigInteger::new(vec![1, 1]);
    odd.div2();
    assert_eq!(odd.limbs.as_slice(), &[0x8000_0000_0000_0000, 0]);
}

#[test]
fn byte_round_trip() {
    let a = BigInteger::new(vec![0x0807_0605_0403_0201, 0x1122_3344_5566_7788]);
    let bytes = a.to_bytes_le();
    assert_eq!(bytes.len(), 16);
    assert_eq!(
        &bytes[..8],
        &[0x01, 0x02, 0x03, 0x04, 0x05, 0x06, 0x07, 0x08]
    );
    assert_eq!(
        &bytes[8..],
        &[0x88, 0x77, 0x66, 0x55, 0x44, 0x33, 0x22, 0x11]
    );
    let back = BigInteger::from_bytes_le(bytes.as_slice());
    assert_eq!(back, a);
}

#[test]
fn bytes_of_zero() {
    let z = BigInteger::from_u64(0, 3);
    let bytes = z.to_bytes_le();
    assert_eq!(bytes, vec![0u8; 24]);
    assert!(BigInteger::from_bytes_le(bytes.as_slice()).is_zero());
}
