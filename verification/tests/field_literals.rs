use continuation_engine::{
    decimal_of_u64, hex_literal_of_u64, parse_dec_u64, FieldElement, FIELD_MODULUS,
};

#[test]
fn addition_wraps_at_modulus() {
    let a = FieldElement::from_u64(FIELD_MODULUS - 1);
    let b = FieldElement::one();
    assert_eq!(a.add(b).val(), 0);
    let c = FieldElement::from_u64(3);
    let d = FieldElement::from_u64(4);
    assert_eq!(c.add(d).val(), 7);
}

#[test]
fn multiplication_wraps_at_modulus() {
    // (modulus - 1) is -1 in the field, and (-1) * (-1) = 1.
    let a = FieldElement::from_u64(FIELD_MODULUS - 1);
    assert_eq!(a.mul(a).val(), 1);
    let b = FieldElement::from_u64(6);
    let c = FieldElement::from_u64(7);
    assert_eq!(b.mul(c).val(), 42);
}

#[test]
fn ordering_is_by_canonical_value() {
    // The modulus itself reduces to zero, so it compares below one.
    assert!(FieldElement::from_u64(FIELD_MODULUS) < FieldElement::one());
    assert!(FieldElement::from_u64(2) < FieldElement::from_u64(3));
    assert_eq!(FieldElement::from_u64(FIELD_MODULUS), FieldElement::zero());
}

#[test]
fn conversion_from_u64_is_total() {
    assert_eq!(FieldElement::from_u64(FIELD_MODULUS).val(), 0);
    assert_eq!(FieldElement::from_u64(u64::MAX).val(), u64::MAX - FIELD_MODULUS);
    assert_eq!(FieldElement::zero().val(), 0);
    assert_eq!(FieldElement::one().val(), 1);
}

#[test]
fn decimal_literal_parses() {
    let fe = FieldElement::from_literal(&b"12345".to_vec()).unwrap();
    assert_eq!(fe.val(), 12345);
    let zero = FieldElement::from_literal(&b"000".to_vec()).unwrap();
    assert_eq!(zero.val(), 0);
}

#[test]
fn hex_literal_parses() {
    assert_eq!(FieldElement::from_literal(&b"0xff".to_vec()).unwrap().val(), 255);
    assert_eq!(FieldElement::from_literal(&b"0xAB".to_vec()).unwrap().val(), 171);
    assert_eq!(
        FieldElement::from_literal(&b"0xdeadbeef".to_vec()).unwrap().val(),
        0xdeadbeef
    );
}

#[test]
fn non_numeric_literal_fails() {
    let e = FieldElement::from_literal(&b"12a4".to_vec()).unwrap_err();
    assert_eq!(e.text, b"12a4".to_vec());
    assert!(FieldElement::from_literal(&b"".to_vec()).is_err());
    assert!(FieldElement::from_literal(&b"0x".to_vec()).is_err());
    assert!(FieldElement::from_literal(&b"0xzz".to_vec()).is_err());
    assert!(FieldElement::from_literal(&b"-5".to_vec()).is_err());
}

#[test]
fn literal_round_trips_through_canonical_encoding() {
    // Decoding a literal and re-encoding the element yields the same
    // canonical field value, for decimal and for hex forms.
    for lit in [&b"0x62"[..], &b"98"[..], &b"007"[..], &b"0xffffffffffffffff"[..]] {
        let fe = FieldElement::from_literal(&lit.to_vec()).unwrap();
        let encoded = fe.to_decimal();
        let again = FieldElement::from_literal(&encoded).unwrap();
        assert_eq!(fe, again);
        assert_eq!(fe.val(), again.val());
    }
}

#[test]
fn hex_literal_of_u64_is_lowercase_prefixed() {
    assert_eq!(hex_literal_of_u64(255), b"0xff".to_vec());
    assert_eq!(hex_literal_of_u64(0), b"0x0".to_vec());
    assert_eq!(hex_literal_of_u64(0xdeadbeef), b"0xdeadbeef".to_vec());
    assert_eq!(hex_literal_of_u64(u64::MAX), b"0xffffffffffffffff".to_vec());
}

#[test]
fn decimal_of_u64_has_no_leading_zero() {
    assert_eq!(decimal_of_u64(0), b"0".to_vec());
    assert_eq!(decimal_of_u64(1234567890), b"1234567890".to_vec());
    assert_eq!(decimal_of_u64(u64::MAX), b"18446744073709551615".to_vec());
}

#[test]
fn parse_dec_u64_is_exact() {
    assert_eq!(parse_dec_u64(&b"18446744073709551615".to_vec()), Some(u64::MAX));
    assert_eq!(parse_dec_u64(&b"18446744073709551616".to_vec()), None);
    assert_eq!(parse_dec_u64(&b"0".to_vec()), Some(0));
    assert_eq!(parse_dec_u64(&b"".to_vec()), None);
    assert_eq!(parse_dec_u64(&b"1 2".to_vec()), None);
}
