use planets_service::codec::{mass_from_parts, CustomBigDecimal, CustomBigInt};
use planets_service::error::ApiError;

fn dec(s: &str) -> CustomBigDecimal {
    CustomBigDecimal::parse(s).expect("literal should parse")
}

#[test]
fn decimal_round_trip_canonical() {
    for s in ["6371.0", "2439.7", "0", "0.0", "-12.5", "123.450", "5", "-0.001"] {
        assert_eq!(dec(s).to_value(), s);
    }
}

#[test]
fn decimal_encode_then_decode_equal() {
    for s in ["69911.0", "-7.53", "24622.0"] {
        let d = dec(s);
        let back = CustomBigDecimal::parse(&d.to_value()).expect("re-parse");
        assert_eq!(back.neg, d.neg);
        assert_eq!(back.int_digits, d.int_digits);
        assert_eq!(back.frac_digits, d.frac_digits);
    }
}

#[test]
fn decimal_normalizes_noncanonical_input() {
    assert_eq!(dec("007").to_value(), "7");
    assert_eq!(dec("+06.50").to_value(), "6.50");
    assert_eq!(dec("-0.0").to_value(), "0.0");
    assert_eq!(dec("-000").to_value(), "0");
    assert_eq!(dec("+0").to_value(), "0");
}

#[test]
fn decimal_rejects_invalid_literals() {
    for s in ["", "+", "-", "1.", ".5", "1e5", "1.2.3", "12a", "--1", " 1", "1 ", "0x1f"] {
        assert_eq!(
            CustomBigDecimal::parse(s).unwrap_err(),
            ApiError::InvalidNumericLiteral,
            "literal {:?} should be rejected",
            s
        );
    }
}

#[test]
fn integer_decode_is_unsupported() {
    assert_eq!(
        CustomBigInt::parse("5972").unwrap_err(),
        ApiError::UnsupportedOperation
    );
}

#[test]
fn integer_scientific_encoding() {
    let zero = CustomBigInt { neg: false, digits: vec![0] };
    assert_eq!(zero.to_value(), "0e0");
    let n = CustomBigInt { neg: false, digits: vec![1, 2, 3, 4] };
    assert_eq!(n.to_value(), "1.234e3");
    let m = CustomBigInt { neg: true, digits: vec![1, 2, 3, 4] };
    assert_eq!(m.to_value(), "-1.234e3");
    let h = CustomBigInt { neg: false, digits: vec![1, 0, 0] };
    assert_eq!(h.to_value(), "1e2");
    let d = CustomBigInt { neg: false, digits: vec![9] };
    assert_eq!(d.to_value(), "9e0");
}

#[test]
fn mass_from_mantissa_and_exponent() {
    let mass = mass_from_parts(&dec("6.42"), 23);
    // 6.42 * 10^23 == 642 * 10^21
    let mut expected: Vec<u8> = vec![6, 4, 2];
    expected.extend(std::iter::repeat(0).take(21));
    assert!(!mass.neg);
    assert_eq!(mass.digits, expected);
    assert_eq!(mass.to_value(), "6.42e23");
}

#[test]
fn mass_truncates_sub_unit_digits() {
    let mass = mass_from_parts(&dec("6.423"), 2);
    assert_eq!(mass.digits, vec![6, 4, 2]);
    assert_eq!(mass.to_value(), "6.42e2");
}

#[test]
fn mass_of_zero_mantissa_is_zero() {
    let mass = mass_from_parts(&dec("0.0"), 23);
    assert!(!mass.neg);
    assert_eq!(mass.digits, vec![0]);
    assert_eq!(mass.to_value(), "0e0");
}

#[test]
fn mass_keeps_sign_of_nonzero_mantissa() {
    let mass = mass_from_parts(&dec("-1.5"), 1);
    assert!(mass.neg);
    assert_eq!(mass.digits, vec![1, 5]);
    assert_eq!(mass.to_value(), "-1.5e1");
}
