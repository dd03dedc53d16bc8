use core::cmp::Ordering;

use opendp_num::backend::dashu::Dashu;
use opendp_num::error::Error;
use opendp_num::fuzz::backend_float_extremes::{
    add_small, fields, power_of_two_verdict, power_probe, precision, selected_base_exponent,
    selected_power, RawExtremeCase,
};
use opendp_num::fuzz::directed_binary::{format_error, outcome_reason};
use opendp_num::fuzz::exact_integer::{gcd_dashu, gcd_malachite, independent_bit_length, ordering_name};
use opendp_num::fuzz::exact_rational::dashu_key;
use opendp_num::fuzz::malachite_float::{err, reason};
use opendp_num::fuzz::opendp_sequences::operation_name;
use opendp_num::fuzz::primitive_casts::{
    boundary_value, compare_decimal, compare_magnitude, split_sign, BoundaryValue,
};
use opendp_num::fuzz::witnesses::{
    witness_alp_primitives, witness_conversions, witness_directed_binary, witness_exact_integer,
    witness_exact_rational, witness_malachite_float, witness_opendp_sequences,
    witness_primitive_casts,
};
use opendp_num::fuzz::{
    any_direction, directed_direction, fnv1a64, hex, signed_decimal, special_exponent,
    split_evenly, unsigned_decimal,
};
use opendp_num::number::{Integer, Natural, Rational};
use opendp_num::{Direction, ErrorKind, FromParts};

fn case(base: u8, exponent: u8, offset: i16, negative: bool) -> RawExtremeCase {
    RawExtremeCase {
        operation: 2,
        precision_selector: 5,
        input_selector: 0,
        bits: 0,
        base_exponent_selector: base,
        exponent_selector: exponent,
        offset,
        negative,
    }
}

fn decimal_of(value: Integer) -> String {
    dashu_key(Rational::from_integer(value))
}

#[test]
fn directions_from_selectors() {
    assert_eq!(directed_direction(2), Direction::Down);
    assert_eq!(directed_direction(3), Direction::Up);
    assert_eq!(any_direction(3), Direction::Down);
    assert_eq!(any_direction(4), Direction::Nearest);
    assert_eq!(any_direction(5), Direction::Up);
}

#[test]
fn special_exponents() {
    assert_eq!(special_exponent(1, 7), -4096);
    assert_eq!(special_exponent(0, 5000), 4096);
    assert_eq!(special_exponent(4, -5000), -4096);
    assert_eq!(special_exponent(8, -7), -7);
    assert_eq!(special_exponent(23, 0), i32::MAX);
    assert_eq!(special_exponent(24, 0), 0);
    assert_eq!(special_exponent(25, 0), -4096);
    assert_eq!(special_exponent(30, 0), -54);
}

#[test]
fn decimal_notation_of_bytes() {
    assert_eq!(unsigned_decimal(&[1, 0], 0), "256");
    assert_eq!(unsigned_decimal(&[], 0), "0");
    assert_eq!(unsigned_decimal(&[0, 0, 7], 4), "7");
    assert_eq!(unsigned_decimal(&[0xff; 8], 0), "18446744073709551615");
    assert_eq!(
        unsigned_decimal(&[0xff; 16], 0),
        "340282366920938463463374607431768211455"
    );
    assert_eq!(unsigned_decimal(&[9, 9], 1), "0");
    assert_eq!(unsigned_decimal(&[9, 9], 18), "1");
    assert_eq!(unsigned_decimal(&[10, 0], 3), "1024");
    assert_eq!(unsigned_decimal(&[100, 0], 3), "1267650600228229401496703205376");
    assert_eq!(signed_decimal(&[5], true, 0), "-5");
    assert_eq!(signed_decimal(&[0], true, 0), "0");
    assert_eq!(signed_decimal(&[5], false, 0), "5");
}

#[test]
fn split_evenly_covers_the_data() {
    let data = [1u8, 2, 3, 4, 5];
    let parts = split_evenly(&data, 2);
    assert_eq!(parts, vec![&data[0..2], &data[2..5]]);
    assert!(split_evenly(&data, 0).is_empty());
    let many = split_evenly(&data[..2], 3);
    assert_eq!(many.len(), 3);
    assert_eq!(many.iter().map(|part| part.len()).sum::<usize>(), 2);
}

#[test]
fn hex_and_fnv_digests() {
    assert_eq!(hex(&[0x00, 0xff, 0x1a]), "00ff1a");
    assert_eq!(hex(&[]), "");
    assert_eq!(fnv1a64(b""), 0xcbf2_9ce4_8422_2325);
    assert_eq!(fnv1a64(b"a"), 0xaf63_dc4c_8601_ec8c);
}

#[test]
fn exact_integer_oracles() {
    assert_eq!(ordering_name(Ordering::Less), "less");
    assert_eq!(ordering_name(Ordering::Equal), "equal");
    assert_eq!(ordering_name(Ordering::Greater), "greater");
    assert_eq!(independent_bit_length(&[0, 0, 1, 0]), 9);
    assert_eq!(independent_bit_length(&[]), 0);
    assert_eq!(independent_bit_length(&[0, 0]), 0);
    assert_eq!(independent_bit_length(&[0x80]), 8);
    assert_eq!(gcd_dashu(Natural::from_u64(12), Natural::from_u64(18)).to_u64(), Some(6));
    assert_eq!(gcd_malachite(Natural::from_u64(0), Natural::from_u64(5)).to_u64(), Some(5));
    assert_eq!(gcd_malachite(Natural::from_u64(17), Natural::from_u64(5)).to_u64(), Some(1));
    assert_eq!(gcd_dashu(Natural::from_u64(7), Natural::from_u64(0)).to_u64(), Some(7));
}

#[test]
fn rational_keys_are_in_lowest_terms() {
    let value = <Dashu as FromParts<Rational, Integer, Natural>>::from_parts(
        Integer::from_i64(-6),
        Natural::from_u64(4),
    )
    .unwrap();
    assert_eq!(dashu_key(value), "-3/2");
    assert_eq!(dashu_key(Rational::from_integers(Integer::from_i64(10), Integer::from_i64(4))), "5/2");
    assert_eq!(dashu_key(Rational::zero()), "0/1");
}

#[test]
fn report_texts() {
    let ok: opendp_num::Result<u8> = Ok(1);
    let error: opendp_num::Result<u8> = Err(Error::new(ErrorKind::Domain, "outside"));
    assert_eq!(outcome_reason(&ok, &ok), "correctly rounded value differs from MPFR");
    assert_eq!(outcome_reason(&ok, &error), "Dashu returned a value where MPFR reports an error");
    assert_eq!(outcome_reason(&error, &ok), "Dashu returned an error for a valid MPFR result");
    assert_eq!(outcome_reason(&error, &error), "Dashu and MPFR classify the error differently");
    assert_eq!(reason(&error, &ok), "Malachite returned an error for a valid MPFR result");
    assert_eq!(reason(&ok, &error), "Malachite returned a value where MPFR reports an error");
    let overflow = Error::new(ErrorKind::Overflow, "operation produced a non-finite value");
    assert_eq!(format_error(&overflow), "error Overflow: operation produced a non-finite value");
    assert_eq!(err(&Error::new(ErrorKind::DivisionByZero, "division by zero")), "error DivisionByZero: division by zero");
    assert_eq!(operation_name(0), "add");
    assert_eq!(operation_name(9), "sqrt");
    assert_eq!(operation_name(10), "powi");
    assert_eq!(operation_name(200), "powi");
}

#[test]
fn boundary_probe_parameters() {
    assert_eq!(precision(5), 53);
    assert_eq!(precision(13), 53);
    assert_eq!(precision(0), 1);
    assert_eq!(selected_base_exponent(0, 0), -1074);
    assert_eq!(selected_base_exponent(8, 10), 1027);
    assert_eq!(selected_base_exponent(9, -10), -1078);
    assert_eq!(selected_power(0, 0, 3).to_i64(), Some(3));
    assert_eq!(selected_power(1, 0, 0).to_i64(), Some(2_147_483_647));
    assert_eq!(selected_power(2, 0, -9).to_i64(), Some(9_999_999_999_999_996));
    assert_eq!(selected_power(3, 0, 4).to_i64(), None);
    assert_eq!(selected_power(4, 0, -1).to_i64(), None);
    assert_eq!(selected_power(5, u64::MAX, 0).to_i64(), Some(-1));
    assert_eq!(selected_power(6, 5, 0).to_i64(), Some(-5));
    assert_eq!(
        decimal_of(selected_power(7, 0, 0)),
        "1606938044258990275541962092341162602522202993782792835301376/1"
    );
    assert_eq!(add_small(Integer::from_i64(i64::MAX), 1).to_i64(), None);
    assert_eq!(add_small(Integer::from_i64(10), -4).to_i64(), Some(6));
}

#[test]
fn boundary_probe_fields() {
    let f = fields("powi", &case(5, 0, 3, false));
    assert_eq!(f.len(), 9);
    assert_eq!(f[0], ("contract", "backend_conformance".to_owned()));
    assert_eq!(f[5], ("operation", "powi".to_owned()));
    assert_eq!(f[6], ("source_precision", "53".to_owned()));
    assert_eq!(f[8], ("masked_by_adapter", "true".to_owned()));
}

#[test]
fn power_probe_parameters() {
    // (2^4)^3 = 2^12.
    let probe = power_probe(&case(5, 0, 3, false)).unwrap();
    assert_eq!((probe.precision, probe.base_exponent, probe.expected_exponent), (53, 4, 12));
    assert_eq!(probe.power.to_i64(), Some(3));
    assert!(!probe.negative_result);
    // (-2^4)^3 is negative.
    assert!(power_probe(&case(5, 0, 3, true)).unwrap().negative_result);
    // (2^-5)^-3 = 2^15.
    let reciprocal = power_probe(&case(2, 0, -3, false)).unwrap();
    assert_eq!((reciprocal.base_exponent, reciprocal.expected_exponent), (-5, 15));
    // A power beyond the exponent range is skipped.
    assert!(power_probe(&case(5, 7, 0, false)).is_none());
}

#[test]
fn power_probe_verdicts() {
    let exact = (false, Integer::from_i64(1), 12isize);
    let same = (false, Integer::from_i64(1), 12isize);
    assert!(power_of_two_verdict(&exact, &same, false, 12).is_none());
    let infinite = (true, Integer::from_i64(1), 12isize);
    assert_eq!(power_of_two_verdict(&infinite, &same, false, 12).unwrap().rounding, "up");
    let wrong_sign = (false, Integer::from_i64(-1), 12isize);
    let failure = power_of_two_verdict(&exact, &wrong_sign, false, 12).unwrap();
    assert_eq!((failure.rounding, failure.expected_exponent), ("down", 12));
    let negative = (false, Integer::from_i64(-1), 3isize);
    assert!(power_of_two_verdict(&negative, &negative, true, 3).is_none());
}

#[test]
fn decimal_comparison_as_text() {
    assert_eq!(compare_decimal("-5", "3"), Ordering::Less);
    assert_eq!(compare_decimal("10", "9"), Ordering::Greater);
    assert_eq!(compare_decimal("007", "7"), Ordering::Equal);
    assert_eq!(compare_decimal("+5", "5"), Ordering::Equal);
    assert_eq!(compare_decimal("-10", "-9"), Ordering::Less);
    assert_eq!(compare_decimal("-0", "0"), Ordering::Greater);
    assert_eq!(compare_magnitude("000", ""), Ordering::Equal);
    assert_eq!(compare_magnitude("123", "124"), Ordering::Less);
    assert_eq!(split_sign("-12"), (true, "12"));
    assert_eq!(split_sign("-0"), (false, "-0"));
    assert_eq!(split_sign("++7"), (false, "7"));
}

#[test]
fn boundary_values_of_a_cast() {
    match boundary_value(true, 3, "-128", "127", "42") {
        BoundaryValue::Offset { base, delta } => assert_eq!((base.as_str(), delta), ("-128", -1)),
        other => panic!("unexpected {other:?}"),
    }
    match boundary_value(false, 1, "0", "255", "42") {
        BoundaryValue::Text(text) => assert_eq!(text, "0"),
        other => panic!("unexpected {other:?}"),
    }
    match boundary_value(true, 12, "-128", "127", "42") {
        BoundaryValue::Text(text) => assert_eq!(text, "42"),
        other => panic!("unexpected {other:?}"),
    }
    match boundary_value(true, 11, "-128", "127", "42") {
        BoundaryValue::PowerOfTwoNear { maximum, above } => assert_eq!((maximum.as_str(), above), ("127", true)),
        other => panic!("unexpected {other:?}"),
    }
    match boundary_value(true, 7, "-128", "127", "42") {
        BoundaryValue::Text(text) => assert_eq!(text, "-1"),
        other => panic!("unexpected {other:?}"),
    }
}

#[test]
fn witnesses_run() {
    witness_exact_integer();
    witness_exact_rational();
    witness_directed_binary();
    witness_conversions();
    witness_primitive_casts();
    witness_alp_primitives();
    witness_opendp_sequences();
    witness_malachite_float();
}

#[test]
fn integer_notations_compare_as_the_integers() {
    let values: [i128; 9] = [i128::MIN, -1000, -99, -1, 0, 1, 9, 10, i128::MAX];
    for x in values.iter() {
        for y in values.iter() {
            assert_eq!(compare_decimal(&x.to_string(), &y.to_string()), x.cmp(y));
        }
    }
}

#[test]
fn magnitude_lengths_are_counted_in_bytes() {
    // "é" is two bytes long, as long as "10", and sorts after '1'.
    assert_eq!(compare_decimal("é", "10"), Ordering::Greater);
    assert_eq!(compare_magnitude("é", "10"), Ordering::Greater);
    assert_eq!(compare_magnitude("0010", "9"), Ordering::Greater);
    assert_eq!(compare_magnitude("000", ""), Ordering::Equal);
}
