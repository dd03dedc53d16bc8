use opendp_num::binary::{
    infinity, is_finite, is_nan, is_zero, max_finite, negate, next_down, next_up, precision,
    sign_negative, signed_zero, Format,
};
use opendp_num::decimal::{digit, push_decimal, push_padded};
use opendp_num::error::{domain_error, non_finite_input, overflow_error};
use opendp_num::{Direction, Error, ErrorKind, Rounded};

#[test]
fn encodings_of_binary64() {
    let fmt = Format::Binary64;
    assert_eq!(precision(fmt), 53);
    assert_eq!(precision(Format::Binary32), 24);
    assert_eq!(next_up(fmt, max_finite(fmt)), infinity(fmt, false));
    assert_eq!(next_down(fmt, 0), 0x8000_0000_0000_0001);
    assert_eq!(next_up(fmt, 0x8000_0000_0000_0001), 0x8000_0000_0000_0000);
    assert_eq!(next_up(fmt, 0x7ff8_0000_0000_0000), 0x7ff8_0000_0000_0000);
    assert_eq!(negate(fmt, 0x3ff0_0000_0000_0000), 0xbff0_0000_0000_0000);
    assert!(is_nan(fmt, 0x7ff8_0000_0000_0000));
    assert!(!is_finite(fmt, infinity(fmt, true)));
    assert!(is_zero(fmt, signed_zero(fmt, true)));
    assert!(sign_negative(fmt, signed_zero(fmt, true)));
    assert_eq!(next_down(Format::Binary32, 0x3f80_0000), 0x3f7f_ffff);
}

#[test]
fn decimal_digits() {
    let mut out = String::from("x=");
    push_decimal(&mut out, 1234);
    assert_eq!(out, "x=1234");
    let mut padded = String::new();
    push_padded(&mut padded, 42, 5);
    assert_eq!(padded, "00042");
    assert_eq!(digit(7), '7');
}

#[test]
fn error_values() {
    assert_eq!(ErrorKind::Overflow.name(), "Overflow");
    assert_eq!(ErrorKind::DivisionByZero.name(), "DivisionByZero");
    let error = Error::new(ErrorKind::Backend, "backend panic");
    assert_eq!(error.message(), "backend panic");
    assert_eq!(error.kind, ErrorKind::Backend);
    assert_eq!(domain_error().kind, ErrorKind::Domain);
    assert_eq!(non_finite_input().message, "input must be finite");
    assert_eq!(overflow_error().kind, ErrorKind::Overflow);
    let rounded = Rounded::new(3u8, Direction::Up);
    assert_eq!((rounded.value, rounded.direction), (3, Direction::Up));
}
