use opendp_num::backend::directed::{
    binary_guard, exp_shortcut, expm1_shortcut, finish, powi_guard, unary_guard, Elementary,
};
use opendp_num::backend::malachite::{opposite, powi_plan};
use opendp_num::binary::{Binary32, Binary64};
use opendp_num::{Direction, ErrorKind};

const ONE: u64 = 0x3ff0_0000_0000_0000;
const MINUS_ONE: u64 = 0xbff0_0000_0000_0000;
const NEGATIVE_ZERO: u64 = 0x8000_0000_0000_0000;
const INFINITY: u64 = 0x7ff0_0000_0000_0000;

fn b64(bits: u64) -> Binary64 {
    Binary64 { bits }
}

fn kind(result: opendp_num::Result<()>) -> Option<ErrorKind> {
    result.err().map(|error| error.kind)
}

#[test]
fn logarithm_domains() {
    assert_eq!(kind(unary_guard(Elementary::Ln, b64(0))), Some(ErrorKind::Domain));
    assert_eq!(kind(unary_guard(Elementary::Ln, b64(NEGATIVE_ZERO))), Some(ErrorKind::Domain));
    assert_eq!(kind(unary_guard(Elementary::Log2, b64(ONE))), None);
    assert_eq!(kind(unary_guard(Elementary::Ln1p, b64(MINUS_ONE))), Some(ErrorKind::Domain));
    assert_eq!(kind(unary_guard(Elementary::Ln1p, b64(MINUS_ONE - 1))), None);
    assert_eq!(kind(unary_guard(Elementary::Ln1p, b64(0xbfe0_0000_0000_0000))), None);
    assert_eq!(kind(unary_guard(Elementary::Ln1p, b64(0xc000_0000_0000_0000))), Some(ErrorKind::Domain));
    let error = unary_guard(Elementary::Ln, b64(MINUS_ONE)).unwrap_err();
    assert_eq!(error.message, "input is outside the operation domain");
}

#[test]
fn square_root_and_exponential_domains() {
    assert_eq!(kind(unary_guard(Elementary::Sqrt, b64(NEGATIVE_ZERO))), None);
    assert_eq!(kind(unary_guard(Elementary::Sqrt, b64(NEGATIVE_ZERO + 1))), Some(ErrorKind::Domain));
    assert_eq!(kind(unary_guard(Elementary::Exp, b64(MINUS_ONE))), None);
    assert_eq!(kind(unary_guard(Elementary::ExpM1, b64(0x7ff8_0000_0000_0000))), Some(ErrorKind::NonFinite));
    assert_eq!(kind(unary_guard(Elementary::Exp, b64(0xfff0_0000_0000_0000))), Some(ErrorKind::NonFinite));
    assert_eq!(kind(unary_guard(Elementary::Ln, Binary32 { bits: 0x3f80_0000 })), None);
    assert_eq!(kind(unary_guard(Elementary::Ln1p, Binary32 { bits: 0xbf80_0000 })), Some(ErrorKind::Domain));
}

#[test]
fn binary_operand_checks() {
    assert_eq!(kind(binary_guard(true, b64(ONE), b64(NEGATIVE_ZERO))), Some(ErrorKind::DivisionByZero));
    assert_eq!(kind(binary_guard(false, b64(ONE), b64(NEGATIVE_ZERO))), None);
    assert_eq!(kind(binary_guard(false, b64(INFINITY), b64(ONE))), Some(ErrorKind::NonFinite));
    assert_eq!(kind(binary_guard(true, b64(ONE), b64(INFINITY))), Some(ErrorKind::NonFinite));
}

#[test]
fn zero_base_negative_power_guard_is_division_by_zero() {
    let error = powi_guard(Binary32 { bits: 0x8000_0000 }, true).unwrap_err();
    assert_eq!(error.kind, ErrorKind::DivisionByZero);
    assert_eq!(error.message, "zero to a negative power");
    assert!(powi_guard(Binary32 { bits: 0x8000_0000 }, false).is_ok());
    assert_eq!(kind(powi_guard(b64(INFINITY), false)), Some(ErrorKind::NonFinite));
}

#[test]
fn reading_a_library_result() {
    assert_eq!(finish(true, b64(ONE), Direction::Up).unwrap_err().kind, ErrorKind::Domain);
    assert_eq!(finish(false, b64(INFINITY), Direction::Up).unwrap_err().kind, ErrorKind::Overflow);
    let ok = finish(false, b64(ONE), Direction::Down).unwrap();
    assert_eq!((ok.value.bits, ok.direction), (ONE, Direction::Down));
}

#[test]
fn exp_shortcuts_from_the_native_result() {
    let up = exp_shortcut(b64(0), Direction::Up).unwrap().unwrap();
    assert_eq!(up.value.bits, 1);
    let down = exp_shortcut(b64(0), Direction::Down).unwrap().unwrap();
    assert_eq!(down.value.bits, 0);
    let saturated = exp_shortcut(b64(INFINITY), Direction::Down).unwrap().unwrap();
    assert_eq!(saturated.value.bits, 0x7fef_ffff_ffff_ffff);
    let overflow = exp_shortcut(b64(INFINITY), Direction::Nearest).unwrap().unwrap_err();
    assert_eq!(overflow.kind, ErrorKind::Overflow);
    assert!(exp_shortcut(b64(0x4000_0000_0000_0000), Direction::Up).is_none());
}

#[test]
fn expm1_shortcuts_from_the_native_result() {
    let up = expm1_shortcut(b64(MINUS_ONE), Direction::Up).unwrap().unwrap();
    assert_eq!(up.value.bits, 0xbfef_ffff_ffff_ffff);
    let down = expm1_shortcut(b64(MINUS_ONE), Direction::Down).unwrap().unwrap();
    assert_eq!(down.value.bits, MINUS_ONE);
    let overflow = expm1_shortcut(b64(INFINITY), Direction::Up).unwrap().unwrap_err();
    assert_eq!(overflow.kind, ErrorKind::Overflow);
    let up32 = expm1_shortcut(Binary32 { bits: 0xbf80_0000 }, Direction::Up).unwrap().unwrap();
    assert_eq!(up32.value.bits, 0xbf7f_ffff);
    assert!(expm1_shortcut(b64(0x3fe0_0000_0000_0000), Direction::Up).is_none());
}

#[test]
fn malachite_power_plan() {
    assert_eq!(powi_plan(b64(NEGATIVE_ZERO), true, Direction::Down), (true, Direction::Up));
    assert_eq!(powi_plan(b64(MINUS_ONE), false, Direction::Down), (false, Direction::Down));
    assert_eq!(powi_plan(b64(0x4000_0000_0000_0000), true, Direction::Up), (false, Direction::Up));
    assert_eq!(opposite(Direction::Nearest), Direction::Nearest);
    assert_eq!(opposite(Direction::Up), Direction::Down);
}
