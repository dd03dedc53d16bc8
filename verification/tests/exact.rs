use opendp_num::backend::dashu::Dashu;
use opendp_num::backend::malachite::Malachite;
use opendp_num::backend::mpfr::Mpfr;
use opendp_num::fuzz::exact_rational::dashu_key;
use opendp_num::number::{Integer, Natural, Rational};
use opendp_num::{Add, CheckedBinary, Div, ErrorKind, ExactBinary, ExactUnary, FromParts, IntoParts, Mul, Neg, Sub};

fn integer(value: i64) -> Integer {
    Integer::from_i64(value)
}

fn natural(value: u64) -> Natural {
    Natural::from_u64(value)
}

fn dashu_rational(numerator: i64, denominator: u64) -> Rational {
    <Dashu as FromParts<Rational, Integer, Natural>>::from_parts(integer(numerator), natural(denominator)).unwrap()
}

fn key(value: &Rational) -> String {
    dashu_key(value.duplicate())
}

#[test]
fn dashu_integer_arithmetic() {
    let a = integer(5);
    let b = integer(-7);
    assert_eq!(<Dashu as ExactBinary<Add, Integer>>::eval(&a, &b).to_i64(), Some(-2));
    assert_eq!(<Dashu as ExactBinary<Sub, Integer>>::eval(&a, &b).to_i64(), Some(12));
    assert_eq!(<Dashu as ExactBinary<Mul, Integer>>::eval(&a, &b).to_i64(), Some(-35));
    assert_eq!(<Dashu as ExactUnary<Neg, Integer>>::eval(&b).to_i64(), Some(7));
}

#[test]
fn malachite_integer_arithmetic() {
    let a = integer(-40);
    let b = integer(2);
    assert_eq!(<Malachite as ExactBinary<Add, Integer>>::eval(&a, &b).to_i64(), Some(-38));
    assert_eq!(<Malachite as ExactBinary<Sub, Integer>>::eval(&a, &b).to_i64(), Some(-42));
    assert_eq!(<Malachite as ExactBinary<Mul, Integer>>::eval(&a, &b).to_i64(), Some(-80));
    assert_eq!(<Malachite as ExactUnary<Neg, Integer>>::eval(&a).to_i64(), Some(40));
}

#[test]
fn integer_products_beyond_one_word() {
    let big = integer(i64::MAX);
    let square = <Dashu as ExactBinary<Mul, Integer>>::eval(&big, &big);
    assert_eq!(square.to_i64(), None);
    let back = <Dashu as ExactBinary<Sub, Integer>>::eval(&square, &square);
    assert_eq!(back.to_i64(), Some(0));
    let m = <Malachite as ExactBinary<Mul, Integer>>::eval(&big, &big);
    assert_eq!(
        dashu_key(Rational::from_integer(square)),
        dashu_key(Rational::from_integer(m))
    );
}

#[test]
fn natural_addition_carries_into_a_second_word() {
    let sum = <Dashu as ExactBinary<Add, Natural>>::eval(&natural(u64::MAX), &natural(1));
    assert_eq!(sum.to_u64(), None);
    assert_eq!(sum.words(), &[0u64, 1u64][..]);
    let m = <Malachite as ExactBinary<Add, Natural>>::eval(&natural(u64::MAX), &natural(1));
    assert_eq!(m.words(), &[0u64, 1u64][..]);
    let product = <Malachite as ExactBinary<Mul, Natural>>::eval(&natural(6), &natural(7));
    assert_eq!(product.to_u64(), Some(42));
    assert_eq!(<Dashu as ExactBinary<Mul, Natural>>::eval(&natural(6), &natural(7)).to_u64(), Some(42));
}

#[test]
fn dashu_rational_arithmetic_in_lowest_terms() {
    let half = dashu_rational(1, 2);
    let third = dashu_rational(1, 3);
    assert_eq!(key(&<Dashu as ExactBinary<Add, Rational>>::eval(&half, &third)), "5/6");
    assert_eq!(key(&<Dashu as ExactBinary<Sub, Rational>>::eval(&half, &half)), "0/1");
    let two_thirds = dashu_rational(2, 3);
    let three_quarters = dashu_rational(3, 4);
    assert_eq!(key(&<Dashu as ExactBinary<Mul, Rational>>::eval(&two_thirds, &three_quarters)), "1/2");
    assert_eq!(key(&<Dashu as ExactUnary<Neg, Rational>>::eval(&half)), "-1/2");
}

#[test]
fn malachite_rational_arithmetic_in_lowest_terms() {
    let half = dashu_rational(1, 2);
    let sixth = dashu_rational(1, 6);
    let sum = <Malachite as ExactBinary<Add, Rational>>::eval(&half, &sixth);
    assert_eq!(sum.numerator().to_i64(), Some(2));
    assert_eq!(sum.denominator().to_u64(), Some(3));
    let difference = <Malachite as ExactBinary<Sub, Rational>>::eval(&sixth, &half);
    assert_eq!(difference.numerator().to_i64(), Some(-1));
    assert_eq!(difference.denominator().to_u64(), Some(3));
    let product = <Malachite as ExactBinary<Mul, Rational>>::eval(&half, &sixth);
    assert_eq!(product.numerator().to_i64(), Some(1));
    assert_eq!(product.denominator().to_u64(), Some(12));
    let negated = <Malachite as ExactUnary<Neg, Rational>>::eval(&sixth);
    assert_eq!(negated.numerator().to_i64(), Some(-1));
    assert_eq!(negated.denominator().to_u64(), Some(6));
}

#[test]
fn checked_division_refuses_a_zero_divisor() {
    let half = dashu_rational(1, 2);
    let zero = Rational::zero();
    let error = <Dashu as CheckedBinary<Div, Rational>>::eval(&half, &zero).unwrap_err();
    assert_eq!(error.kind, ErrorKind::DivisionByZero);
    assert_eq!(error.message, "division by zero");
    let quarter = dashu_rational(1, 4);
    let quotient = <Dashu as CheckedBinary<Div, Rational>>::eval(&half, &quarter).unwrap();
    assert_eq!(key(&quotient), "2/1");
}

#[test]
fn dashu_construction_reduces_and_refuses_zero_denominator() {
    assert_eq!(key(&dashu_rational(6, 4)), "3/2");
    assert_eq!(key(&dashu_rational(-6, 4)), "-3/2");
    let error = <Dashu as FromParts<Rational, Integer, Natural>>::from_parts(integer(1), natural(0)).unwrap_err();
    assert_eq!(error.kind, ErrorKind::DivisionByZero);
    assert_eq!(error.message, "zero rational denominator");
}

#[test]
fn dashu_parts_round_trip() {
    let unreduced = Rational::from_integers(integer(-10), integer(4));
    let (numerator, denominator) = <Dashu as IntoParts<Rational, Integer, Natural>>::into_parts(unreduced);
    assert_eq!(numerator.to_i64(), Some(-5));
    assert_eq!(denominator.to_u64(), Some(2));
    let built = dashu_rational(9, 12);
    let (n, d) = <Dashu as IntoParts<Rational, Integer, Natural>>::into_parts(built);
    assert_eq!((n.to_i64(), d.to_u64()), (Some(3), Some(4)));
}

#[test]
fn mpfr_construction_is_canonical() {
    let value = <Mpfr as FromParts<Rational, Integer, Integer>>::from_parts(integer(3), integer(-6)).unwrap();
    assert_eq!(value.numerator().to_i64(), Some(-1));
    assert_eq!(value.denominator().to_u64(), Some(2));
    let plain = <Mpfr as FromParts<Rational, Integer, Integer>>::from_parts(integer(3), integer(6)).unwrap();
    assert_eq!(plain.numerator().to_i64(), Some(1));
    assert_eq!(plain.denominator().to_u64(), Some(2));
    let error = <Mpfr as FromParts<Rational, Integer, Integer>>::from_parts(integer(3), integer(0)).unwrap_err();
    assert_eq!(error.kind, ErrorKind::DivisionByZero);
    assert_eq!(error.message, "zero rational denominator");
}

#[test]
fn construction_agrees_between_dashu_and_mpfr() {
    let dashu = dashu_rational(-4, 10);
    let mpfr = <Mpfr as FromParts<Rational, Integer, Integer>>::from_parts(integer(-4), integer(10)).unwrap();
    assert_eq!(key(&dashu), key(&mpfr));
}

#[test]
fn exact_ring_smoke_dashu_integer() {
    let (zero, one, two) = (integer(0), integer(1), integer(2));
    assert_eq!(<Dashu as ExactBinary<Add, Integer>>::eval(&one, &one).to_i64(), two.to_i64());
    assert_eq!(<Dashu as ExactBinary<Sub, Integer>>::eval(&two, &one).to_i64(), one.to_i64());
    assert_eq!(<Dashu as ExactBinary<Mul, Integer>>::eval(&two, &zero).to_i64(), zero.to_i64());
}

#[test]
fn exact_ring_smoke_malachite_integer() {
    let (zero, one, two) = (integer(0), integer(1), integer(2));
    assert_eq!(<Malachite as ExactBinary<Add, Integer>>::eval(&one, &one).to_i64(), two.to_i64());
    assert_eq!(<Malachite as ExactBinary<Sub, Integer>>::eval(&two, &one).to_i64(), one.to_i64());
    assert_eq!(<Malachite as ExactBinary<Mul, Integer>>::eval(&two, &zero).to_i64(), zero.to_i64());
}

#[test]
fn exact_ring_smoke_rationals() {
    let zero = Rational::zero();
    let one = dashu_rational(1, 1);
    let two = dashu_rational(2, 1);
    assert_eq!(key(&<Dashu as ExactBinary<Add, Rational>>::eval(&one, &one)), key(&two));
    assert_eq!(key(&<Dashu as ExactBinary<Sub, Rational>>::eval(&two, &one)), key(&one));
    assert_eq!(key(&<Dashu as ExactBinary<Mul, Rational>>::eval(&two, &zero)), key(&zero));
    assert_eq!(key(&<Malachite as ExactBinary<Add, Rational>>::eval(&one, &one)), key(&two));
    assert_eq!(key(&<Malachite as ExactBinary<Sub, Rational>>::eval(&two, &one)), key(&one));
    assert_eq!(key(&<Malachite as ExactBinary<Mul, Rational>>::eval(&two, &zero)), key(&zero));
}

#[test]
fn add_then_sub_recovers_the_operand() {
    let a = integer(-123_456_789);
    let b = integer(987_654_321);
    let sum = <Dashu as ExactBinary<Add, Integer>>::eval(&a, &b);
    assert_eq!(<Dashu as ExactBinary<Sub, Integer>>::eval(&sum, &b).to_i64(), Some(-123_456_789));
    let m = <Malachite as ExactBinary<Add, Integer>>::eval(&a, &b);
    assert_eq!(<Malachite as ExactBinary<Sub, Integer>>::eval(&m, &b).to_i64(), Some(-123_456_789));
}

#[test]
fn multiplication_distributes_over_addition() {
    let (a, b, c) = (integer(-7), integer(11), integer(13));
    let left = <Dashu as ExactBinary<Mul, Integer>>::eval(&a, &<Dashu as ExactBinary<Add, Integer>>::eval(&b, &c));
    let right = <Dashu as ExactBinary<Add, Integer>>::eval(
        &<Dashu as ExactBinary<Mul, Integer>>::eval(&a, &b),
        &<Dashu as ExactBinary<Mul, Integer>>::eval(&a, &c),
    );
    assert_eq!(left.to_i64(), Some(-168));
    assert_eq!(right.to_i64(), Some(-168));
}

#[test]
fn exact_providers_agree_on_rationals() {
    let a = dashu_rational(-3, 8);
    let b = dashu_rational(5, 12);
    assert_eq!(
        key(&<Dashu as ExactBinary<Add, Rational>>::eval(&a, &b)),
        key(&<Malachite as ExactBinary<Add, Rational>>::eval(&a, &b))
    );
    assert_eq!(
        key(&<Dashu as ExactBinary<Mul, Rational>>::eval(&a, &b)),
        key(&<Malachite as ExactBinary<Mul, Rational>>::eval(&a, &b))
    );
    assert_eq!(key(&<Dashu as ExactBinary<Add, Rational>>::eval(&a, &b)), "1/24");
}

#[test]
fn integer_sign_helpers() {
    assert!(integer(-1).is_negative());
    assert!(!integer(0).is_negative());
    assert!(integer(0).is_zero());
    assert_eq!(integer(-9).negated().to_i64(), Some(9));
    assert_eq!(integer(-9).unsigned_abs().to_u64(), Some(9));
    assert_eq!(Integer::from_sign_magnitude(true, 1u64 << 63).to_i64(), Some(i64::MIN));
    assert_eq!(Integer::from_sign_magnitude(false, 1u64 << 63).to_i64(), None);
    assert_eq!(Integer::from_natural(true, natural(5)).to_i64(), Some(-5));
    assert_eq!(Natural::from_words(vec![7, 0, 0]).to_u64(), Some(7));
}
