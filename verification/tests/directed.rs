use opendp_num::backend::dashu::{
    adaptive_start, adaptive_step, eval_adaptive, extreme_power, fbig_rat, log2_direction, log2_from_bound,
    round_rational, start_precision, to_rat, zero_result_negative, AdaptiveState, AdaptiveStep,
    Dashu,
};
use opendp_num::backend::directed::Elementary;
use opendp_num::binary::{Binary32, Binary64, Format};
use opendp_num::fuzz::exact_rational::dashu_key;
use opendp_num::number::{Integer, Natural, Rational};
use opendp_num::{Add, Convert, DirectedBinary, Direction, Div, ErrorKind, FromParts, Mul, Sub};

const ONE: u64 = 0x3ff0_0000_0000_0000;
const MAX: u64 = 0x7fef_ffff_ffff_ffff;

fn b64(bits: u64) -> Binary64 {
    Binary64 { bits }
}

fn rational(numerator: i64, denominator: u64) -> Rational {
    <Dashu as FromParts<Rational, Integer, Natural>>::from_parts(
        Integer::from_i64(numerator),
        Natural::from_u64(denominator),
    )
    .unwrap()
}

fn add(lhs: u64, rhs: u64, direction: Direction) -> u64 {
    <Dashu as DirectedBinary<Add, Binary64>>::eval(b64(lhs), b64(rhs), direction).unwrap().value.bits
}

#[test]
fn directed_sum_brackets_a_tiny_addend() {
    let tiny = 0x3c30_0000_0000_0000; // 2^-60
    assert_eq!(add(ONE, tiny, Direction::Down), ONE);
    assert_eq!(add(ONE, tiny, Direction::Up), ONE + 1);
    assert_eq!(add(ONE, tiny, Direction::Nearest), ONE);
}

#[test]
fn nearest_sum_breaks_a_tie_to_even() {
    let a = 0x3fb9_9999_9999_999a; // 0.1
    let b = 0x3fc9_9999_9999_999a; // 0.2
    assert_eq!(add(a, b, Direction::Nearest), 0x3fd3_3333_3333_3334);
    assert_eq!(add(a, b, Direction::Down), 0x3fd3_3333_3333_3333);
    assert_eq!(add(a, b, Direction::Up), 0x3fd3_3333_3333_3334);
}

#[test]
fn directed_quotient_of_one_third() {
    let three = 0x4008_0000_0000_0000;
    let down = <Dashu as DirectedBinary<Div, Binary64>>::eval(b64(ONE), b64(three), Direction::Down).unwrap();
    let up = <Dashu as DirectedBinary<Div, Binary64>>::eval(b64(ONE), b64(three), Direction::Up).unwrap();
    assert_eq!(down.value.bits, 0x3fd5_5555_5555_5555);
    assert_eq!(up.value.bits, 0x3fd5_5555_5555_5556);
    assert_eq!(down.direction, Direction::Down);
    assert_eq!(up.direction, Direction::Up);
}

#[test]
fn exact_zero_difference_takes_its_sign_from_the_direction() {
    let down = <Dashu as DirectedBinary<Sub, Binary64>>::eval(b64(ONE), b64(ONE), Direction::Down).unwrap();
    let up = <Dashu as DirectedBinary<Sub, Binary64>>::eval(b64(ONE), b64(ONE), Direction::Up).unwrap();
    assert_eq!(down.value.bits, 0x8000_0000_0000_0000);
    assert_eq!(up.value.bits, 0);
}

#[test]
fn directed_arithmetic_errors() {
    let by_zero = <Dashu as DirectedBinary<Div, Binary64>>::eval(b64(ONE), b64(0x8000_0000_0000_0000), Direction::Up)
        .unwrap_err();
    assert_eq!(by_zero.kind, ErrorKind::DivisionByZero);
    assert_eq!(by_zero.message, "division by zero");
    let nan = <Dashu as DirectedBinary<Add, Binary64>>::eval(b64(0x7ff8_0000_0000_0000), b64(ONE), Direction::Up)
        .unwrap_err();
    assert_eq!(nan.kind, ErrorKind::NonFinite);
    let overflow = <Dashu as DirectedBinary<Add, Binary64>>::eval(b64(MAX), b64(MAX), Direction::Up).unwrap_err();
    assert_eq!(overflow.kind, ErrorKind::Overflow);
    assert_eq!(overflow.message, "operation produced a non-finite value");
    assert_eq!(add(MAX, MAX, Direction::Down), MAX);
}

#[test]
fn underflowing_product_rounds_to_the_side_of_its_sign() {
    let half = 0x3fe0_0000_0000_0000;
    let mul = |lhs: u64, direction: Direction| {
        <Dashu as DirectedBinary<Mul, Binary64>>::eval(b64(lhs), b64(half), direction).unwrap().value.bits
    };
    assert_eq!(mul(1, Direction::Down), 0);
    assert_eq!(mul(1, Direction::Up), 1);
    assert_eq!(mul(1, Direction::Nearest), 0);
    assert_eq!(mul(0x8000_0000_0000_0001, Direction::Down), 0x8000_0000_0000_0001);
    assert_eq!(mul(0x8000_0000_0000_0001, Direction::Up), 0x8000_0000_0000_0000);
}

#[test]
fn binary32_directed_sum() {
    let one = Binary32 { bits: 0x3f80_0000 };
    let tiny = Binary32 { bits: 0x3080_0000 }; // 2^-30
    let up = <Dashu as DirectedBinary<Add, Binary32>>::eval(one, tiny, Direction::Up).unwrap();
    let down = <Dashu as DirectedBinary<Add, Binary32>>::eval(one, tiny, Direction::Down).unwrap();
    assert_eq!(up.value.bits, 0x3f80_0001);
    assert_eq!(down.value.bits, 0x3f80_0000);
}

#[test]
fn conversion_of_one_third() {
    let third = rational(1, 3);
    let f64_down = <Dashu as Convert<Rational, Binary64>>::convert(&third, Direction::Down).unwrap();
    let f64_up = <Dashu as Convert<Rational, Binary64>>::convert(&third, Direction::Up).unwrap();
    assert_eq!(f64_down.value.bits, 0x3fd5_5555_5555_5555);
    assert_eq!(f64_up.value.bits, 0x3fd5_5555_5555_5556);
    let f32_nearest = <Dashu as Convert<Rational, Binary32>>::convert(&third, Direction::Nearest).unwrap();
    let f32_down = <Dashu as Convert<Rational, Binary32>>::convert(&third, Direction::Down).unwrap();
    assert_eq!(f32_nearest.value.bits, 0x3eaa_aaab);
    assert_eq!(f32_down.value.bits, 0x3eaa_aaaa);
}

#[test]
fn conversion_of_integers_past_the_precision() {
    let odd = Integer::from_i64((1i64 << 53) + 1);
    let nearest = <Dashu as Convert<Integer, Binary64>>::convert(&odd, Direction::Nearest).unwrap();
    let up = <Dashu as Convert<Integer, Binary64>>::convert(&odd, Direction::Up).unwrap();
    assert_eq!(nearest.value.bits, 0x4340_0000_0000_0000);
    assert_eq!(up.value.bits, 0x4340_0000_0000_0001);
    let top = Natural::from_u64(u64::MAX);
    let nearest = <Dashu as Convert<Natural, Binary64>>::convert(&top, Direction::Nearest).unwrap();
    let down = <Dashu as Convert<Natural, Binary64>>::convert(&top, Direction::Down).unwrap();
    assert_eq!(nearest.value.bits, 0x43f0_0000_0000_0000);
    assert_eq!(down.value.bits, 0x43ef_ffff_ffff_ffff);
    let small = Natural::from_u64(3);
    let three = <Dashu as Convert<Natural, Binary32>>::convert(&small, Direction::Up).unwrap();
    assert_eq!(three.value.bits, 0x4040_0000);
    let negative = Integer::from_i64(-2);
    let minus_two = <Dashu as Convert<Integer, Binary32>>::convert(&negative, Direction::Down).unwrap();
    assert_eq!(minus_two.value.bits, 0xc000_0000);
}

#[test]
fn conversion_saturates_instead_of_failing() {
    let huge = fbig_rat(Integer::from_i64(1), 2000);
    let up = <Dashu as Convert<Rational, Binary64>>::convert(&huge, Direction::Up).unwrap();
    let down = <Dashu as Convert<Rational, Binary64>>::convert(&huge, Direction::Down).unwrap();
    assert_eq!(up.value.bits, 0x7ff0_0000_0000_0000);
    assert_eq!(down.value.bits, MAX);
}

#[test]
fn exact_value_of_an_encoding() {
    let half = to_rat(Format::Binary64, 0x3fe0_0000_0000_0000).unwrap();
    assert_eq!(dashu_key(half), "1/2");
    let minus_three = to_rat(Format::Binary32, 0xc040_0000).unwrap();
    assert_eq!(dashu_key(minus_three), "-3/1");
    assert!(to_rat(Format::Binary64, 0x7ff8_0000_0000_0000).is_none());
    assert!(to_rat(Format::Binary64, 0xfff0_0000_0000_0000).is_none());
}

#[test]
fn rounding_a_zero_takes_the_given_sign() {
    let zero = Rational::zero();
    assert_eq!(round_rational(Format::Binary64, &zero, Direction::Up, true), 0x8000_0000_0000_0000);
    assert_eq!(round_rational(Format::Binary64, &zero, Direction::Down, false), 0);
    let tenth = rational(1, 10);
    assert_eq!(round_rational(Format::Binary64, &tenth, Direction::Nearest, false), 0x3fb9_9999_9999_999a);
    assert_eq!(round_rational(Format::Binary32, &tenth, Direction::Nearest, false), 0x3dcc_cccd);
}

#[test]
fn extreme_powers_saturate_or_fail_by_direction() {
    let down = extreme_power::<Binary64>(false, true, Direction::Down).unwrap();
    assert_eq!(down.value.bits, MAX);
    let up = extreme_power::<Binary64>(false, true, Direction::Up).unwrap_err();
    assert_eq!(up.kind, ErrorKind::Overflow);
    let negative_down = extreme_power::<Binary64>(true, true, Direction::Down).unwrap_err();
    assert_eq!(negative_down.kind, ErrorKind::Overflow);
    let negative_up = extreme_power::<Binary64>(true, true, Direction::Up).unwrap();
    assert_eq!(negative_up.value.bits, 0xffef_ffff_ffff_ffff);
    // 2^-(2^200) rounded up is the least subnormal.
    let tiny_up = extreme_power::<Binary64>(false, false, Direction::Up).unwrap();
    assert_eq!(tiny_up.value.bits, 1);
    let tiny_down = extreme_power::<Binary64>(true, false, Direction::Down).unwrap();
    assert_eq!(tiny_down.value.bits, 0x8000_0000_0000_0001);
    let tiny_nearest = extreme_power::<Binary32>(true, false, Direction::Nearest).unwrap();
    assert_eq!(tiny_nearest.value.bits, 0x8000_0000);
}

#[test]
fn adaptive_precision_doubles_until_stable() {
    assert_eq!(start_precision(5), 133);
    let start = adaptive_start::<Binary64>(0);
    assert_eq!(start, AdaptiveState { precision: 106, previous: None });
    assert_eq!(adaptive_start::<Binary64>(10_000).precision, 4096);
    assert_eq!(adaptive_start::<Binary32>(200).precision, 200);
    let third = rational(1, 3);
    let first = adaptive_step::<Binary64>(AdaptiveState { precision: 128, previous: None }, &third, Direction::Down, false);
    let next = match first {
        AdaptiveStep::Retry(next) => next,
        AdaptiveStep::Done(_) => panic!("a first step always retries below the cap"),
    };
    assert_eq!(next, AdaptiveState { precision: 256, previous: Some(0x3fd5_5555_5555_5555) });
    match adaptive_step::<Binary64>(next, &third, Direction::Down, false) {
        AdaptiveStep::Done(result) => assert_eq!(result.unwrap().value.bits, 0x3fd5_5555_5555_5555),
        AdaptiveStep::Retry(_) => panic!("a repeated encoding is stable"),
    }
    let huge = fbig_rat(Integer::from_i64(1), 2000);
    match adaptive_step::<Binary64>(AdaptiveState { precision: 4096, previous: None }, &huge, Direction::Up, false) {
        AdaptiveStep::Done(result) => assert_eq!(result.unwrap_err().kind, ErrorKind::Overflow),
        AdaptiveStep::Retry(_) => panic!("the cap ends the evaluation"),
    }
}

#[test]
fn scaled_rationals_of_float_parts() {
    assert_eq!(dashu_key(fbig_rat(Integer::from_i64(3), -1)), "3/2");
    assert_eq!(dashu_key(fbig_rat(Integer::from_i64(-5), 2)), "-20/1");
}

#[test]
fn zero_sign_rules_and_log2_directions() {
    let negative_zero = b64(0x8000_0000_0000_0000);
    assert!(zero_result_negative(Elementary::Sqrt, negative_zero));
    assert!(zero_result_negative(Elementary::ExpM1, negative_zero));
    assert!(!zero_result_negative(Elementary::Ln, negative_zero));
    assert_eq!(log2_direction(Direction::Nearest).unwrap_err().kind, ErrorKind::Unsupported);
    assert!(log2_direction(Direction::Down).is_ok());
    let bound = log2_from_bound::<Binary64>(&rational(1, 3), Direction::Up);
    assert_eq!(bound.value.bits, 0x3fd5_5555_5555_5556);
}

#[test]
fn representable_values_convert_back_exactly() {
    for bits in [0x3ff0_0000_0000_0000u64, 0x8000_0000_0000_0001, 0x7fef_ffff_ffff_ffff, 0xc00c_cccc_cccc_cccd] {
        let exact = to_rat(Format::Binary64, bits).unwrap();
        for direction in [Direction::Down, Direction::Nearest, Direction::Up] {
            let back = <Dashu as Convert<Rational, Binary64>>::convert(&exact, direction).unwrap();
            assert_eq!(back.value.bits, bits);
        }
    }
}

#[test]
fn conversion_and_rounding_agree() {
    let tenth = rational(1, 10);
    for direction in [Direction::Down, Direction::Nearest, Direction::Up] {
        let converted = <Dashu as Convert<Rational, Binary64>>::convert(&tenth, direction).unwrap();
        assert_eq!(converted.value.bits, round_rational(Format::Binary64, &tenth, direction, false));
    }
}

#[test]
fn directed_sum_and_product_commute() {
    let a = 0x3fb9_9999_9999_999a;
    let b = 0xc00c_cccc_cccc_cccd;
    for direction in [Direction::Down, Direction::Nearest, Direction::Up] {
        assert_eq!(add(a, b, direction), add(b, a, direction));
        let ab = <Dashu as DirectedBinary<Mul, Binary64>>::eval(b64(a), b64(b), direction).unwrap();
        let ba = <Dashu as DirectedBinary<Mul, Binary64>>::eval(b64(b), b64(a), direction).unwrap();
        assert_eq!(ab.value.bits, ba.value.bits);
    }
}

#[test]
fn nearest_overflow_tie_goes_to_infinity() {
    // 2^1024 - 2^970 is the greatest finite value plus half its last gap.
    let tie = fbig_rat(Integer::from_i64((1i64 << 54) - 1), 970);
    let nearest = <Dashu as Convert<Rational, Binary64>>::convert(&tie, Direction::Nearest).unwrap();
    assert_eq!(nearest.value.bits, 0x7ff0_0000_0000_0000);
    let minus_tie = fbig_rat(Integer::from_i64(-((1i64 << 54) - 1)), 970);
    let negative = <Dashu as Convert<Rational, Binary64>>::convert(&minus_tie, Direction::Nearest).unwrap();
    assert_eq!(negative.value.bits, 0xfff0_0000_0000_0000);
    // Just below the tie, nearest stays at the greatest finite value.
    let below = fbig_rat(Integer::from_i64((1i64 << 55) - 3), 969);
    let finite = <Dashu as Convert<Rational, Binary64>>::convert(&below, Direction::Nearest).unwrap();
    assert_eq!(finite.value.bits, MAX);
}

#[test]
fn rounding_keeps_the_order_of_its_inputs() {
    let as_f64 = |bits: u64| f64::from_bits(bits);
    let inputs = [
        rational(-7, 3),
        rational(-1, 3),
        rational(0, 1),
        rational(1, 10),
        rational(1, 3),
        rational(2, 3),
        rational(7, 3),
    ];
    for direction in [Direction::Down, Direction::Nearest, Direction::Up] {
        let rounded: Vec<f64> = inputs
            .iter()
            .map(|q| {
                as_f64(<Dashu as Convert<Rational, Binary64>>::convert(q, direction).unwrap().value.bits)
            })
            .collect();
        for pair in rounded.windows(2) {
            assert!(pair[0] <= pair[1]);
        }
    }
    for q in inputs.iter() {
        let down = as_f64(<Dashu as Convert<Rational, Binary64>>::convert(q, Direction::Down).unwrap().value.bits);
        let near = as_f64(<Dashu as Convert<Rational, Binary64>>::convert(q, Direction::Nearest).unwrap().value.bits);
        let up = as_f64(<Dashu as Convert<Rational, Binary64>>::convert(q, Direction::Up).unwrap().value.bits);
        assert!(down <= near && near <= up);
    }
}

#[test]
fn adaptive_evaluation_doubles_until_stable() {
    let calls = std::cell::RefCell::new(Vec::new());
    let third = |precision: usize, direction: Direction| {
        calls.borrow_mut().push((precision, direction));
        Ok(rational(1, 3))
    };
    let result = eval_adaptive::<Binary64, _>(Direction::Down, 128, false, third).unwrap();
    assert_eq!(result.value.bits, 0x3fd5_5555_5555_5555);
    assert_eq!(*calls.borrow(), vec![(128, Direction::Down), (256, Direction::Down)]);

    // A start below twice the precision is raised, and the cap ends the loop
    // even when the rounding never repeats.
    let count = std::cell::Cell::new(0u64);
    let moving = |precision: usize, _direction: Direction| {
        count.set(count.get() + 1);
        Ok(rational(1, precision as u64))
    };
    let _ = eval_adaptive::<Binary64, _>(Direction::Up, 1, false, moving);
    // 106, 212, 424, 848, 1696, 3392, 4096
    assert_eq!(count.get(), 7);

    let failing = |_precision: usize, _direction: Direction| -> opendp_num::error::Result<Rational> {
        Err(opendp_num::error::Error {
            kind: ErrorKind::Domain,
            message: "refused",
        })
    };
    let refused = eval_adaptive::<Binary64, _>(Direction::Nearest, 128, false, failing);
    assert!(matches!(refused, Err(e) if e.kind == ErrorKind::Domain));
}
