//! Boundary probes of dashu's binary floats, outside the provider adapter.
//!
//! The power-of-two probe raises `±2^e` to an integer power `k` at a few
//! precisions. The exact result is `(±1)^k · 2^(e·k)`, a single significant
//! bit, so every rounding mode must return it unchanged whenever `e·k` fits the
//! exponent range: a structural oracle that trusts no other float library.
//! The probe's parameters and its verdict are decided here; the powers
//! themselves are evaluated by the caller.
use vstd::prelude::*;

use crate::backend::dashu::{ibig_add, ibig_eq, ibig_shl, ibig_to_i128, ubig_bit};
use crate::decimal::{decimal, push_decimal};
use crate::number::Integer;
use crate::ratio::abs;

verus! {

/// The raw input of the boundary target.
#[derive(Clone, Debug)]
pub struct RawExtremeCase {
    pub operation: u8,
    pub precision_selector: u8,
    pub input_selector: u8,
    pub bits: u64,
    pub base_exponent_selector: u8,
    pub exponent_selector: u8,
    pub offset: i16,
    pub negative: bool,
}

/// The probed working precisions, in bits.
pub open spec fn precision_table(index: nat) -> nat {
    if index == 0 {
        1
    } else if index == 1 {
        2
    } else if index == 2 {
        3
    } else if index == 3 {
        8
    } else if index == 4 {
        24
    } else if index == 5 {
        53
    } else if index == 6 {
        128
    } else {
        256
    }
}

/// One of eight working precisions, from 1 to 256 bits.
pub fn precision(selector: u8) -> (res: usize)
    ensures
        res == precision_table((selector % 8) as nat),
{
    match selector % 8 {
        0 => 1,
        1 => 2,
        2 => 3,
        3 => 8,
        4 => 24,
        5 => 53,
        6 => 128,
        _ => 256,
    }
}

/// The offset, clamped to `[-4, 4]`.
pub open spec fn small_offset(offset: i16) -> int {
    if offset < -4 {
        -4
    } else if offset > 4 {
        4
    } else {
        offset as int
    }
}

fn clamp_offset(offset: i16) -> (res: i64)
    ensures
        res == small_offset(offset),
{
    if offset < -4 {
        -4
    } else if offset > 4 {
        4
    } else {
        offset as i64
    }
}

/// The exponents of the probed powers of two: the subnormal floors of both
/// binary formats, a few small ones and the top binade exponents.
pub open spec fn base_exponent_table(index: nat) -> int {
    if index == 0 {
        -1074
    } else if index == 1 {
        -149
    } else if index == 2 {
        -2
    } else if index == 3 {
        -1
    } else if index == 4 {
        0
    } else if index == 5 {
        1
    } else if index == 6 {
        2
    } else if index == 7 {
        127
    } else {
        1023
    }
}

/// A tabled base exponent moved by the clamped offset.
pub fn selected_base_exponent(selector: u8, offset: i16) -> (res: isize)
    ensures
        res == base_exponent_table((selector % 9) as nat) + small_offset(offset),
{
    let base: isize = match selector % 9 {
        0 => -1074,
        1 => -149,
        2 => -2,
        3 => -1,
        4 => 0,
        5 => 1,
        6 => 2,
        7 => 127,
        _ => 1023,
    };
    base + clamp_offset(offset) as isize
}

/// The bits read as a two's-complement `i64`.
pub open spec fn signed_bits(bits: u64) -> int {
    if bits < 0x8000_0000_0000_0000 {
        bits as int
    } else {
        bits - 0x1_0000_0000_0000_0000
    }
}

/// The power that `selected_power` picks: a small one, powers around the ends
/// of `i32`, `isize` and `2^200`, or the raw bits either way round.
pub open spec fn selected_power_spec(selector: u8, bits: u64, offset: i16) -> int {
    let delta = small_offset(offset);
    let choice = selector % 8;
    if choice == 0 {
        delta
    } else if choice == 1 {
        i32::MAX + delta
    } else if choice == 2 {
        10_000_000_000_000_000 + delta
    } else if choice == 3 {
        isize::MAX + delta
    } else if choice == 4 {
        isize::MIN + delta
    } else if choice == 5 {
        signed_bits(bits)
    } else if choice == 6 {
        -signed_bits(bits)
    } else {
        vstd::arithmetic::power2::pow2(200) + delta
    }
}

/// `value + delta`, on dashu's integers.
pub fn add_small(value: Integer, delta: i64) -> (res: Integer)
    ensures
        res@ == value@ + delta,
{
    ibig_add(&value, &Integer::from_i64(delta))
}

/// The raw bits as a two's-complement `i64`.
fn bits_as_i64(bits: u64) -> (res: i64)
    ensures
        res == signed_bits(bits),
{
    let wide: i128 = if bits < 0x8000_0000_0000_0000 {
        bits as i128
    } else {
        bits as i128 - 0x1_0000_0000_0000_0000
    };
    wide as i64
}

/// The integer power of a probe. Negating the raw bits as an `i64` overflows
/// for the bits of `i64::MIN`, so those are not an input of that choice.
pub fn selected_power(selector: u8, bits: u64, offset: i16) -> (res: Integer)
    requires
        selector % 8 == 6 ==> bits != 0x8000_0000_0000_0000,
    ensures
        res@ == selected_power_spec(selector, bits, offset),
{
    let delta = clamp_offset(offset);
    match selector % 8 {
        0 => Integer::from_i64(delta),
        1 => Integer::from_i64(0x7fff_ffff + delta),
        2 => Integer::from_i64(10_000_000_000_000_000 + delta),
        3 => add_small(Integer::from_i64(isize::MAX as i64), delta),
        4 => add_small(Integer::from_i64(isize::MIN as i64), delta),
        5 => Integer::from_i64(bits_as_i64(bits)),
        6 => Integer::from_i64(-bits_as_i64(bits)),
        _ => {
            let one = Integer::from_i64(1);
            add_small(ibig_shl(&one, 200), delta)
        },
    }
}

/// The report fields that describe a probe.
pub fn fields(operation: &str, case: &RawExtremeCase) -> (res: Vec<(&'static str, String)>)
    ensures
        res@.len() == 9,
        res@[0].0 == "contract" && res@[0].1@ == "backend_conformance"@,
        res@[1].0 == "provider" && res@[1].1@ == "dashu"@,
        res@[2].0 == "owner" && res@[2].1@ == "backend"@,
        res@[3].0 == "construction" && res@[3].1@ == "raw_FBig"@,
        res@[4].0 == "source_type" && res@[4].1@ == "FBig<_,2>"@,
        res@[5].0 == "operation" && res@[5].1@ == operation@,
        res@[6].0 == "source_precision" && res@[6].1@ == decimal(
            precision_table((case.precision_selector % 8) as nat),
        ),
        res@[7].0 == "oracle" && res@[7].1@ == "exact_boundary_invariants"@,
        res@[8].0 == "masked_by_adapter" && res@[8].1@ == "true"@,
{
    let mut source_precision = String::new();
    let bits = precision(case.precision_selector);
    push_decimal(&mut source_precision, bits as u32);
    assert(source_precision@ =~= decimal(bits as nat));
    let mut res: Vec<(&'static str, String)> = Vec::new();
    res.push(("contract", String::from_str("backend_conformance")));
    res.push(("provider", String::from_str("dashu")));
    res.push(("owner", String::from_str("backend")));
    res.push(("construction", String::from_str("raw_FBig")));
    res.push(("source_type", String::from_str("FBig<_,2>")));
    res.push(("operation", String::from_str(operation)));
    res.push(("source_precision", source_precision));
    res.push(("oracle", String::from_str("exact_boundary_invariants")));
    res.push(("masked_by_adapter", String::from_str("true")));
    res
}

// ---------------------------------------------------------------------------
// The power-of-two probe.
// ---------------------------------------------------------------------------

/// The exponent `e·k` of the exact power.
pub open spec fn expected_exponent(case: RawExtremeCase) -> int {
    (base_exponent_table((case.base_exponent_selector % 9) as nat) + small_offset(case.offset))
        * selected_power_spec(case.exponent_selector, case.bits, case.offset)
}

/// The probe runs where the power fits an `i128`, the exact exponent fits an
/// `isize`, and the exponent stays off the extremes whose range reduction is
/// known to fail (`isize::MAX`, `isize::MIN`, and `-isize::MAX` reached
/// through a reciprocal).
pub open spec fn probe_runs(case: RawExtremeCase) -> bool {
    let power = selected_power_spec(case.exponent_selector, case.bits, case.offset);
    let product = expected_exponent(case);
    &&& i128::MIN <= power <= i128::MAX
    &&& isize::MIN <= product <= isize::MAX
    &&& product != isize::MAX
    &&& product != isize::MIN
    &&& !(power < 0 && product == -isize::MAX)
}

/// The exact power is negative: a negative base to an odd power.
pub open spec fn negative_result(case: RawExtremeCase) -> bool {
    case.negative && abs(selected_power_spec(case.exponent_selector, case.bits, case.offset)) % 2
        == 1
}

/// A probe result that differs from the exact power.
#[derive(Clone, Copy, Debug)]
pub struct PowerProbeFailure {
    /// `"up"` or `"down"`.
    pub rounding: &'static str,
    pub expected_exponent: isize,
}

/// A result differs from `(-1)^negative · 2^expected`: it is infinite, its
/// significand is not that unit, or its exponent is not the expected one.
pub open spec fn repr_differs(result: (bool, int, int), negative: bool, expected: int) -> bool {
    result.0 || result.1 != (if negative {
        -1int
    } else {
        1int
    }) || result.2 != expected
}

/// The verdict on the two results: the first that differs from the exact
/// power, upward first.
pub open spec fn power_verdict(
    up: (bool, int, int),
    down: (bool, int, int),
    negative: bool,
    expected: int,
) -> Option<PowerProbeFailure> {
    if repr_differs(up, negative, expected) {
        Some(PowerProbeFailure { rounding: "up", expected_exponent: expected as isize })
    } else if repr_differs(down, negative, expected) {
        Some(PowerProbeFailure { rounding: "down", expected_exponent: expected as isize })
    } else {
        None
    }
}

/// The result differs from the unit power `(-1)^negative · 2^expected`.
fn differs(result: &(bool, Integer, isize), negative: bool, expected: isize) -> (res: bool)
    ensures
        res == repr_differs((result.0, result.1@, result.2 as int), negative, expected as int),
{
    let unit = Integer::from_sign_magnitude(negative, 1);
    result.0 || !ibig_eq(&result.1, &unit) || result.2 != expected
}

/// Hold the upward and the downward result of a probe against the exact power.
pub fn power_of_two_verdict(
    up: &(bool, Integer, isize),
    down: &(bool, Integer, isize),
    negative: bool,
    expected: isize,
) -> (res: Option<PowerProbeFailure>)
    ensures
        res == power_verdict(
            (up.0, up.1@, up.2 as int),
            (down.0, down.1@, down.2 as int),
            negative,
            expected as int,
        ),
        res is None <==> is_exact_power((up.0, up.1@, up.2 as int), negative, expected as int)
            && is_exact_power((down.0, down.1@, down.2 as int), negative, expected as int),
        res matches Some(failure) ==> failure.expected_exponent == expected && (failure.rounding
            == "up") == !is_exact_power((up.0, up.1@, up.2 as int), negative, expected as int),
{
    proof {
        power_verdict_accepts_only_the_exact_power(
            (up.0, up.1@, up.2 as int),
            (down.0, down.1@, down.2 as int),
            negative,
            expected as int,
        );
    }
    if differs(up, negative, expected) {
        Some(PowerProbeFailure { rounding: "up", expected_exponent: expected })
    } else if differs(down, negative, expected) {
        Some(PowerProbeFailure { rounding: "down", expected_exponent: expected })
    } else {
        None
    }
}

/// A result `(infinite, significand, exponent)` of a power is the exact
/// power `(-1)^negative · 2^expected`: finite, with significand `1` or `-1`,
/// and exponent `expected`.
pub open spec fn is_exact_power(result: (bool, int, int), negative: bool, expected: int) -> bool {
    &&& !result.0
    &&& (negative ==> result.1 == -1)
    &&& (!negative ==> result.1 == 1)
    &&& result.2 == expected
}

/// The verdict accepts the two results exactly when both are the exact power,
/// and a failure names the upward result exactly when that one is wrong.
pub proof fn power_verdict_accepts_only_the_exact_power(
    up: (bool, int, int),
    down: (bool, int, int),
    negative: bool,
    expected: int,
)
    ensures
        power_verdict(up, down, negative, expected) is None <==> is_exact_power(
            up,
            negative,
            expected,
        ) && is_exact_power(down, negative, expected),
        power_verdict(up, down, negative, expected) matches Some(failure) ==> failure.expected_exponent
            == expected as isize && (failure.rounding == "up") == !is_exact_power(
            up,
            negative,
            expected,
        ),
{
    reveal_strlit("up");
    reveal_strlit("down");
}

/// An integer is odd exactly when its magnitude is.
proof fn lemma_parity_of_magnitude(k: int)
    ensures
        (abs(k) % 2 == 1) == (k % 2 == 1),
{
    if k < 0 {
        let q = k / 2;
        let r = k % 2;
        vstd::arithmetic::div_mod::lemma_fundamental_div_mod(k, 2);
        if r == 0 {
            vstd::arithmetic::div_mod::lemma_fundamental_div_mod_converse(-k, 2, -q, 0);
        } else {
            vstd::arithmetic::div_mod::lemma_fundamental_div_mod_converse(-k, 2, -q - 1, 1);
        }
    }
}

/// The exact power that a probe expects: `(±2^e)^k` is `2^(e·k)`, negative
/// exactly when the base is negative and `k` is odd.
pub proof fn probe_expects_the_exact_power(case: RawExtremeCase, probe: PowerProbe)
    requires
        probe.base_exponent == base_exponent_table((case.base_exponent_selector % 9) as nat)
            + small_offset(case.offset),
        probe.negative_base == case.negative,
        probe.power@ == selected_power_spec(case.exponent_selector, case.bits, case.offset),
        probe.negative_result == negative_result(case),
        probe.expected_exponent == expected_exponent(case),
    ensures
        probe.expected_exponent == probe.base_exponent * probe.power@,
        probe.negative_result == (probe.negative_base && probe.power@ % 2 == 1),
{
    lemma_parity_of_magnitude(probe.power@);
}

/// The parameters of a power-of-two probe that runs.
#[derive(Clone, Debug)]
pub struct PowerProbe {
    /// Working precision, in bits.
    pub precision: usize,
    /// The base is `±2^base_exponent`.
    pub base_exponent: isize,
    /// The base is negative.
    pub negative_base: bool,
    /// The integer power.
    pub power: Integer,
    /// The exact power is negative.
    pub negative_result: bool,
    /// The binary exponent of the exact power.
    pub expected_exponent: isize,
}

/// The power-of-two probe of a case: `None` when it is skipped, else the
/// base, the power and the exact result that dashu must return in every
/// rounding mode. The caller evaluates the two powers, which dashu may fail
/// on near the exponent extremes, and holds them against the exact result
/// with `power_of_two_verdict`.
pub fn power_probe(case: &RawExtremeCase) -> (res: Option<PowerProbe>)
    requires
        case.exponent_selector % 8 == 6 ==> case.bits != 0x8000_0000_0000_0000,
    ensures
        !probe_runs(*case) ==> res is None,
        probe_runs(*case) ==> (res matches Some(probe) && probe.precision == precision_table(
            (case.precision_selector % 8) as nat,
        ) && probe.base_exponent == base_exponent_table((case.base_exponent_selector % 9) as nat)
            + small_offset(case.offset) && probe.negative_base == case.negative && probe.power@
            == selected_power_spec(case.exponent_selector, case.bits, case.offset)
            && probe.negative_result == negative_result(*case) && probe.expected_exponent
            == expected_exponent(*case)),
        res matches Some(probe) ==> probe.expected_exponent == probe.base_exponent * probe.power@
            && probe.negative_result == (probe.negative_base && probe.power@ % 2 == 1),
{
    let bits = precision(case.precision_selector);
    let base_exponent = selected_base_exponent(case.base_exponent_selector, case.offset);
    let power = selected_power(case.exponent_selector, case.bits, case.offset);
    let power_i128 = match ibig_to_i128(&power) {
        Some(value) => value,
        None => return None,
    };
    let product = match (base_exponent as i128).checked_mul(power_i128) {
        Some(value) => value,
        None => return None,
    };
    if product < isize::MIN as i128 || product > isize::MAX as i128 {
        return None;
    }
    let expected = product as isize;
    let reciprocal_boundary = power.is_negative() && expected == -isize::MAX;
    if expected == isize::MAX || expected == isize::MIN || reciprocal_boundary {
        return None;
    }
    let odd = ubig_bit(&power.unsigned_abs(), 0);
    let negative = case.negative && odd;
    proof {
        vstd::arithmetic::power2::lemma2_to64();
        assert(abs(power@) / 1 == abs(power@));
        lemma_parity_of_magnitude(power@);
    }
    Some(
        PowerProbe {
            precision: bits,
            base_exponent,
            negative_base: case.negative,
            power,
            negative_result: negative,
            expected_exponent: expected,
        },
    )
}

} // verus!
