//! IEEE 754 binary interchange formats, modelled by their bit patterns.
//!
//! A value of a format is held as its encoding in the low bits of a `u64`.
//! The mathematical model orders the finite encodings by a *rank*: the
//! encoding without its sign bit, negated for negative encodings. Both zeros
//! have rank 0, `next_up` adds one to the rank and `next_down` subtracts one.
//! The value of a rank is an integer multiple of the least positive subnormal,
//! and it grows strictly with the rank.
use vstd::arithmetic::div_mod::*;
use vstd::arithmetic::mul::*;
use vstd::arithmetic::power2::*;
use vstd::prelude::*;

use crate::ratio::{
    abs, lemma_rat_eq_trans, lemma_rat_ops_congr, lemma_rat_sub_monotone, lemma_rat_trans, lemma_rat_ops_wf, lemma_rat_order_congr, lemma_rat_sign_congr, rat_add,
    rat_div, rat_eq, rat_int, rat_le, rat_lt, rat_mul, rat_sub, rat_wf, Ratio,
};
use crate::error::{ErrorKind, Result};
use crate::rounding::{Direction, Rounded};

verus! {

/// The two binary formats of the library.
#[derive(Clone, Copy, Debug, PartialEq, Eq, Structural)]
pub enum Format {
    /// IEEE 754 binary32 (`f32`).
    Binary32,
    /// IEEE 754 binary64 (`f64`).
    Binary64,
}

impl Format {
    /// Number of stored significand bits.
    pub open spec fn fraction_bits(self) -> nat {
        match self {
            Format::Binary32 => 23,
            Format::Binary64 => 52,
        }
    }

    /// `2^fraction_bits`.
    pub open spec fn fraction_weight(self) -> nat {
        match self {
            Format::Binary32 => 0x80_0000,
            Format::Binary64 => 0x10_0000_0000_0000,
        }
    }

    /// Weight of the sign bit.
    pub open spec fn sign_weight(self) -> nat {
        match self {
            Format::Binary32 => 0x8000_0000,
            Format::Binary64 => 0x8000_0000_0000_0000,
        }
    }

    /// Encoding (and rank) of the greatest finite value.
    pub open spec fn max_rank(self) -> nat {
        match self {
            Format::Binary32 => 0x7f7f_ffff,
            Format::Binary64 => 0x7fef_ffff_ffff_ffff,
        }
    }

    /// The least positive subnormal is `2^-subnormal_exponent`.
    pub open spec fn subnormal_exponent(self) -> nat {
        match self {
            Format::Binary32 => 149,
            Format::Binary64 => 1074,
        }
    }

    /// Significand precision in bits, the hidden bit included.
    pub open spec fn precision_bits(self) -> nat {
        self.fraction_bits() + 1
    }

    /// `bits` is an encoding of this format.
    pub open spec fn valid(self, bits: u64) -> bool {
        bits < 2 * self.sign_weight()
    }

    /// Denominator shared by all finite values of the format.
    pub open spec fn scale(self) -> nat {
        pow2(self.subnormal_exponent())
    }
}

/// The encoding without its sign bit.
pub open spec fn magnitude_bits(fmt: Format, bits: u64) -> nat {
    (bits as nat) % fmt.sign_weight()
}

pub open spec fn sign_set(fmt: Format, bits: u64) -> bool {
    bits as nat >= fmt.sign_weight()
}

pub open spec fn finite(fmt: Format, bits: u64) -> bool {
    magnitude_bits(fmt, bits) <= fmt.max_rank()
}

pub open spec fn zero(fmt: Format, bits: u64) -> bool {
    magnitude_bits(fmt, bits) == 0
}

pub open spec fn nan(fmt: Format, bits: u64) -> bool {
    magnitude_bits(fmt, bits) > fmt.max_rank() + 1
}

/// Position of a finite encoding in the order of values.
pub open spec fn rank(fmt: Format, bits: u64) -> int {
    if sign_set(fmt, bits) {
        -magnitude_bits(fmt, bits)
    } else {
        magnitude_bits(fmt, bits) as int
    }
}

/// Value of a nonnegative rank, in units of the least positive subnormal.
pub open spec fn magnitude_value(fmt: Format, x: nat) -> nat {
    let e = x / fmt.fraction_weight();
    let m = x % fmt.fraction_weight();
    if e == 0 {
        m
    } else {
        (m + fmt.fraction_weight()) * pow2((e - 1) as nat)
    }
}

/// Value of a rank, in units of the least positive subnormal.
pub open spec fn rank_value(fmt: Format, k: int) -> int {
    if k >= 0 {
        magnitude_value(fmt, k as nat) as int
    } else {
        -magnitude_value(fmt, (-k) as nat)
    }
}

/// The exact value of a rank as a rational.
pub open spec fn rank_ratio(fmt: Format, k: int) -> Ratio {
    (rank_value(fmt, k), fmt.scale() as int)
}

/// The exact value of a finite encoding.
pub open spec fn value_of(fmt: Format, bits: u64) -> Ratio {
    rank_ratio(fmt, rank(fmt, bits))
}

/// The encoding of rank `k`; a zero rank takes its sign from `negative_zero`.
pub open spec fn rank_bits(fmt: Format, k: int, negative_zero: bool) -> u64 {
    if k > 0 {
        k as u64
    } else if k < 0 {
        (fmt.sign_weight() + (-k)) as u64
    } else if negative_zero {
        fmt.sign_weight() as u64
    } else {
        0
    }
}

/// Encoding of an infinity.
pub open spec fn infinity_bits(fmt: Format, negative: bool) -> u64 {
    if negative {
        (fmt.sign_weight() + fmt.max_rank() + 1) as u64
    } else {
        (fmt.max_rank() + 1) as u64
    }
}

pub proof fn lemma_format_facts(fmt: Format)
    ensures
        fmt.fraction_weight() == pow2(fmt.fraction_bits()),
        fmt.fraction_weight() > 1,
        fmt.sign_weight() > fmt.max_rank() + 1,
        fmt.max_rank() + 1 == (fmt.max_rank() + 1) / fmt.fraction_weight() * fmt.fraction_weight(),
        2 * fmt.sign_weight() <= 0x1_0000_0000_0000_0000,
        fmt.scale() > 0,
{
    lemma2_to64();
    lemma2_to64_rest();
    lemma_pow2_pos(fmt.subnormal_exponent());
}

/// One step up the ranks raises the value.
pub proof fn lemma_magnitude_step(fmt: Format, x: nat)
    ensures
        magnitude_value(fmt, x) < magnitude_value(fmt, x + 1),
{
    lemma_format_facts(fmt);
    let p = fmt.fraction_weight();
    let e = x / p;
    let m = x % p;
    lemma_fundamental_div_mod(x as int, p as int);
    lemma_mod_bound(x as int, p as int);
    if m + 1 < p {
        lemma_fundamental_div_mod_converse((x + 1) as int, p as int, e as int, (m + 1) as int);
        if e > 0 {
            lemma_pow2_pos((e - 1) as nat);
            lemma_mul_strict_inequality((m + p) as int, (m + 1 + p) as int, pow2((e - 1) as nat) as int);
            lemma_mul_is_commutative((m + p) as int, pow2((e - 1) as nat) as int);
            lemma_mul_is_commutative((m + 1 + p) as int, pow2((e - 1) as nat) as int);
        }
    } else {
        assert(x + 1 == (e + 1) * p) by {
            lemma_mul_is_distributive_add_other_way(p as int, e as int, 1);
        }
        lemma_fundamental_div_mod_converse((x + 1) as int, p as int, (e + 1) as int, 0);
        lemma_pow2_pos(e);
        if e == 0 {
            assert(pow2(0) == 1) by {
                lemma2_to64();
            }
        } else {
            lemma_pow2_unfold(e);
            assert(pow2(e) == 2 * pow2((e - 1) as nat));
            assert((m + p) * pow2((e - 1) as nat) < p * pow2(e)) by (nonlinear_arith)
                requires
                    m + 1 == p,
                    pow2(e) == 2 * pow2((e - 1) as nat),
                    pow2((e - 1) as nat) > 0,
            ;
        }
    }
}

/// The value of a rank grows strictly with the rank.
pub proof fn lemma_magnitude_monotone(fmt: Format, x: nat, y: nat)
    requires
        x < y,
    ensures
        magnitude_value(fmt, x) < magnitude_value(fmt, y),
    decreases y - x,
{
    lemma_magnitude_step(fmt, x);
    if x + 1 < y {
        lemma_magnitude_monotone(fmt, x + 1, y);
    }
}

pub proof fn lemma_magnitude_zero(fmt: Format)
    ensures
        magnitude_value(fmt, 0) == 0,
{
    lemma_format_facts(fmt);
}

/// Ranks and values are in the same order.
pub proof fn lemma_rank_value_monotone(fmt: Format, j: int, k: int)
    ensures
        j < k ==> rank_value(fmt, j) < rank_value(fmt, k),
        j == k ==> rank_value(fmt, j) == rank_value(fmt, k),
        rank_value(fmt, j) < rank_value(fmt, k) ==> j < k,
        rank_value(fmt, j) == rank_value(fmt, k) ==> j == k,
        (rank_value(fmt, j) == 0) == (j == 0),
        (rank_value(fmt, j) < 0) == (j < 0),
{
    lemma_magnitude_zero(fmt);
    if j != 0 {
        if j > 0 {
            lemma_magnitude_monotone(fmt, 0, j as nat);
        } else {
            lemma_magnitude_monotone(fmt, 0, (-j) as nat);
        }
    }
    if k != 0 {
        if k > 0 {
            lemma_magnitude_monotone(fmt, 0, k as nat);
        } else {
            lemma_magnitude_monotone(fmt, 0, (-k) as nat);
        }
    }
    if j < k {
        if j >= 0 {
            lemma_magnitude_monotone(fmt, j as nat, k as nat);
        } else if k <= 0 {
            lemma_magnitude_monotone(fmt, (-k) as nat, (-j) as nat);
        }
    } else if k < j {
        if k >= 0 {
            lemma_magnitude_monotone(fmt, k as nat, j as nat);
        } else if j <= 0 {
            lemma_magnitude_monotone(fmt, (-j) as nat, (-k) as nat);
        }
    }
}

/// Comparing the values of two ranks is comparing the ranks.
pub proof fn lemma_rank_ratio_order(fmt: Format, j: int, k: int)
    ensures
        rat_wf(rank_ratio(fmt, j)),
        rat_lt(rank_ratio(fmt, j), rank_ratio(fmt, k)) == (j < k),
        rat_le(rank_ratio(fmt, j), rank_ratio(fmt, k)) == (j <= k),
        rat_eq(rank_ratio(fmt, j), rank_ratio(fmt, k)) == (j == k),
{
    lemma_format_facts(fmt);
    lemma_rank_value_monotone(fmt, j, k);
    let s = fmt.scale() as int;
    let a = rank_value(fmt, j);
    let b = rank_value(fmt, k);
    assert((a * s < b * s) == (a < b)) by (nonlinear_arith)
        requires
            s > 0,
    ;
    assert((a * s <= b * s) == (a <= b)) by (nonlinear_arith)
        requires
            s > 0,
    ;
    assert((a * s == b * s) == (a == b)) by (nonlinear_arith)
        requires
            s > 0,
    ;
}

/// Facts about the rank of an encoding and the encoding of a rank.
pub proof fn lemma_rank_bits(fmt: Format, k: int, negative_zero: bool)
    requires
        -(fmt.max_rank() as int) <= k <= fmt.max_rank(),
    ensures
        fmt.valid(rank_bits(fmt, k, negative_zero)),
        finite(fmt, rank_bits(fmt, k, negative_zero)),
        rank(fmt, rank_bits(fmt, k, negative_zero)) == k,
        zero(fmt, rank_bits(fmt, k, negative_zero)) == (k == 0),
        k == 0 ==> sign_set(fmt, rank_bits(fmt, k, negative_zero)) == negative_zero,
{
    lemma_format_facts(fmt);
    let s = fmt.sign_weight();
    let b = rank_bits(fmt, k, negative_zero);
    if k > 0 {
        lemma_small_mod(k as nat, s);
    } else if k < 0 {
        lemma_mod_add_multiples_vanish((-k) as int, s as int);
        lemma_small_mod((-k) as nat, s);
    } else if negative_zero {
        lemma_mod_self_0(s as int);
    } else {
        lemma_small_mod(0, s);
    }
}

/// Two finite encodings of the same nonzero rank are the same encoding.
pub proof fn lemma_rank_determines_bits(fmt: Format, bits: u64)
    requires
        fmt.valid(bits),
        finite(fmt, bits),
    ensures
        -(fmt.max_rank() as int) <= rank(fmt, bits) <= fmt.max_rank(),
        bits == rank_bits(fmt, rank(fmt, bits), sign_set(fmt, bits)),
{
    lemma_format_facts(fmt);
    let s = fmt.sign_weight();
    if sign_set(fmt, bits) {
        lemma_fundamental_div_mod_converse(bits as int, s as int, 1, bits - s);
    } else {
        lemma_small_mod(bits as nat, s);
    }
}

// ---------------------------------------------------------------------------
// Directed rounding of an exact rational.
// ---------------------------------------------------------------------------

/// The greatest finite value.
pub open spec fn max_ratio(fmt: Format) -> Ratio {
    rank_ratio(fmt, fmt.max_rank() as int)
}

/// The least finite value.
pub open spec fn min_ratio(fmt: Format) -> Ratio {
    rank_ratio(fmt, -(fmt.max_rank() as int))
}

/// `fl` is the rank of the greatest finite value not above `q`.
pub open spec fn is_floor_rank(fmt: Format, q: Ratio, fl: int) -> bool {
    &&& -(fmt.max_rank() as int) <= fl <= fmt.max_rank()
    &&& rat_le(rank_ratio(fmt, fl), q)
    &&& (fl == fmt.max_rank() || rat_lt(q, rank_ratio(fmt, fl + 1)))
}

/// Round to nearest between the neighbours `fl` and `fl + 1` of `q`, ties to
/// the even encoding.
pub open spec fn nearest_rank(fmt: Format, q: Ratio, fl: int) -> int {
    let below = rat_sub(q, rank_ratio(fmt, fl));
    let above = rat_sub(rank_ratio(fmt, fl + 1), q);
    if rat_lt(below, above) {
        fl
    } else if rat_lt(above, below) {
        fl + 1
    } else if abs(fl) % 2 == 1 {
        fl + 1
    } else {
        fl
    }
}

/// The rank that rounding `q` selects, given the rank `fl` of its floor.
pub open spec fn directed_rank(fmt: Format, q: Ratio, fl: int, direction: Direction) -> int {
    if rat_eq(rank_ratio(fmt, fl), q) {
        fl
    } else {
        match direction {
            Direction::Down => fl,
            Direction::Up => fl + 1,
            Direction::Nearest => nearest_rank(fmt, q, fl),
        }
    }
}

/// Above the greatest finite value, nearest rounding reaches infinity once
/// `q` exceeds it by half the last gap or more: IEEE 754 rounds the exact
/// midpoint to the infinity, whose encoding is the even one.
pub open spec fn nearest_overflows_up(fmt: Format, q: Ratio) -> bool {
    let gap = rat_sub(max_ratio(fmt), rank_ratio(fmt, fmt.max_rank() - 1));
    rat_le(rat_div(gap, rat_int(2)), rat_sub(q, max_ratio(fmt)))
}

/// Below the least finite value, nearest rounding reaches negative infinity
/// once `q` is below it by half the first gap or more.
pub open spec fn nearest_overflows_down(fmt: Format, q: Ratio) -> bool {
    let gap = rat_sub(rank_ratio(fmt, -(fmt.max_rank() as int) + 1), min_ratio(fmt));
    rat_le(rat_div(gap, rat_int(2)), rat_sub(min_ratio(fmt), q))
}

/// `bits` is the rounding of the exact rational `q` in `direction`.
///
/// Zero keeps the sign `zero_negative`; a nonzero `q` that rounds to zero
/// keeps the sign of `q`. Beyond the finite range, rounding toward the
/// infinity saturates there and rounding away stops at the finite extreme.
pub open spec fn rounds_to(
    fmt: Format,
    q: Ratio,
    direction: Direction,
    zero_negative: bool,
    bits: u64,
) -> bool {
    let r = fmt.max_rank() as int;
    if q.0 == 0 {
        bits == rank_bits(fmt, 0, zero_negative)
    } else if rat_lt(max_ratio(fmt), q) {
        match direction {
            Direction::Down => bits == rank_bits(fmt, r, false),
            Direction::Up => bits == infinity_bits(fmt, false),
            Direction::Nearest => bits == (if nearest_overflows_up(fmt, q) {
                infinity_bits(fmt, false)
            } else {
                rank_bits(fmt, r, false)
            }),
        }
    } else if rat_lt(q, min_ratio(fmt)) {
        match direction {
            Direction::Up => bits == rank_bits(fmt, -r, false),
            Direction::Down => bits == infinity_bits(fmt, true),
            Direction::Nearest => bits == (if nearest_overflows_down(fmt, q) {
                infinity_bits(fmt, true)
            } else {
                rank_bits(fmt, -r, false)
            }),
        }
    } else {
        exists|fl: int|
            is_floor_rank(fmt, q, fl) && bits == rank_bits(
                fmt,
                directed_rank(fmt, q, fl, direction),
                q.0 < 0,
            )
    }
}

/// `significand * 2^exponent` as a rational.
pub open spec fn scaled_ratio(significand: int, exponent: int) -> Ratio {
    if exponent >= 0 {
        (significand * pow2(exponent as nat), 1)
    } else {
        (significand, pow2((-exponent) as nat) as int)
    }
}

/// `significand * 2^t / 2^e` written as a scaled significand.
pub proof fn lemma_scaled_ratio(significand: int, t: nat, e: nat)
    ensures
        rat_wf(scaled_ratio(significand, t - e)),
        rat_eq(scaled_ratio(significand, t - e), (significand * pow2(t), pow2(e) as int)),
{
    lemma_pow2_pos(e);
    if t >= e {
        let d = (t - e) as nat;
        lemma_pow2_adds(d, e);
        assert(significand * pow2(d) * pow2(e) == significand * pow2(t)) by {
            lemma_mul_is_associative(significand, pow2(d) as int, pow2(e) as int);
        }
    } else {
        let d = (e - t) as nat;
        lemma_pow2_pos(d);
        lemma_pow2_adds(t, d);
        assert(significand * (pow2(t) * pow2(d)) == significand * pow2(t) * pow2(d)) by {
            lemma_mul_is_associative(significand, pow2(t) as int, pow2(d) as int);
        }
    }
}

/// The value of a finite encoding from its sign, biased exponent and fraction.
pub proof fn lemma_value_of_fields(fmt: Format, bits: u64)
    requires
        fmt.valid(bits),
        finite(fmt, bits),
    ensures
        ({
            let mag = magnitude_bits(fmt, bits);
            let e = mag / fmt.fraction_weight();
            let m = mag % fmt.fraction_weight();
            let significand = if e == 0 {
                m
            } else {
                m + fmt.fraction_weight()
            };
            let signed = if sign_set(fmt, bits) {
                -significand
            } else {
                significand as int
            };
            let t: nat = if e == 0 {
                0
            } else {
                (e - 1) as nat
            };
            rat_eq(
                scaled_ratio(signed, t - fmt.subnormal_exponent()),
                value_of(fmt, bits),
            ) && rat_wf(scaled_ratio(signed, t - fmt.subnormal_exponent()))
        }),
{
    lemma_format_facts(fmt);
    let mag = magnitude_bits(fmt, bits);
    let e = mag / fmt.fraction_weight();
    let m = mag % fmt.fraction_weight();
    let significand = if e == 0 {
        m
    } else {
        m + fmt.fraction_weight()
    };
    let signed = if sign_set(fmt, bits) {
        -significand
    } else {
        significand as int
    };
    let t: nat = if e == 0 {
        0
    } else {
        (e - 1) as nat
    };
    lemma_scaled_ratio(signed, t, fmt.subnormal_exponent());
    assert(pow2(0) == 1) by {
        lemma2_to64();
    }
    assert(signed * pow2(t) == rank_value(fmt, rank(fmt, bits))) by {
        if sign_set(fmt, bits) {
            lemma_mul_unary_negation(significand as int, pow2(t) as int);
        }
    }
}

/// The lowest bit of an encoding is the parity of its rank.
pub proof fn lemma_rank_bits_parity(fmt: Format, k: int, negative_zero: bool)
    requires
        -(fmt.max_rank() as int) <= k <= fmt.max_rank(),
    ensures
        rank_bits(fmt, k, negative_zero) % 2 == abs(k) % 2,
{
    lemma_format_facts(fmt);
    if k < 0 {
        let s = fmt.sign_weight();
        assert(s % 2 == 0);
        lemma_mod_adds(s as int, (-k) as int, 2);
    }
}

/// Rounding depends on the number `q`, not on the pair that denotes it.
pub proof fn lemma_rounds_to_congr(
    fmt: Format,
    q1: Ratio,
    q2: Ratio,
    direction: Direction,
    zero_negative: bool,
    bits: u64,
)
    requires
        rat_wf(q1),
        rat_wf(q2),
        rat_eq(q1, q2),
    ensures
        rounds_to(fmt, q1, direction, zero_negative, bits) == rounds_to(
            fmt,
            q2,
            direction,
            zero_negative,
            bits,
        ),
{
    lemma_format_facts(fmt);
    let r = fmt.max_rank() as int;
    lemma_rat_sign_congr(q1, q2);
    lemma_rank_ratio_order(fmt, r, r);
    lemma_rank_ratio_order(fmt, -r, -r);
    lemma_rat_order_congr(max_ratio(fmt), max_ratio(fmt), q1, q2);
    lemma_rat_order_congr(q1, q2, min_ratio(fmt), min_ratio(fmt));
    // The half-gap comparisons beyond the finite range.
    lemma_rank_ratio_order(fmt, r - 1, r - 1);
    lemma_rank_ratio_order(fmt, -r + 1, -r + 1);
    let up_gap = rat_div(rat_sub(max_ratio(fmt), rank_ratio(fmt, r - 1)), rat_int(2));
    let down_gap = rat_div(rat_sub(rank_ratio(fmt, -r + 1), min_ratio(fmt)), rat_int(2));
    lemma_rat_ops_wf(max_ratio(fmt), rank_ratio(fmt, r - 1));
    lemma_rat_ops_wf(rat_sub(max_ratio(fmt), rank_ratio(fmt, r - 1)), rat_int(2));
    lemma_rat_ops_wf(rank_ratio(fmt, -r + 1), min_ratio(fmt));
    lemma_rat_ops_wf(rat_sub(rank_ratio(fmt, -r + 1), min_ratio(fmt)), rat_int(2));
    lemma_rat_ops_wf(q1, max_ratio(fmt));
    lemma_rat_ops_wf(q2, max_ratio(fmt));
    lemma_rat_ops_wf(min_ratio(fmt), q1);
    lemma_rat_ops_wf(min_ratio(fmt), q2);
    lemma_rat_ops_congr(q1, max_ratio(fmt), q2, max_ratio(fmt));
    lemma_rat_ops_congr(min_ratio(fmt), q1, min_ratio(fmt), q2);
    lemma_rat_order_congr(up_gap, up_gap, rat_sub(q1, max_ratio(fmt)), rat_sub(q2, max_ratio(fmt)));
    lemma_rat_order_congr(
        down_gap,
        down_gap,
        rat_sub(min_ratio(fmt), q1),
        rat_sub(min_ratio(fmt), q2),
    );
    assert forall|fl: int|
        (is_floor_rank(fmt, q1, fl) == is_floor_rank(fmt, q2, fl)) && directed_rank(
            fmt,
            q1,
            fl,
            direction,
        ) == directed_rank(fmt, q2, fl, direction) by {
        lemma_rank_ratio_order(fmt, fl, fl);
        lemma_rank_ratio_order(fmt, fl + 1, fl + 1);
        lemma_rat_order_congr(rank_ratio(fmt, fl), rank_ratio(fmt, fl), q1, q2);
        lemma_rat_order_congr(q1, q2, rank_ratio(fmt, fl + 1), rank_ratio(fmt, fl + 1));
        lemma_rat_ops_wf(q1, rank_ratio(fmt, fl));
        lemma_rat_ops_wf(q2, rank_ratio(fmt, fl));
        lemma_rat_ops_wf(rank_ratio(fmt, fl + 1), q1);
        lemma_rat_ops_wf(rank_ratio(fmt, fl + 1), q2);
        lemma_rat_ops_congr(q1, rank_ratio(fmt, fl), q2, rank_ratio(fmt, fl));
        lemma_rat_ops_congr(rank_ratio(fmt, fl + 1), q1, rank_ratio(fmt, fl + 1), q2);
        lemma_rat_order_congr(
            rat_sub(q1, rank_ratio(fmt, fl)),
            rat_sub(q2, rank_ratio(fmt, fl)),
            rat_sub(rank_ratio(fmt, fl + 1), q1),
            rat_sub(rank_ratio(fmt, fl + 1), q2),
        );
        lemma_rat_order_congr(
            rat_sub(rank_ratio(fmt, fl + 1), q1),
            rat_sub(rank_ratio(fmt, fl + 1), q2),
            rat_sub(q1, rank_ratio(fmt, fl)),
            rat_sub(q2, rank_ratio(fmt, fl)),
        );
    }
    if !(q1.0 == 0) && !rat_lt(max_ratio(fmt), q1) && !rat_lt(q1, min_ratio(fmt)) {
        if rounds_to(fmt, q1, direction, zero_negative, bits) {
            let fl = choose|fl: int|
                is_floor_rank(fmt, q1, fl) && bits == rank_bits(
                    fmt,
                    directed_rank(fmt, q1, fl, direction),
                    q1.0 < 0,
                );
            assert(is_floor_rank(fmt, q2, fl));
        }
        if rounds_to(fmt, q2, direction, zero_negative, bits) {
            let fl = choose|fl: int|
                is_floor_rank(fmt, q2, fl) && bits == rank_bits(
                    fmt,
                    directed_rank(fmt, q2, fl, direction),
                    q2.0 < 0,
                );
            assert(is_floor_rank(fmt, q1, fl));
        }
    }
}

/// The floor rank of a number is unique.
pub proof fn lemma_floor_rank_unique(fmt: Format, q: Ratio, f1: int, f2: int)
    requires
        rat_wf(q),
        is_floor_rank(fmt, q, f1),
        is_floor_rank(fmt, q, f2),
    ensures
        f1 == f2,
{
    if f1 < f2 {
        lemma_rank_ratio_order(fmt, f1 + 1, f2);
        lemma_rank_ratio_order(fmt, f2, f2);
        lemma_rat_trans(q, rank_ratio(fmt, f1 + 1), rank_ratio(fmt, f2));
        lemma_rat_trans(rank_ratio(fmt, f2), q, rank_ratio(fmt, f2));
    } else if f2 < f1 {
        lemma_rank_ratio_order(fmt, f2 + 1, f1);
        lemma_rank_ratio_order(fmt, f1, f1);
        lemma_rat_trans(q, rank_ratio(fmt, f2 + 1), rank_ratio(fmt, f1));
        lemma_rat_trans(rank_ratio(fmt, f1), q, rank_ratio(fmt, f1));
    }
}

/// Rounding a number in a direction has exactly one result.
pub proof fn rounding_is_unique(
    fmt: Format,
    q: Ratio,
    direction: Direction,
    zero_negative: bool,
    b1: u64,
    b2: u64,
)
    requires
        rat_wf(q),
        rounds_to(fmt, q, direction, zero_negative, b1),
        rounds_to(fmt, q, direction, zero_negative, b2),
    ensures
        b1 == b2,
{
    if !(q.0 == 0) && !rat_lt(max_ratio(fmt), q) && !rat_lt(q, min_ratio(fmt)) {
        let f1 = choose|fl: int|
            is_floor_rank(fmt, q, fl) && b1 == rank_bits(
                fmt,
                directed_rank(fmt, q, fl, direction),
                q.0 < 0,
            );
        let f2 = choose|fl: int|
            is_floor_rank(fmt, q, fl) && b2 == rank_bits(
                fmt,
                directed_rank(fmt, q, fl, direction),
                q.0 < 0,
            );
        lemma_floor_rank_unique(fmt, q, f1, f2);
    }
}

/// A number equal to the value of rank zero is zero.
proof fn lemma_zero_ratio(fmt: Format, q: Ratio)
    requires
        rat_wf(q),
    ensures
        (q.0 == 0) == rat_eq(q, rank_ratio(fmt, 0)),
        (q.0 < 0) == rat_lt(q, rank_ratio(fmt, 0)),
{
    lemma_format_facts(fmt);
    lemma_magnitude_zero(fmt);
    let s = fmt.scale() as int;
    assert((q.0 * s == 0) == (q.0 == 0)) by (nonlinear_arith)
        requires
            s > 0,
    ;
    assert((q.0 * s < 0) == (q.0 < 0)) by (nonlinear_arith)
        requires
            s > 0,
    ;
    assert(rank_value(fmt, 0) == 0);
    assert(rank_ratio(fmt, 0) == (0int, s));
    assert(0 * q.1 == 0);
}

/// Directed rounding encloses the number: the downward result is the
/// greatest finite value not above it and the upward result the least finite
/// value not below it; an infinite result means no finite value lies on that
/// side.
pub proof fn directed_rounding_encloses(
    fmt: Format,
    q: Ratio,
    down_zero_negative: bool,
    up_zero_negative: bool,
    down: u64,
    up: u64,
    other: u64,
)
    requires
        rat_wf(q),
        rounds_to(fmt, q, Direction::Down, down_zero_negative, down),
        rounds_to(fmt, q, Direction::Up, up_zero_negative, up),
        fmt.valid(other),
        finite(fmt, other),
    ensures
        finite(fmt, down) ==> rat_le(value_of(fmt, down), q),
        finite(fmt, up) ==> rat_le(q, value_of(fmt, up)),
        !finite(fmt, down) ==> down == infinity_bits(fmt, true) && rat_lt(q, value_of(fmt, other)),
        !finite(fmt, up) ==> up == infinity_bits(fmt, false) && rat_lt(value_of(fmt, other), q),
        finite(fmt, down) && rat_le(value_of(fmt, other), q) ==> rat_le(
            value_of(fmt, other),
            value_of(fmt, down),
        ),
        finite(fmt, up) && rat_le(q, value_of(fmt, other)) ==> rat_le(
            value_of(fmt, up),
            value_of(fmt, other),
        ),
{
    lemma_format_facts(fmt);
    let r = fmt.max_rank() as int;
    let k = rank(fmt, other);
    lemma_rank_determines_bits(fmt, other);
    lemma_rank_ratio_order(fmt, k, k);
    lemma_rank_ratio_order(fmt, k, r);
    lemma_rank_ratio_order(fmt, -r, k);
    lemma_zero_ratio(fmt, q);
    if q.0 == 0 {
        lemma_rank_bits(fmt, 0, down_zero_negative);
        lemma_rank_bits(fmt, 0, up_zero_negative);
        lemma_rank_ratio_order(fmt, 0, k);
        lemma_rank_ratio_order(fmt, k, 0);
        lemma_rat_order_congr(q, rank_ratio(fmt, 0), value_of(fmt, other), value_of(fmt, other));
        lemma_rat_order_congr(rank_ratio(fmt, 0), rank_ratio(fmt, 0), q, rank_ratio(fmt, 0));
    } else if rat_lt(max_ratio(fmt), q) {
        lemma_rank_bits(fmt, r, false);
        lemma_rank_ratio_order(fmt, r, r);
        lemma_rat_trans(value_of(fmt, other), max_ratio(fmt), q);
        lemma_rat_trans(max_ratio(fmt), q, max_ratio(fmt));
    } else if rat_lt(q, min_ratio(fmt)) {
        lemma_rank_bits(fmt, -r, false);
        lemma_rank_ratio_order(fmt, -r, -r);
        lemma_rat_trans(q, min_ratio(fmt), value_of(fmt, other));
        lemma_rat_trans(min_ratio(fmt), q, min_ratio(fmt));
    } else {
        let f1 = choose|fl: int|
            is_floor_rank(fmt, q, fl) && down == rank_bits(
                fmt,
                directed_rank(fmt, q, fl, Direction::Down),
                q.0 < 0,
            );
        let f2 = choose|fl: int|
            is_floor_rank(fmt, q, fl) && up == rank_bits(
                fmt,
                directed_rank(fmt, q, fl, Direction::Up),
                q.0 < 0,
            );
        lemma_floor_rank_unique(fmt, q, f1, f2);
        let fl = f1;
        lemma_rank_ratio_order(fmt, fl, fl);
        lemma_rank_bits(fmt, fl, q.0 < 0);
        lemma_rank_ratio_order(fmt, fl, k);
        lemma_rank_ratio_order(fmt, k, fl);
        if rat_eq(rank_ratio(fmt, fl), q) {
            lemma_rat_order_congr(rank_ratio(fmt, fl), q, value_of(fmt, other), value_of(fmt, other));
        } else {
            assert(fl < r) by {
                if fl == r {
                    lemma_rat_trans(rank_ratio(fmt, fl), q, max_ratio(fmt));
                }
            }
            lemma_rank_bits(fmt, fl + 1, q.0 < 0);
            lemma_rank_ratio_order(fmt, fl + 1, k);
            lemma_rank_ratio_order(fmt, k, fl + 1);
            lemma_rank_ratio_order(fmt, fl + 1, fl + 1);
            lemma_rat_trans(rank_ratio(fmt, fl + 1), q, rank_ratio(fmt, fl + 1));
            lemma_rat_trans(value_of(fmt, other), q, rank_ratio(fmt, fl + 1));
            lemma_rat_trans(rank_ratio(fmt, fl), q, value_of(fmt, other));
            lemma_rat_trans(rank_ratio(fmt, fl), q, rank_ratio(fmt, fl));
        }
    }
}

/// Rounding keeps the sign of a nonzero number: a value that underflows
/// toward zero becomes a zero of its own sign and never crosses to the other
/// side, in every direction.
pub proof fn rounding_keeps_the_sign(
    fmt: Format,
    q: Ratio,
    direction: Direction,
    zero_negative: bool,
    bits: u64,
)
    requires
        rat_wf(q),
        q.0 != 0,
        rounds_to(fmt, q, direction, zero_negative, bits),
    ensures
        sign_set(fmt, bits) == (q.0 < 0),
{
    lemma_format_facts(fmt);
    let r = fmt.max_rank() as int;
    let zero_value = rank_ratio(fmt, 0);
    lemma_zero_ratio(fmt, q);
    lemma_rank_ratio_order(fmt, 0, 0);
    lemma_rank_ratio_order(fmt, r, 0);
    lemma_rank_ratio_order(fmt, 0, r);
    lemma_rank_ratio_order(fmt, -r, 0);
    lemma_rank_ratio_order(fmt, 0, -r);
    lemma_rank_ratio_order(fmt, r, r);
    lemma_rank_ratio_order(fmt, -r, -r);
    lemma_rat_trans(q, zero_value, q);
    if rat_lt(max_ratio(fmt), q) {
        lemma_rank_bits(fmt, r, false);
        lemma_rat_trans(zero_value, max_ratio(fmt), q);
    } else if rat_lt(q, min_ratio(fmt)) {
        lemma_rank_bits(fmt, -r, false);
        lemma_rat_trans(q, min_ratio(fmt), zero_value);
    } else {
        let fl = choose|fl: int|
            is_floor_rank(fmt, q, fl) && bits == rank_bits(
                fmt,
                directed_rank(fmt, q, fl, direction),
                q.0 < 0,
            );
        let d = directed_rank(fmt, q, fl, direction);
        lemma_rank_ratio_order(fmt, fl, fl);
        lemma_rank_ratio_order(fmt, fl, 0);
        lemma_rank_ratio_order(fmt, fl + 1, 0);
        lemma_rank_ratio_order(fmt, fl + 1, fl + 1);
        lemma_rat_trans(rank_ratio(fmt, fl), q, zero_value);
        lemma_rat_trans(zero_value, q, rank_ratio(fmt, fl + 1));
        if fl == r {
            lemma_rat_trans(rank_ratio(fmt, fl), q, max_ratio(fmt));
        }
        assert(d == fl || d == fl + 1);
        assert(d == fl + 1 ==> fl < r);
        if q.0 > 0 {
            assert(fl >= 0);
        } else {
            assert(fl < 0);
        }
        lemma_rank_bits(fmt, d, q.0 < 0);
    }
}

/// The distance between two numbers, `|x - y|`.
pub open spec fn rat_distance(x: Ratio, y: Ratio) -> Ratio {
    if rat_le(y, x) {
        rat_sub(x, y)
    } else {
        rat_sub(y, x)
    }
}

/// Between the neighbours of `q`, nearest rounding picks a rank no farther
/// from `q` than any finite rank, and an even one when another rank is as
/// close.
proof fn lemma_nearest_rank_is_nearest(fmt: Format, q: Ratio, fl: int, j: int)
    requires
        rat_wf(q),
        is_floor_rank(fmt, q, fl),
        rat_le(q, max_ratio(fmt)),
        -(fmt.max_rank() as int) <= j <= fmt.max_rank(),
    ensures
        ({
            let k = directed_rank(fmt, q, fl, Direction::Nearest);
            &&& rat_le(
                rat_distance(q, rank_ratio(fmt, k)),
                rat_distance(q, rank_ratio(fmt, j)),
            )
            &&& rat_eq(rat_distance(q, rank_ratio(fmt, k)), rat_distance(q, rank_ratio(fmt, j)))
                && j != k ==> abs(k) % 2 == 0
        }),
{
    lemma_format_facts(fmt);
    let r = fmt.max_rank() as int;
    let k = directed_rank(fmt, q, fl, Direction::Nearest);
    let v = rank_ratio(fmt, fl);
    let w = rank_ratio(fmt, fl + 1);
    let c = rank_ratio(fmt, j);
    lemma_rank_ratio_order(fmt, fl, j);
    lemma_rank_ratio_order(fmt, j, fl);
    lemma_rank_ratio_order(fmt, fl + 1, j);
    lemma_rank_ratio_order(fmt, j, fl + 1);
    lemma_rank_ratio_order(fmt, r, r);
    lemma_rat_sub_monotone(c, v, q);
    lemma_rat_sub_monotone(w, c, q);
    lemma_rat_ops_wf(q, v);
    lemma_rat_ops_wf(w, q);
    lemma_rat_ops_wf(q, c);
    lemma_rat_ops_wf(c, q);
    let below = rat_sub(q, v);
    let above = rat_sub(w, q);
    if fl == r {
        lemma_rat_trans(v, q, max_ratio(fmt));
    }
    if rat_eq(v, q) || fl == r {
        // q is the value of its floor: the distance there is zero.
        assert(k == fl);
        assert(below.0 == 0);
        if j <= fl {
            lemma_rat_trans(c, v, q);
            assert(rat_distance(q, c) == rat_sub(q, c));
            if j < fl {
                assert(rat_lt(below, rat_sub(q, c)));
            }
        } else {
            lemma_rat_trans(q, w, c);
            assert(rat_distance(q, c) == rat_sub(c, q));
            assert(rat_distance(q, c).0 > 0);
            assert(rat_lt(below, rat_distance(q, c))) by (nonlinear_arith)
                requires
                    below.0 == 0,
                    below.1 > 0,
                    rat_distance(q, c).0 > 0,
                    rat_distance(q, c).1 > 0,
            ;
        }
    } else {
        assert(rat_lt(q, w));
        assert(rat_distance(q, v) == below);
        assert(!rat_le(w, q));
        assert(rat_distance(q, w) == above);
        if j <= fl {
            lemma_rat_trans(c, v, q);
            assert(rat_distance(q, c) == rat_sub(q, c));
            if j < fl {
                assert(rat_lt(below, rat_sub(q, c)));
            }
        } else {
            lemma_rat_trans(q, w, c);
            assert(!rat_le(c, q));
            assert(rat_distance(q, c) == rat_sub(c, q));
            if j > fl + 1 {
                assert(rat_lt(above, rat_sub(c, q)));
            }
        }
        let d = rat_distance(q, c);
        lemma_rat_trans(below, above, d);
        lemma_rat_trans(above, below, d);
        lemma_rat_trans(below, d, above);
        lemma_rat_trans(above, d, below);
        lemma_rat_trans(d, below, above);
        lemma_rat_trans(d, above, below);
    }
}

/// Rounding to nearest within the finite range is nearest: no finite value
/// lies closer to `q` than the result's, and where another finite value lies
/// as close, the result's encoding is the even one.
pub proof fn nearest_rounding_is_nearest(
    fmt: Format,
    q: Ratio,
    zero_negative: bool,
    bits: u64,
    other: u64,
)
    requires
        rat_wf(q),
        rat_le(min_ratio(fmt), q),
        rat_le(q, max_ratio(fmt)),
        rounds_to(fmt, q, Direction::Nearest, zero_negative, bits),
        finite(fmt, other),
    ensures
        finite(fmt, bits),
        rat_le(
            rat_distance(q, value_of(fmt, bits)),
            rat_distance(q, value_of(fmt, other)),
        ),
        rat_eq(rat_distance(q, value_of(fmt, bits)), rat_distance(q, value_of(fmt, other)))
            && !rat_eq(value_of(fmt, bits), value_of(fmt, other)) ==> bits % 2 == 0,
{
    lemma_format_facts(fmt);
    let r = fmt.max_rank() as int;
    let j = rank(fmt, other);
    lemma_rank_ratio_order(fmt, r, r);
    lemma_rank_ratio_order(fmt, -r, -r);
    lemma_rat_trans(q, max_ratio(fmt), q);
    lemma_rat_trans(min_ratio(fmt), q, min_ratio(fmt));
    assert(!rat_lt(max_ratio(fmt), q));
    assert(!rat_lt(q, min_ratio(fmt)));
    let fl = if q.0 == 0 {
        0
    } else {
        choose|fl: int|
            is_floor_rank(fmt, q, fl) && bits == rank_bits(
                fmt,
                directed_rank(fmt, q, fl, Direction::Nearest),
                q.0 < 0,
            )
    };
    if q.0 == 0 {
        lemma_zero_ratio(fmt, q);
        lemma_rank_ratio_order(fmt, 0, 0);
        lemma_rank_ratio_order(fmt, 0, 1);
        lemma_rat_trans(rank_ratio(fmt, 0), q, rank_ratio(fmt, 0));
        lemma_rat_trans(q, rank_ratio(fmt, 0), rank_ratio(fmt, 1));
        assert(is_floor_rank(fmt, q, 0));
        assert(directed_rank(fmt, q, 0, Direction::Nearest) == 0);
    }
    let k = directed_rank(fmt, q, fl, Direction::Nearest);
    lemma_rank_ratio_order(fmt, fl, fl);
    if fl == r {
        lemma_rat_trans(rank_ratio(fmt, fl), q, max_ratio(fmt));
    }
    assert(-r <= k <= r);
    let nz = if q.0 == 0 {
        zero_negative
    } else {
        q.0 < 0
    };
    assert(bits == rank_bits(fmt, k, nz));
    lemma_rank_bits(fmt, k, nz);
    lemma_rank_bits_parity(fmt, k, nz);
    lemma_rank_ratio_order(fmt, k, j);
    lemma_nearest_rank_is_nearest(fmt, q, fl, j);
}

/// Nearest rounding lies between the two directed roundings: when the three
/// results are finite, the downward one is not above the nearest and the
/// nearest is not above the upward one.
pub proof fn nearest_lies_between_directed(
    fmt: Format,
    q: Ratio,
    zero_negative: (bool, bool, bool),
    down: u64,
    nearest: u64,
    up: u64,
)
    requires
        rat_wf(q),
        rounds_to(fmt, q, Direction::Down, zero_negative.0, down),
        rounds_to(fmt, q, Direction::Nearest, zero_negative.1, nearest),
        rounds_to(fmt, q, Direction::Up, zero_negative.2, up),
        finite(fmt, down),
        finite(fmt, nearest),
        finite(fmt, up),
    ensures
        rat_le(value_of(fmt, down), value_of(fmt, nearest)),
        rat_le(value_of(fmt, nearest), value_of(fmt, up)),
{
    lemma_format_facts(fmt);
    let r = fmt.max_rank() as int;
    lemma_rank_ratio_order(fmt, r, r);
    lemma_rank_ratio_order(fmt, -r, -r);
    if q.0 == 0 {
        lemma_rank_bits(fmt, 0, zero_negative.0);
        lemma_rank_bits(fmt, 0, zero_negative.1);
        lemma_rank_bits(fmt, 0, zero_negative.2);
        lemma_rank_ratio_order(fmt, 0, 0);
    } else if rat_lt(max_ratio(fmt), q) {
        assert(!finite(fmt, infinity_bits(fmt, false)));
    } else if rat_lt(q, min_ratio(fmt)) {
        assert(!finite(fmt, infinity_bits(fmt, true)));
    } else {
        let f1 = choose|fl: int|
            is_floor_rank(fmt, q, fl) && down == rank_bits(
                fmt,
                directed_rank(fmt, q, fl, Direction::Down),
                q.0 < 0,
            );
        let f2 = choose|fl: int|
            is_floor_rank(fmt, q, fl) && nearest == rank_bits(
                fmt,
                directed_rank(fmt, q, fl, Direction::Nearest),
                q.0 < 0,
            );
        let f3 = choose|fl: int|
            is_floor_rank(fmt, q, fl) && up == rank_bits(
                fmt,
                directed_rank(fmt, q, fl, Direction::Up),
                q.0 < 0,
            );
        lemma_floor_rank_unique(fmt, q, f1, f2);
        lemma_floor_rank_unique(fmt, q, f1, f3);
        let fl = f1;
        let a = directed_rank(fmt, q, fl, Direction::Down);
        let b = directed_rank(fmt, q, fl, Direction::Nearest);
        let c = directed_rank(fmt, q, fl, Direction::Up);
        lemma_rank_ratio_order(fmt, fl, fl);
        if fl == r {
            lemma_rat_trans(rank_ratio(fmt, fl), q, max_ratio(fmt));
        }
        assert(a <= b <= c);
        assert(c <= r);
        lemma_rank_bits(fmt, a, q.0 < 0);
        lemma_rank_bits(fmt, b, q.0 < 0);
        lemma_rank_bits(fmt, c, q.0 < 0);
        lemma_rank_ratio_order(fmt, a, b);
        lemma_rank_ratio_order(fmt, b, c);
    }
}

/// The position of a non-NaN encoding on the extended line: the rank of a
/// finite one, one past the greatest finite rank for `+inf` and one before the
/// least for `-inf`.
pub open spec fn extended_rank(fmt: Format, bits: u64) -> int {
    if finite(fmt, bits) {
        rank(fmt, bits)
    } else if sign_set(fmt, bits) {
        -(fmt.max_rank() + 1)
    } else {
        fmt.max_rank() + 1int
    }
}

/// Floors and directed ranks grow with the number they round.
proof fn lemma_directed_rank_monotone(
    fmt: Format,
    q1: Ratio,
    q2: Ratio,
    fl1: int,
    fl2: int,
    direction: Direction,
)
    requires
        rat_wf(q1),
        rat_wf(q2),
        rat_le(q1, q2),
        rat_le(q2, max_ratio(fmt)),
        is_floor_rank(fmt, q1, fl1),
        is_floor_rank(fmt, q2, fl2),
    ensures
        fl1 <= fl2,
        directed_rank(fmt, q1, fl1, direction) <= directed_rank(fmt, q2, fl2, direction),
        -(fmt.max_rank() as int) <= directed_rank(fmt, q1, fl1, direction),
        directed_rank(fmt, q2, fl2, direction) <= fmt.max_rank(),
{
    lemma_format_facts(fmt);
    let r = fmt.max_rank() as int;
    lemma_rank_ratio_order(fmt, fl1, fl1);
    lemma_rank_ratio_order(fmt, fl2, fl2);
    lemma_rank_ratio_order(fmt, r, r);
    lemma_rank_ratio_order(fmt, fl1 + 1, fl1 + 1);
    lemma_rank_ratio_order(fmt, fl2 + 1, fl2 + 1);
    if fl2 < fl1 {
        lemma_rank_ratio_order(fmt, fl2 + 1, fl1);
        lemma_rat_trans(rank_ratio(fmt, fl2 + 1), rank_ratio(fmt, fl1), q1);
        lemma_rat_trans(rank_ratio(fmt, fl2 + 1), q1, q2);
        lemma_rat_trans(q2, rank_ratio(fmt, fl2 + 1), q2);
    }
    if fl2 == r {
        lemma_rat_trans(rank_ratio(fmt, fl2), q2, max_ratio(fmt));
    }
    if fl1 == r {
        lemma_rat_trans(q1, q2, max_ratio(fmt));
        lemma_rat_trans(rank_ratio(fmt, fl1), q1, max_ratio(fmt));
    }
    let v = rank_ratio(fmt, fl1);
    let w = rank_ratio(fmt, fl1 + 1);
    if fl1 == fl2 && !rat_eq(v, q1) {
        // q1 lies strictly above the floor, and so does q2.
        lemma_rat_trans(v, q1, q2);
        if rat_eq(v, q2) {
            lemma_rat_trans(q2, v, q1);
            lemma_rat_trans(v, q1, v);
        }
        if direction == Direction::Nearest {
            lemma_rat_sub_monotone(q1, q2, v);
            lemma_rat_sub_monotone(q1, q2, w);
            lemma_rat_ops_wf(q2, v);
            lemma_rat_ops_wf(w, q2);
            let below1 = rat_sub(q1, v);
            let below2 = rat_sub(q2, v);
            let above1 = rat_sub(w, q1);
            let above2 = rat_sub(w, q2);
            lemma_rat_trans(above2, above1, below1);
            lemma_rat_trans(above2, below1, below2);
            lemma_rat_trans(above1, below1, below2);
            lemma_rat_trans(above2, above1, below2);
            lemma_rat_trans(below1, above1, below1);
            lemma_rat_trans(below2, above2, below2);
        }
    }
}

/// Beyond the finite range, nearest rounding overflows for every number
/// farther out than one that overflows.
proof fn lemma_nearest_overflow_monotone(fmt: Format, q1: Ratio, q2: Ratio)
    requires
        rat_wf(q1),
        rat_wf(q2),
        rat_le(q1, q2),
    ensures
        nearest_overflows_up(fmt, q1) ==> nearest_overflows_up(fmt, q2),
        nearest_overflows_down(fmt, q2) ==> nearest_overflows_down(fmt, q1),
{
    lemma_format_facts(fmt);
    let r = fmt.max_rank() as int;
    lemma_rank_ratio_order(fmt, r, r);
    lemma_rank_ratio_order(fmt, r - 1, r - 1);
    lemma_rank_ratio_order(fmt, -r, -r);
    lemma_rank_ratio_order(fmt, -r + 1, -r + 1);
    let up_gap = rat_sub(max_ratio(fmt), rank_ratio(fmt, r - 1));
    let down_gap = rat_sub(rank_ratio(fmt, -r + 1), min_ratio(fmt));
    lemma_rat_ops_wf(max_ratio(fmt), rank_ratio(fmt, r - 1));
    lemma_rat_ops_wf(rank_ratio(fmt, -r + 1), min_ratio(fmt));
    lemma_rat_ops_wf(up_gap, rat_int(2));
    lemma_rat_ops_wf(down_gap, rat_int(2));
    lemma_rat_sub_monotone(q1, q2, max_ratio(fmt));
    lemma_rat_sub_monotone(q1, q2, min_ratio(fmt));
    lemma_rat_ops_wf(q2, max_ratio(fmt));
    lemma_rat_ops_wf(min_ratio(fmt), q2);
    lemma_rat_trans(
        rat_div(up_gap, rat_int(2)),
        rat_sub(q1, max_ratio(fmt)),
        rat_sub(q2, max_ratio(fmt)),
    );
    lemma_rat_trans(
        rat_div(down_gap, rat_int(2)),
        rat_sub(min_ratio(fmt), q2),
        rat_sub(min_ratio(fmt), q1),
    );
}

/// Where the rounding of a number lands on the extended line: at the finite
/// extreme or the infinity beyond the range, at the directed rank of its floor
/// within it.
proof fn lemma_rounded_position(
    fmt: Format,
    q: Ratio,
    direction: Direction,
    zero_negative: bool,
    bits: u64,
)
    requires
        rat_wf(q),
        rounds_to(fmt, q, direction, zero_negative, bits),
    ensures
        rat_lt(max_ratio(fmt), q) ==> extended_rank(fmt, bits) == match direction {
            Direction::Down => fmt.max_rank() as int,
            Direction::Up => fmt.max_rank() + 1int,
            Direction::Nearest => if nearest_overflows_up(fmt, q) {
                fmt.max_rank() + 1int
            } else {
                fmt.max_rank() as int
            },
        },
        rat_lt(q, min_ratio(fmt)) ==> extended_rank(fmt, bits) == match direction {
            Direction::Up => -(fmt.max_rank() as int),
            Direction::Down => -(fmt.max_rank() + 1),
            Direction::Nearest => if nearest_overflows_down(fmt, q) {
                -(fmt.max_rank() + 1)
            } else {
                -(fmt.max_rank() as int)
            },
        },
        !rat_lt(max_ratio(fmt), q) && !rat_lt(q, min_ratio(fmt)) ==> exists|fl: int|
            is_floor_rank(fmt, q, fl) && extended_rank(fmt, bits) == #[trigger] directed_rank(
                fmt,
                q,
                fl,
                direction,
            ),
{
    lemma_format_facts(fmt);
    let r = fmt.max_rank() as int;
    let s = fmt.sign_weight();
    lemma_rank_ratio_order(fmt, r, r);
    lemma_rank_ratio_order(fmt, -r, -r);
    lemma_rank_ratio_order(fmt, 0, r);
    lemma_rank_ratio_order(fmt, -r, 0);
    lemma_rank_ratio_order(fmt, 0, 1);
    lemma_rank_ratio_order(fmt, 0, 0);
    lemma_rank_bits(fmt, r, false);
    lemma_rank_bits(fmt, -r, false);
    lemma_zero_ratio(fmt, q);
    // The infinities sit just past the finite ranks.
    assert((infinity_bits(fmt, false) as nat) % s == r + 1) by {
        lemma_small_mod((r + 1) as nat, s);
    }
    assert((infinity_bits(fmt, true) as nat) % s == r + 1) by {
        assert(infinity_bits(fmt, true) as nat == s + (r + 1));
        lemma_mod_add_multiples_vanish((r + 1) as int, s as int);
        lemma_small_mod((r + 1) as nat, s);
    }
    assert(!finite(fmt, infinity_bits(fmt, true)) && sign_set(fmt, infinity_bits(fmt, true)));
    assert(!finite(fmt, infinity_bits(fmt, false)) && !sign_set(fmt, infinity_bits(fmt, false)));
    assert(extended_rank(fmt, infinity_bits(fmt, true)) == -(r + 1));
    assert(extended_rank(fmt, infinity_bits(fmt, false)) == r + 1);
    if q.0 == 0 {
        lemma_rank_bits(fmt, 0, zero_negative);
        lemma_rat_trans(q, rank_ratio(fmt, 0), max_ratio(fmt));
        lemma_rat_trans(min_ratio(fmt), rank_ratio(fmt, 0), q);
        lemma_rat_trans(rank_ratio(fmt, 0), q, rank_ratio(fmt, 0));
        lemma_rat_trans(q, rank_ratio(fmt, 0), rank_ratio(fmt, 1));
        assert(is_floor_rank(fmt, q, 0));
        assert(extended_rank(fmt, bits) == directed_rank(fmt, q, 0, direction));
    } else if !rat_lt(max_ratio(fmt), q) && !rat_lt(q, min_ratio(fmt)) {
        let fl = choose|fl: int|
            is_floor_rank(fmt, q, fl) && bits == rank_bits(
                fmt,
                directed_rank(fmt, q, fl, direction),
                q.0 < 0,
            );
        lemma_rank_ratio_order(fmt, fl, fl);
        if fl == r {
            lemma_rat_trans(rank_ratio(fmt, fl), q, max_ratio(fmt));
        }
        lemma_rank_bits(fmt, directed_rank(fmt, q, fl, direction), q.0 < 0);
    } else if rat_lt(q, min_ratio(fmt)) {
        lemma_rat_trans(q, min_ratio(fmt), max_ratio(fmt));
        assert(extended_rank(fmt, rank_bits(fmt, -r, false)) == -r);
    } else {
        assert(extended_rank(fmt, rank_bits(fmt, r, false)) == r);
    }
}

/// Rounding is monotone: a number not above another rounds, in the same
/// direction, to an encoding not above the other's, on the extended line
/// whose ends are the infinities.
pub proof fn rounding_is_monotone(
    fmt: Format,
    q1: Ratio,
    q2: Ratio,
    direction: Direction,
    zero_negative: (bool, bool),
    bits: (u64, u64),
)
    requires
        rat_wf(q1),
        rat_wf(q2),
        rat_le(q1, q2),
        rounds_to(fmt, q1, direction, zero_negative.0, bits.0),
        rounds_to(fmt, q2, direction, zero_negative.1, bits.1),
    ensures
        extended_rank(fmt, bits.0) <= extended_rank(fmt, bits.1),
        finite(fmt, bits.0) && finite(fmt, bits.1) ==> rat_le(
            value_of(fmt, bits.0),
            value_of(fmt, bits.1),
        ),
{
    lemma_format_facts(fmt);
    let r = fmt.max_rank() as int;
    lemma_rank_ratio_order(fmt, r, r);
    lemma_rank_ratio_order(fmt, -r, -r);
    lemma_rank_ratio_order(fmt, -r, r);
    lemma_rounded_position(fmt, q1, direction, zero_negative.0, bits.0);
    lemma_rounded_position(fmt, q2, direction, zero_negative.1, bits.1);
    lemma_nearest_overflow_monotone(fmt, q1, q2);
    lemma_rat_trans(q1, q2, max_ratio(fmt));
    lemma_rat_trans(max_ratio(fmt), q1, q2);
    lemma_rat_trans(min_ratio(fmt), q1, q2);
    lemma_rat_trans(q1, q2, min_ratio(fmt));
    lemma_rat_trans(q2, min_ratio(fmt), max_ratio(fmt));
    lemma_rat_trans(min_ratio(fmt), max_ratio(fmt), q1);
    let in1 = !rat_lt(max_ratio(fmt), q1) && !rat_lt(q1, min_ratio(fmt));
    let in2 = !rat_lt(max_ratio(fmt), q2) && !rat_lt(q2, min_ratio(fmt));
    if in1 {
        let fl1 = choose|fl: int|
            is_floor_rank(fmt, q1, fl) && extended_rank(fmt, bits.0) == #[trigger] directed_rank(
                fmt,
                q1,
                fl,
                direction,
            );
        if in2 {
            let fl2 = choose|fl: int|
                is_floor_rank(fmt, q2, fl) && extended_rank(fmt, bits.1) == #[trigger] directed_rank(
                    fmt,
                    q2,
                    fl,
                    direction,
                );
            lemma_directed_rank_monotone(fmt, q1, q2, fl1, fl2, direction);
        } else {
            lemma_directed_rank_monotone(fmt, q1, q1, fl1, fl1, direction);
        }
    } else if in2 {
        let fl2 = choose|fl: int|
            is_floor_rank(fmt, q2, fl) && extended_rank(fmt, bits.1) == #[trigger] directed_rank(
                fmt,
                q2,
                fl,
                direction,
            );
        lemma_directed_rank_monotone(fmt, q2, q2, fl2, fl2, direction);
    }
    if finite(fmt, bits.0) && finite(fmt, bits.1) {
        lemma_rank_ratio_order(fmt, rank(fmt, bits.0), rank(fmt, bits.1));
    }
}

/// Rounding the exact value of a finite encoding gives that encoding back,
/// in every direction.
pub proof fn rounding_is_exact_on_representable(fmt: Format, bits: u64, direction: Direction)
    requires
        fmt.valid(bits),
        finite(fmt, bits),
    ensures
        rounds_to(fmt, value_of(fmt, bits), direction, sign_set(fmt, bits), bits),
{
    lemma_format_facts(fmt);
    let r = fmt.max_rank() as int;
    let k = rank(fmt, bits);
    let q = value_of(fmt, bits);
    lemma_rank_determines_bits(fmt, bits);
    lemma_rank_ratio_order(fmt, k, k);
    lemma_rank_ratio_order(fmt, k, r);
    lemma_rank_ratio_order(fmt, r, k);
    lemma_rank_ratio_order(fmt, -r, k);
    lemma_rank_ratio_order(fmt, k, -r);
    lemma_rank_ratio_order(fmt, k, 0);
    lemma_rank_value_monotone(fmt, k, 0);
    if k != 0 {
        lemma_zero_ratio(fmt, q);
        lemma_rank_ratio_order(fmt, k, k + 1);
        assert(is_floor_rank(fmt, q, k));
        assert(directed_rank(fmt, q, k, direction) == k);
    } else {
        lemma_zero_ratio(fmt, q);
    }
}

// ---------------------------------------------------------------------------
// Executable encodings.
// ---------------------------------------------------------------------------

pub(crate) fn sign_weight(fmt: Format) -> (res: u64)
    ensures
        res == fmt.sign_weight(),
{
    match fmt {
        Format::Binary32 => 0x8000_0000,
        Format::Binary64 => 0x8000_0000_0000_0000,
    }
}

pub(crate) fn fraction_weight(fmt: Format) -> (res: u64)
    ensures
        res == fmt.fraction_weight(),
{
    match fmt {
        Format::Binary32 => 0x80_0000,
        Format::Binary64 => 0x10_0000_0000_0000,
    }
}

/// Significand precision of the format in bits.
pub fn precision(fmt: Format) -> (res: usize)
    ensures
        res == fmt.precision_bits(),
{
    match fmt {
        Format::Binary32 => 24,
        Format::Binary64 => 53,
    }
}

/// Greatest finite value.
pub fn max_finite(fmt: Format) -> (res: u64)
    ensures
        res == fmt.max_rank(),
        res == rank_bits(fmt, fmt.max_rank() as int, false),
{
    match fmt {
        Format::Binary32 => 0x7f7f_ffff,
        Format::Binary64 => 0x7fef_ffff_ffff_ffff,
    }
}

/// Least finite value.
pub fn neg_max_finite(fmt: Format) -> (res: u64)
    ensures
        res == rank_bits(fmt, -(fmt.max_rank() as int), false),
{
    match fmt {
        Format::Binary32 => 0xff7f_ffff,
        Format::Binary64 => 0xffef_ffff_ffff_ffff,
    }
}

/// Least positive value, the smallest subnormal.
pub fn min_pos_subnormal(fmt: Format) -> (res: u64)
    ensures
        res == rank_bits(fmt, 1, false),
{
    1
}

pub fn infinity(fmt: Format, negative: bool) -> (res: u64)
    ensures
        res == infinity_bits(fmt, negative),
{
    match fmt {
        Format::Binary32 => if negative {
            0xff80_0000
        } else {
            0x7f80_0000
        },
        Format::Binary64 => if negative {
            0xfff0_0000_0000_0000
        } else {
            0x7ff0_0000_0000_0000
        },
    }
}

pub fn signed_zero(fmt: Format, negative: bool) -> (res: u64)
    ensures
        res == rank_bits(fmt, 0, negative),
{
    if negative {
        sign_weight(fmt)
    } else {
        0
    }
}

pub fn is_finite(fmt: Format, bits: u64) -> (res: bool)
    ensures
        res == finite(fmt, bits),
{
    bits % sign_weight(fmt) <= max_finite(fmt)
}

pub fn is_zero(fmt: Format, bits: u64) -> (res: bool)
    ensures
        res == zero(fmt, bits),
{
    bits % sign_weight(fmt) == 0
}

pub fn is_nan(fmt: Format, bits: u64) -> (res: bool)
    ensures
        res == nan(fmt, bits),
{
    bits % sign_weight(fmt) > max_finite(fmt) + 1
}

/// The sign bit is set (true for `-0.0`).
pub fn sign_negative(fmt: Format, bits: u64) -> (res: bool)
    ensures
        res == sign_set(fmt, bits),
{
    bits >= sign_weight(fmt)
}

/// Flip the sign bit.
pub fn negate(fmt: Format, bits: u64) -> (res: u64)
    requires
        fmt.valid(bits),
    ensures
        fmt.valid(res),
        sign_set(fmt, res) == !sign_set(fmt, bits),
        magnitude_bits(fmt, res) == magnitude_bits(fmt, bits),
{
    proof {
        lemma_format_facts(fmt);
    }
    let s = sign_weight(fmt);
    if bits >= s {
        proof {
            lemma_fundamental_div_mod_converse(bits as int, s as int, 1, bits - s);
        }
        bits - s
    } else {
        proof {
            lemma_small_mod(bits as nat, s as nat);
            lemma_mod_add_multiples_vanish(bits as int, s as int);
        }
        bits + s
    }
}

/// Lowest bit of the encoding, which decides ties to even.
pub fn low_bit_set(bits: u64) -> (res: bool)
    ensures
        res == (bits % 2 == 1),
{
    bits % 2 == 1
}

/// The next encoding towards positive infinity; from the greatest negative
/// value it steps to `-0`.
pub fn next_up(fmt: Format, bits: u64) -> (res: u64)
    requires
        fmt.valid(bits),
    ensures
        fmt.valid(res),
        nan(fmt, bits) ==> res == bits,
        bits == infinity_bits(fmt, false) ==> res == bits,
        bits == infinity_bits(fmt, true) ==> res == rank_bits(fmt, -(fmt.max_rank() as int), false),
        finite(fmt, bits) && rank(fmt, bits) < fmt.max_rank() ==> finite(fmt, res) && rank(fmt, res)
            == rank(fmt, bits) + 1,
        finite(fmt, bits) && rank(fmt, bits) == fmt.max_rank() ==> res == infinity_bits(fmt, false),
        bits == rank_bits(fmt, -1, false) ==> res == rank_bits(fmt, 0, true),
{
    proof {
        lemma_format_facts(fmt);
        if finite(fmt, bits) {
            lemma_rank_determines_bits(fmt, bits);
        }
    }
    if is_nan(fmt, bits) || bits == infinity(fmt, false) {
        return bits;
    }
    if is_zero(fmt, bits) {
        proof {
            lemma_rank_bits(fmt, 1, false);
        }
        return 1;
    }
    let s = sign_weight(fmt);
    if bits < s {
        proof {
            lemma_small_mod(bits as nat, s as nat);
            if bits < fmt.max_rank() {
                lemma_rank_bits(fmt, bits + 1, false);
            }
        }
        bits + 1
    } else {
        proof {
            lemma_fundamental_div_mod_converse(bits as int, s as int, 1, bits - s);
            if bits - s <= fmt.max_rank() + 1 {
                lemma_rank_bits(fmt, -((bits - s - 1) as int), false);
            }
        }
        bits - 1
    }
}

/// The next encoding towards negative infinity; from the least positive
/// value it steps to `+0`.
pub fn next_down(fmt: Format, bits: u64) -> (res: u64)
    requires
        fmt.valid(bits),
    ensures
        fmt.valid(res),
        nan(fmt, bits) ==> res == bits,
        bits == infinity_bits(fmt, true) ==> res == bits,
        bits == infinity_bits(fmt, false) ==> res == rank_bits(fmt, fmt.max_rank() as int, false),
        finite(fmt, bits) && rank(fmt, bits) > -(fmt.max_rank() as int) ==> finite(fmt, res)
            && rank(fmt, res) == rank(fmt, bits) - 1,
        finite(fmt, bits) && rank(fmt, bits) == -(fmt.max_rank() as int) ==> res == infinity_bits(
            fmt,
            true,
        ),
        bits == rank_bits(fmt, 1, false) ==> res == rank_bits(fmt, 0, false),
{
    proof {
        lemma_format_facts(fmt);
        if finite(fmt, bits) {
            lemma_rank_determines_bits(fmt, bits);
        }
    }
    if is_nan(fmt, bits) || bits == infinity(fmt, true) {
        return bits;
    }
    let s = sign_weight(fmt);
    if is_zero(fmt, bits) {
        proof {
            lemma_rank_bits(fmt, -1, false);
        }
        return s + 1;
    }
    if bits < s {
        proof {
            lemma_small_mod(bits as nat, s as nat);
            lemma_small_mod((bits - 1) as nat, s as nat);
        }
        bits - 1
    } else {
        proof {
            lemma_fundamental_div_mod_converse(bits as int, s as int, 1, bits - s);
            if bits - s < fmt.max_rank() {
                lemma_rank_bits(fmt, -((bits - s + 1) as int), false);
            }
        }
        bits + 1
    }
}

// ---------------------------------------------------------------------------
// Values of the two formats.
// ---------------------------------------------------------------------------

/// A binary64 (`f64`) value, held as its encoding.
#[derive(Clone, Copy, Debug, PartialEq, Eq, Structural)]
pub struct Binary64 {
    pub bits: u64,
}

/// A binary32 (`f32`) value, held as its encoding.
#[derive(Clone, Copy, Debug, PartialEq, Eq, Structural)]
pub struct Binary32 {
    pub bits: u32,
}

/// A value type of one of the binary formats.
pub trait BinaryFloat: Copy {
    spec fn format_spec() -> Format;

    /// The encoding, in the low bits.
    spec fn encoding(self) -> u64;

    fn format() -> (res: Format)
        ensures
            res == Self::format_spec(),
    ;

    fn to_encoding(self) -> (res: u64)
        ensures
            res == self.encoding(),
            Self::format_spec().valid(res),
    ;

    fn from_encoding(bits: u64) -> (res: Self)
        requires
            Self::format_spec().valid(bits),
        ensures
            res.encoding() == bits,
    ;
}

impl BinaryFloat for Binary64 {
    open spec fn format_spec() -> Format {
        Format::Binary64
    }

    open spec fn encoding(self) -> u64 {
        self.bits
    }

    fn format() -> (res: Format) {
        Format::Binary64
    }

    fn to_encoding(self) -> (res: u64) {
        self.bits
    }

    fn from_encoding(bits: u64) -> (res: Self) {
        Binary64 { bits }
    }
}

impl BinaryFloat for Binary32 {
    open spec fn format_spec() -> Format {
        Format::Binary32
    }

    open spec fn encoding(self) -> u64 {
        self.bits as u64
    }

    fn format() -> (res: Format) {
        Format::Binary32
    }

    fn to_encoding(self) -> (res: u64) {
        self.bits as u64
    }

    fn from_encoding(bits: u64) -> (res: Self) {
        Binary32 { bits: bits as u32 }
    }
}

// ---------------------------------------------------------------------------
// Directed arithmetic.
// ---------------------------------------------------------------------------

/// The four arithmetic operations.
#[derive(Clone, Copy, Debug, PartialEq, Eq, Structural)]
pub enum Arithmetic {
    Add,
    Sub,
    Mul,
    Div,
}

/// The exact result of an operation on two rationals.
pub open spec fn exact_arithmetic(op: Arithmetic, a: Ratio, b: Ratio) -> Ratio {
    match op {
        Arithmetic::Add => rat_add(a, b),
        Arithmetic::Sub => rat_sub(a, b),
        Arithmetic::Mul => rat_mul(a, b),
        Arithmetic::Div => rat_div(a, b),
    }
}

/// Sign of an exact-zero sum under IEEE 754: `+0` in every rounding direction
/// except `Down` (`-0`), unless both operands are zeros of one sign.
pub open spec fn sum_zero_negative(
    a_zero: bool,
    a_negative: bool,
    b_zero: bool,
    b_negative: bool,
    direction: Direction,
) -> bool {
    let both_positive_zero = a_zero && b_zero && !a_negative && !b_negative;
    let both_negative_zero = a_zero && b_zero && a_negative && b_negative;
    match direction {
        Direction::Down => !both_positive_zero,
        _ => both_negative_zero,
    }
}

/// Sign given to an exact-zero result: a sum's rule for addition and
/// subtraction (the subtrahend's sign flipped), the exclusive or of the signs
/// for multiplication and division.
pub open spec fn arithmetic_zero_negative(
    fmt: Format,
    op: Arithmetic,
    a: u64,
    b: u64,
    direction: Direction,
) -> bool {
    match op {
        Arithmetic::Add => sum_zero_negative(
            zero(fmt, a),
            sign_set(fmt, a),
            zero(fmt, b),
            sign_set(fmt, b),
            direction,
        ),
        Arithmetic::Sub => sum_zero_negative(
            zero(fmt, a),
            sign_set(fmt, a),
            zero(fmt, b),
            !sign_set(fmt, b),
            direction,
        ),
        _ => sign_set(fmt, a) != sign_set(fmt, b),
    }
}

/// `result` is the rounding of `q`, or an overflow error when that rounding is
/// an infinity.
pub open spec fn directed_result<T: BinaryFloat>(
    q: Ratio,
    direction: Direction,
    zero_negative: bool,
    result: Result<Rounded<T>>,
) -> bool {
    exists|bits: u64|
        rounds_to(T::format_spec(), q, direction, zero_negative, bits) && if finite(
            T::format_spec(),
            bits,
        ) {
            result matches Ok(r) && r.value.encoding() == bits && r.direction == direction
        } else {
            result matches Err(e) && e.kind == ErrorKind::Overflow && e.message
                == "operation produced a non-finite value"
        }
}

/// What a correctly rounded directed arithmetic operation returns.
pub open spec fn arithmetic_outcome<T: BinaryFloat>(
    op: Arithmetic,
    lhs: T,
    rhs: T,
    direction: Direction,
    result: Result<Rounded<T>>,
) -> bool {
    let fmt = T::format_spec();
    let a = lhs.encoding();
    let b = rhs.encoding();
    if !finite(fmt, a) || !finite(fmt, b) {
        result matches Err(e) && e.kind == ErrorKind::NonFinite && e.message
            == "input must be finite"
    } else if op == Arithmetic::Div && zero(fmt, b) {
        result matches Err(e) && e.kind == ErrorKind::DivisionByZero && e.message
            == "division by zero"
    } else {
        directed_result::<T>(
            exact_arithmetic(op, value_of(fmt, a), value_of(fmt, b)),
            direction,
            arithmetic_zero_negative(fmt, op, a, b, direction),
            result,
        )
    }
}

/// What a directed conversion of an exact number returns: the rounding of `q`,
/// which saturates to an infinity instead of failing.
pub open spec fn conversion_result<T: BinaryFloat>(
    q: Ratio,
    direction: Direction,
    result: Result<Rounded<T>>,
) -> bool {
    exists|bits: u64|
        rounds_to(T::format_spec(), q, direction, false, bits) && (result matches Ok(r)
            && r.value.encoding() == bits && r.direction == direction)
}

/// A conversion never fails: it is the rounding of the number, an infinity
/// where that rounding overflows; an exact zero converts to `+0`, and a nonzero
/// number to an encoding of its sign.
pub proof fn conversion_is_signed_rounding<T: BinaryFloat>(
    q: Ratio,
    direction: Direction,
    result: Result<Rounded<T>>,
)
    requires
        rat_wf(q),
        conversion_result::<T>(q, direction, result),
    ensures
        result matches Ok(r) && r.direction == direction,
        q.0 == 0 ==> result->Ok_0.value.encoding() == 0,
        q.0 != 0 ==> sign_set(T::format_spec(), result->Ok_0.value.encoding()) == (q.0 < 0),
{
    let fmt = T::format_spec();
    let bits = choose|bits: u64|
        rounds_to(fmt, q, direction, false, bits) && (result matches Ok(r) && r.value.encoding()
            == bits && r.direction == direction);
    lemma_format_facts(fmt);
    lemma_rank_bits(fmt, 0, false);
    if q.0 != 0 {
        rounding_keeps_the_sign(fmt, q, direction, false, bits);
    }
}

/// IEEE sign of an exact-zero sum of `a` and `b`.
pub fn add_zero_negative(fmt: Format, a: u64, b: u64, direction: Direction) -> (res: bool)
    ensures
        res == sum_zero_negative(
            zero(fmt, a),
            sign_set(fmt, a),
            zero(fmt, b),
            sign_set(fmt, b),
            direction,
        ),
{
    let both_positive_zero = is_zero(fmt, a) && is_zero(fmt, b) && !sign_negative(fmt, a)
        && !sign_negative(fmt, b);
    let both_negative_zero = is_zero(fmt, a) && is_zero(fmt, b) && sign_negative(fmt, a)
        && sign_negative(fmt, b);
    match direction {
        Direction::Down => !both_positive_zero,
        _ => both_negative_zero,
    }
}

/// Directed arithmetic encloses the exact result: a finite downward result is
/// not above it and a finite upward result is not below it.
pub proof fn directed_arithmetic_encloses<T: BinaryFloat>(
    op: Arithmetic,
    lhs: T,
    rhs: T,
    down: T,
    up: T,
)
    requires
        arithmetic_outcome::<T>(op, lhs, rhs, Direction::Down, Ok(Rounded { value: down, direction: Direction::Down })),
        arithmetic_outcome::<T>(op, lhs, rhs, Direction::Up, Ok(Rounded { value: up, direction: Direction::Up })),
    ensures
        ({
            let fmt = T::format_spec();
            let exact = exact_arithmetic(
                op,
                value_of(fmt, lhs.encoding()),
                value_of(fmt, rhs.encoding()),
            );
            rat_le(value_of(fmt, down.encoding()), exact) && rat_le(
                exact,
                value_of(fmt, up.encoding()),
            )
        }),
{
    let fmt = T::format_spec();
    let a = lhs.encoding();
    let b = rhs.encoding();
    let va = value_of(fmt, a);
    let vb = value_of(fmt, b);
    lemma_rank_ratio_order(fmt, rank(fmt, a), rank(fmt, a));
    lemma_rank_ratio_order(fmt, rank(fmt, b), 0);
    lemma_rank_value_monotone(fmt, rank(fmt, b), 0);
    lemma_rat_ops_wf(va, vb);
    let exact = exact_arithmetic(op, va, vb);
    let bd = choose|bits: u64|
        rounds_to(fmt, exact, Direction::Down, arithmetic_zero_negative(fmt, op, a, b, Direction::Down), bits)
            && if finite(fmt, bits) {
            Ok::<Rounded<T>, crate::error::Error>(Rounded { value: down, direction: Direction::Down }) matches Ok(r) && r.value.encoding() == bits && r.direction == Direction::Down
        } else {
            false
        };
    let bu = choose|bits: u64|
        rounds_to(fmt, exact, Direction::Up, arithmetic_zero_negative(fmt, op, a, b, Direction::Up), bits)
            && if finite(fmt, bits) {
            Ok::<Rounded<T>, crate::error::Error>(Rounded { value: up, direction: Direction::Up }) matches Ok(r) && r.value.encoding() == bits && r.direction == Direction::Up
        } else {
            false
        };
    lemma_format_facts(fmt);
    lemma_rank_bits(fmt, 0, false);
    directed_rounding_encloses(
        fmt,
        exact,
        arithmetic_zero_negative(fmt, op, a, b, Direction::Down),
        arithmetic_zero_negative(fmt, op, a, b, Direction::Up),
        bd,
        bu,
        0,
    );
}

/// IEEE 754 gives an exact zero result its sign: a zero sum or difference is
/// `+0` when rounding to nearest or upward and `-0` when rounding downward,
/// unless it is the sum of two zeros of one sign (the difference of two zeros
/// of opposite signs), which keeps the sign of the first; a zero product or
/// quotient is negative exactly when one operand is.
pub proof fn exact_zero_results_take_the_ieee_sign<T: BinaryFloat>(
    op: Arithmetic,
    lhs: T,
    rhs: T,
    direction: Direction,
    result: Result<Rounded<T>>,
)
    requires
        finite(T::format_spec(), lhs.encoding()),
        finite(T::format_spec(), rhs.encoding()),
        !(op == Arithmetic::Div && zero(T::format_spec(), rhs.encoding())),
        exact_arithmetic(
            op,
            value_of(T::format_spec(), lhs.encoding()),
            value_of(T::format_spec(), rhs.encoding()),
        ).0 == 0,
        arithmetic_outcome::<T>(op, lhs, rhs, direction, result),
    ensures
        ({
            let fmt = T::format_spec();
            let a = lhs.encoding();
            let b = rhs.encoding();
            let both_zero = zero(fmt, a) && zero(fmt, b);
            let negative = match op {
                Arithmetic::Add => if both_zero && sign_set(fmt, a) == sign_set(fmt, b) {
                    sign_set(fmt, a)
                } else {
                    direction == Direction::Down
                },
                Arithmetic::Sub => if both_zero && sign_set(fmt, a) != sign_set(fmt, b) {
                    sign_set(fmt, a)
                } else {
                    direction == Direction::Down
                },
                _ => sign_set(fmt, a) != sign_set(fmt, b),
            };
            result matches Ok(r) && r.direction == direction && r.value.encoding() == (if negative {
                fmt.sign_weight()
            } else {
                0
            })
        }),
{
    let fmt = T::format_spec();
    let a = lhs.encoding();
    let b = rhs.encoding();
    let q = exact_arithmetic(op, value_of(fmt, a), value_of(fmt, b));
    let zn = arithmetic_zero_negative(fmt, op, a, b, direction);
    lemma_format_facts(fmt);
    lemma_rank_bits(fmt, 0, zn);
    let bits = choose|bits: u64|
        rounds_to(fmt, q, direction, zn, bits) && if finite(fmt, bits) {
            result matches Ok(r) && r.value.encoding() == bits && r.direction == direction
        } else {
            result matches Err(e) && e.kind == ErrorKind::Overflow && e.message
                == "operation produced a non-finite value"
        };
    assert(bits == rank_bits(fmt, 0, zn));
}

/// Directed addition and multiplication do not depend on the order of their
/// operands.
pub proof fn directed_sum_and_product_commute<T: BinaryFloat>(
    lhs: T,
    rhs: T,
    direction: Direction,
    result: Result<Rounded<T>>,
)
    ensures
        arithmetic_outcome::<T>(Arithmetic::Add, lhs, rhs, direction, result)
            == arithmetic_outcome::<T>(Arithmetic::Add, rhs, lhs, direction, result),
        arithmetic_outcome::<T>(Arithmetic::Mul, lhs, rhs, direction, result)
            == arithmetic_outcome::<T>(Arithmetic::Mul, rhs, lhs, direction, result),
{
    let fmt = T::format_spec();
    let va = value_of(fmt, lhs.encoding());
    let vb = value_of(fmt, rhs.encoding());
    assert(rat_add(va, vb) == rat_add(vb, va)) by {
        vstd::arithmetic::mul::lemma_mul_is_commutative(va.1, vb.1);
    }
    assert(rat_mul(va, vb) == rat_mul(vb, va)) by {
        vstd::arithmetic::mul::lemma_mul_is_commutative(va.1, vb.1);
        vstd::arithmetic::mul::lemma_mul_is_commutative(va.0, vb.0);
    }
}

} // verus!
