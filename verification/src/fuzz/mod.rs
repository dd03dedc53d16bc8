//! Input decoding shared by the differential fuzz targets.
//!
//! Every target turns raw fuzzer bytes into operands with these functions, so
//! the same bytes always denote the same mathematical inputs, independently of
//! any backend.
use vstd::arithmetic::div_mod::*;
use vstd::arithmetic::mul::*;
use vstd::arithmetic::power2::{lemma_pow2_unfold, pow2};
use vstd::prelude::*;
use vstd::slice::slice_subrange;
use vstd::string::StrSliceExecFns;

use crate::decimal::{
    decimal, digit_char, lemma_decimal_split, lemma_decimal_zero, padded, push_char,
    push_decimal, push_padded,
};
use crate::rounding::Direction;

pub mod backend_float_extremes;
pub mod directed_binary;
pub mod exact_integer;
pub mod exact_rational;
pub mod malachite_float;
pub mod opendp_sequences;
pub mod primitive_casts;
pub mod witnesses;

verus! {

/// Raw input of a unary-operation target.
#[derive(Clone, Debug)]
pub struct UnaryCase {
    pub format: u8,
    pub operation: u8,
    pub direction: u8,
    pub selector: u8,
    pub bits: u64,
    pub exponent: i32,
}

/// Raw input of a binary-operation target.
#[derive(Clone, Debug)]
pub struct BinaryCase {
    pub format: u8,
    pub operation: u8,
    pub direction: u8,
    pub lhs_selector: u8,
    pub rhs_selector: u8,
    pub lhs_bits: u64,
    pub rhs_bits: u64,
}

/// Raw input of a conversion target.
#[derive(Clone, Debug)]
pub struct ConversionCase {
    pub operation: u8,
    pub direction: u8,
    pub selector: u8,
    pub bits: u64,
    pub sign: bool,
    pub payload: Vec<u8>,
}

/// A directed (never nearest) rounding direction, from the low bit.
pub fn directed_direction(value: u8) -> (res: Direction)
    ensures
        res == if value % 2 == 0 {
            Direction::Down
        } else {
            Direction::Up
        },
{
    assert(value & 1 == value % 2) by (bit_vector);
    if value & 1 == 0 {
        Direction::Down
    } else {
        Direction::Up
    }
}

/// Any rounding direction.
pub fn any_direction(value: u8) -> (res: Direction)
    ensures
        res == match value % 3 {
            0 => Direction::Down,
            1 => Direction::Nearest,
            _ => Direction::Up,
        },
{
    match value % 3 {
        0 => Direction::Down,
        1 => Direction::Nearest,
        _ => Direction::Up,
    }
}

/// The boundary exponents that `special_exponent` selects from.
pub open spec fn special_exponent_table(index: nat) -> int {
    if index == 0 {
        i32::MIN as int
    } else if index == 1 {
        -4096
    } else if index == 2 {
        -1024
    } else if index == 3 {
        -256
    } else if index == 4 {
        -128
    } else if index == 5 {
        -64
    } else if index == 6 {
        -54
    } else if index == 7 {
        -53
    } else if index == 8 {
        -32
    } else if index == 9 {
        -2
    } else if index == 10 {
        -1
    } else if index == 11 {
        0
    } else if index == 12 {
        1
    } else if index == 13 {
        2
    } else if index == 14 {
        24
    } else if index == 15 {
        32
    } else if index == 16 {
        53
    } else if index == 17 {
        64
    } else if index == 18 {
        127
    } else if index == 19 {
        128
    } else if index == 20 {
        256
    } else if index == 21 {
        1024
    } else if index == 22 {
        4096
    } else {
        i32::MAX as int
    }
}

fn special_exponent_at(index: usize) -> (res: i32)
    requires
        index < 24,
    ensures
        res == special_exponent_table(index as nat),
{
    match index {
        0 => i32::MIN,
        1 => -4096,
        2 => -1024,
        3 => -256,
        4 => -128,
        5 => -64,
        6 => -54,
        7 => -53,
        8 => -32,
        9 => -2,
        10 => -1,
        11 => 0,
        12 => 1,
        13 => 2,
        14 => 24,
        15 => 32,
        16 => 53,
        17 => 64,
        18 => 127,
        19 => 128,
        20 => 256,
        21 => 1024,
        22 => 4096,
        _ => i32::MAX,
    }
}

/// A boundary exponent when either of the selector's low two bits is set,
/// else the raw exponent clamped to `[-4096, 4096]`.
pub fn special_exponent(selector: u8, raw: i32) -> (res: i32)
    ensures
        res == if selector % 4 != 0 {
            special_exponent_table((selector % 24) as nat)
        } else if raw < -4096 {
            -4096
        } else if raw > 4096 {
            4096
        } else {
            raw as int
        },
{
    assert(selector & 3 == selector % 4) by (bit_vector);
    if selector & 3 != 0 {
        special_exponent_at(selector as usize % 24)
    } else if raw < -4096 {
        -4096
    } else if raw > 4096 {
        4096
    } else {
        raw
    }
}

// ---------------------------------------------------------------------------
// Decimal notation of big-endian bytes, computed in base 10^9 without any
// backend.
// ---------------------------------------------------------------------------

/// Value of big-endian bytes.
pub open spec fn be_value(bytes: Seq<u8>) -> nat
    decreases bytes.len(),
{
    if bytes.len() == 0 {
        0
    } else {
        be_value(bytes.drop_last()) * 256 + bytes.last() as nat
    }
}

/// Value of little-endian base-10^9 limbs.
pub open spec fn limbs_value(limbs: Seq<u32>) -> nat
    decreases limbs.len(),
{
    if limbs.len() == 0 {
        0
    } else {
        limbs[0] as nat + 1_000_000_000 * limbs_value(limbs.drop_first())
    }
}

pub open spec fn limbs_bounded(limbs: Seq<u32>) -> bool {
    forall|i: int| 0 <= i < limbs.len() ==> limbs[i] < 1_000_000_000
}

pub open spec fn limb_weight(j: nat) -> nat
    decreases j,
{
    if j == 0 {
        1
    } else {
        1_000_000_000 * limb_weight((j - 1) as nat)
    }
}

proof fn lemma_limbs_single(x: u32)
    ensures
        limbs_value(seq![x]) == x,
        limbs_value(Seq::<u32>::empty()) == 0,
        limb_weight(0) == 1,
{
    assert(seq![x].drop_first() =~= Seq::<u32>::empty());
    assert(limbs_value(Seq::<u32>::empty()) == 0);
    assert(limbs_value(seq![x]) == x as nat + 1_000_000_000 * limbs_value(Seq::<u32>::empty()));
}

/// The first `j + 1` limbs are worth the first `j` plus the next one.
proof fn lemma_limbs_take_step(s: Seq<u32>, j: int)
    requires
        0 <= j < s.len(),
    ensures
        limbs_value(s.take(j + 1)) == limbs_value(s.take(j)) + s[j] * limb_weight(j as nat),
    decreases j,
{
    if j == 0 {
        lemma_limbs_single(s[0]);
        assert(s.take(1) =~= seq![s[0]]);
        assert(s.take(0) =~= Seq::<u32>::empty());
        assert(limbs_value(s.take(1)) == s[0]);
        assert(limbs_value(s.take(0)) == 0);
        assert(s[0] * limb_weight(0) == s[0]);
    } else {
        let t = s.drop_first();
        lemma_limbs_take_step(t, j - 1);
        assert(s.take(j + 1).drop_first() =~= t.take(j));
        assert(s.take(j).drop_first() =~= t.take(j - 1));
        assert(limbs_value(s.take(j + 1)) == s[0] as nat + 1_000_000_000 * limbs_value(t.take(j)));
        assert(limbs_value(s.take(j)) == s[0] as nat + 1_000_000_000 * limbs_value(t.take(j - 1)));
        assert(limb_weight(j as nat) == 1_000_000_000 * limb_weight((j - 1) as nat));
        assert(limbs_value(t.take(j)) == limbs_value(t.take(j - 1)) + t[j - 1] * limb_weight((j - 1) as nat));
        let w = limb_weight((j - 1) as nat);
        assert(1_000_000_000 * (limbs_value(t.take(j - 1)) + t[j - 1] * w) == 1_000_000_000
            * limbs_value(t.take(j - 1)) + s[j] * (1_000_000_000 * w)) by (nonlinear_arith)
            requires
                t[j - 1] == s[j],
        ;
    }
}

proof fn lemma_limbs_take_all(s: Seq<u32>)
    ensures
        limbs_value(s.take(s.len() as int)) == limbs_value(s),
{
    assert(s.take(s.len() as int) =~= s);
}

/// A trailing zero limb does not change the value.
proof fn lemma_limbs_push_zero(s: Seq<u32>)
    ensures
        limbs_value(s.push(0)) == limbs_value(s),
{
    lemma_limbs_push(s, 0);
    assert(0u32 * limb_weight(s.len()) == 0);
}

/// Appending a limb adds it at the next weight.
proof fn lemma_limbs_push(s: Seq<u32>, c: u32)
    ensures
        limbs_value(s.push(c)) == limbs_value(s) + c * limb_weight(s.len()),
{
    let t = s.push(c);
    lemma_limbs_take_step(t, s.len() as int);
    assert(t.take(s.len() as int) =~= s);
    lemma_limbs_take_all(t);
}

/// A nonzero last limb makes the value positive.
proof fn lemma_limbs_positive(s: Seq<u32>)
    requires
        s.len() > 0,
        s.last() != 0,
    ensures
        limbs_value(s) > 0,
    decreases s.len(),
{
    if s.len() > 1 {
        assert(s.drop_first().last() == s.last());
        lemma_limbs_positive(s.drop_first());
    }
}

/// Multiply the limbs by a small `factor` and add a small `carry`.
fn scale_limbs(limbs: &mut Vec<u32>, factor: u64, carry: u64)
    requires
        limbs_bounded(old(limbs)@),
        old(limbs)@.len() >= 1,
        factor <= 256,
        carry <= 256,
    ensures
        limbs_bounded(final(limbs)@),
        final(limbs)@.len() >= old(limbs)@.len(),
        limbs_value(final(limbs)@) == limbs_value(old(limbs)@) * factor + carry,
{
    let ghost original = limbs@;
    let ghost carry_in = carry;
    let mut carry = carry;
    let mut j: usize = 0;
    proof {
        lemma_limbs_single(0);
        assert(limbs@.take(0) =~= Seq::<u32>::empty());
        assert(original.take(0) =~= Seq::<u32>::empty());
    }
    while j < limbs.len()
        invariant
            limbs@.len() == original.len(),
            0 <= j <= limbs@.len(),
            limbs_bounded(limbs@),
            limbs_bounded(original),
            forall|i: int| j <= i < limbs@.len() ==> limbs@[i] == original[i],
            carry <= 256,
            factor <= 256,
            limbs_value(limbs@.take(j as int)) + carry * limb_weight(j as nat) == limbs_value(
                original.take(j as int),
            ) * factor + carry_in,
        decreases limbs.len() - j,
    {
        let limb = limbs[j];
        assert(limb < 1_000_000_000);
        assert(limb as u64 * factor <= 256_000_000_000) by (nonlinear_arith)
            requires
                limb < 1_000_000_000,
                factor <= 256,
        ;
        let value: u64 = limb as u64 * factor + carry;
        let next_limb = (value % 1_000_000_000) as u32;
        let next_carry = value / 1_000_000_000;
        proof {
            assert(value <= 256 * 1_000_000_000) by (nonlinear_arith)
                requires
                    value == limb * factor + carry,
                    limb < 1_000_000_000,
                    factor <= 256,
                    carry <= 256,
            ;
            lemma_fundamental_div_mod(value as int, 1_000_000_000);
            lemma_div_is_ordered(value as int, 256_000_000_000int, 1_000_000_000int);
        }
        let ghost before = limbs@;
        limbs.set(j, next_limb);
        proof {
            lemma_limbs_take_step(limbs@, j as int);
            lemma_limbs_take_step(original, j as int);
            assert(limbs@.take(j as int) =~= before.take(j as int));
            let w = limb_weight(j as nat);
            let p = limbs_value(before.take(j as int));
            let o = limbs_value(original.take(j as int));
            assert(p + next_limb * w + next_carry * (1_000_000_000 * w) == (o + original[j as int]
                * w) * factor + carry_in) by (nonlinear_arith)
                requires
                    p + carry * w == o * factor + carry_in,
                    value == original[j as int] * factor + carry,
                    value == next_limb + next_carry * 1_000_000_000,
            ;
        }
        carry = next_carry;
        j = j + 1;
    }
    proof {
        lemma_limbs_take_all(limbs@);
        lemma_limbs_take_all(original);
    }
    if carry != 0 {
        proof {
            lemma_limbs_push(limbs@, carry as u32);
        }
        limbs.push(carry as u32);
    }
}

/// Drop high zero limbs, keeping at least one.
fn trim_limbs(limbs: &mut Vec<u32>)
    requires
        old(limbs)@.len() >= 1,
        limbs_bounded(old(limbs)@),
    ensures
        final(limbs)@.len() >= 1,
        limbs_bounded(final(limbs)@),
        final(limbs)@.len() == 1 || final(limbs)@.last() != 0,
        limbs_value(final(limbs)@) == limbs_value(old(limbs)@),
{
    while limbs.len() > 1 && limbs[limbs.len() - 1] == 0
        invariant
            limbs@.len() >= 1,
            limbs_bounded(limbs@),
            limbs_value(limbs@) == limbs_value(old(limbs)@),
        decreases limbs.len(),
    {
        let ghost before = limbs@;
        limbs.pop();
        proof {
            assert(before =~= limbs@.push(0));
            lemma_limbs_push_zero(limbs@);
        }
    }
}

/// The decimal notation of trimmed limbs: the top limb as is, every lower
/// limb as nine padded digits.
fn limbs_to_decimal(limbs: &Vec<u32>) -> (res: String)
    requires
        limbs@.len() >= 1,
        limbs_bounded(limbs@),
        limbs@.len() == 1 || limbs@.last() != 0,
    ensures
        res@ == decimal(limbs_value(limbs@)),
{
    let n = limbs.len();
    let mut output = String::new();
    push_decimal(&mut output, limbs[n - 1]);
    proof {
        let top = limbs@.subrange(n - 1, n as int);
        assert(top =~= seq![limbs@[n - 1]]);
        lemma_limbs_single(limbs@[n - 1]);
        assert(output@ =~= decimal(limbs_value(top)));
        reveal_with_fuel(vstd::arithmetic::power::pow, 10);
    }
    let mut k: usize = n - 1;
    while k > 0
        invariant
            n == limbs@.len(),
            0 <= k < n,
            limbs_bounded(limbs@),
            n == 1 || limbs@.last() != 0,
            output@ == decimal(limbs_value(limbs@.subrange(k as int, n as int))),
            vstd::arithmetic::power::pow(10, 9) == 1_000_000_000,
        decreases k,
    {
        let ghost upper = limbs@.subrange(k as int, n as int);
        let limb = limbs[k - 1];
        push_padded(&mut output, limb, 9);
        proof {
            let whole = limbs@.subrange(k - 1, n as int);
            assert(whole.drop_first() =~= upper);
            assert(upper.last() == limbs@.last());
            lemma_limbs_positive(upper);
            lemma_decimal_split(limbs_value(upper), limb as nat, 9);
            assert(limbs_value(whole) == limb + 1_000_000_000 * limbs_value(upper));
            lemma_mul_is_commutative(1_000_000_000, limbs_value(upper) as int);
        }
        k = k - 1;
    }
    assert(limbs@.subrange(0, n as int) =~= limbs@);
    output
}

/// The decimal notation of `2^exponent`.
fn power_of_two_decimal(exponent: usize) -> (res: String)
    ensures
        res@ == decimal(pow2(exponent as nat)),
{
    let mut limbs: Vec<u32> = Vec::new();
    limbs.push(1);
    proof {
        assert(limbs@ =~= seq![1u32]);
        lemma_limbs_single(1);
        assert(pow2(0) == 1) by {
            vstd::arithmetic::power2::lemma2_to64();
        }
    }
    let mut i: usize = 0;
    while i < exponent
        invariant
            0 <= i <= exponent,
            limbs@.len() >= 1,
            limbs_bounded(limbs@),
            limbs_value(limbs@) == pow2(i as nat),
        decreases exponent - i,
    {
        scale_limbs(&mut limbs, 2, 0);
        proof {
            lemma_pow2_unfold((i + 1) as nat);
        }
        i = i + 1;
    }
    trim_limbs(&mut limbs);
    limbs_to_decimal(&limbs)
}

/// The notation that `unsigned_decimal` returns for `bytes` and `selector`.
pub open spec fn unsigned_decimal_spec(bytes: Seq<u8>, selector: u8) -> Seq<char> {
    if selector % 16 == 1 {
        decimal(0)
    } else if selector % 16 == 2 {
        decimal(1)
    } else if selector % 16 == 3 {
        let exponent = (if bytes.len() > 0 {
            bytes[0] as nat
        } else {
            0
        }) + (if bytes.len() > 1 {
            bytes[1] as nat
        } else {
            0
        }) * 256;
        decimal(
            pow2(
                if exponent < 8192 {
                    exponent
                } else {
                    8192
                },
            ),
        )
    } else {
        decimal(
            be_value(
                bytes.take(
                    if bytes.len() > 4096 {
                        4096
                    } else {
                        bytes.len() as int
                    },
                ),
            ),
        )
    }
}

/// Convert unsigned big-endian bytes to decimal without trusting any backend.
///
/// Selectors 1, 2 and 3 (modulo 16) give `0`, `1` and a power of two whose
/// exponent, at most 8192, is read from the first two bytes (little-endian);
/// otherwise the value of the first 4096 bytes.
pub fn unsigned_decimal(bytes: &[u8], selector: u8) -> (res: String)
    ensures
        res@ == unsigned_decimal_spec(bytes@, selector),
{
    if selector % 16 == 1 {
        let mut zero = String::new();
        push_decimal(&mut zero, 0);
        return zero;
    }
    if selector % 16 == 2 {
        let mut one = String::new();
        push_decimal(&mut one, 1);
        return one;
    }
    if selector % 16 == 3 {
        let low: usize = if bytes.len() > 0 {
            bytes[0] as usize
        } else {
            0
        };
        let high: usize = if bytes.len() > 1 {
            bytes[1] as usize
        } else {
            0
        };
        let exponent = low + high * 256;
        return power_of_two_decimal(
            if exponent < 8192 {
                exponent
            } else {
                8192
            },
        );
    }
    let count = if bytes.len() > 4096 {
        4096
    } else {
        bytes.len()
    };
    let mut limbs: Vec<u32> = Vec::new();
    limbs.push(0);
    proof {
        assert(limbs@ =~= seq![0u32]);
        lemma_limbs_single(0);
        assert(bytes@.take(0) =~= Seq::<u8>::empty());
    }
    let mut i: usize = 0;
    while i < count
        invariant
            0 <= i <= count <= bytes@.len(),
            limbs@.len() >= 1,
            limbs_bounded(limbs@),
            limbs_value(limbs@) == be_value(bytes@.take(i as int)),
        decreases count - i,
    {
        scale_limbs(&mut limbs, 256, bytes[i] as u64);
        proof {
            assert(bytes@.take(i + 1).drop_last() =~= bytes@.take(i as int));
        }
        i = i + 1;
    }
    trim_limbs(&mut limbs);
    limbs_to_decimal(&limbs)
}

/// `unsigned_decimal` with a minus sign when `negative` and the magnitude is
/// not zero.
pub fn signed_decimal(bytes: &[u8], negative: bool, selector: u8) -> (res: String)
    ensures
        res@ == if negative && unsigned_decimal_spec(bytes@, selector) != seq!['0'] {
            seq!['-'] + unsigned_decimal_spec(bytes@, selector)
        } else {
            unsigned_decimal_spec(bytes@, selector)
        },
{
    let magnitude = unsigned_decimal(bytes, selector);
    let text = magnitude.as_str();
    let is_zero = text.unicode_len() == 1 && text.get_char(0) == '0';
    proof {
        if magnitude@.len() == 1 {
            assert(is_zero == (magnitude@ =~= seq!['0']));
        } else {
            assert(magnitude@ != seq!['0']);
        }
    }
    if negative && !is_zero {
        let mut signed = String::new();
        push_char(&mut signed, '-');
        signed.append(magnitude.as_str());
        proof {
            assert(signed@ =~= seq!['-'] + magnitude@);
        }
        signed
    } else {
        magnitude
    }
}

/// Split `data` into `count` consecutive pieces of near-equal length: piece
/// `i` runs from `len * i / count` to `len * (i + 1) / count`.
pub fn split_evenly(data: &[u8], count: usize) -> (res: Vec<&[u8]>)
    requires
        data@.len() * count <= usize::MAX,
    ensures
        res@.len() == count,
        forall|i: int|
            #![trigger res@[i]]
            0 <= i < count ==> res@[i]@ == data@.subrange(
                data@.len() * i / count as int,
                data@.len() * (i + 1) / count as int,
            ),
{
    let mut parts: Vec<&[u8]> = Vec::new();
    if count == 0 {
        return parts;
    }
    let len = data.len();
    let mut index: usize = 0;
    while index < count
        invariant
            len == data@.len(),
            len * count <= usize::MAX,
            0 <= index <= count,
            parts@.len() == index,
            forall|i: int|
                #![trigger parts@[i]]
                0 <= i < index ==> parts@[i]@ == data@.subrange(
                    len * i / count as int,
                    len * (i + 1) / count as int,
                ),
        decreases count - index,
    {
        proof {
            lemma_mul_inequality(index as int, (index + 1) as int, len as int);
            lemma_mul_inequality((index + 1) as int, count as int, len as int);
            lemma_mul_is_commutative(index as int, len as int);
            lemma_mul_is_commutative((index + 1) as int, len as int);
            lemma_mul_is_commutative(count as int, len as int);
            lemma_div_is_ordered((len * index) as int, (len * (index + 1)) as int, count as int);
            lemma_div_is_ordered((len * (index + 1)) as int, (len * count) as int, count as int);
            lemma_div_by_multiple(len as int, count as int);
        }
        let start = len * index / count;
        let end = len * (index + 1) / count;
        parts.push(slice_subrange(data, start, end));
        index = index + 1;
    }
    parts
}

/// The lowercase hexadecimal digit of `d < 16`.
pub open spec fn hex_char(d: nat) -> char {
    if d < 10 {
        (48 + d) as char
    } else {
        (87 + d) as char
    }
}

/// Lowercase hexadecimal notation, two digits per byte.
pub open spec fn hex_spec(bytes: Seq<u8>) -> Seq<char>
    decreases bytes.len(),
{
    if bytes.len() == 0 {
        Seq::empty()
    } else {
        hex_spec(bytes.drop_last()).push(hex_char((bytes.last() / 16) as nat)).push(
            hex_char((bytes.last() % 16) as nat),
        )
    }
}

/// Hexadecimal notation writes each byte as two lowercase digits, the high
/// half first: `0`-`9` for the values below ten, `a`-`f` for the others.
pub proof fn hex_writes_two_lowercase_digits_per_byte(bytes: Seq<u8>)
    ensures
        hex_spec(bytes).len() == 2 * bytes.len(),
        forall|i: int|
            0 <= i < bytes.len() ==> hex_spec(bytes)[2 * i] == hex_char((bytes[i] / 16) as nat)
                && hex_spec(bytes)[2 * i + 1] == hex_char((bytes[i] % 16) as nat),
        forall|d: nat| d < 10 ==> #[trigger] hex_char(d) as u32 == '0' as u32 + d,
        forall|d: nat| 10 <= d < 16 ==> #[trigger] hex_char(d) as u32 == 'a' as u32 + (d - 10),
    decreases bytes.len(),
{
    if bytes.len() > 0 {
        let init = bytes.drop_last();
        hex_writes_two_lowercase_digits_per_byte(init);
        let n = init.len() as int;
        assert forall|i: int| 0 <= i < bytes.len() implies hex_spec(bytes)[2 * i] == hex_char(
            (bytes[i] / 16) as nat,
        ) && hex_spec(bytes)[2 * i + 1] == hex_char((bytes[i] % 16) as nat) by {
            if i < n {
                assert(bytes[i] == init[i]);
                assert(hex_spec(bytes)[2 * i] == hex_spec(init)[2 * i]);
                assert(hex_spec(bytes)[2 * i + 1] == hex_spec(init)[2 * i + 1]);
            }
        }
    }
}

fn hex_digit(d: u8) -> (res: char)
    requires
        d < 16,
    ensures
        res == hex_char(d as nat),
{
    if d < 10 {
        (48 + d) as char
    } else {
        (87 + d) as char
    }
}

/// Lowercase hexadecimal notation of `bytes`.
pub fn hex(bytes: &[u8]) -> (res: String)
    ensures
        res@ == hex_spec(bytes@),
{
    let mut output = String::new();
    let mut i: usize = 0;
    while i < bytes.len()
        invariant
            0 <= i <= bytes@.len(),
            output@ == hex_spec(bytes@.take(i as int)),
        decreases bytes.len() - i,
    {
        let byte = bytes[i];
        assert(byte >> 4 == byte / 16 && byte & 0x0f == byte % 16) by (bit_vector);
        push_char(&mut output, hex_digit(byte >> 4));
        push_char(&mut output, hex_digit(byte & 0x0f));
        proof {
            assert(bytes@.take(i + 1).drop_last() =~= bytes@.take(i as int));
        }
        i = i + 1;
    }
    assert(bytes@.take(bytes@.len() as int) =~= bytes@);
    output
}

/// The FNV-1a 64-bit hash of `bytes`.
pub open spec fn fnv1a64_spec(bytes: Seq<u8>) -> u64
    decreases bytes.len(),
{
    if bytes.len() == 0 {
        0xcbf2_9ce4_8422_2325
    } else {
        (fnv1a64_spec(bytes.drop_last()) ^ (bytes.last() as u64)).wrapping_mul(0x0000_0100_0000_01b3)
    }
}

/// FNV-1a over `bytes`, used to name reports.
pub fn fnv1a64(bytes: &[u8]) -> (res: u64)
    ensures
        res == fnv1a64_spec(bytes@),
{
    let mut hash: u64 = 0xcbf2_9ce4_8422_2325;
    let mut i: usize = 0;
    while i < bytes.len()
        invariant
            0 <= i <= bytes@.len(),
            hash == fnv1a64_spec(bytes@.take(i as int)),
        decreases bytes.len() - i,
    {
        hash = hash ^ (bytes[i] as u64);
        hash = hash.wrapping_mul(0x0000_0100_0000_01b3);
        proof {
            assert(bytes@.take(i + 1).drop_last() =~= bytes@.take(i as int));
        }
        i = i + 1;
    }
    assert(bytes@.take(bytes@.len() as int) =~= bytes@);
    hash
}

} // verus!
