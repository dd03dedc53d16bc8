//! Independent oracles of the exact-integer target: bit lengths, the names of
//! orderings and Euclid's algorithm run on each provider's remainder.
use core::cmp::Ordering;
use vstd::arithmetic::div_mod::*;
use vstd::arithmetic::mul::*;
use vstd::arithmetic::power2::{lemma_pow2_unfold, pow2};
use vstd::prelude::*;

use crate::backend::dashu::{ubig_is_zero, ubig_rem};
use crate::backend::malachite::{natural_is_zero, natural_rem};
use crate::fuzz::be_value;
use crate::number::Natural;
use crate::ratio::gcd;

verus! {

/// The name of an ordering in reports.
pub fn ordering_name(value: Ordering) -> (res: &'static str)
    ensures
        value == Ordering::Less ==> res == "less",
        value == Ordering::Equal ==> res == "equal",
        value == Ordering::Greater ==> res == "greater",
{
    match value {
        Ordering::Less => "less",
        Ordering::Equal => "equal",
        Ordering::Greater => "greater",
    }
}

/// The number of binary digits of `n` (zero for zero).
pub open spec fn bit_length(n: nat) -> nat
    decreases n,
{
    if n == 0 {
        0
    } else {
        1 + bit_length(n / 2)
    }
}

/// Appending `k` low bits below a nonzero number adds `k` to its length.
proof fn lemma_bit_length_shift(v: nat, r: nat, k: nat)
    requires
        v > 0,
        r < pow2(k),
    ensures
        bit_length(v * pow2(k) + r) == bit_length(v) + k,
    decreases k,
{
    if k == 0 {
        vstd::arithmetic::power2::lemma2_to64();
        assert(r == 0);
        assert(v * pow2(0) == v) by {
            lemma_mul_basics(v as int);
        }
    } else {
        let j = (k - 1) as nat;
        lemma_pow2_unfold(k);
        vstd::arithmetic::power2::lemma_pow2_pos(j);
        let p = pow2(j);
        assert(pow2(k) == 2 * p);
        let n = v * pow2(k) + r;
        assert(v * (2 * p) == 2 * (v * p)) by {
            lemma_mul_is_associative(v as int, 2, p as int);
            lemma_mul_is_commutative(v as int, 2);
            lemma_mul_is_associative(2, v as int, p as int);
        }
        lemma_fundamental_div_mod(r as int, 2);
        let half = v * p + r / 2;
        assert(n == 2 * half + r % 2);
        lemma_fundamental_div_mod_converse(n as int, 2, half as int, (r % 2) as int);
        assert(r / 2 < p) by {
            lemma_div_by_multiple_is_strongly_ordered(r as int, (2 * p) as int, p as int, 2);
        }
        assert(v * p >= 1) by {
            lemma_mul_increases(p as int, v as int);
            lemma_mul_is_commutative(p as int, v as int);
        }
        lemma_bit_length_shift(v, r / 2, j);
    }
}

/// A byte below a nonzero number adds eight bits.
proof fn lemma_bit_length_byte(v: nat, b: u8)
    requires
        v > 0,
    ensures
        bit_length(v * 256 + b as nat) == bit_length(v) + 8,
{
    vstd::arithmetic::power2::lemma2_to64();
    lemma_bit_length_shift(v, b as nat, 8);
}

/// The bit length of one byte.
fn byte_bit_length(byte: u8) -> (res: usize)
    ensures
        res == bit_length(byte as nat),
        res <= 8,
{
    proof {
        vstd::arithmetic::power2::lemma2_to64();
        lemma_bit_length_below(byte as nat, 8);
    }
    let mut rest: u8 = byte;
    let mut count: usize = 0;
    while rest > 0
        invariant
            count + bit_length(rest as nat) == bit_length(byte as nat),
            bit_length(byte as nat) <= 8,
        decreases rest,
    {
        assert(bit_length(rest as nat) == 1 + bit_length((rest / 2) as nat));
        rest = rest / 2;
        count = count + 1;
    }
    count
}

/// A number below `2^k` has at most `k` bits.
proof fn lemma_bit_length_below(n: nat, k: nat)
    requires
        n < pow2(k),
    ensures
        bit_length(n) <= k,
    decreases k,
{
    if n > 0 && k > 0 {
        lemma_pow2_unfold(k);
        assert(n / 2 < pow2((k - 1) as nat)) by {
            lemma_div_by_multiple_is_strongly_ordered(
                n as int,
                pow2(k) as int,
                pow2((k - 1) as nat) as int,
                2,
            );
        }
        lemma_bit_length_below(n / 2, (k - 1) as nat);
    } else if n > 0 {
        vstd::arithmetic::power2::lemma2_to64();
    }
}

/// The bit length of the big-endian number `bytes`, computed from the bytes
/// alone: eight bits for every byte after the first nonzero one, plus the
/// length of that byte.
pub fn independent_bit_length(bytes: &[u8]) -> (res: usize)
    requires
        bytes@.len() * 8 <= usize::MAX,
    ensures
        res == bit_length(be_value(bytes@)),
{
    let mut bits: usize = 0;
    let mut i: usize = 0;
    while i < bytes.len()
        invariant
            i <= bytes@.len(),
            bytes@.len() * 8 <= usize::MAX,
            bits == bit_length(be_value(bytes@.subrange(0, i as int))),
            bits <= i * 8,
        decreases bytes@.len() - i,
    {
        let ghost prefix = bytes@.subrange(0, i as int);
        let ghost next = bytes@.subrange(0, i + 1);
        assert(next.drop_last() =~= prefix);
        assert(be_value(next) == be_value(prefix) * 256 + bytes@[i as int]);
        if bits == 0 {
            proof {
                if be_value(prefix) > 0 {
                    assert(bit_length(be_value(prefix)) >= 1);
                }
                assert(be_value(prefix) == 0);
            }
            bits = byte_bit_length(bytes[i]);
        } else {
            proof {
                lemma_bit_length_byte(be_value(prefix), bytes@[i as int]);
            }
            bits = bits + 8;
        }
        i = i + 1;
    }
    assert(bytes@.subrange(0, bytes@.len() as int) =~= bytes@);
    bits
}

/// The greatest common divisor by Euclid's algorithm on dashu's remainder.
pub fn gcd_dashu(lhs: Natural, rhs: Natural) -> (res: Natural)
    ensures
        res@ == gcd(lhs@, rhs@),
{
    let mut lhs = lhs;
    let mut rhs = rhs;
    let ghost expected = gcd(lhs@, rhs@);
    while !ubig_is_zero(&rhs)
        invariant
            gcd(lhs@, rhs@) == expected,
        decreases rhs@,
    {
        let remainder = ubig_rem(&lhs, &rhs);
        proof {
            lemma_mod_bound(lhs@ as int, rhs@ as int);
        }
        lhs = rhs;
        rhs = remainder;
    }
    lhs
}

/// The greatest common divisor by Euclid's algorithm on malachite's remainder.
pub fn gcd_malachite(lhs: Natural, rhs: Natural) -> (res: Natural)
    ensures
        res@ == gcd(lhs@, rhs@),
{
    let mut lhs = lhs;
    let mut rhs = rhs;
    let ghost expected = gcd(lhs@, rhs@);
    while !natural_is_zero(&rhs)
        invariant
            gcd(lhs@, rhs@) == expected,
        decreases rhs@,
    {
        let remainder = natural_rem(&lhs, &rhs);
        proof {
            lemma_mod_bound(lhs@ as int, rhs@ as int);
        }
        lhs = rhs;
        rhs = remainder;
    }
    lhs
}

proof fn lemma_mod_bound(a: int, b: int)
    requires
        a >= 0,
        b > 0,
    ensures
        0 <= a % b < b,
{
    lemma_mod_pos_bound(a, b);
}

} // verus!
