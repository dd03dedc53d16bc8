//! Decimal notation of natural numbers.
use vstd::arithmetic::div_mod::*;
use vstd::arithmetic::mul::*;
use vstd::arithmetic::power::{lemma_pow_positive, pow};
use vstd::prelude::*;

verus! {

/// The character of a decimal digit.
pub open spec fn digit_char(d: nat) -> char {
    (48 + d) as char
}

/// The decimal notation of `n`, without leading zeros (`"0"` for zero).
pub open spec fn decimal(n: nat) -> Seq<char>
    decreases n,
{
    if n < 10 {
        seq![digit_char(n)]
    } else {
        decimal(n / 10).push(digit_char(n % 10))
    }
}

/// The last `width` decimal digits of `n`, padded with leading zeros.
pub open spec fn padded(n: nat, width: nat) -> Seq<char>
    decreases width,
{
    if width == 0 {
        Seq::empty()
    } else {
        padded(n / 10, (width - 1) as nat).push(digit_char(n % 10))
    }
}

/// The notation of an integer: a minus sign before a negative magnitude.
pub open spec fn signed_decimal_notation(n: int) -> Seq<char> {
    if n < 0 {
        seq!['-'] + decimal((-n) as nat)
    } else {
        decimal(n as nat)
    }
}

/// Digits of `a * 10^width + c` are the digits of a nonzero `a` followed by
/// the `width` padded digits of `c`.
pub proof fn lemma_decimal_split(a: nat, c: nat, width: nat)
    requires
        a > 0,
        c < pow(10, width),
    ensures
        decimal(a * pow(10, width) as nat + c) == decimal(a) + padded(c, width),
    decreases width,
{
    if width == 0 {
        assert(pow(10, 0) == 1) by {
            vstd::arithmetic::power::lemma_pow0(10);
        }
        assert(c == 0);
        assert(pow(10, width) == 1);
        assert(a * 1 == a);
        assert(a * pow(10, width) as nat + c == a);
        assert(decimal(a) + padded(c, 0) =~= decimal(a));
    } else {
        let w = (width - 1) as nat;
        vstd::arithmetic::power::lemma_pow_adds(10, w, 1);
        vstd::arithmetic::power::lemma_pow1(10);
        lemma_pow_positive(10, w);
        let p = pow(10, w) as nat;
        assert(pow(10, width) == p * 10);
        let n = a * pow(10, width) as nat + c;
        // n = 10 * (a * p + c / 10) + c % 10
        lemma_fundamental_div_mod(c as int, 10);
        assert(c / 10 < p) by {
            lemma_div_is_ordered(c as int, (p * 10 - 1) as int, 10);
            lemma_div_by_multiple_is_strongly_ordered(c as int, (p * 10) as int, p as int, 10);
        }
        assert(a * (p * 10) == (a * p) * 10) by {
            lemma_mul_is_associative(a as int, p as int, 10);
        }
        let head: nat = a * p + c / 10;
        assert(n == head * 10 + c % 10) by {
            lemma_mul_is_distributive_add_other_way(10, (a * p) as int, (c / 10) as int);
        }
        lemma_fundamental_div_mod_converse(n as int, 10, head as int, (c % 10) as int);
        assert(a * p >= 1) by {
            lemma_mul_increases(p as int, a as int);
            lemma_mul_is_commutative(p as int, a as int);
        }
        assert(n >= 10);
        lemma_decimal_split(a, c / 10, w);
        assert(decimal(n) == decimal(head).push(digit_char(c % 10)));
        assert(decimal(a) + padded(c, width) =~= (decimal(a) + padded(c / 10, w)).push(
            digit_char(c % 10),
        ));
        assert(a * pow(10, width) as nat + c == n);
        assert(a * pow(10, w) as nat + c / 10 == head);
    }
}

/// Every decimal digit of a number is an ASCII digit and the first is not a
/// leading zero unless the number is zero.
pub proof fn lemma_decimal_zero(n: nat)
    ensures
        (decimal(n) == seq!['0']) == (n == 0),
        decimal(n).len() >= 1,
    decreases n,
{
    if n >= 10 {
        lemma_decimal_zero(n / 10);
        assert(decimal(n).len() >= 2);
    } else if n > 0 {
        assert(digit_char(n) != '0');
        assert(decimal(n) =~= seq![digit_char(n)]);
        assert(seq![digit_char(n)][0] != seq!['0'][0]);
    }
}

/// `String::push`: appends one character.
#[verifier::external_body]
pub(crate) fn push_char(out: &mut String, c: char)
    ensures
        final(out)@ == old(out)@.push(c),
{
    out.push(c)
}

/// The character of the decimal digit `d`.
pub fn digit(d: u32) -> (res: char)
    requires
        d < 10,
    ensures
        res == digit_char(d as nat),
{
    ((48 + d) as u8) as char
}

/// Append the decimal notation of `n`.
pub fn push_decimal(out: &mut String, n: u32)
    ensures
        final(out)@ == old(out)@ + decimal(n as nat),
    decreases n,
{
    if n >= 10 {
        push_decimal(out, n / 10);
    }
    push_char(out, digit(n % 10));
    proof {
        if n >= 10 {
            assert(decimal(n as nat) == decimal((n / 10) as nat).push(digit_char((n % 10) as nat)));
        }
    }
    assert(final(out)@ =~= old(out)@ + decimal(n as nat));
}

/// Append the last `width` digits of `n`, padded with leading zeros.
pub fn push_padded(out: &mut String, n: u32, width: u32)
    ensures
        final(out)@ == old(out)@ + padded(n as nat, width as nat),
    decreases width,
{
    if width > 0 {
        push_padded(out, n / 10, width - 1);
        push_char(out, digit(n % 10));
    }
    assert(final(out)@ =~= old(out)@ + padded(n as nat, width as nat));
}

} // verus!
