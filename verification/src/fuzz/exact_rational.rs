//! Keys by which the exact-rational target compares providers.
use vstd::prelude::*;

use crate::backend::dashu::{ibig_decimal, ubig_decimal, Dashu};
use crate::capability::IntoParts;
use crate::decimal::{decimal, push_char, signed_decimal_notation};
use crate::number::Rational;
use crate::ratio::{lemma_rat_eq_sym, lemma_rat_eq_trans, lowest_terms_are_unique, rat_eq, rat_reduced};

verus! {

/// The key `numerator/denominator` of a rational in lowest terms.
pub open spec fn rational_key(numerator: int, denominator: int) -> Seq<char> {
    signed_decimal_notation(numerator) + seq!['/'] + decimal(denominator as nat)
}

/// The key of the value Dashu gives back in lowest terms: its numerator and
/// its denominator in decimal, joined by a slash. Lowest terms are unique, so
/// the key is that of every representation of the value in lowest terms.
pub fn dashu_key(value: Rational) -> (res: String)
    ensures
        exists|numerator: int, denominator: int|
            rat_eq(value@, (numerator, denominator)) && rat_reduced((numerator, denominator)),
        forall|numerator: int, denominator: int|
            rat_eq(value@, (numerator, denominator)) && rat_reduced((numerator, denominator))
                ==> res@ == #[trigger] rational_key(numerator, denominator),
{
    proof {
        use_type_invariant(&value);
    }
    let ghost q = value@;
    let (numerator, denominator) = <Dashu as IntoParts<Rational, _, _>>::into_parts(value);
    let mut key = ibig_decimal(&numerator);
    push_char(&mut key, '/');
    let tail = ubig_decimal(&denominator);
    key.append(tail.as_str());
    let ghost parts = (numerator@, denominator@ as int);
    assert(key@ =~= rational_key(parts.0, parts.1));
    proof {
        assert(rat_eq(q, parts) && rat_reduced(parts));
        assert forall|n: int, d: int|
            rat_eq(q, (n, d)) && rat_reduced((n, d)) implies key@ == #[trigger] rational_key(
            n,
            d,
        ) by {
            lemma_rat_eq_sym(q, parts);
            lemma_rat_eq_trans(parts, q, (n, d));
            lowest_terms_are_unique(parts, (n, d));
        }
    }
    key
}

} // verus!
