//! Properties that hold across operations and across providers.
//!
//! Each law is stated over the contracts of the operations it relates, so it
//! holds of every value those operations return.
use vstd::prelude::*;

use crate::backend::dashu::Dashu;
use crate::backend::malachite::Malachite;
use crate::backend::mpfr::Mpfr;
use crate::capability::{ExactBinary, ExactUnary, FromParts, IntoParts};
use crate::error::Result;
use crate::number::{Integer, Natural, Rational};
use crate::operation::{Add, Mul, Neg, Sub};
use crate::ratio::{
    lemma_lowest_terms, lemma_rat_eq_sym, lemma_rat_eq_trans, lowest_terms, lowest_terms_are_unique,
    rat_eq, rat_reduced, rat_wf,
};

verus! {

/// Exact integer arithmetic agrees across providers: Dashu and Malachite give
/// the same sum, difference, product and negation of the same operands.
pub proof fn exact_integer_arithmetic_agrees(
    a: Integer,
    b: Integer,
    dashu: (Integer, Integer, Integer, Integer),
    malachite: (Integer, Integer, Integer, Integer),
)
    requires
        <Dashu as ExactBinary<Add, Integer>>::evaluates(a, b, dashu.0),
        <Dashu as ExactBinary<Sub, Integer>>::evaluates(a, b, dashu.1),
        <Dashu as ExactBinary<Mul, Integer>>::evaluates(a, b, dashu.2),
        <Dashu as ExactUnary<Neg, Integer>>::evaluates(a, dashu.3),
        <Malachite as ExactBinary<Add, Integer>>::evaluates(a, b, malachite.0),
        <Malachite as ExactBinary<Sub, Integer>>::evaluates(a, b, malachite.1),
        <Malachite as ExactBinary<Mul, Integer>>::evaluates(a, b, malachite.2),
        <Malachite as ExactUnary<Neg, Integer>>::evaluates(a, malachite.3),
    ensures
        dashu.0@ == malachite.0@,
        dashu.1@ == malachite.1@,
        dashu.2@ == malachite.2@,
        dashu.3@ == malachite.3@,
{
}

/// Exact natural arithmetic agrees across providers: Dashu and Malachite give
/// the same sum and product.
pub proof fn exact_natural_arithmetic_agrees(
    a: Natural,
    b: Natural,
    dashu: (Natural, Natural),
    malachite: (Natural, Natural),
)
    requires
        <Dashu as ExactBinary<Add, Natural>>::evaluates(a, b, dashu.0),
        <Dashu as ExactBinary<Mul, Natural>>::evaluates(a, b, dashu.1),
        <Malachite as ExactBinary<Add, Natural>>::evaluates(a, b, malachite.0),
        <Malachite as ExactBinary<Mul, Natural>>::evaluates(a, b, malachite.1),
    ensures
        dashu.0@ == malachite.0@,
        dashu.1@ == malachite.1@,
{
}

/// Exact rational arithmetic agrees across providers: Dashu and Malachite give
/// the same numerator and denominator, in lowest terms, for a sum, a
/// difference, a product and a negation.
pub proof fn exact_rational_arithmetic_agrees(
    a: Rational,
    b: Rational,
    dashu: (Rational, Rational, Rational, Rational),
    malachite: (Rational, Rational, Rational, Rational),
)
    requires
        rat_wf(a@),
        rat_wf(b@),
        <Dashu as ExactBinary<Add, Rational>>::evaluates(a, b, dashu.0),
        <Dashu as ExactBinary<Sub, Rational>>::evaluates(a, b, dashu.1),
        <Dashu as ExactBinary<Mul, Rational>>::evaluates(a, b, dashu.2),
        <Dashu as ExactUnary<Neg, Rational>>::evaluates(a, dashu.3),
        <Malachite as ExactBinary<Add, Rational>>::evaluates(a, b, malachite.0),
        <Malachite as ExactBinary<Sub, Rational>>::evaluates(a, b, malachite.1),
        <Malachite as ExactBinary<Mul, Rational>>::evaluates(a, b, malachite.2),
        <Malachite as ExactUnary<Neg, Rational>>::evaluates(a, malachite.3),
    ensures
        dashu.0@ == malachite.0@,
        dashu.1@ == malachite.1@,
        dashu.2@ == malachite.2@,
        dashu.3@ == malachite.3@,
{
    crate::ratio::lemma_rat_ops_wf(a@, b@);
    let ops = seq![
        (dashu.0@, malachite.0@, crate::ratio::rat_add(a@, b@)),
        (dashu.1@, malachite.1@, crate::ratio::rat_sub(a@, b@)),
        (dashu.2@, malachite.2@, crate::ratio::rat_mul(a@, b@)),
        (dashu.3@, malachite.3@, crate::ratio::rat_neg(a@)),
    ];
    assert forall|i: int| 0 <= i < 4 implies #[trigger] ops[i].0 == ops[i].1 by {
        let (x, y, exact) = ops[i];
        lemma_rat_eq_sym(y, exact);
        lemma_rat_eq_trans(x, exact, y);
        lowest_terms_are_unique(x, y);
    }
    assert(ops[0].0 == ops[0].1);
    assert(ops[1].0 == ops[1].1);
    assert(ops[2].0 == ops[2].1);
    assert(ops[3].0 == ops[3].1);
}

/// Subtraction undoes addition: `(a + b) - b` is `a` with either provider.
pub proof fn add_then_sub_recovers(
    a: Integer,
    b: Integer,
    dashu_sum: Integer,
    dashu_back: Integer,
    malachite_sum: Integer,
    malachite_back: Integer,
)
    requires
        <Dashu as ExactBinary<Add, Integer>>::evaluates(a, b, dashu_sum),
        <Dashu as ExactBinary<Sub, Integer>>::evaluates(dashu_sum, b, dashu_back),
        <Malachite as ExactBinary<Add, Integer>>::evaluates(a, b, malachite_sum),
        <Malachite as ExactBinary<Sub, Integer>>::evaluates(malachite_sum, b, malachite_back),
    ensures
        dashu_back@ == a@,
        malachite_back@ == a@,
{
}

/// Multiplication distributes over addition: `a * (b + c)` equals
/// `a * b + a * c` with Dashu.
pub proof fn multiplication_distributes(
    a: Integer,
    b: Integer,
    c: Integer,
    sum: Integer,
    left: Integer,
    ab: Integer,
    ac: Integer,
    right: Integer,
)
    requires
        <Dashu as ExactBinary<Add, Integer>>::evaluates(b, c, sum),
        <Dashu as ExactBinary<Mul, Integer>>::evaluates(a, sum, left),
        <Dashu as ExactBinary<Mul, Integer>>::evaluates(a, b, ab),
        <Dashu as ExactBinary<Mul, Integer>>::evaluates(a, c, ac),
        <Dashu as ExactBinary<Add, Integer>>::evaluates(ab, ac, right),
    ensures
        left@ == right@,
{
    vstd::arithmetic::mul::lemma_mul_is_distributive_add(a@, b@, c@);
}

/// Construction and decomposition are inverse up to lowest terms: the parts
/// of a rational built from `numerator / denominator` are both divided by
/// their greatest common divisor, the one representation of that number in
/// lowest terms.
pub proof fn parts_round_trip(
    numerator: Integer,
    denominator: Natural,
    built: Result<Rational>,
    parts: (Integer, Natural),
)
    requires
        denominator@ > 0,
        <Dashu as FromParts<Rational, Integer, Natural>>::constructs(numerator, denominator, built),
        built is Ok ==> <Dashu as IntoParts<Rational, Integer, Natural>>::decomposes(
            built->Ok_0,
            parts,
        ),
    ensures
        built is Ok,
        (parts.0@, parts.1@ as int) == lowest_terms(numerator@, denominator@ as int),
{
    let q = built->Ok_0@;
    let p = (parts.0@, parts.1@ as int);
    let given = (numerator@, denominator@ as int);
    let lowest = lowest_terms(numerator@, denominator@ as int);
    lemma_rat_eq_sym(q, p);
    lemma_rat_eq_trans(p, q, given);
    lemma_lowest_terms(numerator@, denominator@ as int);
    lemma_rat_eq_sym(lowest, given);
    lemma_rat_eq_trans(p, given, lowest);
    lowest_terms_are_unique(p, lowest);
}

/// Decomposition and construction are inverse: building a rational from the
/// parts of `value` succeeds and gives those parts back, the number `value`;
/// a `value` in lowest terms, as every rational the providers build, comes
/// back unchanged.
pub proof fn parts_rebuild_the_value(
    value: Rational,
    parts: (Integer, Natural),
    rebuilt: Result<Rational>,
)
    requires
        rat_wf(value@),
        <Dashu as IntoParts<Rational, Integer, Natural>>::decomposes(value, parts),
        <Dashu as FromParts<Rational, Integer, Natural>>::constructs(parts.0, parts.1, rebuilt),
    ensures
        rebuilt is Ok,
        rebuilt->Ok_0@ == (parts.0@, parts.1@ as int),
        rat_eq(rebuilt->Ok_0@, value@),
        rat_reduced(value@) ==> rebuilt->Ok_0@ == value@,
{
    let p = (parts.0@, parts.1@ as int);
    let r = rebuilt->Ok_0@;
    lowest_terms_are_unique(r, p);
    lemma_rat_eq_sym(value@, p);
    if rat_reduced(value@) {
        lowest_terms_are_unique(value@, p);
    }
}

/// Construction agrees across providers: from the same numerator and the same
/// nonzero denominator, Dashu and MPFR build the same numerator and
/// denominator in lowest terms, and both refuse a zero denominator with the
/// same error.
pub proof fn construction_agrees(
    numerator: Integer,
    dashu_denominator: Natural,
    mpfr_denominator: Integer,
    dashu: Result<Rational>,
    mpfr: Result<Rational>,
)
    requires
        dashu_denominator@ == mpfr_denominator@,
        <Dashu as FromParts<Rational, Integer, Natural>>::constructs(
            numerator,
            dashu_denominator,
            dashu,
        ),
        <Mpfr as FromParts<Rational, Integer, Integer>>::constructs(
            numerator,
            mpfr_denominator,
            mpfr,
        ),
    ensures
        dashu is Ok <==> mpfr is Ok,
        dashu is Err ==> dashu == mpfr,
        dashu is Ok ==> dashu->Ok_0@ == mpfr->Ok_0@,
{
    if dashu is Ok {
        let q = dashu->Ok_0@;
        let r = mpfr->Ok_0@;
        let given = (numerator@, dashu_denominator@ as int);
        lemma_rat_eq_sym(r, given);
        lemma_rat_eq_trans(q, given, r);
        lowest_terms_are_unique(q, r);
    }
}

} // verus!
