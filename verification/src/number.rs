//! Backend-neutral exact numbers.
//!
//! Every provider works on these plain values: a natural number as its
//! little-endian 64-bit words, an integer as a sign and a magnitude, and a
//! rational as a sign, a numerator and a positive denominator. A provider
//! turns them into its own native numbers, computes, and hands plain values
//! back.
use vstd::prelude::*;

use crate::ratio::{abs, Ratio};

verus! {

/// Value of little-endian base-2^64 words.
pub open spec fn words_value(words: Seq<u64>) -> nat
    decreases words.len(),
{
    if words.len() == 0 {
        0
    } else {
        words[0] as nat + 0x1_0000_0000_0000_0000 * words_value(words.drop_first())
    }
}

pub proof fn lemma_words_value_single(w: u64)
    ensures
        words_value(seq![w]) == w,
        words_value(Seq::<u64>::empty()) == 0,
{
    assert(seq![w].drop_first() =~= Seq::<u64>::empty());
    assert(words_value(Seq::<u64>::empty()) == 0);
    assert(words_value(seq![w]) == w as nat + 0x1_0000_0000_0000_0000 * words_value(
        Seq::<u64>::empty(),
    ));
}

/// An arbitrary-precision natural number.
#[derive(Clone, Debug)]
pub struct Natural {
    pub(crate) words: Vec<u64>,
}

impl View for Natural {
    type V = nat;

    closed spec fn view(&self) -> nat {
        words_value(self.words@)
    }
}

/// An arbitrary-precision integer.
#[derive(Clone, Debug)]
pub struct Integer {
    pub(crate) negative: bool,
    pub(crate) magnitude: Vec<u64>,
}

impl View for Integer {
    type V = int;

    closed spec fn view(&self) -> int {
        if self.negative {
            -words_value(self.magnitude@)
        } else {
            words_value(self.magnitude@) as int
        }
    }
}

/// An exact rational number with a positive denominator.
#[derive(Debug)]
pub struct Rational {
    pub(crate) negative: bool,
    pub(crate) numerator: Vec<u64>,
    pub(crate) denominator: Vec<u64>,
}

impl View for Rational {
    type V = Ratio;

    closed spec fn view(&self) -> Ratio {
        (
            if self.negative {
                -words_value(self.numerator@)
            } else {
                words_value(self.numerator@) as int
            },
            words_value(self.denominator@) as int,
        )
    }
}

impl Rational {
    /// The denominator of a rational is never zero.
    #[verifier::type_invariant]
    pub(crate) open spec fn positive_denominator(self) -> bool {
        self@.1 > 0
    }
}

fn copy_words(words: &Vec<u64>) -> (res: Vec<u64>)
    ensures
        res@ == words@,
{
    let mut res: Vec<u64> = Vec::new();
    let mut i: usize = 0;
    while i < words.len()
        invariant
            i <= words.len(),
            res@ == words@.subrange(0, i as int),
        decreases words.len() - i,
    {
        res.push(words[i]);
        i = i + 1;
    }
    assert(res@ =~= words@);
    res
}

impl Natural {
    pub fn zero() -> (res: Natural)
        ensures
            res@ == 0,
    {
        Natural { words: Vec::new() }
    }

    pub fn from_u64(value: u64) -> (res: Natural)
        ensures
            res@ == value,
    {
        let mut words: Vec<u64> = Vec::new();
        words.push(value);
        proof {
            lemma_words_value_single(value);
            assert(words@ =~= seq![value]);
        }
        Natural { words }
    }

    /// The natural number with the given little-endian 64-bit words.
    pub fn from_words(words: Vec<u64>) -> (res: Natural)
        ensures
            res@ == words_value(words@),
    {
        Natural { words }
    }

    /// The little-endian 64-bit words of the number.
    pub fn words(&self) -> (res: &[u64])
        ensures
            words_value(res@) == self@,
    {
        self.words.as_slice()
    }

    /// The value, when it fits in a `u64`.
    pub fn to_u64(&self) -> (res: Option<u64>)
        ensures
            res == (if self@ <= u64::MAX {
                Some(self@ as u64)
            } else {
                None::<u64>
            }),
    {
        words_to_u64(&self.words)
    }

    /// A copy of the number.
    pub fn duplicate(&self) -> (res: Natural)
        ensures
            res@ == self@,
    {
        Natural { words: copy_words(&self.words) }
    }
}

impl Integer {
    pub fn zero() -> (res: Integer)
        ensures
            res@ == 0,
    {
        Integer { negative: false, magnitude: Vec::new() }
    }

    /// The integer `-magnitude` when `negative`, else `magnitude`.
    pub fn from_sign_magnitude(negative: bool, magnitude: u64) -> (res: Integer)
        ensures
            res@ == (if negative {
                -magnitude
            } else {
                magnitude as int
            }),
    {
        let mut words: Vec<u64> = Vec::new();
        words.push(magnitude);
        proof {
            lemma_words_value_single(magnitude);
            assert(words@ =~= seq![magnitude]);
        }
        Integer { negative, magnitude: words }
    }

    pub fn from_i64(value: i64) -> (res: Integer)
        ensures
            res@ == value,
    {
        if value < 0 {
            let magnitude: u64 = (-(value as i128)) as u64;
            Integer::from_sign_magnitude(true, magnitude)
        } else {
            Integer::from_sign_magnitude(false, value as u64)
        }
    }

    /// The integer with the given sign and magnitude.
    pub fn from_natural(negative: bool, magnitude: Natural) -> (res: Integer)
        ensures
            res@ == (if negative {
                -magnitude@
            } else {
                magnitude@ as int
            }),
    {
        Integer { negative, magnitude: magnitude.words }
    }

    /// The magnitude `|self|`.
    pub fn unsigned_abs(&self) -> (res: Natural)
        ensures
            res@ == abs(self@),
    {
        Natural { words: copy_words(&self.magnitude) }
    }

    /// The value is below zero.
    pub fn is_negative(&self) -> (res: bool)
        ensures
            res == (self@ < 0),
    {
        if self.negative {
            // A negative sign on a zero magnitude still denotes zero.
            !words_all_zero(&self.magnitude)
        } else {
            false
        }
    }

    /// The value, when it fits in an `i64`.
    pub fn to_i64(&self) -> (res: Option<i64>)
        ensures
            res == (if i64::MIN <= self@ <= i64::MAX {
                Some(self@ as i64)
            } else {
                None::<i64>
            }),
    {
        match words_to_u64(&self.magnitude) {
            None => None,
            Some(m) => {
                if self.negative {
                    if m <= 0x8000_0000_0000_0000 {
                        Some((-(m as i128)) as i64)
                    } else {
                        None
                    }
                } else if m <= 0x7fff_ffff_ffff_ffff {
                    Some(m as i64)
                } else {
                    None
                }
            },
        }
    }

    /// The value is zero.
    pub fn is_zero(&self) -> (res: bool)
        ensures
            res == (self@ == 0),
    {
        words_all_zero(&self.magnitude)
    }

    /// The number with the opposite sign.
    pub fn negated(self) -> (res: Integer)
        ensures
            res@ == -self@,
    {
        Integer { negative: !self.negative, magnitude: self.magnitude }
    }

    /// A copy of the number.
    pub fn duplicate(&self) -> (res: Integer)
        ensures
            res@ == self@,
    {
        Integer { negative: self.negative, magnitude: copy_words(&self.magnitude) }
    }
}

/// The words denote zero.
fn words_all_zero(words: &Vec<u64>) -> (res: bool)
    ensures
        res == (words_value(words@) == 0),
{
    let mut i: usize = words.len();
    while i > 0
        invariant
            i <= words.len(),
            words_value(words@.subrange(i as int, words.len() as int)) == 0,
        decreases i,
    {
        let ghost tail = words@.subrange(i as int, words.len() as int);
        assert(words@.subrange(i - 1, words.len() as int).drop_first() =~= tail);
        if words[i - 1] != 0 {
            proof {
                lemma_words_value_nonzero_prefix(words@, (i - 1) as int);
            }
            return false;
        }
        i = i - 1;
    }
    assert(words@.subrange(0, words.len() as int) =~= words@);
    true
}

/// The value of the words, when it fits in one word.
fn words_to_u64(words: &Vec<u64>) -> (res: Option<u64>)
    ensures
        res == (if words_value(words@) <= u64::MAX {
            Some(words_value(words@) as u64)
        } else {
            None::<u64>
        }),
{
    if words.len() == 0 {
        return Some(0);
    }
    let mut i: usize = words.len();
    while i > 1
        invariant
            1 <= i <= words.len(),
            words_value(words@.subrange(i as int, words.len() as int)) == 0,
        decreases i,
    {
        let ghost tail = words@.subrange(i as int, words.len() as int);
        assert(words@.subrange(i - 1, words.len() as int).drop_first() =~= tail);
        if words[i - 1] != 0 {
            proof {
                lemma_words_value_nonzero_prefix(words@.drop_first(), (i - 2) as int);
                assert(words_value(words@) >= 0x1_0000_0000_0000_0000);
            }
            return None;
        }
        i = i - 1;
    }
    assert(words@.subrange(1, words.len() as int) =~= words@.drop_first());
    Some(words[0])
}

/// A nonzero word at position `k` makes the value nonzero.
proof fn lemma_words_value_nonzero_prefix(words: Seq<u64>, k: int)
    requires
        0 <= k < words.len(),
        words[k] != 0,
    ensures
        words_value(words) > 0,
    decreases k,
{
    if k > 0 {
        lemma_words_value_nonzero_prefix(words.drop_first(), k - 1);
    }
}

impl Rational {
    pub fn zero() -> (res: Rational)
        ensures
            res@ == (0int, 1int),
    {
        let mut one: Vec<u64> = Vec::new();
        one.push(1);
        proof {
            lemma_words_value_single(1);
            assert(one@ =~= seq![1u64]);
            lemma_words_value_single(0);
        }
        Rational { negative: false, numerator: Vec::new(), denominator: one }
    }

    /// The rational `numerator / denominator` for a positive denominator, as
    /// given (not reduced).
    pub fn from_integers(numerator: Integer, denominator: Integer) -> (res: Rational)
        requires
            denominator@ > 0,
        ensures
            res@ == (numerator@, denominator@),
    {
        Rational {
            negative: numerator.negative,
            numerator: numerator.magnitude,
            denominator: denominator.magnitude,
        }
    }

    /// The integer `value` as a rational.
    pub fn from_integer(value: Integer) -> (res: Rational)
        ensures
            res@ == (value@, 1int),
    {
        let mut one: Vec<u64> = Vec::new();
        one.push(1);
        proof {
            lemma_words_value_single(1);
            assert(one@ =~= seq![1u64]);
        }
        Rational { negative: value.negative, numerator: value.magnitude, denominator: one }
    }

    /// The numerator, with the sign of the number.
    pub fn numerator(&self) -> (res: Integer)
        ensures
            res@ == self@.0,
    {
        Integer { negative: self.negative, magnitude: copy_words(&self.numerator) }
    }

    /// The denominator, which is positive.
    pub fn denominator(&self) -> (res: Natural)
        ensures
            res@ == self@.1,
            res@ > 0,
    {
        proof {
            use_type_invariant(self);
        }
        Natural { words: copy_words(&self.denominator) }
    }

    /// A copy of the number.
    pub fn duplicate(&self) -> (res: Rational)
        ensures
            res@ == self@,
    {
        proof {
            use_type_invariant(self);
        }
        Rational {
            negative: self.negative,
            numerator: copy_words(&self.numerator),
            denominator: copy_words(&self.denominator),
        }
    }
}

} // verus!
