//! The decimal oracle of the primitive-cast target: which boundary value to
//! cast, and the order of decimal integers compared as text.
use crate::decimal::{decimal, digit_char, signed_decimal_notation};
use core::cmp::Ordering;
use vstd::arithmetic::div_mod::{lemma_fundamental_div_mod, lemma_fundamental_div_mod_converse};
use vstd::arithmetic::power::{lemma_pow1, lemma_pow_adds, lemma_pow_increases, pow};
use vstd::prelude::*;
use vstd::utf8::{encode_scalar, encode_utf8};

verus! {

/// The value that a probe casts. `Text` is final; the other two are
/// arithmetic on the decimal `base` that the caller's big integers finish.
#[derive(Clone, Debug)]
pub enum BoundaryValue {
    Text(String),
    /// `base + delta`.
    Offset { base: String, delta: i32 },
    /// The power of two with as many bits as `maximum` (`above`), or one bit
    /// fewer.
    PowerOfTwoNear { maximum: String, above: bool },
}

/// The boundary value a selector picks: the arbitrary value, the range ends,
/// their neighbours, zero, one, minus one, or a power of two around the
/// maximum.
pub fn boundary_value(
    source_is_signed: bool,
    selector: u8,
    minimum: &str,
    maximum: &str,
    arbitrary: &str,
) -> (res: BoundaryValue)
    ensures
        selector % 12 == 0 ==> (res matches BoundaryValue::Text(t) && t@ == arbitrary@),
        selector % 12 == 1 && source_is_signed ==> (res matches BoundaryValue::Text(t) && t@
            == minimum@),
        selector % 12 == 1 && !source_is_signed ==> (res matches BoundaryValue::Text(t) && t@
            == "0"@),
        selector % 12 == 2 ==> (res matches BoundaryValue::Text(t) && t@ == maximum@),
        selector % 12 == 3 && source_is_signed ==> (res matches BoundaryValue::Offset {
            base,
            delta,
        } && base@ == minimum@ && delta == -1),
        selector % 12 == 3 && !source_is_signed ==> (res matches BoundaryValue::Text(t) && t@
            == "0"@),
        selector % 12 == 4 ==> (res matches BoundaryValue::Offset { base, delta } && base@
            == maximum@ && delta == 1),
        selector % 12 == 5 ==> (res matches BoundaryValue::Text(t) && t@ == "0"@),
        selector % 12 == 6 ==> (res matches BoundaryValue::Text(t) && t@ == "1"@),
        selector % 12 == 7 && source_is_signed ==> (res matches BoundaryValue::Text(t) && t@
            == "-1"@),
        selector % 12 == 7 && !source_is_signed ==> (res matches BoundaryValue::Text(t) && t@
            == "0"@),
        selector % 12 == 8 ==> (res matches BoundaryValue::Offset { base, delta } && base@
            == maximum@ && delta == -1),
        selector % 12 == 9 && source_is_signed ==> (res matches BoundaryValue::Offset {
            base,
            delta,
        } && base@ == minimum@ && delta == 1),
        selector % 12 == 9 && !source_is_signed ==> (res matches BoundaryValue::Text(t) && t@
            == "1"@),
        selector % 12 == 10 ==> (res matches BoundaryValue::PowerOfTwoNear { maximum: m, above }
            && m@ == maximum@ && !above),
        selector % 12 == 11 ==> (res matches BoundaryValue::PowerOfTwoNear { maximum: m, above }
            && m@ == maximum@ && above),
{
    match selector % 12 {
        0 => BoundaryValue::Text(String::from_str(arbitrary)),
        1 => BoundaryValue::Text(
            String::from_str(
                if source_is_signed {
                    minimum
                } else {
                    "0"
                },
            ),
        ),
        2 => BoundaryValue::Text(String::from_str(maximum)),
        3 => {
            if source_is_signed {
                BoundaryValue::Offset { base: String::from_str(minimum), delta: -1 }
            } else {
                BoundaryValue::Text(String::from_str("0"))
            }
        },
        4 => BoundaryValue::Offset { base: String::from_str(maximum), delta: 1 },
        5 => BoundaryValue::Text(String::from_str("0")),
        6 => BoundaryValue::Text(String::from_str("1")),
        7 => BoundaryValue::Text(
            String::from_str(
                if source_is_signed {
                    "-1"
                } else {
                    "0"
                },
            ),
        ),
        8 => BoundaryValue::Offset { base: String::from_str(maximum), delta: -1 },
        9 => {
            if source_is_signed {
                BoundaryValue::Offset { base: String::from_str(minimum), delta: 1 }
            } else {
                BoundaryValue::Text(String::from_str("1"))
            }
        },
        10 => BoundaryValue::PowerOfTwoNear { maximum: String::from_str(maximum), above: false },
        _ => BoundaryValue::PowerOfTwoNear { maximum: String::from_str(maximum), above: true },
    }
}

// ---------------------------------------------------------------------------
// Decimal integers compared as text.
// ---------------------------------------------------------------------------

/// The text without its leading `+` signs.
pub open spec fn trim_plus(s: Seq<char>) -> Seq<char>
    decreases s.len(),
{
    if s.len() > 0 && s[0] == '+' {
        trim_plus(s.drop_first())
    } else {
        s
    }
}

/// The text without its leading zeros.
pub open spec fn trim_zeros(s: Seq<char>) -> Seq<char>
    decreases s.len(),
{
    if s.len() > 0 && s[0] == '0' {
        trim_zeros(s.drop_first())
    } else {
        s
    }
}

/// The sign and the digits of a decimal integer: a leading `-` marks a
/// negative value unless only `0` follows it; otherwise leading `+` signs are
/// dropped.
pub open spec fn sign_split(s: Seq<char>) -> (bool, Seq<char>) {
    if s.len() > 0 && s[0] == '-' && s.drop_first() != seq!['0'] {
        (true, s.drop_first())
    } else {
        (false, trim_plus(s))
    }
}

/// The digits without leading zeros; zero is `"0"`.
pub open spec fn canonical_digits(s: Seq<char>) -> Seq<char> {
    if trim_zeros(s).len() == 0 {
        seq!['0']
    } else {
        trim_zeros(s)
    }
}

/// Lexicographic order of two texts by code point; `-1`, `0` or `1`.
pub open spec fn lexicographic(a: Seq<char>, b: Seq<char>) -> int
    decreases a.len(),
{
    if a.len() == 0 {
        if b.len() == 0 {
            0
        } else {
            -1
        }
    } else if b.len() == 0 {
        1
    } else if (a[0] as u32) < (b[0] as u32) {
        -1
    } else if (a[0] as u32) > (b[0] as u32) {
        1
    } else {
        lexicographic(a.drop_first(), b.drop_first())
    }
}

/// The order of two digit strings as numbers: the canonical digits compared
/// first by the length of their UTF-8 encoding, then lexicographically; `-1`,
/// `0` or `1`. On digit strings this is the order of the numbers
/// (`magnitude_order_is_number_order`).
pub open spec fn magnitude_order(a: Seq<char>, b: Seq<char>) -> int {
    let x = canonical_digits(a);
    let y = canonical_digits(b);
    if encode_utf8(x).len() < encode_utf8(y).len() {
        -1
    } else if encode_utf8(x).len() > encode_utf8(y).len() {
        1
    } else {
        lexicographic(x, y)
    }
}

/// The order of two decimal integers; `-1`, `0` or `1`. On decimal integer
/// texts this is the order of the integers (`decimal_order_is_integer_order`).
pub open spec fn decimal_order(a: Seq<char>, b: Seq<char>) -> int {
    let (a_negative, a_digits) = sign_split(a);
    let (b_negative, b_digits) = sign_split(b);
    if a_negative && !b_negative {
        -1
    } else if !a_negative && b_negative {
        1
    } else if !a_negative {
        magnitude_order(a_digits, b_digits)
    } else {
        magnitude_order(b_digits, a_digits)
    }
}

/// The sign of an integer: `-1`, `0` or `1`.
pub open spec fn sign_of(d: int) -> int {
    if d < 0 {
        -1
    } else if d == 0 {
        0
    } else {
        1
    }
}

/// Every character of `s` is a decimal digit.
pub open spec fn all_digits(s: Seq<char>) -> bool {
    forall|i: int| 0 <= i < s.len() ==> 48 <= #[trigger] s[i] as u32 <= 57
}

/// The number that the digit string `s` denotes; zero for the empty string.
pub open spec fn digits_value(s: Seq<char>) -> nat
    decreases s.len(),
{
    if s.len() == 0 {
        0
    } else {
        10 * digits_value(s.drop_last()) + (s.last() as u32 - 48) as nat
    }
}

/// A decimal integer as text: digits, or a minus sign before digits that
/// denote a nonzero number.
pub open spec fn signed_digits(s: Seq<char>) -> bool {
    ||| all_digits(s)
    ||| s.len() > 0 && s[0] == '-' && all_digits(s.drop_first()) && digits_value(s.drop_first()) > 0
}

/// The integer that a text of `signed_digits` denotes.
pub open spec fn signed_digits_value(s: Seq<char>) -> int {
    if s.len() > 0 && s[0] == '-' {
        -(digits_value(s.drop_first()) as int)
    } else {
        digits_value(s) as int
    }
}

/// Digits are ASCII, one byte each in UTF-8.
proof fn lemma_digits_ascii(s: Seq<char>)
    requires
        all_digits(s),
    ensures
        encode_utf8(s).len() == s.len(),
    decreases s.len(),
{
    if s.len() > 0 {
        let t = s.drop_first();
        assert(all_digits(t)) by {
            assert forall|i: int| 0 <= i < t.len() implies 48 <= #[trigger] t[i] as u32 <= 57 by {
                assert(t[i] == s[i + 1]);
            }
        }
        lemma_digits_ascii(t);
        assert(48 <= s[0] as u32 <= 57);
        assert(encode_scalar(s[0] as u32).len() == 1);
    }
}

/// A character is the character of its code point.
proof fn lemma_code_point_round_trip(c: char)
    ensures
        (c as u32) as char == c,
{
}

/// Appending a character to a text: its leading zeros are those of the text,
/// unless the text is all zeros.
proof fn lemma_trim_zeros_push(a: Seq<char>, c: char)
    ensures
        trim_zeros(a.push(c)) == if trim_zeros(a).len() == 0 {
            trim_zeros(seq![c])
        } else {
            trim_zeros(a).push(c)
        },
    decreases a.len(),
{
    if a.len() == 0 {
        assert(a.push(c) =~= seq![c]);
    } else if a[0] == '0' {
        assert(a.push(c).drop_first() =~= a.drop_first().push(c));
        lemma_trim_zeros_push(a.drop_first(), c);
    }
}

/// The canonical digits of a digit string are the notation of its number,
/// and it has no digit but zeros exactly when that number is zero.
proof fn lemma_digits_canonical(s: Seq<char>)
    requires
        all_digits(s),
    ensures
        canonical_digits(s) == decimal(digits_value(s)),
        (trim_zeros(s).len() == 0) == (digits_value(s) == 0),
    decreases s.len(),
{
    if s.len() == 0 {
        assert(decimal(0) =~= seq![digit_char(0)]);
        assert(digit_char(0) == '0');
    } else {
        let a = s.drop_last();
        let c = s.last();
        assert(s =~= a.push(c));
        assert(all_digits(a)) by {
            assert forall|i: int| 0 <= i < a.len() implies 48 <= #[trigger] a[i] as u32 <= 57 by {
                assert(a[i] == s[i]);
            }
        }
        assert(48 <= s[s.len() - 1] as u32 <= 57);
        lemma_digits_canonical(a);
        lemma_trim_zeros_push(a, c);
        let va = digits_value(a);
        let d = (c as u32 - 48) as nat;
        let v = digits_value(s);
        assert(v == 10 * va + d);
        assert(c as u32 >= 48);
        assert(48 + d == c as u32);
        lemma_code_point_round_trip(c);
        assert(digit_char(d) == c);
        assert(seq![c].drop_first() =~= Seq::<char>::empty());
        assert(trim_zeros(Seq::<char>::empty()) == Seq::<char>::empty());
        assert(trim_zeros(s) == trim_zeros(a.push(c)));
        if va == 0 {
            assert(trim_zeros(s) == trim_zeros(seq![c]));
            assert(v == d);
            assert(decimal(d) =~= seq![digit_char(d)]);
            if d == 0 {
                assert(c == '0');
                assert(trim_zeros(seq![c]) == Seq::<char>::empty());
            } else {
                assert(c != '0');
                assert(trim_zeros(seq![c]) == seq![c]);
                assert(trim_zeros(s).len() == 1);
            }
        } else {
            assert(trim_zeros(s) == trim_zeros(a).push(c));
            assert(v >= 10);
            lemma_fundamental_div_mod_converse(v as int, 10, va as int, d as int);
            assert(decimal(v) == decimal(v / 10).push(digit_char(v % 10)));
            assert(canonical_digits(a) == trim_zeros(a));
            assert(trim_zeros(s).len() > 0);
        }
    }
}

/// Digit strings compare, as text, in the order of the numbers they denote,
/// whatever their leading zeros.
pub proof fn magnitude_order_is_number_order(a: Seq<char>, b: Seq<char>)
    requires
        all_digits(a),
        all_digits(b),
    ensures
        magnitude_order(a, b) == sign_of(digits_value(a) - digits_value(b)),
{
    lemma_digits_canonical(a);
    lemma_digits_canonical(b);
    lemma_decimal_canonical(digits_value(a));
    lemma_decimal_canonical(digits_value(b));
    lemma_decimal_magnitude(digits_value(a), digits_value(b));
}

/// Decimal integer texts compare, as text, in the order of the integers they
/// denote.
pub proof fn decimal_text_order_is_integer_order(a: Seq<char>, b: Seq<char>)
    requires
        signed_digits(a),
        signed_digits(b),
    ensures
        decimal_order(a, b) == sign_of(signed_digits_value(a) - signed_digits_value(b)),
{
    lemma_text_split(a);
    lemma_text_split(b);
    let (na, da) = sign_split(a);
    let (nb, db) = sign_split(b);
    magnitude_order_is_number_order(da, db);
    magnitude_order_is_number_order(db, da);
}

/// A decimal integer text splits into its sign and digits that denote its
/// magnitude.
proof fn lemma_text_split(s: Seq<char>)
    requires
        signed_digits(s),
    ensures
        all_digits(sign_split(s).1),
        sign_split(s).0 == (signed_digits_value(s) < 0),
        digits_value(sign_split(s).1) == abs_of(signed_digits_value(s)),
{
    if s.len() > 0 && s[0] == '-' {
        assert(!all_digits(s)) by {
            assert(s[0] as u32 == 45);
        }
        let t = s.drop_first();
        if t == seq!['0'] {
            assert(digits_value(t) == 10 * digits_value(t.drop_last()) + 0);
            assert(t.drop_last() =~= Seq::<char>::empty());
        }
    } else if s.len() > 0 {
        assert(48 <= s[0] as u32 <= 57);
        assert(s[0] != '+');
    }
}

/// The decimal notation of `n` has as many digits as `n` needs, and starts
/// with a digit that is not a leading zero unless `n` is zero.
proof fn lemma_decimal_shape(n: nat)
    ensures
        decimal(n).len() >= 1,
        n < pow(10, decimal(n).len()),
        n >= 1 ==> pow(10, (decimal(n).len() - 1) as nat) <= n,
        (decimal(n).len() == 1) == (n < 10),
        48 <= decimal(n)[0] as u32 <= 57,
        n >= 1 ==> decimal(n)[0] as u32 >= 49,
        all_digits(decimal(n)),
    decreases n,
{
    lemma_pow1(10);
    if n < 10 {
        assert(decimal(n) =~= seq![digit_char(n)]);
        vstd::arithmetic::power::lemma_pow0(10);
    } else {
        let h = n / 10;
        lemma_decimal_shape(h);
        let l = decimal(h).len();
        assert(decimal(n) == decimal(h).push(digit_char(n % 10)));
        assert(decimal(n)[0] == decimal(h)[0]);
        assert forall|i: int| 0 <= i < decimal(n).len() implies 48 <= #[trigger] decimal(n)[i] as u32
            <= 57 by {
            if i < l {
                assert(decimal(n)[i] == decimal(h)[i]);
            }
        }
        lemma_fundamental_div_mod(n as int, 10);
        lemma_pow_adds(10, l, 1);
        lemma_pow_adds(10, (l - 1) as nat, 1);
        assert(((l - 1) as nat + 1) as nat == l);
        let p = pow(10, l);
        let q = pow(10, (l - 1) as nat);
        assert(n < 10 * p) by (nonlinear_arith)
            requires
                n == 10 * h + n % 10,
                n % 10 < 10,
                h < p,
        ;
        assert(10 * q <= n) by (nonlinear_arith)
            requires
                n == 10 * h + n % 10,
                n % 10 >= 0,
                q <= h,
        ;
    }
}

/// The notation of `n` is already canonical.
proof fn lemma_decimal_canonical(n: nat)
    ensures
        canonical_digits(decimal(n)) == decimal(n),
{
    lemma_decimal_shape(n);
    if n == 0 {
        assert(decimal(0) =~= seq!['0']);
        assert(seq!['0'].drop_first() =~= Seq::<char>::empty());
        assert(trim_zeros(Seq::<char>::empty()) == Seq::<char>::empty());
    }
}

/// Appending one character to two texts of equal length keeps their order
/// unless they were equal, when the appended characters decide it.
proof fn lemma_lexicographic_push(a: Seq<char>, b: Seq<char>, x: char, y: char)
    requires
        a.len() == b.len(),
    ensures
        lexicographic(a.push(x), b.push(y)) == if lexicographic(a, b) != 0 {
            lexicographic(a, b)
        } else {
            sign_of(x as u32 - y as u32)
        },
    decreases a.len(),
{
    if a.len() == 0 {
        assert(a.push(x) =~= seq![x]);
        assert(b.push(y) =~= seq![y]);
        assert(seq![x].drop_first() =~= Seq::<char>::empty());
        assert(seq![y].drop_first() =~= Seq::<char>::empty());
        assert(lexicographic(Seq::<char>::empty(), Seq::<char>::empty()) == 0);
    } else {
        assert(a.push(x).drop_first() =~= a.drop_first().push(x));
        assert(b.push(y).drop_first() =~= b.drop_first().push(y));
        lemma_lexicographic_push(a.drop_first(), b.drop_first(), x, y);
    }
}

/// Notations of equal length are ordered by code point as the numbers are.
proof fn lemma_decimal_lexicographic(m: nat, n: nat)
    requires
        decimal(m).len() == decimal(n).len(),
    ensures
        lexicographic(decimal(m), decimal(n)) == sign_of(m - n),
    decreases m,
{
    lemma_decimal_shape(m);
    lemma_decimal_shape(n);
    if m < 10 {
        assert(decimal(m) =~= Seq::<char>::empty().push(digit_char(m)));
        assert(decimal(n) =~= Seq::<char>::empty().push(digit_char(n)));
        assert(lexicographic(Seq::<char>::empty(), Seq::<char>::empty()) == 0);
        lemma_lexicographic_push(Seq::<char>::empty(), Seq::<char>::empty(), digit_char(m), digit_char(n));
        assert(digit_char(m) as u32 == 48 + m);
        assert(digit_char(n) as u32 == 48 + n);
    } else {
        let (hm, hn) = (m / 10, n / 10);
        let (dm, dn) = (m % 10, n % 10);
        lemma_decimal_lexicographic(hm, hn);
        lemma_lexicographic_push(decimal(hm), decimal(hn), digit_char(dm), digit_char(dn));
        assert(digit_char(dm) as u32 == 48 + dm);
        assert(digit_char(dn) as u32 == 48 + dn);
        lemma_fundamental_div_mod(m as int, 10);
        lemma_fundamental_div_mod(n as int, 10);
        if hm < hn {
            assert(m < n) by (nonlinear_arith)
                requires
                    m == 10 * hm + dm,
                    n == 10 * hn + dn,
                    dm < 10,
                    dn >= 0,
                    hm < hn,
            ;
        } else if hn < hm {
            assert(n < m) by (nonlinear_arith)
                requires
                    m == 10 * hm + dm,
                    n == 10 * hn + dn,
                    dn < 10,
                    dm >= 0,
                    hn < hm,
            ;
        }
    }
}

/// Digit strings written without leading zeros are ordered as the numbers.
proof fn lemma_decimal_magnitude(m: nat, n: nat)
    ensures
        magnitude_order(decimal(m), decimal(n)) == sign_of(m - n),
{
    lemma_decimal_canonical(m);
    lemma_decimal_canonical(n);
    lemma_decimal_shape(m);
    lemma_decimal_shape(n);
    lemma_digits_ascii(decimal(m));
    lemma_digits_ascii(decimal(n));
    let lm = decimal(m).len();
    let ln = decimal(n).len();
    if lm < ln {
        lemma_pow_increases(10, lm, (ln - 1) as nat);
    } else if ln < lm {
        lemma_pow_increases(10, ln, (lm - 1) as nat);
    } else {
        lemma_decimal_lexicographic(m, n);
    }
}

/// The notation of an integer splits into its sign and its magnitude.
proof fn lemma_notation_split(x: int)
    ensures
        sign_split(signed_decimal_notation(x)) == (x < 0, decimal(abs_of(x))),
{
    let s = signed_decimal_notation(x);
    lemma_decimal_shape(abs_of(x));
    if x < 0 {
        assert(s.drop_first() =~= decimal(abs_of(x)));
        assert(decimal(abs_of(x))[0] != '0');
    } else {
        assert(s[0] != '-');
        assert(s[0] != '+');
    }
}

/// The magnitude of an integer.
pub open spec fn abs_of(x: int) -> nat {
    if x < 0 {
        (-x) as nat
    } else {
        x as nat
    }
}

/// Compared as text, the decimal notations of two integers are ordered as the
/// integers are.
pub proof fn decimal_order_is_integer_order(x: int, y: int)
    ensures
        decimal_order(signed_decimal_notation(x), signed_decimal_notation(y)) == sign_of(x - y),
{
    lemma_notation_split(x);
    lemma_notation_split(y);
    lemma_decimal_magnitude(abs_of(x), abs_of(y));
    lemma_decimal_magnitude(abs_of(y), abs_of(x));
}

/// The ordering that stands for `-1`, `0` or `1`.
pub open spec fn ordering_of(order: int) -> Ordering {
    if order < 0 {
        Ordering::Less
    } else if order == 0 {
        Ordering::Equal
    } else {
        Ordering::Greater
    }
}

/// The position of the first character of `s` from `start` that is not `c`.
fn skip_char(s: &str, start: usize, c: char) -> (res: usize)
    requires
        start <= s@.len(),
    ensures
        start <= res <= s@.len(),
        forall|i: int| start <= i < res ==> s@[i] == c,
        res < s@.len() ==> s@[res as int] != c,
{
    let n = s.unicode_len();
    let mut i = start;
    while i < n && s.get_char(i) == c
        invariant
            n == s@.len(),
            start <= i <= n,
            forall|j: int| start <= j < i ==> s@[j] == c,
        decreases n - i,
    {
        i = i + 1;
    }
    i
}

proof fn lemma_trim_plus_skip(s: Seq<char>, k: int)
    requires
        0 <= k <= s.len(),
        forall|i: int| 0 <= i < k ==> s[i] == '+',
        k < s.len() ==> s[k] != '+',
    ensures
        trim_plus(s) == s.subrange(k, s.len() as int),
    decreases k,
{
    if k > 0 {
        lemma_trim_plus_skip(s.drop_first(), k - 1);
        assert(s.drop_first().subrange(k - 1, s.len() - 1) =~= s.subrange(k, s.len() as int));
    } else {
        assert(s.subrange(0, s.len() as int) =~= s);
    }
}

proof fn lemma_trim_zeros_skip(s: Seq<char>, k: int)
    requires
        0 <= k <= s.len(),
        forall|i: int| 0 <= i < k ==> s[i] == '0',
        k < s.len() ==> s[k] != '0',
    ensures
        trim_zeros(s) == s.subrange(k, s.len() as int),
    decreases k,
{
    if k > 0 {
        lemma_trim_zeros_skip(s.drop_first(), k - 1);
        assert(s.drop_first().subrange(k - 1, s.len() - 1) =~= s.subrange(k, s.len() as int));
    } else {
        assert(s.subrange(0, s.len() as int) =~= s);
    }
}

/// Split a decimal integer into its sign and its digits.
pub fn split_sign(value: &str) -> (res: (bool, &str))
    ensures
        (res.0, res.1@) == sign_split(value@),
{
    let n = value.unicode_len();
    if n > 0 && value.get_char(0) == '-' {
        let magnitude = value.substring_char(1, n);
        assert(magnitude@ =~= value@.drop_first());
        if !(magnitude.unicode_len() == 1 && magnitude.get_char(0) == '0') {
            proof {
                if value@.drop_first() == seq!['0'] {
                    assert(magnitude@[0] == '0');
                }
            }
            return (true, magnitude);
        }
        assert(magnitude@ =~= seq!['0']);
    }
    let start = skip_char(value, 0, '+');
    proof {
        lemma_trim_plus_skip(value@, start as int);
    }
    (false, value.substring_char(start, n))
}

/// The canonical digits of a digit string, as a slice of it or `"0"`.
fn canonical(value: &str) -> (res: &str)
    ensures
        res@ == canonical_digits(value@),
{
    let n = value.unicode_len();
    let start = skip_char(value, 0, '0');
    proof {
        lemma_trim_zeros_skip(value@, start as int);
        reveal_strlit("0");
    }
    if start == n {
        "0"
    } else {
        value.substring_char(start, n)
    }
}

/// The code point of a character.
fn code_point(c: char) -> (res: u32)
    ensures
        res == c as u32,
{
    c as u32
}

/// The length of the UTF-8 encoding of `s`, in bytes.
fn utf8_len(s: &str) -> (res: u128)
    ensures
        res == encode_utf8(s@).len(),
{
    let n = s.unicode_len();
    let mut i: usize = 0;
    let mut total: u128 = 0;
    assert(s@.subrange(0, n as int) =~= s@);
    while i < n
        invariant
            n == s@.len(),
            i <= n,
            total <= 4 * i,
            total + encode_utf8(s@.subrange(i as int, n as int)).len() == encode_utf8(s@).len(),
        decreases n - i,
    {
        let c = code_point(s.get_char(i));
        let width: u128 = if c <= 0x7f {
            1
        } else if c <= 0x7ff {
            2
        } else if c <= 0xffff {
            3
        } else {
            4
        };
        proof {
            let rest = s@.subrange(i as int, n as int);
            assert(rest.drop_first() =~= s@.subrange(i + 1, n as int));
            assert(rest[0] == s@[i as int]);
            assert(encode_scalar(c).len() == width);
        }
        total = total + width;
        i = i + 1;
    }
    assert(s@.subrange(n as int, n as int) =~= Seq::<char>::empty());
    total
}

/// Lexicographic order of two texts.
fn lexicographic_order(a: &str, b: &str) -> (res: i8)
    ensures
        res == lexicographic(a@, b@),
{
    let n = a.unicode_len();
    let m = b.unicode_len();
    let mut i: usize = 0;
    assert(a@.subrange(0, n as int) =~= a@);
    assert(b@.subrange(0, m as int) =~= b@);
    while i < n && i < m
        invariant
            n == a@.len(),
            m == b@.len(),
            i <= n,
            i <= m,
            lexicographic(a@, b@) == lexicographic(
                a@.subrange(i as int, n as int),
                b@.subrange(i as int, m as int),
            ),
        decreases n - i,
    {
        let x = code_point(a.get_char(i));
        let y = code_point(b.get_char(i));
        let ghost rest_a = a@.subrange(i as int, n as int);
        let ghost rest_b = b@.subrange(i as int, m as int);
        assert(rest_a.drop_first() =~= a@.subrange(i + 1, n as int));
        assert(rest_b.drop_first() =~= b@.subrange(i + 1, m as int));
        if x < y {
            return -1;
        }
        if x > y {
            return 1;
        }
        i = i + 1;
    }
    if i < n {
        1
    } else if i < m {
        -1
    } else {
        0
    }
}

/// The order of the numbers that two digit strings denote.
fn magnitude_order_of(lhs: &str, rhs: &str) -> (res: i8)
    ensures
        res == magnitude_order(lhs@, rhs@),
{
    let lhs = canonical(lhs);
    let rhs = canonical(rhs);
    let lhs_len = utf8_len(lhs);
    let rhs_len = utf8_len(rhs);
    if lhs_len < rhs_len {
        -1
    } else if lhs_len > rhs_len {
        1
    } else {
        lexicographic_order(lhs, rhs)
    }
}

/// The ordering of an order `-1`, `0` or `1`.
fn to_ordering(order: i8) -> (res: Ordering)
    ensures
        order < 0 ==> res == Ordering::Less,
        order == 0 ==> res == Ordering::Equal,
        order > 0 ==> res == Ordering::Greater,
{
    if order < 0 {
        Ordering::Less
    } else if order == 0 {
        Ordering::Equal
    } else {
        Ordering::Greater
    }
}

/// Compare two digit strings as the numbers they denote.
pub fn compare_magnitude(lhs: &str, rhs: &str) -> (res: Ordering)
    ensures
        res == ordering_of(magnitude_order(lhs@, rhs@)),
{
    to_ordering(magnitude_order_of(lhs, rhs))
}

/// Compare two decimal integers as numbers.
pub fn compare_decimal(lhs: &str, rhs: &str) -> (res: Ordering)
    ensures
        res == ordering_of(decimal_order(lhs@, rhs@)),
{
    let (lhs_negative, lhs_magnitude) = split_sign(lhs);
    let (rhs_negative, rhs_magnitude) = split_sign(rhs);
    match (lhs_negative, rhs_negative) {
        (true, false) => Ordering::Less,
        (false, true) => Ordering::Greater,
        (false, false) => compare_magnitude(lhs_magnitude, rhs_magnitude),
        (true, true) => compare_magnitude(rhs_magnitude, lhs_magnitude),
    }
}

} // verus!
