//! Exact rational numbers as mathematical values.
//!
//! A value is a pair `(numerator, denominator)` with a positive denominator.
//! Two pairs denote the same number when their cross products agree, so every
//! statement here is about the number, not about the particular pair.
use vstd::prelude::*;

verus! {

/// A rational number as a numerator and a denominator.
pub type Ratio = (int, int);

/// The denominator is positive.
pub open spec fn rat_wf(a: Ratio) -> bool {
    a.1 > 0
}

/// `a` and `b` denote the same number.
pub open spec fn rat_eq(a: Ratio, b: Ratio) -> bool {
    a.0 * b.1 == b.0 * a.1
}

/// `a < b` as numbers.
pub open spec fn rat_lt(a: Ratio, b: Ratio) -> bool {
    a.0 * b.1 < b.0 * a.1
}

/// `a <= b` as numbers.
pub open spec fn rat_le(a: Ratio, b: Ratio) -> bool {
    a.0 * b.1 <= b.0 * a.1
}

pub open spec fn rat_add(a: Ratio, b: Ratio) -> Ratio {
    (a.0 * b.1 + b.0 * a.1, a.1 * b.1)
}

pub open spec fn rat_sub(a: Ratio, b: Ratio) -> Ratio {
    (a.0 * b.1 - b.0 * a.1, a.1 * b.1)
}

pub open spec fn rat_mul(a: Ratio, b: Ratio) -> Ratio {
    (a.0 * b.0, a.1 * b.1)
}

/// Quotient `a / b`; meaningful when `b` is not zero.
pub open spec fn rat_div(a: Ratio, b: Ratio) -> Ratio {
    if b.0 >= 0 {
        (a.0 * b.1, a.1 * b.0)
    } else {
        (-(a.0 * b.1), -(a.1 * b.0))
    }
}

pub open spec fn rat_neg(a: Ratio) -> Ratio {
    (-a.0, a.1)
}

/// The integer `n` as a rational.
pub open spec fn rat_int(n: int) -> Ratio {
    (n, 1)
}

/// The greatest common divisor, by Euclid's algorithm.
pub open spec fn gcd(a: nat, b: nat) -> nat
    decreases b,
{
    if b == 0 {
        a
    } else {
        gcd(b, a % b)
    }
}

pub open spec fn abs(n: int) -> nat {
    if n < 0 {
        (-n) as nat
    } else {
        n as nat
    }
}

/// The pair is in lowest terms with a positive denominator.
pub open spec fn rat_reduced(a: Ratio) -> bool {
    a.1 > 0 && gcd(abs(a.0), a.1 as nat) == 1
}

/// Bézout coefficients of Euclid's greatest common divisor:
/// `a * x + b * y == gcd(a, b)`.
pub proof fn lemma_bezout(a: nat, b: nat) -> (coefficients: (int, int))
    ensures
        a * coefficients.0 + b * coefficients.1 == gcd(a, b),
    decreases b,
{
    if b == 0 {
        (1, 0)
    } else {
        let (x, y) = lemma_bezout(b, a % b);
        let q = (a / b) as int;
        vstd::arithmetic::div_mod::lemma_fundamental_div_mod(a as int, b as int);
        assert(b * x + (a % b) * y == gcd(a, b));
        assert((a % b) as int == a - b * q);
        assert(b * x + (a - b * q) * y == a * y + b * (x - q * y)) by (nonlinear_arith);
        (y, x - q * y)
    }
}

/// Euclid's greatest common divisor divides both numbers: the multipliers
/// `(k, l)` have `a == gcd * k` and `b == gcd * l`.
pub proof fn lemma_gcd_divides(a: nat, b: nat) -> (multipliers: (int, int))
    ensures
        a == gcd(a, b) * multipliers.0,
        b == gcd(a, b) * multipliers.1,
    decreases b,
{
    if b == 0 {
        assert(a == a * 1 && 0 == a * 0) by (nonlinear_arith);
        (1, 0)
    } else {
        let g = gcd(a, b);
        let (k, l) = lemma_gcd_divides(b, a % b);
        let q = (a / b) as int;
        vstd::arithmetic::div_mod::lemma_fundamental_div_mod(a as int, b as int);
        assert(a == b * q + (a % b));
        assert(b * q + (a % b) == g * (k * q + l)) by (nonlinear_arith)
            requires
                b == g * k,
                (a % b) as int == g * l,
        ;
        (k * q + l, k)
    }
}

/// The lowest terms of `n / d`: both divided by their greatest common divisor.
pub open spec fn lowest_terms(n: int, d: int) -> Ratio {
    let g = gcd(abs(n), d as nat) as int;
    (n / g, d / g)
}

/// Dividing a pair with a positive denominator by the greatest common divisor
/// gives a pair in lowest terms that denotes the same number.
pub proof fn lemma_lowest_terms(n: int, d: int)
    requires
        d > 0,
    ensures
        rat_reduced(lowest_terms(n, d)),
        rat_eq(lowest_terms(n, d), (n, d)),
{
    let a = abs(n);
    let b = d as nat;
    let g = gcd(a, b) as int;
    let (k, l) = lemma_gcd_divides(a, b);
    let (x, y) = lemma_bezout(a, b);
    assert(g > 0) by (nonlinear_arith)
        requires
            b == g * l,
            b > 0,
            g >= 0,
    ;
    assert(l > 0) by (nonlinear_arith)
        requires
            b == g * l,
            b > 0,
            g > 0,
    ;
    let sk: int = if n < 0 {
        -k
    } else {
        k
    };
    assert(n == g * sk) by (nonlinear_arith)
        requires
            a == g * k,
            (n < 0 && a == -n && sk == -k) || (n >= 0 && a == n && sk == k),
    ;
    vstd::arithmetic::div_mod::lemma_div_multiples_vanish(sk, g);
    vstd::arithmetic::div_mod::lemma_div_multiples_vanish(l, g);
    assert(g * sk / g == sk) by {
        vstd::arithmetic::mul::lemma_mul_is_commutative(g, sk);
    }
    assert(g * l / g == l) by {
        vstd::arithmetic::mul::lemma_mul_is_commutative(g, l);
    }
    assert(lowest_terms(n, d) == (sk, l));
    // k x + l y == 1, so every common divisor of k and l divides 1.
    assert(k * x + l * y == 1) by (nonlinear_arith)
        requires
            a * x + b * y == g,
            a == g * k,
            b == g * l,
            g > 0,
    ;
    let h = gcd(abs(sk), l as nat);
    assert(abs(sk) == k) by {
        assert(k >= 0) by (nonlinear_arith)
            requires
                a == g * k,
                g > 0,
        ;
    }
    let (m1, m2) = lemma_gcd_divides(abs(sk), l as nat);
    assert(h * (m1 * x + m2 * y) == 1) by (nonlinear_arith)
        requires
            k == h * m1,
            l == h * m2,
            k * x + l * y == 1,
    ;
    assert(h == 1) by (nonlinear_arith)
        requires
            h * (m1 * x + m2 * y) == 1,
            h >= 0,
    ;
    assert(sk * d == n * l) by (nonlinear_arith)
        requires
            n == g * sk,
            d == g * l,
    ;
}

/// A number has a single representation in lowest terms.
pub proof fn lowest_terms_are_unique(p: Ratio, q: Ratio)
    requires
        rat_reduced(p),
        rat_reduced(q),
        rat_eq(p, q),
    ensures
        p == q,
{
    lemma_lowest_denominator_divides(p, q);
    lemma_lowest_denominator_divides(q, p);
    let (a, b) = p;
    let (c, d) = q;
    assert(b == d);
    assert(a * d == c * b);
    assert(a == c) by (nonlinear_arith)
        requires
            a * d == c * b,
            b == d,
            d > 0,
    ;
}

/// The denominator of a pair in lowest terms is at most that of any other
/// pair of the same number.
proof fn lemma_lowest_denominator_divides(p: Ratio, q: Ratio)
    requires
        rat_reduced(p),
        rat_wf(q),
        rat_eq(p, q),
    ensures
        p.1 <= q.1,
{
    let (a, b) = p;
    let (c, d) = q;
    let (x, y) = lemma_bezout(abs(a), b as nat);
    let s: int = if a < 0 {
        -1
    } else {
        1
    };
    let m = abs(a) as int;
    assert(m == s * a) by {
        if a < 0 {
            assert(s * a == -a);
        } else {
            assert(s * a == a);
        }
    }
    assert(m * x + b * y == 1);
    assert(a * d == c * b);
    // d = d * (|a| x + b y) = b * (s c x + d y)
    let k = s * c * x + d * y;
    assert(d == d * (m * x + b * y)) by (nonlinear_arith)
        requires
            m * x + b * y == 1,
    ;
    assert(d * (m * x + b * y) == (s * a * d) * x + b * (d * y)) by (nonlinear_arith)
        requires
            m == s * a,
    ;
    assert(s * a * d == s * (c * b)) by (nonlinear_arith)
        requires
            a * d == c * b,
    ;
    assert((s * (c * b)) * x + b * (d * y) == b * k) by (nonlinear_arith)
        requires
            k == s * c * x + d * y,
    ;
    assert(d == b * k);
    assert(b <= d) by (nonlinear_arith)
        requires
            d == b * k,
            b > 0,
            d > 0,
    ;
}

pub proof fn lemma_rat_eq_sym(a: Ratio, b: Ratio)
    requires
        rat_eq(a, b),
    ensures
        rat_eq(b, a),
{
}

pub proof fn lemma_rat_eq_trans(a: Ratio, b: Ratio, c: Ratio)
    requires
        rat_wf(b),
        rat_eq(a, b),
        rat_eq(b, c),
    ensures
        rat_eq(a, c),
{
    assert(a.0 * c.1 * b.1 == c.0 * a.1 * b.1) by (nonlinear_arith)
        requires
            a.0 * b.1 == b.0 * a.1,
            b.0 * c.1 == c.0 * b.1,
    ;
    assert(a.0 * c.1 == c.0 * a.1) by (nonlinear_arith)
        requires
            a.0 * c.1 * b.1 == c.0 * a.1 * b.1,
            b.1 > 0,
    ;
}

/// Replacing the right operand by an equal number keeps `<` and `<=`.
pub proof fn lemma_rat_order_congr_right(a: Ratio, b: Ratio, c: Ratio)
    requires
        rat_wf(a),
        rat_wf(b),
        rat_wf(c),
        rat_eq(b, c),
    ensures
        rat_lt(a, b) == rat_lt(a, c),
        rat_le(a, b) == rat_le(a, c),
{
    assert(a.0 * b.1 * c.1 == b.0 * a.1 * c.1 <==> a.0 * b.1 * c.1 == c.0 * b.1 * a.1)
        by (nonlinear_arith)
        requires
            b.0 * c.1 == c.0 * b.1,
    ;
    assert(rat_lt(a, b) == rat_lt(a, c)) by (nonlinear_arith)
        requires
            b.0 * c.1 == c.0 * b.1,
            a.1 > 0,
            b.1 > 0,
            c.1 > 0,
    ;
    assert(rat_le(a, b) == rat_le(a, c)) by (nonlinear_arith)
        requires
            b.0 * c.1 == c.0 * b.1,
            a.1 > 0,
            b.1 > 0,
            c.1 > 0,
    ;
}

/// Replacing the left operand by an equal number keeps `<` and `<=`.
pub proof fn lemma_rat_order_congr_left(a: Ratio, b: Ratio, c: Ratio)
    requires
        rat_wf(a),
        rat_wf(b),
        rat_wf(c),
        rat_eq(a, b),
    ensures
        rat_lt(a, c) == rat_lt(b, c),
        rat_le(a, c) == rat_le(b, c),
        rat_lt(c, a) == rat_lt(c, b),
        rat_le(c, a) == rat_le(c, b),
{
    lemma_rat_order_congr_right(c, a, b);
    assert(rat_lt(a, c) == rat_lt(b, c)) by (nonlinear_arith)
        requires
            a.0 * b.1 == b.0 * a.1,
            a.1 > 0,
            b.1 > 0,
            c.1 > 0,
    ;
    assert(rat_le(a, c) == rat_le(b, c)) by (nonlinear_arith)
        requires
            a.0 * b.1 == b.0 * a.1,
            a.1 > 0,
            b.1 > 0,
            c.1 > 0,
    ;
}

pub proof fn lemma_rat_ops_wf(a: Ratio, b: Ratio)
    requires
        rat_wf(a),
        rat_wf(b),
    ensures
        rat_wf(rat_add(a, b)),
        rat_wf(rat_sub(a, b)),
        rat_wf(rat_mul(a, b)),
        rat_wf(rat_neg(a)),
        b.0 != 0 ==> rat_wf(rat_div(a, b)),
{
    assert(a.1 * b.1 > 0) by (nonlinear_arith)
        requires
            a.1 > 0,
            b.1 > 0,
    ;
    if b.0 > 0 {
        assert(a.1 * b.0 > 0) by (nonlinear_arith)
            requires
                a.1 > 0,
                b.0 > 0,
        ;
    } else if b.0 < 0 {
        assert(-(a.1 * b.0) > 0) by (nonlinear_arith)
            requires
                a.1 > 0,
                b.0 < 0,
        ;
    }
}

proof fn lemma_cross_sum(a0: int, a1: int, b0: int, b1: int, c0: int, c1: int, d0: int, d1: int)
    requires
        a0 * c1 == c0 * a1,
        b0 * d1 == d0 * b1,
    ensures
        (a0 * b1 + b0 * a1) * (c1 * d1) == (c0 * d1 + d0 * c1) * (a1 * b1),
        (a0 * b1 - b0 * a1) * (c1 * d1) == (c0 * d1 - d0 * c1) * (a1 * b1),
{
    broadcast use vstd::arithmetic::mul::group_mul_is_distributive;

    let cd = c1 * d1;
    let ab = a1 * b1;
    assert((a0 * b1 + b0 * a1) * cd == (a0 * b1) * cd + (b0 * a1) * cd);
    assert((a0 * b1 - b0 * a1) * cd == (a0 * b1) * cd - (b0 * a1) * cd);
    assert((c0 * d1 + d0 * c1) * ab == (c0 * d1) * ab + (d0 * c1) * ab);
    assert((c0 * d1 - d0 * c1) * ab == (c0 * d1) * ab - (d0 * c1) * ab);
    assert((a0 * b1) * (c1 * d1) == (a0 * c1) * (b1 * d1)) by (nonlinear_arith);
    assert((c0 * d1) * (a1 * b1) == (c0 * a1) * (b1 * d1)) by (nonlinear_arith);
    assert((b0 * a1) * (c1 * d1) == (b0 * d1) * (a1 * c1)) by (nonlinear_arith);
    assert((d0 * c1) * (a1 * b1) == (d0 * b1) * (a1 * c1)) by (nonlinear_arith);
}

proof fn lemma_cross_prod(a0: int, a1: int, b0: int, b1: int, c0: int, c1: int, d0: int, d1: int)
    requires
        a0 * c1 == c0 * a1,
        b0 * d1 == d0 * b1,
    ensures
        (a0 * b0) * (c1 * d1) == (c0 * d0) * (a1 * b1),
        (a0 * b1) * (c1 * d0) == (c0 * d1) * (a1 * b0),
        (-a0) * c1 == (-c0) * a1,
{
    let x = a0 * c1;
    let y = b0 * d1;
    assert((a0 * b0) * (c1 * d1) == x * y) by (nonlinear_arith)
        requires
            x == a0 * c1,
            y == b0 * d1,
    ;
    assert((c0 * d0) * (a1 * b1) == (c0 * a1) * (d0 * b1)) by (nonlinear_arith);
    let z = d0 * b1;
    assert((a0 * b1) * (c1 * d0) == x * z) by (nonlinear_arith)
        requires
            x == a0 * c1,
            z == d0 * b1,
    ;
    assert((c0 * d1) * (a1 * b0) == (c0 * a1) * (b0 * d1)) by (nonlinear_arith);
    assert((-a0) * c1 == -(a0 * c1)) by (nonlinear_arith);
    assert((-c0) * a1 == -(c0 * a1)) by (nonlinear_arith);
}

/// Sum, difference, product and quotient respect equality of numbers.
pub proof fn lemma_rat_ops_congr(a: Ratio, b: Ratio, c: Ratio, d: Ratio)
    requires
        rat_wf(a),
        rat_wf(b),
        rat_wf(c),
        rat_wf(d),
        rat_eq(a, c),
        rat_eq(b, d),
    ensures
        rat_eq(rat_add(a, b), rat_add(c, d)),
        rat_eq(rat_sub(a, b), rat_sub(c, d)),
        rat_eq(rat_mul(a, b), rat_mul(c, d)),
        rat_eq(rat_neg(a), rat_neg(c)),
        b.0 != 0 ==> rat_eq(rat_div(a, b), rat_div(c, d)),
        b.0 == 0 <==> d.0 == 0,
{
    lemma_cross_sum(a.0, a.1, b.0, b.1, c.0, c.1, d.0, d.1);
    lemma_cross_prod(a.0, a.1, b.0, b.1, c.0, c.1, d.0, d.1);
    assert(b.0 == 0 <==> d.0 == 0) by (nonlinear_arith)
        requires
            b.0 * d.1 == d.0 * b.1,
            b.1 > 0,
            d.1 > 0,
    ;
    if b.0 != 0 {
        assert(b.0 > 0 <==> d.0 > 0) by (nonlinear_arith)
            requires
                b.0 * d.1 == d.0 * b.1,
                b.1 > 0,
                d.1 > 0,
        ;
        let p = a.0 * b.1;
        let q = c.1 * d.0;
        let r = c.0 * d.1;
        let s = a.1 * b.0;
        assert((-p) * (-q) == p * q) by (nonlinear_arith);
        assert((-r) * (-s) == r * s) by (nonlinear_arith);
    }
}

/// `<=` and `<` chain as expected.
pub proof fn lemma_rat_trans(a: Ratio, b: Ratio, c: Ratio)
    requires
        rat_wf(a),
        rat_wf(b),
        rat_wf(c),
    ensures
        rat_le(a, b) && rat_le(b, c) ==> rat_le(a, c),
        rat_lt(a, b) && rat_le(b, c) ==> rat_lt(a, c),
        rat_le(a, b) && rat_lt(b, c) ==> rat_lt(a, c),
        rat_le(a, b) && rat_le(b, a) ==> rat_eq(a, b),
        rat_lt(a, b) || rat_eq(a, b) || rat_lt(b, a),
{
    assert(rat_le(a, b) && rat_le(b, c) ==> rat_le(a, c)) by (nonlinear_arith)
        requires
            a.1 > 0,
            b.1 > 0,
            c.1 > 0,
    ;
    assert(rat_lt(a, b) && rat_le(b, c) ==> rat_lt(a, c)) by (nonlinear_arith)
        requires
            a.1 > 0,
            b.1 > 0,
            c.1 > 0,
    ;
    assert(rat_le(a, b) && rat_lt(b, c) ==> rat_lt(a, c)) by (nonlinear_arith)
        requires
            a.1 > 0,
            b.1 > 0,
            c.1 > 0,
    ;
}

/// Comparisons of two numbers do not depend on the pairs that denote them.
/// Subtracting the same number keeps the order, and subtracting from the same
/// number reverses it.
pub proof fn lemma_rat_sub_monotone(a: Ratio, b: Ratio, c: Ratio)
    requires
        rat_wf(a),
        rat_wf(b),
        rat_wf(c),
    ensures
        rat_le(a, b) ==> rat_le(rat_sub(a, c), rat_sub(b, c)),
        rat_lt(a, b) ==> rat_lt(rat_sub(a, c), rat_sub(b, c)),
        rat_le(a, b) ==> rat_le(rat_sub(c, b), rat_sub(c, a)),
        rat_lt(a, b) ==> rat_lt(rat_sub(c, b), rat_sub(c, a)),
        rat_wf(rat_sub(a, c)),
        rat_wf(rat_sub(c, a)),
{
    let (a0, a1) = a;
    let (b0, b1) = b;
    let (c0, c1) = c;
    assert(a1 * c1 > 0 && b1 * c1 > 0 && c1 * a1 > 0 && c1 * b1 > 0) by (nonlinear_arith)
        requires
            a1 > 0,
            b1 > 0,
            c1 > 0,
    ;
    let k = c1 * c1;
    assert(k > 0) by (nonlinear_arith)
        requires
            c1 > 0,
            k == c1 * c1,
    ;
    let x = a0 * b1;
    let y = b0 * a1;
    let t = c0 * (a1 * b1);
    assert((a0 * c1) * (b1 * c1) == x * k) by (nonlinear_arith)
        requires
            x == a0 * b1,
            k == c1 * c1,
    ;
    assert((b0 * c1) * (a1 * c1) == y * k) by (nonlinear_arith)
        requires
            y == b0 * a1,
            k == c1 * c1,
    ;
    assert((c0 * a1) * (b1 * c1) == t * c1) by (nonlinear_arith)
        requires
            t == c0 * (a1 * b1),
    ;
    assert((c0 * b1) * (a1 * c1) == t * c1) by (nonlinear_arith)
        requires
            t == c0 * (a1 * b1),
    ;
    assert((c0 * b1) * (c1 * a1) == t * c1) by (nonlinear_arith)
        requires
            t == c0 * (a1 * b1),
    ;
    assert((c0 * a1) * (c1 * b1) == t * c1) by (nonlinear_arith)
        requires
            t == c0 * (a1 * b1),
    ;
    assert((b0 * c1) * (c1 * a1) == y * k) by (nonlinear_arith)
        requires
            y == b0 * a1,
            k == c1 * c1,
    ;
    assert((a0 * c1) * (c1 * b1) == x * k) by (nonlinear_arith)
        requires
            x == a0 * b1,
            k == c1 * c1,
    ;
    vstd::arithmetic::mul::lemma_mul_is_distributive_sub_other_way(b1 * c1, a0 * c1, c0 * a1);
    vstd::arithmetic::mul::lemma_mul_is_distributive_sub_other_way(a1 * c1, b0 * c1, c0 * b1);
    vstd::arithmetic::mul::lemma_mul_is_distributive_sub_other_way(c1 * a1, c0 * b1, b0 * c1);
    vstd::arithmetic::mul::lemma_mul_is_distributive_sub_other_way(c1 * b1, c0 * a1, a0 * c1);
    vstd::arithmetic::mul::lemma_mul_is_distributive_sub_other_way(k, x, y);
    assert(x - y == a0 * b1 - b0 * a1);
    assert((x - y) <= 0 ==> (x - y) * k <= 0) by (nonlinear_arith)
        requires
            k > 0,
    ;
    assert((x - y) < 0 ==> (x - y) * k < 0) by (nonlinear_arith)
        requires
            k > 0,
    ;
}

pub proof fn lemma_rat_order_congr(a1: Ratio, a: Ratio, b1: Ratio, b: Ratio)
    requires
        rat_wf(a1),
        rat_wf(a),
        rat_wf(b1),
        rat_wf(b),
        rat_eq(a1, a),
        rat_eq(b1, b),
    ensures
        rat_lt(a1, b1) == rat_lt(a, b),
        rat_le(a1, b1) == rat_le(a, b),
        rat_eq(a1, b1) == rat_eq(a, b),
{
    lemma_rat_order_congr_left(a1, a, b1);
    lemma_rat_order_congr_right(a, b1, b);
    if rat_eq(a1, b1) {
        lemma_rat_eq_sym(a1, a);
        lemma_rat_eq_trans(a, a1, b1);
        lemma_rat_eq_trans(a, b1, b);
    }
    if rat_eq(a, b) {
        lemma_rat_eq_sym(b1, b);
        lemma_rat_eq_trans(a1, a, b);
        lemma_rat_eq_trans(a1, b, b1);
    }
}

/// A computed difference of numbers equal to `a` and `b` equals `a - b`.
pub proof fn lemma_rat_sub_congr(d: Ratio, a1: Ratio, a: Ratio, b1: Ratio, b: Ratio)
    requires
        rat_wf(a1),
        rat_wf(a),
        rat_wf(b1),
        rat_wf(b),
        rat_eq(a1, a),
        rat_eq(b1, b),
        rat_eq(d, rat_sub(a1, b1)),
    ensures
        rat_wf(rat_sub(a, b)),
        rat_eq(d, rat_sub(a, b)),
{
    lemma_rat_ops_wf(a1, b1);
    lemma_rat_ops_wf(a, b);
    lemma_rat_ops_congr(a1, b1, a, b);
    lemma_rat_eq_trans(d, rat_sub(a1, b1), rat_sub(a, b));
}

/// A computed quotient of numbers equal to `a` and a nonzero `b` equals `a / b`.
pub proof fn lemma_rat_div_congr(h: Ratio, a1: Ratio, a: Ratio, b1: Ratio, b: Ratio)
    requires
        rat_wf(a1),
        rat_wf(a),
        rat_wf(b1),
        rat_wf(b),
        b.0 != 0,
        rat_eq(a1, a),
        rat_eq(b1, b),
        rat_eq(h, rat_div(a1, b1)),
    ensures
        b1.0 != 0,
        rat_wf(rat_div(a, b)),
        rat_eq(h, rat_div(a, b)),
{
    lemma_rat_ops_congr(a1, b1, a, b);
    lemma_rat_ops_wf(a1, b1);
    lemma_rat_ops_wf(a, b);
    lemma_rat_eq_trans(h, rat_div(a1, b1), rat_div(a, b));
}

/// Equal numbers have the same sign.
pub proof fn lemma_rat_sign_congr(a: Ratio, b: Ratio)
    requires
        rat_wf(a),
        rat_wf(b),
        rat_eq(a, b),
    ensures
        (a.0 == 0) == (b.0 == 0),
        (a.0 < 0) == (b.0 < 0),
{
    assert((a.0 == 0) == (b.0 == 0)) by (nonlinear_arith)
        requires
            a.0 * b.1 == b.0 * a.1,
            a.1 > 0,
            b.1 > 0,
    ;
    assert((a.0 < 0) == (b.0 < 0)) by (nonlinear_arith)
        requires
            a.0 * b.1 == b.0 * a.1,
            a.1 > 0,
            b.1 > 0,
    ;
}

} // verus!
