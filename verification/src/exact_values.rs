//! What the operations on exact coordinates compute: the arithmetic of rational numbers.
use vstd::prelude::*;
use crate::exact::{fits, Exact};
use crate::scalar::Scalar;

verus! {

/// What fits is every integer of 128 bits whose negation is one too.
pub proof fn lemma_range(n: int)
    ensures
        fits(n) <==> -0x7fff_ffff_ffff_ffff_ffff_ffff_ffff_ffff <= n
            <= 0x7fff_ffff_ffff_ffff_ffff_ffff_ffff_ffff,
{
}

/// The sum of two fractions is the fraction that it ought to be, unless a product on the way does
/// not fit.
pub proof fn lemma_sum(a: Exact, b: Exact)
    requires
        a.den > 0,
        b.den > 0,
        fits(a.num * b.den),
        fits(b.num * a.den),
        fits(a.num * b.den + b.num * a.den),
        fits(a.den * b.den),
    ensures
        ({
            let r = a.plus_spec(b);
            &&& r.den > 0
            &&& r.num * (a.den * b.den) == (a.num * b.den + b.num * a.den) * r.den
        }),
{
    let r = a.plus_spec(b);
    assert(a.den * b.den > 0) by (nonlinear_arith)
        requires
            a.den > 0,
            b.den > 0,
    ;
    assert(r.num == a.num * b.den + b.num * a.den && r.den == a.den * b.den);
}

/// The difference of two fractions is what has to be added to the second to get the first.
pub proof fn lemma_difference(a: Exact, b: Exact)
    requires
        a.den > 0,
        b.den > 0,
        fits(a.num * b.den),
        fits(b.num * a.den),
        fits(a.num * b.den - b.num * a.den),
        fits(a.den * b.den),
    ensures
        ({
            let r = a.minus_spec(b);
            &&& r.den > 0
            &&& (r.num * b.den + b.num * r.den) * a.den == a.num * (r.den * b.den)
        }),
{
    let r = a.minus_spec(b);
    assert(a.den * b.den > 0) by (nonlinear_arith)
        requires
            a.den > 0,
            b.den > 0,
    ;
    let (n, d) = (r.num as int, r.den as int);
    let (p, q, s, t) = (a.num as int, a.den as int, b.num as int, b.den as int);
    assert(n == p * t - s * q && d == q * t);
    assert((n * t + s * d) * q == p * (d * t)) by (nonlinear_arith)
        requires
            n == p * t - s * q,
            d == q * t,
    ;
}

/// The product of two fractions.
pub proof fn lemma_product(a: Exact, b: Exact)
    requires
        a.den > 0,
        b.den > 0,
        fits(a.num * b.num),
        fits(a.den * b.den),
    ensures
        ({
            let r = a.times_spec(b);
            &&& r.den > 0
            &&& r.num * (a.den * b.den) == (a.num * b.num) * r.den
        }),
{
    assert(a.den * b.den > 0) by (nonlinear_arith)
        requires
            a.den > 0,
            b.den > 0,
    ;
    let r = a.times_spec(b);
    assert(r.num == a.num * b.num && r.den == a.den * b.den);
}

/// The quotient of two fractions is what has to be multiplied by the second to get the first; over
/// zero it is infinite, with the sign of the first, or not a number where that is zero too.
pub proof fn lemma_quotient(a: Exact, b: Exact)
    requires
        a.den > 0,
        b.den > 0,
        fits(a.num * b.den),
        fits(a.den * b.num),
    ensures
        ({
            let r = a.over_spec(b);
            &&& b.num != 0 ==> r.den > 0 && (r.num * b.num) * a.den == a.num * (r.den * b.den)
            &&& b.num == 0 ==> r.den == 0 && (r.num > 0 <==> a.num > 0) && (r.num < 0 <==> a.num
                < 0)
        }),
{
    let r = a.over_spec(b);
    let (n, d) = (r.num as int, r.den as int);
    let (p, q, s, t) = (a.num as int, a.den as int, b.num as int, b.den as int);
    if s > 0 {
        assert(q * s > 0) by (nonlinear_arith)
            requires
                q > 0,
                s > 0,
        ;
        assert(n == p * t && d == q * s);
        assert((n * s) * q == p * (d * t)) by (nonlinear_arith)
            requires
                n == p * t,
                d == q * s,
        ;
    } else if s < 0 {
        assert(q * s < 0) by (nonlinear_arith)
            requires
                q > 0,
                s < 0,
        ;
        assert(n == -(p * t) && d == -(q * s));
        assert((n * s) * q == p * (d * t)) by (nonlinear_arith)
            requires
                n == -(p * t),
                d == -(q * s),
        ;
    } else {
        assert(q * s == 0) by (nonlinear_arith)
            requires
                s == 0,
        ;
        assert((p * t > 0 <==> p > 0) && (p * t < 0 <==> p < 0)) by (nonlinear_arith)
            requires
                t > 0,
        ;
    }
}

/// The absolute value of a fraction is the fraction or its negation, and not below zero.
pub proof fn lemma_magnitude(a: Exact)
    requires
        a.den > 0,
        fits(a.num as int),
    ensures
        ({
            let r = a.magnitude_spec();
            &&& r.den > 0
            &&& r.num >= 0
            &&& r.num * a.den == a.num * r.den || r.num * a.den == -(a.num * r.den)
        }),
{
    let r = a.magnitude_spec();
    let (n, d) = (a.num as int, a.den as int);
    assert((-n) * d == -(n * d)) by (nonlinear_arith);
}

/// Fractions compare as the numbers that they are, unless a product on the way does not fit.
pub proof fn lemma_comparison(a: Exact, b: Exact)
    requires
        a.den > 0,
        b.den > 0,
        fits(a.num * b.den),
        fits(b.num * a.den),
    ensures
        a.less_spec(b) <==> a.num * b.den < b.num * a.den,
        a.at_most_spec(b) <==> a.num * b.den <= b.num * a.den,
        a.same_spec(b) <==> a.num * b.den == b.num * a.den,
{
}

/// The lesser and the greater of two fractions are one of them each, and the other one each.
pub proof fn lemma_ends(a: Exact, b: Exact)
    requires
        a.den > 0,
        b.den > 0,
        fits(a.num * b.den),
        fits(b.num * a.den),
    ensures
        ({
            let (low, high) = (a.lower_spec(b), a.upper_spec(b));
            &&& (low == a && high == b) || (low == b && high == a) || (low == a && high == a
                && a.num * b.den == b.num * a.den)
            &&& low.num * high.den <= high.num * low.den
        }),
{
    let (n, d) = (a.num as int, a.den as int);
    assert(n * d == n * d);
}

/// The integer part of a fraction: the integer nearest to it among those that are no further from
/// zero, or the end of the range beyond which that lies.
pub proof fn lemma_integer_part(a: Exact)
    requires
        a.den > 0,
        fits(a.num as int),
    ensures
        ({
            let q = a.truncated_spec() as int;
            let (n, d) = (a.num as int, a.den as int);
            &&& i32::MIN < q < i32::MAX && n >= 0 ==> q * d <= n < (q + 1) * d
            &&& i32::MIN < q < i32::MAX && n < 0 ==> (q - 1) * d < n <= q * d
            &&& q == i32::MAX <==> n >= i32::MAX * d
            &&& q == i32::MIN <==> n <= i32::MIN * d
        }),
{
    let (n, d) = (a.num as int, a.den as int);
    let m = if n < 0 {
        -n
    } else {
        n
    };
    let p = m / d;
    vstd::arithmetic::div_mod::lemma_fundamental_div_mod(m, d);
    vstd::arithmetic::div_mod::lemma_mod_bound(m, d);
    assert(p * d <= m < (p + 1) * d) by (nonlinear_arith)
        requires
            m == d * p + m % d,
            0 <= m % d < d,
    ;
    assert(p >= 0) by (nonlinear_arith)
        requires
            m >= 0,
            d > 0,
            m < (p + 1) * d,
    ;
    lemma_reaches(m, d, p, i32::MAX as int);
    lemma_reaches(m, d, p, 0x8000_0000);
    assert((-p) * d == -(p * d) && (-p - 1) * d == -((p + 1) * d)) by (nonlinear_arith);
    assert((-0x8000_0000) * d == -(0x8000_0000 * d)) by (nonlinear_arith);
    assert(n < 0 ==> n < i32::MAX * d) by (nonlinear_arith)
        requires
            d > 0,
    ;
    assert(n >= 0 ==> n > i32::MIN * d) by (nonlinear_arith)
        requires
            d > 0,
    ;
}

/// Whether a fraction reaches an integer, told by its integer part.
proof fn lemma_reaches(m: int, d: int, p: int, k: int)
    requires
        d > 0,
        p * d <= m < (p + 1) * d,
    ensures
        p >= k <==> m >= k * d,
{
    if p >= k {
        assert(p * d >= k * d) by (nonlinear_arith)
            requires
                p >= k,
                d > 0,
        ;
    } else {
        assert((p + 1) * d <= k * d) by (nonlinear_arith)
            requires
                p + 1 <= k,
                d > 0,
        ;
    }
}

/// Integers are fractions with the denominator one, and every fraction lies strictly between the
/// infinite values.
pub proof fn lemma_constants(n: i32, a: Exact)
    requires
        a.den > 0,
        fits(a.den as int),
    ensures
        Exact::from_int_spec(n).num == n,
        Exact::from_int_spec(n).den == 1,
        a.less_spec(Exact::infinity_spec()),
        Exact::neg_infinity_spec().less_spec(a),
        !Exact::infinity_spec().at_most_spec(a),
        !a.at_most_spec(Exact::neg_infinity_spec()),
        Exact::neg_infinity_spec().less_spec(Exact::infinity_spec()),
        Exact::infinity_spec().same_spec(Exact::infinity_spec()),
        Exact::neg_infinity_spec().same_spec(Exact::neg_infinity_spec()),
{
    let (n, d) = (a.num as int, a.den as int);
    assert(n * 0 == 0 && 1 * d == d && (-1) * d == -d) by (nonlinear_arith);
}

/// A result that does not fit is not a number, and what is not a number compares to nothing.
pub proof fn lemma_unfit(a: Exact, b: Exact, c: Exact)
    requires
        c.num == 0,
        c.den == 0,
    ensures
        !fits(a.num * b.den) || !fits(b.num * a.den) || !fits(a.num * b.den + b.num * a.den)
            || !fits(a.den * b.den) ==> a.plus_spec(b) == c,
        !fits(a.num * b.den) || !fits(b.num * a.den) || !fits(a.num * b.den - b.num * a.den)
            || !fits(a.den * b.den) ==> a.minus_spec(b) == c,
        !fits(a.num * b.num) || !fits(a.den * b.den) ==> a.times_spec(b) == c,
        !fits(a.num * b.den) || !fits(a.den * b.num) ==> a.over_spec(b) == c,
        !a.less_spec(c) && !c.less_spec(a) && !a.same_spec(c) && !c.same_spec(a),
        !a.at_most_spec(c) && !c.at_most_spec(a),
{
}

/// Signs of products with a positive number.
proof fn lemma_sign(a: int, b: int)
    requires
        b > 0,
    ensures
        a * b > 0 <==> a > 0,
        a * b < 0 <==> a < 0,
        b * a == a * b,
        a * 0 == 0,
        0 * b == 0,
{
    assert((a * b > 0 <==> a > 0) && (a * b < 0 <==> a < 0) && b * a == a * b) by (nonlinear_arith)
        requires
            b > 0,
    ;
}

/// An infinite value stays infinite, with its sign, whatever fraction is added to it or taken away
/// from it, or multiplied by it if that is above zero. It is above or below every fraction, and a
/// fraction over it is zero.
pub proof fn lemma_infinite(a: Exact, b: Exact)
    requires
        a.den == 0,
        a.num != 0,
        b.den > 0,
        fits(a.num * b.den),
        fits(b.num as int),
        fits(a.num * b.num),
        fits(a.num as int),
    ensures
        a.plus_spec(b).den == 0 && (a.plus_spec(b).num > 0 <==> a.num > 0) && a.plus_spec(b).num
            != 0,
        a.minus_spec(b).den == 0 && (a.minus_spec(b).num > 0 <==> a.num > 0) && a.minus_spec(b).num
            != 0,
        b.minus_spec(a).den == 0 && (b.minus_spec(a).num > 0 <==> a.num < 0) && b.minus_spec(a).num
            != 0,
        b.num > 0 ==> a.times_spec(b).den == 0 && (a.times_spec(b).num > 0 <==> a.num > 0)
            && a.times_spec(b).num != 0,
        b.num == 0 ==> a.times_spec(b).den == 0 && a.times_spec(b).num == 0,
        b.over_spec(a).num == 0 && b.over_spec(a).den > 0,
        a.magnitude_spec().den == 0 && a.magnitude_spec().num > 0,
        a.num > 0 ==> b.less_spec(a) && b.at_most_spec(a) && !a.less_spec(b) && !a.at_most_spec(b)
            && a.lower_spec(b) == b && a.upper_spec(b) == a,
        a.num < 0 ==> a.less_spec(b) && a.at_most_spec(b) && !b.less_spec(a) && !b.at_most_spec(a)
            && a.lower_spec(b) == a && a.upper_spec(b) == b,
        !a.same_spec(b) && !b.same_spec(a),
        a.num > 0 ==> a.truncated_spec() == i32::MAX,
        a.num < 0 ==> a.truncated_spec() == i32::MIN,
{
    let (n, d, m) = (a.num as int, b.den as int, b.num as int);
    lemma_sign(n, d);
    assert(m * 0 == 0 && 0 * d == 0 && 0 * m == 0);
    if m > 0 {
        lemma_sign(n, m);
    }
    assert(m == 0 ==> n * m == 0);
}

/// What is not a number gives nothing but the like, stands back where the lesser or the greater of
/// two values is asked for, and has the integer part zero.
pub proof fn lemma_not_a_number(a: Exact, b: Exact)
    requires
        a.num == 0,
        a.den == 0,
    ensures
        a.plus_spec(b) == a && b.plus_spec(a) == a,
        a.minus_spec(b) == a && b.minus_spec(a) == a,
        a.times_spec(b) == a && b.times_spec(a) == a,
        a.over_spec(b) == a && b.over_spec(a) == a,
        a.magnitude_spec() == a,
        a.lower_spec(b) == b && b.lower_spec(a) == b,
        a.upper_spec(b) == b && b.upper_spec(a) == b,
        a.truncated_spec() == 0,
{
    let (n, d) = (b.num as int, b.den as int);
    assert(0 * n == 0 && 0 * d == 0 && n * 0 == 0 && d * 0 == 0);
}

} // verus!
