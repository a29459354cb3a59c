//! Exact coordinates: rational numbers.
use vstd::prelude::*;
use crate::scalar::Scalar;

verus! {

/// A rational number `num / den`, for polygons whose coordinates are to be computed with exactly.
///
/// The operations keep `den` from being negative. With `den` zero the value is not a number if
/// `num` is zero too, and infinite if not. An operation whose exact result does not fit gives a
/// value that is not a number, and a comparison that does not fit tells nothing.
#[derive(Clone, Copy, Debug)]
pub struct Exact {
    /// The numerator.
    pub num: i128,
    /// The denominator.
    pub den: i128,
}

/// The integer can stand in a fraction, and its negation as well.
pub open spec fn fits(n: int) -> bool {
    -i128::MAX <= n <= i128::MAX
}

/// The fraction of two integers, with the sign in the numerator; not a number if they do not fit.
pub open spec fn fraction(num: int, den: int) -> Exact {
    if !fits(num) || !fits(den) {
        Exact { num: 0, den: 0 }
    } else if den < 0 {
        Exact { num: (-num) as i128, den: (-den) as i128 }
    } else {
        Exact { num: num as i128, den: den as i128 }
    }
}

/// The integer `n` as a fraction.
pub open spec fn whole(n: int) -> Exact {
    fraction(n, 1)
}

/// The product, if it fits.
fn product(a: i128, b: i128) -> (r: Option<i128>)
    ensures
        r == (if fits(a * b) {
            Some((a * b) as i128)
        } else {
            None::<i128>
        }),
{
    match a.checked_mul(b) {
        Some(n) => if n == i128::MIN {
            None
        } else {
            Some(n)
        },
        None => None,
    }
}

/// The fraction of two integers, where both are known.
fn make(num: Option<i128>, den: Option<i128>) -> (r: Exact)
    ensures
        r == (match (num, den) {
            (Some(n), Some(d)) => fraction(n as int, d as int),
            _ => Exact { num: 0, den: 0 },
        }),
{
    match (num, den) {
        (Some(n), Some(d)) => if n == i128::MIN || d == i128::MIN {
            Exact { num: 0, den: 0 }
        } else if d < 0 {
            Exact { num: -n, den: -d }
        } else {
            Exact { num: n, den: d }
        },
        _ => Exact { num: 0, den: 0 },
    }
}

impl Exact {
    /// The integer `n`.
    pub fn new(n: i64) -> (r: Self)
        ensures
            r == whole(n as int),
            r.num == n,
            r.den == 1,
    {
        Exact { num: n as i128, den: 1 }
    }

    /// Whether this value is not a number.
    pub open spec fn is_nan(self) -> bool {
        self.num == 0 && self.den == 0
    }

    /// Whether this value is below `o`, told by the sign of their difference.
    pub open spec fn is_less(self, o: Self) -> bool {
        let l = self.num * o.den;
        let r = o.num * self.den;
        if self.den == 0 && o.den == 0 {
            self.num < 0 < o.num
        } else {
            !self.is_nan() && !o.is_nan() && fits(l) && fits(r) && l < r
        }
    }

    /// Whether this value equals `o`.
    pub open spec fn is_same(self, o: Self) -> bool {
        let l = self.num * o.den;
        let r = o.num * self.den;
        if self.den == 0 && o.den == 0 {
            (self.num < 0 && o.num < 0) || (self.num > 0 && o.num > 0)
        } else {
            !self.is_nan() && !o.is_nan() && fits(l) && fits(r) && l == r
        }
    }
}

impl Scalar for Exact {
    open spec fn plus_spec(self, o: Self) -> Self {
        let l = self.num * o.den;
        let r = o.num * self.den;
        if fits(l) && fits(r) {
            fraction(l + r, self.den * o.den)
        } else {
            Exact { num: 0, den: 0 }
        }
    }

    open spec fn minus_spec(self, o: Self) -> Self {
        let l = self.num * o.den;
        let r = o.num * self.den;
        if fits(l) && fits(r) {
            fraction(l - r, self.den * o.den)
        } else {
            Exact { num: 0, den: 0 }
        }
    }

    open spec fn times_spec(self, o: Self) -> Self {
        fraction(self.num * o.num, self.den * o.den)
    }

    open spec fn over_spec(self, o: Self) -> Self {
        fraction(self.num * o.den, self.den * o.num)
    }

    open spec fn magnitude_spec(self) -> Self {
        fraction(
            if self.num < 0 {
                -self.num
            } else {
                self.num as int
            },
            self.den as int,
        )
    }

    open spec fn lower_spec(self, o: Self) -> Self {
        if self.is_nan() || o.is_less(self) {
            o
        } else {
            self
        }
    }

    open spec fn upper_spec(self, o: Self) -> Self {
        if self.is_nan() || self.is_less(o) {
            o
        } else {
            self
        }
    }

    open spec fn less_spec(self, o: Self) -> bool {
        self.is_less(o)
    }

    open spec fn at_most_spec(self, o: Self) -> bool {
        self.is_less(o) || self.is_same(o)
    }

    open spec fn same_spec(self, o: Self) -> bool {
        self.is_same(o)
    }

    open spec fn from_int_spec(n: i32) -> Self {
        whole(n as int)
    }

    open spec fn truncated_spec(self) -> i32 {
        let q = if self.den <= 0 {
            if self.num == 0 {
                0
            } else if self.num < 0 {
                i32::MIN as int
            } else {
                i32::MAX as int
            }
        } else if self.num < 0 {
            -((-self.num) / self.den as int)
        } else {
            self.num as int / self.den as int
        };
        if q < i32::MIN {
            i32::MIN
        } else if q > i32::MAX {
            i32::MAX
        } else {
            q as i32
        }
    }

    open spec fn infinity_spec() -> Self {
        Exact { num: 1, den: 0 }
    }

    open spec fn neg_infinity_spec() -> Self {
        Exact { num: (-1) as i128, den: 0 }
    }

    fn plus(self, o: Self) -> (r: Self) {
        let num: Option<i128> = match (product(self.num, o.den), product(o.num, self.den)) {
            (Some(l), Some(r)) => l.checked_add(r),
            _ => None,
        };
        make(num, product(self.den, o.den))
    }

    fn minus(self, o: Self) -> (r: Self) {
        let num: Option<i128> = match (product(self.num, o.den), product(o.num, self.den)) {
            (Some(l), Some(r)) => l.checked_sub(r),
            _ => None,
        };
        make(num, product(self.den, o.den))
    }

    fn times(self, o: Self) -> (r: Self) {
        make(product(self.num, o.num), product(self.den, o.den))
    }

    fn over(self, o: Self) -> (r: Self) {
        make(product(self.num, o.den), product(self.den, o.num))
    }

    fn magnitude(self) -> (r: Self) {
        if self.num == i128::MIN {
            Exact { num: 0, den: 0 }
        } else if self.num < 0 {
            make(Some(-self.num), Some(self.den))
        } else {
            make(Some(self.num), Some(self.den))
        }
    }

    fn lower(self, o: Self) -> (r: Self) {
        if (self.num == 0 && self.den == 0) || o.less(self) {
            o
        } else {
            self
        }
    }

    fn upper(self, o: Self) -> (r: Self) {
        if (self.num == 0 && self.den == 0) || self.less(o) {
            o
        } else {
            self
        }
    }

    fn less(self, o: Self) -> (r: bool) {
        if self.den == 0 && o.den == 0 {
            return self.num < 0 && 0 < o.num;
        }
        if (self.num == 0 && self.den == 0) || (o.num == 0 && o.den == 0) {
            return false;
        }
        match (product(self.num, o.den), product(o.num, self.den)) {
            (Some(l), Some(r)) => l < r,
            _ => false,
        }
    }

    fn at_most(self, o: Self) -> (r: bool) {
        self.less(o) || self.same(o)
    }

    fn same(self, o: Self) -> (r: bool) {
        if self.den == 0 && o.den == 0 {
            return (self.num < 0 && o.num < 0) || (self.num > 0 && o.num > 0);
        }
        if (self.num == 0 && self.den == 0) || (o.num == 0 && o.den == 0) {
            return false;
        }
        match (product(self.num, o.den), product(o.num, self.den)) {
            (Some(l), Some(r)) => l == r,
            _ => false,
        }
    }

    fn from_int(n: i32) -> (r: Self) {
        Exact { num: n as i128, den: 1 }
    }

    fn truncated(self) -> (r: i32) {
        if self.den <= 0 {
            return if self.num == 0 {
                0
            } else if self.num < 0 {
                i32::MIN
            } else {
                i32::MAX
            };
        }
        match self.num.checked_div(self.den) {
            Some(q) => if q < i32::MIN as i128 {
                i32::MIN
            } else if q > i32::MAX as i128 {
                i32::MAX
            } else {
                q as i32
            },
            None => i32::MIN,
        }
    }

    fn infinity() -> (r: Self) {
        Exact { num: 1, den: 0 }
    }

    fn neg_infinity() -> (r: Self) {
        Exact { num: -1, den: 0 }
    }

    proof fn lemma_no_turn(px: Self, py: Self, qx: Self, qy: Self) {
        let a = qy.minus_spec(py);
        let b = px.minus_spec(qx);
        let c = qx.minus_spec(px);
        let d = py.minus_spec(qy);
        lemma_negated(qy, py);
        lemma_negated(px, qx);
        assert(a.num * b.num == c.num * d.num) by (nonlinear_arith)
            requires
                c.num == -b.num,
                d.num == -a.num,
        ;
        assert(a.den * b.den == c.den * d.den) by (nonlinear_arith)
            requires
                c.den == b.den,
                d.den == a.den,
        ;
        let l = a.times_spec(b);
        assert(l == c.times_spec(d));
        let area = l.minus_spec(l);
        let zero = Self::from_int_spec(0);
        assert(area.num == 0 && zero.num == 0 && zero.den == 1);
        assert(area.num * zero.den == 0 && zero.num * area.den == 0) by (nonlinear_arith)
            requires
                area.num == 0,
                zero.num == 0,
        ;
    }
}

/// Swapping the operands of a difference changes its sign and no more.
proof fn lemma_negated(p: Exact, q: Exact)
    ensures
        p.minus_spec(q).num == -q.minus_spec(p).num,
        p.minus_spec(q).den == q.minus_spec(p).den,
{
    assert(p.den * q.den == q.den * p.den) by (nonlinear_arith);
}

} // verus!
