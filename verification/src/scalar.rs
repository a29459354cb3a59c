//! Coordinates.
use vstd::prelude::*;

verus! {

/// The numbers that coordinates are made of.
///
/// Every operation is a function of its operands, which the `_spec` functions name; the slicing
/// algorithm is stated over these names and uses no law of arithmetic but
/// [`Scalar::lemma_no_turn`]. Comparisons may be undefined between some values (all of `less`,
/// `at_most` and `same` false), as they are with IEEE "not a number".
pub trait Scalar: Copy {
    /// What `plus` returns.
    spec fn plus_spec(self, o: Self) -> Self;

    /// What `minus` returns.
    spec fn minus_spec(self, o: Self) -> Self;

    /// What `times` returns.
    spec fn times_spec(self, o: Self) -> Self;

    /// What `over` returns.
    spec fn over_spec(self, o: Self) -> Self;

    /// What `magnitude` returns.
    spec fn magnitude_spec(self) -> Self;

    /// What `lower` returns.
    spec fn lower_spec(self, o: Self) -> Self;

    /// What `upper` returns.
    spec fn upper_spec(self, o: Self) -> Self;

    /// What `less` returns.
    spec fn less_spec(self, o: Self) -> bool;

    /// What `at_most` returns.
    spec fn at_most_spec(self, o: Self) -> bool;

    /// What `same` returns.
    spec fn same_spec(self, o: Self) -> bool;

    /// What `from_int` returns.
    spec fn from_int_spec(n: i32) -> Self;

    /// What `truncated` returns.
    spec fn truncated_spec(self) -> i32;

    /// What `infinity` returns.
    spec fn infinity_spec() -> Self;

    /// What `neg_infinity` returns.
    spec fn neg_infinity_spec() -> Self;

    /// The sum.
    fn plus(self, o: Self) -> (r: Self)
        ensures
            r == self.plus_spec(o),
    ;

    /// The difference.
    fn minus(self, o: Self) -> (r: Self)
        ensures
            r == self.minus_spec(o),
    ;

    /// The product.
    fn times(self, o: Self) -> (r: Self)
        ensures
            r == self.times_spec(o),
    ;

    /// The quotient.
    fn over(self, o: Self) -> (r: Self)
        ensures
            r == self.over_spec(o),
    ;

    /// The absolute value.
    fn magnitude(self) -> (r: Self)
        ensures
            r == self.magnitude_spec(),
    ;

    /// The lesser of two values.
    fn lower(self, o: Self) -> (r: Self)
        ensures
            r == self.lower_spec(o),
    ;

    /// The greater of two values.
    fn upper(self, o: Self) -> (r: Self)
        ensures
            r == self.upper_spec(o),
    ;

    /// Whether this value is below `o`.
    fn less(self, o: Self) -> (r: bool)
        ensures
            r == self.less_spec(o),
    ;

    /// Whether this value is below `o` or equal to it.
    fn at_most(self, o: Self) -> (r: bool)
        ensures
            r == self.at_most_spec(o),
    ;

    /// Whether this value equals `o`.
    fn same(self, o: Self) -> (r: bool)
        ensures
            r == self.same_spec(o),
    ;

    /// The value of a small integer.
    fn from_int(n: i32) -> (r: Self)
        ensures
            r == Self::from_int_spec(n),
    ;

    /// The integer part, saturating at the ends of the range of `i32`.
    fn truncated(self) -> (r: i32)
        ensures
            r == self.truncated_spec(),
    ;

    /// A value that no coordinate exceeds.
    fn infinity() -> (r: Self)
        ensures
            r == Self::infinity_spec(),
    ;

    /// A value that no coordinate is below.
    fn neg_infinity() -> (r: Self)
        ensures
            r == Self::neg_infinity_spec(),
    ;

    /// Walking to a point and back encloses no area: the signed area of the triangle
    /// `(p, q, p)`, as `area_xy` computes it, is neither above nor below zero.
    proof fn lemma_no_turn(px: Self, py: Self, qx: Self, qy: Self)
        ensures
            ({
                let area = qy.minus_spec(py).times_spec(px.minus_spec(qx)).minus_spec(
                    qx.minus_spec(px).times_spec(py.minus_spec(qy)),
                );
                let zero = Self::from_int_spec(0);
                !area.less_spec(zero) && !zero.less_spec(area)
            }),
    ;
}

} // verus!
