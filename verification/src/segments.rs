//! Points, segments and rays in the plane, with integer coordinates.
use vstd::prelude::*;
use crate::areas::{abs, cross, tri};

verus! {

/// The first point comes below the second, or beside it to the left.
pub open spec fn under(p: (int, int), q: (int, int)) -> bool {
    p.1 < q.1 || (p.1 == q.1 && p.0 < q.0)
}

/// The point lies on the segment from `u` to `v`, ends included.
pub open spec fn on(u: (int, int), v: (int, int), p: (int, int)) -> bool {
    &&& tri(u, v, p) == 0
    &&& !(under(p, u) && under(p, v))
    &&& !(under(u, p) && under(v, p))
}

/// One is negative, the other positive.
pub open spec fn opposed(a: int, b: int) -> bool {
    a < 0 < b || b < 0 < a
}

/// The ends of either segment lie on different sides of the other.
pub open spec fn crossing(u: (int, int), v: (int, int), q: (int, int), w: (int, int)) -> bool {
    opposed(tri(u, v, q), tri(u, v, w)) && opposed(tri(q, w, u), tri(q, w, v))
}

/// The segments from `u` to `v` and from `q` to `w` have no point in common.
pub open spec fn apart(u: (int, int), v: (int, int), q: (int, int), w: (int, int)) -> bool {
    &&& !crossing(u, v, q, w)
    &&& !on(u, v, q)
    &&& !on(u, v, w)
    &&& !on(q, w, u)
    &&& !on(q, w, v)
}

/// The value of an affine function at a point.
pub(crate) open spec fn affine(k: (int, int, int), p: (int, int)) -> int {
    k.0 + k.1 * p.0 + k.2 * p.1
}

/// The side of the line from `a` to `b`, as an affine function.
pub(crate) open spec fn side(a: (int, int), b: (int, int)) -> (int, int, int) {
    (cross(a, b), a.1 - b.1, b.0 - a.0)
}

/// The height of points whose first coordinates differ by less than `k`, as an affine function.
pub(crate) open spec fn height(k: int) -> (int, int, int) {
    (0, 1, k)
}

/// A number that the first coordinates of four points differ by less than.
pub(crate) open spec fn spread_of(
    u: (int, int),
    v: (int, int),
    q: (int, int),
    w: (int, int),
) -> int {
    1 + abs(u.0) + abs(v.0) + abs(q.0) + abs(w.0)
}

/// What the area of a triangle is, whichever corner comes first, and the other way round.
pub(crate) proof fn lemma_tri(a: (int, int), b: (int, int), c: (int, int))
    ensures
        tri(a, b, c) == tri(b, c, a),
        tri(a, b, c) == tri(c, a, b),
        tri(a, b, c) == -tri(b, a, c),
        tri(a, b, c) == -tri(a, c, b),
        tri(a, b, c) == -tri(c, b, a),
        tri(a, b, a) == 0,
        tri(a, b, b) == 0,
        tri(a, a, b) == 0,
{
    assert(a.0 * b.1 == b.1 * a.0 && a.1 * b.0 == b.0 * a.1) by (nonlinear_arith);
    assert(b.0 * c.1 == c.1 * b.0 && b.1 * c.0 == c.0 * b.1) by (nonlinear_arith);
    assert(a.0 * c.1 == c.1 * a.0 && a.1 * c.0 == c.0 * a.1) by (nonlinear_arith);
    assert(a.0 * a.1 == a.1 * a.0 && b.0 * b.1 == b.1 * b.0) by (nonlinear_arith);
}

/// The area of a triangle is an affine function of each corner.
pub(crate) proof fn lemma_side(a: (int, int), b: (int, int), p: (int, int))
    ensures
        affine(side(a, b), p) == tri(a, b, p),
{
    lemma_differences(a.1, b.1, p.0, 0);
    lemma_differences(b.0, a.0, p.1, 0);
}

/// A product of three numbers in another order.
proof fn lemma_thrice(a: int, b: int, c: int)
    ensures
        (a * b) * c == (c * b) * a,
        (a * b) * c == (a * c) * b,
        (a * b) * c == (b * a) * c,
{
    assert((a * b) * c == (c * b) * a) by (nonlinear_arith);
    assert((a * b) * c == (a * c) * b) by (nonlinear_arith);
    assert((a * b) * c == (b * a) * c) by (nonlinear_arith);
}

/// The product of two differences.
pub(crate) proof fn lemma_differences(a: int, b: int, c: int, d: int)
    ensures
        (a - b) * (c - d) == a * c - a * d - b * c + b * d,
        a * c == c * a,
        a * d == d * a,
        b * c == c * b,
        b * d == d * b,
{
    assert((a - b) * (c - d) == a * (c - d) - b * (c - d)) by (nonlinear_arith);
    assert(a * (c - d) == a * c - a * d) by (nonlinear_arith);
    assert(b * (c - d) == b * c - b * d) by (nonlinear_arith);
    assert(a * c == c * a) by (nonlinear_arith);
    assert(a * d == d * a) by (nonlinear_arith);
    assert(b * c == c * b) by (nonlinear_arith);
    assert(b * d == d * b) by (nonlinear_arith);
}

/// Distributing a product over a difference.
proof fn lemma_minus_times(a: int, b: int, c: int)
    ensures
        (a - b) * c == a * c - b * c,
{
    assert((a - b) * c == a * c - b * c) by (nonlinear_arith);
}

/// Three vectors in the plane weighted by the cross products of the other two balance out.
proof fn lemma_three(a: (int, int), b: (int, int), c: (int, int))
    ensures
        cross(b, c) * a.0 - cross(a, c) * b.0 + cross(a, b) * c.0 == 0,
        cross(b, c) * a.1 - cross(a, c) * b.1 + cross(a, b) * c.1 == 0,
{
    lemma_minus_times(b.0 * c.1, c.0 * b.1, a.0);
    lemma_minus_times(a.0 * c.1, c.0 * a.1, b.0);
    lemma_minus_times(a.0 * b.1, b.0 * a.1, c.0);
    lemma_thrice(b.0, c.1, a.0);
    lemma_thrice(c.0, b.1, a.0);
    lemma_thrice(c.0, a.1, b.0);
    lemma_minus_times(b.0 * c.1, c.0 * b.1, a.1);
    lemma_minus_times(a.0 * c.1, c.0 * a.1, b.1);
    lemma_minus_times(a.0 * b.1, b.0 * a.1, c.1);
    lemma_thrice(b.0, c.1, a.1);
    lemma_thrice(c.0, b.1, a.1);
    lemma_thrice(a.0, c.1, b.1);
}

/// The vector from one point to another.
spec fn from_to(p: (int, int), q: (int, int)) -> (int, int) {
    (q.0 - p.0, q.1 - p.1)
}

/// The area of a triangle, seen from its first corner.
proof fn lemma_tri_from(p: (int, int), q: (int, int), r: (int, int))
    ensures
        tri(p, q, r) == cross(from_to(p, q), from_to(p, r)),
{
    lemma_differences(q.0, p.0, r.1, p.1);
    lemma_differences(r.0, p.0, q.1, p.1);
}

/// Weights that balance out do so wherever they are seen from.
proof fn lemma_shifted(
    a: int,
    b: int,
    c: int,
    d: int,
    u: int,
    v: int,
    q: int,
    w: int,
)
    requires
        a - b + c - d == 0,
        b * (v - u) - c * (q - u) + d * (w - u) == 0,
    ensures
        a * u - b * v + c * q - d * w == 0,
{
    assert(b * (v - u) == b * v - b * u) by (nonlinear_arith);
    assert(c * (q - u) == c * q - c * u) by (nonlinear_arith);
    assert(d * (w - u) == d * w - d * u) by (nonlinear_arith);
    assert(a * u == b * u - c * u + d * u) by (nonlinear_arith)
        requires
            a == b - c + d,
    ;
}

/// Four points weighted by the triangles of the other three balance out.
pub(crate) proof fn lemma_four(
    k: (int, int, int),
    u: (int, int),
    v: (int, int),
    q: (int, int),
    w: (int, int),
)
    ensures
        tri(v, q, w) - tri(u, q, w) + tri(u, v, w) - tri(u, v, q) == 0,
        tri(v, q, w) * affine(k, u) - tri(u, q, w) * affine(k, v) + tri(u, v, w) * affine(k, q)
            - tri(u, v, q) * affine(k, w) == 0,
{
    let (a, b, c, d) = (tri(v, q, w), tri(u, q, w), tri(u, v, w), tri(u, v, q));
    assert(a - b + c - d == 0) by {
        lemma_tri(u, v, q);
        lemma_tri(u, v, w);
        lemma_tri(u, q, w);
        lemma_tri(v, q, w);
    }
    lemma_tri_from(u, q, w);
    lemma_tri_from(u, v, w);
    lemma_tri_from(u, v, q);
    lemma_three(from_to(u, v), from_to(u, q), from_to(u, w));
    lemma_shifted(a, b, c, d, u.0, v.0, q.0, w.0);
    lemma_shifted(a, b, c, d, u.1, v.1, q.1, w.1);
    assert(a * u.0 - b * v.0 + c * q.0 - d * w.0 == 0);
    assert(a * u.1 - b * v.1 + c * q.1 - d * w.1 == 0);
    lemma_weighted(a, k, u);
    lemma_weighted(b, k, v);
    lemma_weighted(c, k, q);
    lemma_weighted(d, k, w);
    lemma_gathered(k.0, a, b, c, d);
    lemma_gathered(k.1, a * u.0, b * v.0, c * q.0, d * w.0);
    lemma_gathered(k.2, a * u.1, b * v.1, c * q.1, d * w.1);
}

/// The weight of a point in an affine function, coordinate by coordinate.
proof fn lemma_weighted(a: int, k: (int, int, int), p: (int, int))
    ensures
        a * affine(k, p) == k.0 * a + k.1 * (a * p.0) + k.2 * (a * p.1),
{
    let (k0, k1, k2, x, y) = (k.0, k.1, k.2, p.0, p.1);
    assert(a * (k0 + k1 * x + k2 * y) == a * k0 + a * (k1 * x) + a * (k2 * y)) by (nonlinear_arith);
    assert(a * k0 == k0 * a) by (nonlinear_arith);
    assert(a * (k1 * x) == k1 * (a * x)) by (nonlinear_arith);
    assert(a * (k2 * y) == k2 * (a * y)) by (nonlinear_arith);
}

/// A factor of numbers that balance out.
proof fn lemma_gathered(k: int, a: int, b: int, c: int, d: int)
    requires
        a - b + c - d == 0,
    ensures
        k * a - k * b + k * c - k * d == 0,
{
    assert(k * a - k * b + k * c - k * d == k * (a - b + c - d)) by (nonlinear_arith);
    assert(k * (a - b + c - d) == 0) by (nonlinear_arith)
        requires
            a - b + c - d == 0,
    ;
}

/// Heights tell which of two points comes below the other.
pub(crate) proof fn lemma_height(k: int, p: (int, int), q: (int, int))
    requires
        -k < p.0 - q.0 < k,
    ensures
        under(p, q) <==> affine(height(k), p) < affine(height(k), q),
        p == q <==> affine(height(k), p) == affine(height(k), q),
{
    let (px, py, qx, qy) = (p.0, p.1, q.0, q.1);
    assert(py < qy ==> k * (qy - py) >= k) by (nonlinear_arith)
        requires
            k > 0,
    ;
    assert(qy < py ==> k * (py - qy) >= k) by (nonlinear_arith)
        requires
            k > 0,
    ;
    assert(k * (qy - py) == k * qy - k * py && k * (py - qy) == k * py - k * qy) by (
    nonlinear_arith);
}

/// Of two segments that are apart and not on one line, one lies on one side of the other.
pub(crate) proof fn lemma_apart(
    u: (int, int),
    v: (int, int),
    q: (int, int),
    w: (int, int),
)
    requires
        apart(u, v, q, w),
        tri(u, v, q) != 0 || tri(u, v, w) != 0,
    ensures
        !(astride(tri(u, v, q), tri(u, v, w)) && astride(tri(q, w, u), tri(q, w, v))),
{
    let (o1, o2, o3, o4) = (tri(u, v, q), tri(u, v, w), tri(q, w, u), tri(q, w, v));
    if astride(o1, o2) && astride(o3, o4) {
        let k = spread_of(u, v, q, w);
        let h = height(k);
        lemma_four(h, u, v, q, w);
        lemma_tri(u, q, w);
        lemma_tri(v, q, w);
        lemma_height(k, u, q);
        lemma_height(k, v, q);
        lemma_height(k, u, w);
        lemma_height(k, v, w);
        lemma_height(k, q, u);
        lemma_height(k, q, v);
        lemma_height(k, w, u);
        lemma_height(k, w, v);
        lemma_astride(o1, o2, o3, o4, affine(h, u), affine(h, v), affine(h, q), affine(h, w));
        assert(o1 == 0 ==> on(u, v, q));
        assert(o2 == 0 ==> on(u, v, w));
        assert(o3 == 0 ==> on(q, w, u));
        assert(o4 == 0 ==> on(q, w, v));
    }
}

/// Zero is between the two.
pub(crate) open spec fn astride(a: int, b: int) -> bool {
    a <= 0 <= b || b <= 0 <= a
}

/// Where segments touch, the point is between the ends of both.
proof fn lemma_astride(
    o1: int,
    o2: int,
    o3: int,
    o4: int,
    hu: int,
    hv: int,
    hq: int,
    hw: int,
)
    requires
        o1 != 0 || o2 != 0,
        astride(o1, o2),
        astride(o3, o4),
        o4 - o3 + o2 - o1 == 0,
        o4 * hu - o3 * hv + o2 * hq - o1 * hw == 0,
    ensures
        o1 == 0 ==> !(hq < hu && hq < hv) && !(hu < hq && hv < hq),
        o2 == 0 ==> !(hw < hu && hw < hv) && !(hu < hw && hv < hw),
        o3 == 0 ==> !(hu < hq && hu < hw) && !(hq < hu && hw < hu),
        o4 == 0 ==> !(hv < hq && hv < hw) && !(hq < hv && hw < hv),
{
    lemma_balance_at(o4, o3, o2, o1, hu, hv, hq, hw, hq);
    lemma_balance_at(o4, o3, o2, o1, hu, hv, hq, hw, hw);
    lemma_balance_at(o4, o3, o2, o1, hu, hv, hq, hw, hu);
    lemma_balance_at(o4, o3, o2, o1, hu, hv, hq, hw, hv);
    lemma_signs(o1, hw - hq);
    lemma_signs(o2, hq - hw);
    lemma_signs(o3, hv - hq);
    lemma_signs(o3, hv - hw);
    lemma_signs(o3, hv - hu);
    lemma_signs(o1, hw - hu);
    lemma_signs(o1, hw - hv);
    lemma_signs(o4, hu - hv);
    if o1 == 0 {
        lemma_balanced(o4, -o3, hu - hq, hv - hq);
    }
    if o2 == 0 {
        lemma_balanced(o4, -o3, hu - hw, hv - hw);
    }
    if o3 == 0 {
        lemma_balanced(o2, -o1, hq - hu, hw - hu);
    }
    if o4 == 0 {
        lemma_balanced(o2, -o1, hq - hv, hw - hv);
    }
}

/// What balances out does so seen from `h`.
pub(crate) proof fn lemma_balance_at(
    a: int,
    b: int,
    c: int,
    d: int,
    u: int,
    v: int,
    q: int,
    w: int,
    h: int,
)
    requires
        a - b + c - d == 0,
        a * u - b * v + c * q - d * w == 0,
    ensures
        a * (u - h) - b * (v - h) + c * (q - h) - d * (w - h) == 0,
{
    assert(a * (u - h) == a * u - h * a) by (nonlinear_arith);
    assert(b * (v - h) == b * v - h * b) by (nonlinear_arith);
    assert(c * (q - h) == c * q - h * c) by (nonlinear_arith);
    assert(d * (w - h) == d * w - h * d) by (nonlinear_arith);
    lemma_gathered(h, a, b, c, d);
}

/// Two numbers that balance out with weights of one sign have different signs.
proof fn lemma_balanced(a: int, b: int, x: int, y: int)
    requires
        (a >= 0 && b >= 0) || (a <= 0 && b <= 0),
        a != 0 || b != 0,
        a * x + b * y == 0,
    ensures
        !(x < 0 && y < 0),
        !(x > 0 && y > 0),
{
    lemma_signs(a, x);
    lemma_signs(b, y);
}

/// The sign of a product.
pub(crate) proof fn lemma_signs(a: int, b: int)
    ensures
        a > 0 && b > 0 ==> a * b > 0,
        a > 0 && b < 0 ==> a * b < 0,
        a < 0 && b > 0 ==> a * b < 0,
        a < 0 && b < 0 ==> a * b > 0,
        a == 0 || b == 0 ==> a * b == 0,
        (-a) * b == -(a * b),
        a * (-b) == -(a * b),
{
    assert(a > 0 && b > 0 ==> a * b > 0) by (nonlinear_arith);
    assert(a > 0 && b < 0 ==> a * b < 0) by (nonlinear_arith);
    assert(a < 0 && b > 0 ==> a * b < 0) by (nonlinear_arith);
    assert(a < 0 && b < 0 ==> a * b > 0) by (nonlinear_arith);
    assert(a == 0 || b == 0 ==> a * b == 0) by (nonlinear_arith);
    assert((-a) * b == -(a * b)) by (nonlinear_arith);
    assert(a * (-b) == -(a * b)) by (nonlinear_arith);
}

/// The other of two weighted products.
proof fn lemma_swapped(s: int, t: int, xu: int, xv: int, yu: int, yv: int, z: int)
    requires
        z == xv * yu - xu * yv,
    ensures
        s * z == xv * (s * yu + t * yv) - (s * xu + t * xv) * yv,
{
    assert(s * (xv * yu - xu * yv) == xv * (s * yu) - (s * xu) * yv) by (nonlinear_arith);
    assert(xv * (s * yu + t * yv) == xv * (s * yu) + xv * (t * yv)) by (nonlinear_arith);
    assert((s * xu + t * xv) * yv == (s * xu) * yv + (t * xv) * yv) by (nonlinear_arith);
    assert(xv * (t * yv) == (t * xv) * yv) by (nonlinear_arith);
}

/// Where a line through a triangle passes its corners: it comes from a point that is at `(x, y,
/// z)` from the sides, weighted by `s` and `t`, and leaves by one of two sides.
proof fn lemma_leaving(
    all: int,
    s: int,
    t: int,
    xu: int,
    xv: int,
    yu: int,
    yv: int,
    zu: int,
    zv: int,
    la: int,
    lb: int,
    lc: int,
)
    requires
        all > 0,
        s > 0,
        t >= 0,
        s * xu + t * xv > 0,
        s * yu + t * yv > 0,
        s * zu + t * zv >= 0,
        zv > 0,
        xv < 0 || yv < 0,
        all * la == xv * zu - xu * zv,
        all * lb == xu * yv - xv * yu,
        all * lc == yu * zv - yv * zu,
    ensures
        (xv < 0 < xu && la < 0 <= lb) || (yv < 0 < yu && lb <= 0 < lc),
{
    let x = s * xu + t * xv;
    let y = s * yu + t * yv;
    let z = s * zu + t * zv;
    lemma_swapped(s, t, xu, xv, zu, zv, all * la);
    lemma_swapped(s, t, xu, xv, yu, yv, -(all * lb));
    lemma_swapped(s, t, yu, yv, zu, zv, -(all * lc));
    lemma_signs(s, all * la);
    lemma_signs(s, all * lb);
    lemma_signs(s, all * lc);
    lemma_signs(all, la);
    lemma_signs(all, lb);
    lemma_signs(all, lc);
    lemma_signs(xv, z);
    lemma_signs(yv, z);
    lemma_signs(x, zv);
    lemma_signs(y, zv);
    lemma_signs(xv, y);
    lemma_signs(x, yv);
    lemma_signs(s, xu);
    lemma_signs(t, xv);
    lemma_signs(s, yu);
    lemma_signs(t, yv);
}

/// A segment that runs from a triangle, at the point which is weighted by `s` and `t` on it, to
/// its end `v` outside, on the inner side of `c` to `a`, meets another side.
pub(crate) proof fn lemma_pasch(
    a: (int, int),
    b: (int, int),
    c: (int, int),
    u: (int, int),
    v: (int, int),
    s: int,
    t: int,
)
    requires
        tri(a, b, c) > 0,
        s > 0,
        t >= 0,
        s * tri(a, b, u) + t * tri(a, b, v) > 0,
        s * tri(b, c, u) + t * tri(b, c, v) > 0,
        s * tri(c, a, u) + t * tri(c, a, v) >= 0,
        tri(c, a, v) > 0,
        tri(a, b, v) < 0 || tri(b, c, v) < 0,
    ensures
        (tri(a, b, v) < 0 && !apart(u, v, a, b)) || (tri(b, c, v) < 0 && !apart(u, v, b, c)),
{
    let (la, lb, lc) = (tri(u, v, a), tri(u, v, b), tri(u, v, c));
    let (xu, xv) = (tri(a, b, u), tri(a, b, v));
    let (yu, yv) = (tri(b, c, u), tri(b, c, v));
    let (zu, zv) = (tri(c, a, u), tri(c, a, v));
    let all = tri(a, b, c);
    lemma_four(side(c, a), u, v, a, b);
    lemma_four(side(b, c), u, v, a, b);
    lemma_four(side(c, a), u, v, b, c);
    lemma_side(c, a, u);
    lemma_side(c, a, v);
    lemma_side(c, a, a);
    lemma_side(c, a, b);
    lemma_side(c, a, c);
    lemma_side(b, c, u);
    lemma_side(b, c, v);
    lemma_side(b, c, a);
    lemma_side(b, c, b);
    lemma_tri(a, b, c);
    lemma_tri(c, a, b);
    lemma_tri(a, b, u);
    lemma_tri(a, b, v);
    lemma_tri(b, c, u);
    lemma_tri(b, c, v);
    lemma_tri(c, a, a);
    lemma_tri(b, c, b);
    assert(tri(v, a, b) == xv && tri(u, a, b) == xu && tri(v, b, c) == yv && tri(u, b, c) == yu);
    assert(tri(c, a, a) == 0 && tri(c, a, c) == 0 && tri(b, c, b) == 0);
    assert(tri(c, a, b) == all && tri(b, c, a) == all);
    lemma_signs(lb, 0);
    lemma_signs(la, 0);
    assert(la * all == all * la && lb * all == all * lb && lc * all == all * lc) by (
    nonlinear_arith);
    lemma_leaving(all, s, t, xu, xv, yu, yv, zu, zv, la, lb, lc);
    if xv < 0 < xu && la < 0 <= lb {
        if apart(u, v, a, b) {
            lemma_apart(u, v, a, b);
        }
    } else if apart(u, v, b, c) {
        lemma_apart(u, v, b, c);
    }
}


/// A point on the segment from `b` to `z`, which starts at a corner of a triangle and ends inside,
/// is inside, and further from the opposite side than `z`.
pub(crate) proof fn lemma_on_way(
    a: (int, int),
    b: (int, int),
    c: (int, int),
    z: (int, int),
    u: (int, int),
)
    requires
        tri(a, b, z) > 0,
        tri(b, c, z) > 0,
        on(b, z, u),
        u != b,
        u != z,
    ensures
        0 < tri(a, b, u) < tri(a, b, z),
        0 < tri(b, c, u) < tri(b, c, z),
        tri(c, a, u) > tri(c, a, z),
{
    let k = spread_of(b, z, u, u);
    let h = height(k);
    let x = affine(h, u) - affine(h, b);
    let y = affine(h, z) - affine(h, b);
    lemma_height(k, b, z);
    lemma_height(k, z, b);
    lemma_height(k, b, u);
    lemma_height(k, u, b);
    lemma_height(k, z, u);
    lemma_height(k, u, z);
    assert((0 < x && x < y) || (y < x && x < 0));
    lemma_four(h, u, a, b, z);
    lemma_tri(a, b, z);
    lemma_tri(u, b, z);
    lemma_tri(b, z, u);
    lemma_tri(u, a, b);
    lemma_balance_at(
        tri(a, b, z),
        tri(u, b, z),
        tri(u, a, z),
        tri(u, a, b),
        affine(h, u),
        affine(h, a),
        affine(h, b),
        affine(h, z),
        affine(h, b),
    );
    lemma_signs(tri(u, b, z), affine(h, a) - affine(h, b));
    lemma_signs(tri(u, a, z), affine(h, b) - affine(h, b));
    lemma_share(tri(a, b, u), tri(a, b, z), x, y);
    lemma_four(h, u, c, b, z);
    lemma_tri(c, b, z);
    lemma_tri(b, c, z);
    lemma_tri(u, c, b);
    lemma_tri(b, c, u);
    lemma_balance_at(
        tri(c, b, z),
        tri(u, b, z),
        tri(u, c, z),
        tri(u, c, b),
        affine(h, u),
        affine(h, c),
        affine(h, b),
        affine(h, z),
        affine(h, b),
    );
    lemma_signs(tri(u, b, z), affine(h, c) - affine(h, b));
    lemma_signs(tri(u, c, z), affine(h, b) - affine(h, b));
    lemma_signs(tri(b, c, z), x);
    lemma_signs(tri(b, c, u), y);
    lemma_share(tri(b, c, u), tri(b, c, z), x, y);
    lemma_sum(a, b, c, u);
    lemma_sum(a, b, c, z);
}

/// A point divides a triangle in three.
pub(crate) proof fn lemma_sum(a: (int, int), b: (int, int), c: (int, int), p: (int, int))
    ensures
        tri(a, b, p) + tri(b, c, p) + tri(c, a, p) == tri(a, b, c),
{
    lemma_four(height(0), a, b, c, p);
    lemma_tri(a, c, p);
}

/// A share of a positive number.
proof fn lemma_share(m: int, n: int, x: int, y: int)
    requires
        n > 0,
        n * x == m * y,
        (0 < x && x < y) || (y < x && x < 0),
    ensures
        0 < m < n,
{
    lemma_signs(n, x);
    lemma_signs(m, y);
    lemma_signs(n - m, y);
    lemma_signs(n, y - x);
    assert((n - m) * y == n * y - m * y) by (nonlinear_arith);
    assert(n * (y - x) == n * y - n * x) by (nonlinear_arith);
}

/// A point on a side of a triangle is inside.
pub(crate) proof fn lemma_on_side(a: (int, int), b: (int, int), c: (int, int), p: (int, int))
    requires
        tri(a, b, c) > 0,
        on(a, c, p),
    ensures
        tri(a, b, p) >= 0,
        tri(b, c, p) >= 0,
        tri(c, a, p) == 0,
{
    let k = spread_of(a, c, p, p);
    let h = height(k);
    lemma_height(k, a, p);
    lemma_height(k, p, a);
    lemma_height(k, c, p);
    lemma_height(k, p, c);
    lemma_height(k, a, c);
    lemma_height(k, c, a);
    let all = tri(a, b, c);
    let (ha, hb, hc, hp) = (affine(h, a), affine(h, b), affine(h, c), affine(h, p));
    lemma_four(h, a, c, p, b);
    lemma_tri(a, b, c);
    lemma_tri(a, b, p);
    lemma_tri(b, c, p);
    lemma_tri(a, c, p);
    lemma_tri(c, p, b);
    lemma_tri(a, p, b);
    lemma_tri(a, c, b);
    let (x, y) = (tri(a, b, p), tri(b, c, p));
    assert(tri(c, p, b) == y && tri(a, p, b) == -x && tri(a, c, b) == -all && tri(a, c, p) == 0);
    lemma_balance_at(y, -x, -all, 0, ha, hc, hp, hb, ha);
    lemma_balance_at(y, -x, -all, 0, ha, hc, hp, hb, hc);
    lemma_signs(y, ha - ha);
    lemma_signs(y, ha - hc);
    lemma_signs(x, hc - ha);
    lemma_signs(x, hc - hc);
    lemma_signs(all, hp - ha);
    lemma_signs(all, hp - hc);
    lemma_signs(0, hb - ha);
    lemma_signs(0, hb - hc);
    lemma_signs(-x, hc - ha);
    lemma_signs(-x, hc - hc);
    lemma_signs(-all, hp - ha);
    lemma_signs(-all, hp - hc);
    if a == c {
        lemma_tri(a, b, a);
    }
}

/// A point in a triangle that is not on its first two sides is away from both.
pub(crate) proof fn lemma_strictly(a: (int, int), b: (int, int), c: (int, int), p: (int, int))
    requires
        tri(a, b, c) > 0,
        tri(a, b, p) >= 0,
        tri(b, c, p) >= 0,
        tri(c, a, p) >= 0,
        !on(a, b, p),
        !on(b, c, p),
    ensures
        tri(a, b, p) > 0,
        tri(b, c, p) > 0,
{
    let k = spread_of(a, b, c, p);
    let h = height(k);
    lemma_height(k, a, p);
    lemma_height(k, p, a);
    lemma_height(k, b, p);
    lemma_height(k, p, b);
    lemma_height(k, c, p);
    lemma_height(k, p, c);
    let all = tri(a, b, c);
    let (ha, hb, hc, hp) = (affine(h, a), affine(h, b), affine(h, c), affine(h, p));
    lemma_four(h, a, b, c, p);
    lemma_tri(a, c, p);
    let (x, y, z) = (tri(a, b, p), tri(b, c, p), tri(c, a, p));
    lemma_sum(a, b, c, p);
    lemma_balance_at(y, -z, x, all, ha, hb, hc, hp, hp);
    lemma_signs(y, ha - hp);
    lemma_signs(z, hb - hp);
    lemma_signs(-z, hb - hp);
    lemma_signs(x, hc - hp);
    lemma_signs(all, hp - hp);
    if x == 0 {
        lemma_balanced(y, z, ha - hp, hb - hp);
    }
    if y == 0 {
        lemma_balanced(z, x, hb - hp, hc - hp);
    }
}

/// A point in a triangle is in the box around it.
pub(crate) proof fn lemma_in_box(
    k: (int, int, int),
    a: (int, int),
    b: (int, int),
    c: (int, int),
    p: (int, int),
)
    requires
        tri(a, b, c) > 0,
        tri(a, b, p) >= 0,
        tri(b, c, p) >= 0,
        tri(c, a, p) >= 0,
    ensures
        !(affine(k, p) < affine(k, a) && affine(k, p) < affine(k, b) && affine(k, p) < affine(
            k,
            c,
        )),
        !(affine(k, p) > affine(k, a) && affine(k, p) > affine(k, b) && affine(k, p) > affine(
            k,
            c,
        )),
{
    let (ha, hb, hc, hp) = (affine(k, a), affine(k, b), affine(k, c), affine(k, p));
    let (x, y, z) = (tri(a, b, p), tri(b, c, p), tri(c, a, p));
    lemma_four(k, a, b, c, p);
    lemma_tri(a, c, p);
    lemma_sum(a, b, c, p);
    lemma_balance_at(y, -z, x, tri(a, b, c), ha, hb, hc, hp, hp);
    lemma_signs(y, ha - hp);
    lemma_signs(z, hb - hp);
    lemma_signs(-z, hb - hp);
    lemma_signs(x, hc - hp);
    lemma_signs(tri(a, b, c), hp - hp);
}

} // verus!
