use rearcut::{deviation, earcut, Exact, Scalar};

fn num(n: i64) -> Exact {
    Exact::new(n)
}

fn ratio(num: i128, den: i128) -> Exact {
    Exact { num, den }
}

fn coords(data: &[i64]) -> Vec<Exact> {
    data.iter().map(|&v| num(v)).collect()
}

fn is_nan(c: Exact) -> bool {
    c.num == 0 && c.den == 0
}

#[test]
fn arithmetic_is_exact() {
    let third = num(1).over(num(3));
    let sixth = num(1).over(num(6));
    assert!(third.plus(sixth).same(num(1).over(num(2))));
    assert!(third.minus(sixth).same(sixth));
    assert!(third.times(num(6)).same(num(2)));
    assert!(num(5).over(num(-2)).same(ratio(-5, 2)));
    assert!(num(-7).magnitude().same(num(7)));
    assert!(Exact::from_int(32767).same(num(32767)));
}

#[test]
fn comparisons() {
    let third = num(1).over(num(3));
    assert!(third.less(num(1)) && !num(1).less(third) && !third.less(third));
    assert!(third.at_most(third) && third.at_most(num(1)) && !num(1).at_most(third));
    assert!(ratio(2, 6).same(third));
    assert!(third.lower(num(1)).same(third) && num(1).lower(third).same(third));
    assert!(third.upper(num(1)).same(num(1)) && num(1).upper(third).same(num(1)));
}

#[test]
fn infinite_values() {
    let inf = Exact::infinity();
    let neg = Exact::neg_infinity();
    assert!(num(i64::MAX).less(inf) && neg.less(num(i64::MIN)) && neg.less(inf));
    assert!(!inf.less(inf) && inf.same(inf) && !inf.same(neg));
    assert!(num(1).over(num(0)).same(inf) && num(-1).over(num(0)).same(neg));
    assert!(inf.lower(num(3)).same(num(3)) && neg.upper(num(3)).same(num(3)));
}

#[test]
fn what_does_not_fit_is_not_a_number() {
    let huge = ratio(i128::MAX, 1);
    assert!(is_nan(huge.plus(num(1))));
    assert!(is_nan(huge.minus(num(-1))));
    assert!(is_nan(huge.times(num(2))));
    assert!(is_nan(num(1).over(huge).over(num(2))));
    assert!(is_nan(num(0).over(num(0))));
    let nan = num(0).over(num(0));
    assert!(!nan.same(nan) && !nan.less(num(1)) && !num(1).less(nan) && !nan.at_most(nan));
    assert!(nan.lower(num(4)).same(num(4)) && nan.upper(num(4)).same(num(4)));
    assert!(num(4).lower(nan).same(num(4)) && num(4).upper(nan).same(num(4)));
}

#[test]
fn truncation() {
    assert_eq!(num(7).over(num(2)).truncated(), 3);
    assert_eq!(num(-7).over(num(2)).truncated(), -3);
    assert_eq!(num(1 << 40).truncated(), i32::MAX);
    assert_eq!(num(-(1 << 40)).truncated(), i32::MIN);
    assert_eq!(Exact::infinity().truncated(), i32::MAX);
    assert_eq!(Exact::neg_infinity().truncated(), i32::MIN);
    assert_eq!(num(0).over(num(0)).truncated(), 0);
}

#[test]
fn deviation_is_zero() {
    let shapes: [(&[i64], &[usize]); 3] = [
        (&[10, 0, 0, 50, 60, 60, 70, 10], &[]),
        (&[0, 0, 100, 0, 100, 100, 0, 100, 20, 20, 80, 20, 80, 80, 20, 80], &[4]),
        (&[0, 0, 20, 0, 20, 10, 10, 10, 10, 20, 0, 20], &[]),
    ];
    for (data, holes) in shapes.iter() {
        let data = coords(data);
        let triangles: Vec<u32> = earcut(&data, holes, 2);
        assert!(deviation(&data, holes, 2, &triangles).same(num(0)));
    }
}

#[test]
fn deviation_is_a_fraction() {
    let data = coords(&[0, 0, 3, 0, 3, 3, 0, 3, 1, 1, 2, 1, 2, 2, 1, 2]);
    let whole: [u32; 6] = [0, 1, 2, 0, 2, 3];
    assert!(deviation(&data, &[4], 2, &whole).same(ratio(1, 8)));
}

/// The corners of a convex polygon: slopes of growing steepness, there and back.
fn convex(n: i64) -> Vec<Exact> {
    let mut data = Vec::new();
    let (mut x, mut y) = (0i64, 0i64);
    for k in 0..n {
        data.push(num(x));
        data.push(num(y));
        x += n - k;
        y += k;
    }
    for k in 0..n {
        data.push(num(x));
        data.push(num(y));
        x -= n - k;
        y -= k;
    }
    data
}

#[test]
fn convex_polygons_are_sliced_completely() {
    for &n in [2i64, 3, 10, 60].iter() {
        let data = convex(n);
        let count = data.len() / 2;
        let triangles: Vec<u16> = earcut(&data, &[], 2);
        assert_eq!(triangles.len(), 3 * (count - 2));
        assert!(deviation(&data, &[], 2, &triangles).same(num(0)));
    }
}

/// A comb with `n` teeth: many vertices, so that ears are searched by z-order.
fn comb(n: i64) -> Vec<Exact> {
    let mut data = Vec::new();
    for k in 0..n {
        for &(x, y) in [(4 * k, 0), (4 * k + 2, 0), (4 * k + 2, 50), (4 * k + 3, 50)].iter() {
            data.push(num(x));
            data.push(num(y));
        }
    }
    for &(x, y) in [(4 * n, 0), (4 * n, 60), (0, 60)].iter() {
        data.push(num(x));
        data.push(num(y));
    }
    data
}

#[test]
fn combs_are_sliced_completely() {
    for &n in [3i64, 30, 200].iter() {
        let data = comb(n);
        let triangles: Vec<u32> = earcut(&data, &[], 2);
        assert_eq!(triangles.len(), 3 * (data.len() / 2 - 2));
        assert!(deviation(&data, &[], 2, &triangles).same(num(0)));
    }
}

/// A star around the origin: points all around a square, every second one pulled in.
fn star(n: i64) -> Vec<(i64, i64)> {
    let mut corners = Vec::new();
    for side in 0..4 {
        for k in 0..n {
            let (along, out) = (2 * k - n, n);
            let far = if k % 2 == 0 { 9 } else { 2 };
            let (x, y) = match side {
                0 => (out, along),
                1 => (-along, out),
                2 => (-out, -along),
                _ => (along, -out),
            };
            corners.push((far * x, far * y));
        }
    }
    corners
}

#[test]
fn simple_polygons_are_sliced_completely() {
    let steps = vec![(0, 0), (4, 0), (4, 2), (4, 4), (2, 4), (2, 2), (1, 2), (0, 2)];
    let spiral = vec![(0, 0), (9, 0), (9, 9), (2, 9), (2, 4), (5, 4), (5, 6), (4, 6), (4, 5), (3, 5),
        (3, 7), (7, 7), (7, 2), (0, 2)];
    for corners in [steps, spiral, star(4), star(30), star(100)].iter() {
        let n = corners.len();
        for turn in 0..n.min(7) {
            for &backwards in [false, true].iter() {
                for &closed in [false, true].iter() {
                    let mut ring = corners.clone();
                    ring.rotate_left(turn);
                    if backwards {
                        ring.reverse();
                    }
                    if closed {
                        ring.push(ring[0]);
                    }
                    let data: Vec<Exact> =
                        ring.iter().flat_map(|c| [num(c.0), num(c.1)]).collect();
                    let triangles: Vec<u32> = earcut(&data, &[], 2);
                    assert_eq!(triangles.len(), 3 * (n - 2));
                    assert!(deviation(&data, &[], 2, &triangles).same(num(0)));
                }
            }
        }
    }
}

#[test]
fn polygon_with_holes_and_a_deviation() {
    let data = coords(&[
        1, 3, 0, 4, 0, 5, 3, 6, 4, 5, 6, 2, 6, 1, 3, 0, // outer ring
        4, 3, 4, 4, 5, 3, // holes
        3, 1, 3, 2, 2, 2, //
        5, 2, 4, 2, 3, 3,
    ]);
    let holes = [8, 11, 14];
    let triangles: Vec<u32> = earcut(&data, &holes, 2);
    assert_eq!(triangles.len(), 3 * 14);
    assert!(deviation(&data, &holes, 2, &triangles).same(ratio(1, 39)));
}

/// Twice the area of a triangle, positive if its corners run counterclockwise.
fn turn(a: (i64, i64), b: (i64, i64), c: (i64, i64)) -> i64 {
    (b.0 - a.0) * (c.1 - a.1) - (b.1 - a.1) * (c.0 - a.0)
}

/// Whether a point lies inside a polygon: its edges cross the ray to the right an odd number of
/// times.
fn encloses(corners: &[(i64, i64)], q: (i64, i64)) -> bool {
    let n = corners.len();
    let mut odd = false;
    for k in 0..n {
        let (u, v) = (corners[k], corners[(k + 1) % n]);
        if (u.1 <= q.1) != (v.1 <= q.1) && (turn(u, v, q) > 0) == (u.1 <= q.1) {
            odd = !odd;
        }
    }
    odd
}

/// In how many triangles a point lies, unless it is on a side of one.
fn layers(corners: &[(i64, i64)], triangles: &[u32], q: (i64, i64)) -> Option<usize> {
    let mut layers = 0;
    for t in triangles.chunks(3) {
        let (a, b, c) = (corners[t[0] as usize], corners[t[1] as usize], corners[t[2] as usize]);
        let (i, j, k) = (turn(a, b, q), turn(b, c, q), turn(c, a, q));
        if i >= 0 && j >= 0 && k >= 0 {
            if i == 0 || j == 0 || k == 0 {
                return None;
            }
            layers += 1;
        }
    }
    Some(layers)
}

#[test]
fn triangles_of_a_simple_polygon_cover_it_once() {
    for n in [4i64, 7, 22].iter() {
        let corners = star(*n);
        let data: Vec<Exact> = corners.iter().flat_map(|c| [num(c.0), num(c.1)]).collect();
        let triangles: Vec<u32> = earcut(&data, &[], 2);
        let mut seen = 0;
        for x in -40..40 {
            for y in -40..40 {
                let q = (9 * n * x / 37, 9 * n * y / 37 + x % 3);
                if let Some(layers) = layers(&corners, &triangles, q) {
                    assert_eq!(layers, if encloses(&corners, q) { 1 } else { 0 });
                    seen += layers;
                }
            }
        }
        assert!(seen > 100);
    }
}

#[test]
fn triangles_leave_holes_out() {
    let outer = [(0, 0), (100, 0), (100, 100), (50, 60), (0, 100)];
    let near = [(11, 13), (40, 17), (29, 41)];
    let far = [(60, 20), (60, 50), (81, 50), (83, 22)];
    let mut corners = outer.to_vec();
    corners.extend_from_slice(&near);
    corners.extend_from_slice(&far);
    let data: Vec<Exact> = corners.iter().flat_map(|c| [num(c.0), num(c.1)]).collect();
    let holes = [5, 8];
    let triangles: Vec<u32> = earcut(&data, &holes, 2);
    assert_eq!(triangles.len(), 3 * (12 + 2 * 2 - 2));
    assert!(deviation(&data, &holes, 2, &triangles).same(num(0)));
    let mut seen = 0;
    for x in -3..104 {
        for y in -3..104 {
            let q = (x, y);
            if let Some(layers) = layers(&corners, &triangles, q) {
                let inside =
                    encloses(&outer, q) && !encloses(&near, q) && !encloses(&far, q);
                assert_eq!(layers, if inside { 1 } else { 0 });
                seen += layers;
            }
        }
    }
    assert!(seen > 4000);
}
