use rearcut::{deviation, earcut, Exact, Scalar};

type Point = (i64, i64);

fn num(n: i64) -> Exact {
    Exact::new(n)
}

fn ratio(num: i128, den: i128) -> Exact {
    Exact { num, den }
}

fn flat(corners: &[Point], factor: i64) -> Vec<Exact> {
    corners.iter().flat_map(|c| [num(factor * c.0), num(factor * c.1)]).collect()
}

/// A linear congruential generator.
struct Lcg(u64);

impl Lcg {
    fn below(&mut self, m: u64) -> i64 {
        self.0 = self.0.wrapping_mul(6364136223846793005).wrapping_add(1442695040888963407);
        ((self.0 >> 33) % m) as i64
    }
}

/// A ring of `n` points at random, and up to two holes of up to five.
fn scribble(seed: u64, n: usize) -> (Vec<Point>, Vec<usize>) {
    let mut random = Lcg(seed);
    let mut corners = Vec::new();
    let mut holes = Vec::new();
    for _ in 0..n {
        corners.push((random.below(40), random.below(40)));
    }
    for _ in 0..random.below(3) {
        holes.push(corners.len());
        let (x, y) = (random.below(30), random.below(30));
        for _ in 0..1 + random.below(5) {
            corners.push((x + random.below(10), y + random.below(10)));
        }
    }
    (corners, holes)
}

/// A star around the origin: points all around a square, every second one pulled in.
fn star(n: i64) -> Vec<Point> {
    let mut corners = Vec::new();
    for side in 0..4 {
        for k in 0..n {
            let (along, out) = (2 * k - n, n);
            let far = if k % 2 == 0 { 9 } else { 2 };
            let (x, y) = match side {
                0 => (out, along),
                1 => (-along, out),
                2 => (-out, -along),
                _ => (along, -out),
            };
            corners.push((far * x, far * y));
        }
    }
    corners
}

/// Twice the area of a triangle, positive if its corners run counterclockwise.
fn turn(a: Point, b: Point, c: Point) -> i64 {
    (b.0 - a.0) * (c.1 - a.1) - (b.1 - a.1) * (c.0 - a.0)
}

/// Whether a point lies inside a polygon: its edges cross the ray to the right an odd number of
/// times.
fn encloses(corners: &[Point], q: Point) -> bool {
    let n = corners.len();
    let mut odd = false;
    for k in 0..n {
        let (u, v) = (corners[k], corners[(k + 1) % n]);
        if (u.1 <= q.1) != (v.1 <= q.1) && (turn(u, v, q) > 0) == (u.1 <= q.1) {
            odd = !odd;
        }
    }
    odd
}

/// Whether a point is on an edge of a polygon.
fn on_edge(corners: &[Point], q: Point) -> bool {
    let n = corners.len();
    (0..n).any(|k| {
        let (u, v) = (corners[k], corners[(k + 1) % n]);
        turn(u, v, q) == 0
            && u.0.min(v.0) <= q.0
            && q.0 <= u.0.max(v.0)
            && u.1.min(v.1) <= q.1
            && q.1 <= u.1.max(v.1)
    })
}

fn magnified(corners: &[Point], factor: i64) -> Vec<Point> {
    corners.iter().map(|c| (factor * c.0, factor * c.1)).collect()
}

#[test]
fn scaling_changes_no_triangle() {
    for seed in 0..150u64 {
        for &n in [7usize, 15, 100, 300].iter() {
            if n > 15 && seed > 10 {
                continue;
            }
            let (corners, holes) = scribble(seed, n);
            let one: Vec<u32> = earcut(&flat(&corners, 1), &holes, 2);
            for &factor in [2i64, 3, 1000].iter() {
                let other: Vec<u32> = earcut(&flat(&corners, factor), &holes, 2);
                assert_eq!(one, other);
            }
        }
    }
}

#[test]
fn only_the_plane_matters() {
    for seed in 0..60u64 {
        let (corners, holes) = scribble(seed, if seed % 6 == 0 { 120 } else { 11 });
        let two = flat(&corners, 1);
        let expected: Vec<u32> = earcut(&two, &holes, 2);
        for dim in 3..6usize {
            let mut data = Vec::new();
            for (k, c) in corners.iter().enumerate() {
                data.push(num(c.0));
                data.push(num(c.1));
                for z in 2..dim {
                    data.push(num((17 * k + z) as i64));
                }
            }
            let triangles: Vec<u32> = earcut(&data, &holes, dim);
            assert_eq!(triangles, expected);
            let (d, e) = (
                deviation(&data, &holes, dim, &triangles),
                deviation(&two, &holes, 2, &triangles),
            );
            assert_eq!((d.num, d.den), (e.num, e.den));
        }
    }
}

#[test]
fn deviation_is_zero_exactly_if_areas_agree() {
    let square = flat(&[(0, 0), (4, 0), (4, 4), (0, 4)], 1);
    let none: [u32; 0] = [];
    let cases: [(&[u32], Exact); 5] = [
        (&[0, 1, 2, 0, 2, 3], num(0)),
        (&[0, 1, 2, 0, 1, 2], num(0)),
        (&[0, 1, 2], ratio(1, 2)),
        (&[0, 1, 2, 0, 2, 3, 1, 2, 3], ratio(1, 2)),
        (&none, num(1)),
    ];
    for (triangles, expected) in cases.iter() {
        let d = deviation(&square, &[], 2, *triangles);
        assert!(d.same(*expected) && !d.less(num(0)));
    }
    let line = flat(&[(0, 0), (4, 0), (9, 0)], 1);
    assert!(deviation(&line, &[], 2, &none).same(num(0)));
    assert!(deviation(&line, &[], 2, &[0u32, 1, 2]).same(num(0)));
}

#[test]
fn deviation_depends_on_no_order() {
    let corners = [(0, 0), (9, 0), (9, 9), (2, 9), (2, 4)];
    let data = flat(&corners, 1);
    let triangles: [u32; 9] = [0, 1, 2, 3, 4, 0, 2, 3, 0];
    let other: [u32; 9] = [4, 3, 0, 2, 0, 1, 0, 2, 3];
    let (d, e) = (deviation(&data, &[], 2, &triangles), deviation(&data, &[], 2, &other));
    assert_eq!((d.num, d.den), (e.num, e.den));
    assert!(!d.same(num(0)));
}

#[test]
fn areas_are_kept_by_turning_and_running_backwards() {
    let corners = vec![(0, 0), (9, 1), (8, 9), (4, 3), (1, 7)];
    let n = corners.len();
    for start in 0..n {
        for &backwards in [false, true].iter() {
            let mut places: Vec<usize> = (0..n).collect();
            places.rotate_left(start);
            if backwards {
                places.reverse();
            }
            let ring: Vec<Point> = places.iter().map(|&k| corners[k]).collect();
            let at = |k: usize| places.iter().position(|&p| p == k).unwrap() as u32;
            let triangle = [at(0), at(1), at(2)];
            assert_eq!(turn(corners[0], corners[1], corners[2]), 73);
            let d = deviation(&flat(&ring, 1), &[], 2, &triangle);
            let area: i64 = (0..n).map(|k| turn((0, 0), corners[k], corners[(k + 1) % n])).sum();
            assert!(d.same(ratio(((73 - area) as i128).abs(), area as i128)));
        }
    }
}

#[test]
fn points_between_integer_points_are_covered_once() {
    let corners = vec![(0, 0), (9, 0), (9, 9), (2, 9), (2, 4), (5, 4), (5, 6), (4, 6), (4, 5), (3, 5),
        (3, 7), (7, 7), (7, 2), (0, 2)];
    let triangles: Vec<u32> = earcut(&flat(&corners, 1), &[], 2);
    let fine = magnified(&corners, 7);
    let mut seen = 0;
    for x in -3..68 {
        for y in -3..68 {
            let q = (x, y);
            let mut layers = 0;
            let mut beside = true;
            for t in triangles.chunks(3) {
                let (a, b, c) = (fine[t[0] as usize], fine[t[1] as usize], fine[t[2] as usize]);
                let (i, j, k) = (turn(a, b, q), turn(b, c, q), turn(c, a, q));
                if i >= 0 && j >= 0 && k >= 0 {
                    beside = beside && i > 0 && j > 0 && k > 0;
                    layers += 1;
                }
            }
            if beside {
                assert_eq!(layers, if encloses(&fine, q) { 1 } else { 0 });
                seen += layers;
            }
        }
    }
    assert!(seen > 1000);
}

#[test]
fn sides_of_triangles_lie_inside() {
    for corners in [star(4), star(7), star(25)].iter() {
        let triangles: Vec<u32> = earcut(&flat(corners, 1), &[], 2);
        let fine = magnified(corners, 2);
        for t in triangles.chunks(3) {
            for k in 0..3 {
                let (a, b) = (corners[t[k] as usize], corners[t[(k + 1) % 3] as usize]);
                let middle = (a.0 + b.0, a.1 + b.1);
                assert!(on_edge(&fine, middle) || encloses(&fine, middle));
            }
        }
    }
}

#[test]
fn holes_inside_are_connected() {
    for &n in [4i64, 25, 70, 90].iter() {
        let outer = star(n);
        let mut corners = outer.clone();
        let mut holes = Vec::new();
        for &(x, y) in [(-n, 0), (0, -n), (n / 2, n / 2)].iter() {
            holes.push(corners.len());
            corners.extend_from_slice(&[(x, y), (x + 1, y + 1), (x + 2, y)]);
        }
        let data = flat(&corners, 1);
        let triangles: Vec<u32> = earcut(&data, &holes, 2);
        assert!(deviation(&data, &holes, 2, &triangles).same(num(0)));
        for hole in holes.iter() {
            assert!(triangles.contains(&(*hole as u32)));
        }
    }
}

/// Twice the area of a ring, with its sign.
fn twice_area(ring: &[Point]) -> i64 {
    let n = ring.len();
    (0..n).map(|i| ring[i].0 * ring[(i + 1) % n].1 - ring[(i + 1) % n].0 * ring[i].1).sum()
}

#[test]
fn rings_may_run_either_way() {
    for seed in 0..60 {
        let (corners, holes) = scribble(seed, if seed % 4 == 0 { 90 } else { 12 });
        let mut ends = holes.clone();
        ends.push(corners.len());
        let plain: Vec<u32> = earcut(&flat(&corners, 1), &holes, 2);
        for mask in 1..8 {
            let mut other = corners.clone();
            let mut name: Vec<u32> = (0..corners.len() as u32).collect();
            let mut from = 0;
            for (i, &to) in ends.iter().enumerate() {
                if mask >> i & 1 == 1 && twice_area(&corners[from..to]) != 0 {
                    other[from..to].reverse();
                    name[from..to].reverse();
                }
                from = to;
            }
            let expected: Vec<u32> = plain.iter().map(|&v| name[v as usize]).collect();
            let turned: Vec<u32> = earcut(&flat(&other, 1), &holes, 2);
            assert_eq!(turned, expected, "seed {} mask {}", seed, mask);
        }
    }
    let ring = star(30);
    let mut back = ring.clone();
    back.reverse();
    let last = ring.len() as u32 - 1;
    let ahead: Vec<u32> = earcut(&flat(&ring, 1), &[], 2);
    let behind: Vec<u32> = earcut(&flat(&back, 1), &[], 2);
    assert_eq!(ahead.len(), 3 * (ring.len() - 2));
    assert_eq!(behind, ahead.iter().map(|&v| last - v).collect::<Vec<u32>>());
}

#[test]
fn no_triangle_is_flat() {
    for seed in 0..150u64 {
        let (corners, holes) = scribble(seed, if seed % 5 == 0 { 110 } else { 13 });
        let triangles: Vec<u32> = earcut(&flat(&corners, 1), &holes, 2);
        for t in triangles.chunks(3) {
            assert!(t[0] != t[1] && t[1] != t[2] && t[2] != t[0]);
            let at = |k: usize| corners[t[k] as usize];
            assert!(at(0) != at(1) && at(1) != at(2) && at(2) != at(0));
        }
    }
}

#[test]
fn triangles_have_the_area_of_a_simple_ring() {
    for corners in [star(4), star(7), star(25)].iter() {
        let triangles: Vec<u32> = earcut(&flat(corners, 1), &[], 2);
        let at = |k: u32| corners[k as usize];
        let sum: i64 = triangles.chunks(3).map(|t| turn(at(t[0]), at(t[1]), at(t[2])).abs()).sum();
        assert_eq!(sum, twice_area(corners).abs());
        let mut back = corners.clone();
        back.reverse();
        assert_eq!(twice_area(&back), -twice_area(corners));
    }
}

#[test]
fn as_many_triangles_as_can_be_leave_no_deviation() {
    let mut full = 0;
    for seed in 0..600u64 {
        let (corners, holes) = scribble(seed, 4 + seed as usize % 9);
        let data = flat(&corners, 1);
        let triangles: Vec<u32> = earcut(&data, &holes, 2);
        if triangles.len() == 3 * (corners.len() + 2 * holes.len() - 2) {
            assert!(deviation(&data, &holes, 2, &triangles).same(num(0)));
            full += 1;
        }
    }
    assert!(full > 20, "{}", full);
    // outer ring and two holes, no three corners of which lie on one line
    let corners = [
        (0, 0), (30, 2), (33, 31), (17, 24), (1, 29), // outer ring
        (8, 9), (13, 10), (10, 15), // holes
        (21, 11), (26, 16), (20, 19),
    ];
    let data = flat(&corners, 1);
    let triangles: Vec<u32> = earcut(&data, &[5, 8], 2);
    assert_eq!(triangles.len(), 3 * (11 + 2 * 2 - 2));
    assert!(deviation(&data, &[5, 8], 2, &triangles).same(num(0)));
    // a polygon with fewer has a deviation
    let three = flat(
        &[
            (1, 3), (0, 4), (0, 5), (3, 6), (4, 5), (6, 2), (6, 1), (3, 0), // outer ring
            (4, 3), (4, 4), (5, 3), // holes
            (3, 1), (3, 2), (2, 2), //
            (5, 2), (4, 2), (3, 3),
        ],
        1,
    );
    let some: Vec<u32> = earcut(&three, &[8, 11, 14], 2);
    assert!(some.len() < 3 * (17 + 2 * 3 - 2));
    assert!(!deviation(&three, &[8, 11, 14], 2, &some).same(num(0)));
}

/// Whether two vertices are the ends of a side of a triangle.
fn joined(triangles: &[u32], a: u32, b: u32) -> bool {
    triangles.chunks(3).any(|t| t.contains(&a) && t.contains(&b))
}

#[test]
fn holes_are_connected_to_nodes_that_they_see() {
    // the ray to the left of the hole meets the edge from (19, 20) to (2, 9), but the corner
    // (16, 15) is in front of the left end of that
    let corners = [
        (0, -1), (40, 0), (39, 31), (1, 30), (3, 22), // outer ring
        (19, 20), (2, 9), (4, 5), (16, 15), (7, 2), //
        (25, 17), (31, 12), (32, 23), // hole
    ];
    for &factor in [1i64, 1000].iter() {
        let data = flat(&corners, factor);
        let triangles: Vec<u32> = earcut(&data, &[10], 2);
        assert_eq!(triangles.len(), 3 * (13 + 2 - 2));
        assert!(deviation(&data, &[10], 2, &triangles).same(num(0)));
        assert!(joined(&triangles, 10, 8) && !joined(&triangles, 10, 6));
    }
    // a ray that ends at a corner
    let corners = [
        (0, 0), (40, 1), (39, 31), (1, 29), (12, 17), // outer ring
        (25, 17), (31, 12), (32, 23), // hole
    ];
    let data = flat(&corners, 1);
    let triangles: Vec<u32> = earcut(&data, &[5], 2);
    assert_eq!(triangles.len(), 3 * (8 + 2 - 2));
    assert!(deviation(&data, &[5], 2, &triangles).same(num(0)));
    assert!(joined(&triangles, 5, 4));
}

#[test]
fn indices_of_all_types_agree() {
    for seed in 0..40u64 {
        let (corners, holes) = scribble(seed, 20);
        let data = flat(&corners, 1);
        let plain: Vec<usize> = earcut(&data, &holes, 2);
        let short: Vec<u16> = earcut(&data, &holes, 2);
        let word: Vec<u32> = earcut(&data, &holes, 2);
        let long: Vec<u64> = earcut(&data, &holes, 2);
        assert_eq!(short.iter().map(|&v| v as usize).collect::<Vec<usize>>(), plain);
        assert_eq!(word.iter().map(|&v| v as usize).collect::<Vec<usize>>(), plain);
        assert_eq!(long.iter().map(|&v| v as usize).collect::<Vec<usize>>(), plain);
    }
}

#[test]
fn halves_give_the_triangles_of_integers() {
    let corners = [(0, 0), (9, 1), (8, 9), (4, 3), (1, 7)];
    let halves: Vec<Exact> =
        corners.iter().flat_map(|c| [ratio(c.0 as i128, 2), ratio(c.1 as i128, 2)]).collect();
    let small: Vec<u32> = earcut(&halves, &[], 2);
    let large: Vec<u32> = earcut(&flat(&corners, 1), &[], 2);
    assert_eq!(small, large);
    assert_eq!(small.len(), 9);
}

#[test]
fn holes_are_connected_whichever_way_rings_run() {
    let outer = [(0, 0), (30, 2), (33, 31), (17, 24), (1, 29)];
    let left = [(8, 9), (13, 10), (10, 15)];
    let right = [(21, 11), (26, 16), (20, 19)];
    for mask in 0..16 {
        let mut rings: Vec<Vec<Point>> = vec![outer.to_vec(), left.to_vec(), right.to_vec()];
        for k in 0..3 {
            if mask >> k & 1 == 1 {
                rings[k].reverse();
            }
        }
        if mask >> 3 & 1 == 1 {
            rings.swap(1, 2);
        }
        let holes = [rings[0].len(), rings[0].len() + rings[1].len()];
        let corners: Vec<Point> = rings.concat();
        let data = flat(&corners, 1);
        let triangles: Vec<u32> = earcut(&data, &holes, 2);
        assert_eq!(triangles.len(), 3 * (corners.len() + 2 * 2 - 2));
        assert!(deviation(&data, &holes, 2, &triangles).same(num(0)));
        assert!((0..corners.len()).all(|v| triangles.contains(&(v as u32))));
    }
}
