use rearcut::triangulation::can_sort_holes;
use rearcut::{deviation, earcut, earcut_into, flatten, Earcut, EarcutIndex, Exact, Scalar};

/// Coordinates in floating point.
#[derive(Clone, Copy, Debug, PartialEq)]
struct F(f64);

impl Scalar for F {
    fn plus_spec(self, o: Self) -> Self {
        F(self.0 + o.0)
    }

    fn minus_spec(self, o: Self) -> Self {
        F(self.0 - o.0)
    }

    fn times_spec(self, o: Self) -> Self {
        F(self.0 * o.0)
    }

    fn over_spec(self, o: Self) -> Self {
        F(self.0 / o.0)
    }

    fn magnitude_spec(self) -> Self {
        F(self.0.abs())
    }

    fn lower_spec(self, o: Self) -> Self {
        F(self.0.min(o.0))
    }

    fn upper_spec(self, o: Self) -> Self {
        F(self.0.max(o.0))
    }

    fn less_spec(self, o: Self) -> bool {
        self.0 < o.0
    }

    fn at_most_spec(self, o: Self) -> bool {
        self.0 <= o.0
    }

    fn same_spec(self, o: Self) -> bool {
        self.0 == o.0
    }

    fn from_int_spec(n: i32) -> Self {
        F(n as f64)
    }

    fn truncated_spec(self) -> i32 {
        self.0 as i32
    }

    fn infinity_spec() -> Self {
        F(f64::INFINITY)
    }

    fn neg_infinity_spec() -> Self {
        F(f64::NEG_INFINITY)
    }

    fn plus(self, o: Self) -> Self {
        self.plus_spec(o)
    }

    fn minus(self, o: Self) -> Self {
        self.minus_spec(o)
    }

    fn times(self, o: Self) -> Self {
        self.times_spec(o)
    }

    fn over(self, o: Self) -> Self {
        self.over_spec(o)
    }

    fn magnitude(self) -> Self {
        self.magnitude_spec()
    }

    fn lower(self, o: Self) -> Self {
        self.lower_spec(o)
    }

    fn upper(self, o: Self) -> Self {
        self.upper_spec(o)
    }

    fn less(self, o: Self) -> bool {
        self.less_spec(o)
    }

    fn at_most(self, o: Self) -> bool {
        self.at_most_spec(o)
    }

    fn same(self, o: Self) -> bool {
        self.same_spec(o)
    }

    fn from_int(n: i32) -> Self {
        Self::from_int_spec(n)
    }

    fn truncated(self) -> i32 {
        self.truncated_spec()
    }

    fn infinity() -> Self {
        Self::infinity_spec()
    }

    fn neg_infinity() -> Self {
        Self::neg_infinity_spec()
    }

    fn lemma_no_turn(_px: Self, _py: Self, _qx: Self, _qy: Self) {}
}

fn coords(data: &[f64]) -> Vec<F> {
    data.iter().map(|&v| F(v)).collect()
}

/// The triangles of a polygon.
fn slice(data: &[f64], holes: &[usize]) -> Vec<u32> {
    earcut(&coords(data), holes, 2)
}

#[test]
fn simple_quad() {
    let data = coords(&[10.0, 0.0, 0.0, 50.0, 60.0, 60.0, 70.0, 10.0]);
    let triangles: Vec<u32> = earcut(&data, &[], 2);
    assert_eq!(triangles.len(), 6);
    assert!(deviation(&data, &[], 2, &triangles).0 < 1e-9);
}

#[test]
fn square_with_hole() {
    let data = coords(&[
        0.0, 0.0, 100.0, 0.0, 100.0, 100.0, 0.0, 100.0, 20.0, 20.0, 80.0, 20.0, 80.0, 80.0, 20.0,
        80.0,
    ]);
    let triangles: Vec<u32> = earcut(&data, &[4], 2);
    assert_eq!(triangles.len(), 8 * 3);
    assert!(deviation(&data, &[4], 2, &triangles).0 < 1e-9);
}

#[test]
fn empty_input() {
    let data: [F; 0] = [];
    let triangles: Vec<u32> = earcut(&data, &[], 2);
    assert!(triangles.is_empty());
}

#[test]
fn degenerate_triangle() {
    let data = coords(&[0.0, 0.0, 0.0, 0.0, 0.0, 0.0]);
    let triangles: Vec<u32> = earcut(&data, &[], 2);
    assert!(triangles.is_empty());
}

#[test]
fn reusable_earcut_matches_one_shot() {
    let quad = coords(&[10.0, 0.0, 0.0, 50.0, 60.0, 60.0, 70.0, 10.0]);
    let hole_square = coords(&[
        0.0, 0.0, 100.0, 0.0, 100.0, 100.0, 0.0, 100.0, 20.0, 20.0, 80.0, 20.0, 80.0, 80.0, 20.0,
        80.0,
    ]);

    let mut earcutter = Earcut::new();
    let mut out: Vec<u32> = Vec::new();

    for _ in 0..3 {
        earcutter.earcut_into(&quad, &[], 2, &mut out);
        assert_eq!(out, earcut::<u32, F>(&quad, &[], 2));

        earcutter.earcut_into(&hole_square, &[4], 2, &mut out);
        assert_eq!(out, earcut::<u32, F>(&hole_square, &[4], 2));

        earcutter.earcut_into(&[], &[], 2, &mut out);
        assert!(out.is_empty());
    }
}

// ------------------------------------------------------------------------------------------
// Results in full
// ------------------------------------------------------------------------------------------
#[test]
fn quad_triangles() {
    let data = [10.0, 0.0, 0.0, 50.0, 60.0, 60.0, 70.0, 10.0];
    assert_eq!(slice(&data, &[]), vec![1, 0, 3, 1, 3, 2]);
}

#[test]
fn square_with_hole_triangles() {
    let data = [
        0.0, 0.0, 100.0, 0.0, 100.0, 100.0, 0.0, 100.0, 20.0, 20.0, 80.0, 20.0, 80.0, 80.0, 20.0,
        80.0,
    ];
    assert_eq!(
        slice(&data, &[4]),
        vec![0, 4, 7, 5, 4, 0, 5, 0, 1, 5, 1, 2, 3, 0, 7, 3, 7, 6, 6, 5, 2, 6, 2, 3]
    );
}

#[test]
fn winding_does_not_matter() {
    let there = [0.0, 0.0, 10.0, 0.0, 10.0, 10.0, 0.0, 10.0];
    let back = [0.0, 10.0, 10.0, 10.0, 10.0, 0.0, 0.0, 0.0];
    assert_eq!(slice(&there, &[]), vec![2, 3, 0, 2, 0, 1]);
    assert_eq!(slice(&back, &[]), vec![1, 0, 3, 1, 3, 2]);
}

#[test]
fn repeated_last_point_is_left_out() {
    let data = [0.0, 0.0, 10.0, 0.0, 10.0, 10.0, 0.0, 10.0, 0.0, 0.0];
    assert_eq!(slice(&data, &[]), vec![3, 0, 1, 3, 1, 2]);
}

#[test]
fn points_on_edges() {
    let data = [0.0, 0.0, 5.0, 0.0, 10.0, 0.0, 10.0, 10.0, 5.0, 10.0, 0.0, 10.0];
    assert_eq!(slice(&data, &[]), vec![4, 5, 0, 4, 0, 1, 4, 1, 2, 4, 2, 3]);
}

#[test]
fn corner_shape() {
    let data = [0.0, 0.0, 20.0, 0.0, 20.0, 10.0, 10.0, 10.0, 10.0, 20.0, 0.0, 20.0];
    assert_eq!(slice(&data, &[]), vec![4, 5, 0, 0, 1, 2, 0, 2, 3, 0, 3, 4]);
}

#[test]
fn single_point_hole_is_kept() {
    let data = [0.0, 0.0, 10.0, 0.0, 10.0, 10.0, 0.0, 10.0, 4.0, 5.0];
    assert_eq!(slice(&data, &[4]), vec![4, 0, 1, 4, 1, 2, 4, 2, 3, 4, 3, 0]);
}

#[test]
fn two_holes() {
    let data = [
        0.0, 0.0, 30.0, 0.0, 30.0, 30.0, 0.0, 30.0, 5.0, 5.0, 5.0, 10.0, 10.0, 10.0, 10.0, 5.0,
        15.0, 15.0, 15.0, 20.0, 20.0, 20.0, 20.0, 15.0,
    ];
    let triangles = slice(&data, &[4, 8]);
    assert_eq!(
        triangles,
        vec![
            5, 8, 9, 7, 4, 0, 7, 0, 1, 3, 0, 4, 3, 4, 5, 3, 5, 9, 3, 9, 10, 11, 8, 5, 11, 5, 6, 11,
            6, 7, 11, 7, 1, 11, 1, 2, 2, 3, 10, 2, 10, 11
        ]
    );
    assert_eq!(deviation(&coords(&data), &[4, 8], 2, &triangles), F(0.0));
}

#[test]
fn holes_with_a_common_leftmost_point_go_by_slope() {
    let data = [
        0.0, 0.0, 30.0, 0.0, 30.0, 30.0, 0.0, 30.0, 5.0, 5.0, 10.0, 20.0, 12.0, 10.0, 5.0, 5.0,
        20.0, 10.0, 10.0, 7.0,
    ];
    let triangles = slice(&data, &[4, 7]);
    assert_eq!(
        triangles,
        vec![
            0, 4, 5, 6, 7, 9, 6, 9, 8, 8, 7, 0, 8, 0, 1, 8, 1, 2, 3, 0, 5, 5, 6, 8, 5, 8, 2, 5, 2,
            3
        ]
    );
}

#[test]
fn hole_that_touches_a_corner() {
    let data = [0.0, 0.0, 10.0, 0.0, 10.0, 10.0, 0.0, 10.0, 0.0, 0.0, 5.0, 2.0, 2.0, 5.0];
    assert_eq!(slice(&data, &[4]), vec![3, 4, 6, 3, 6, 5, 5, 0, 1, 5, 1, 2, 5, 2, 3]);
}

#[test]
fn hole_with_nothing_to_its_left_is_left_out() {
    let data = [
        0.0, 0.0, 10.0, 0.0, 10.0, 10.0, 0.0, 10.0, 20.0, 20.0, 30.0, 20.0, 30.0, 30.0, 20.0, 30.0,
    ];
    assert_eq!(slice(&data, &[4]), vec![2, 3, 0, 2, 0, 1]);
}

#[test]
fn self_intersection_is_cured() {
    let data = [17.0, 39.0, 37.0, 1.0, 37.0, 24.0, 17.0, 35.0, 33.0, 21.0];
    assert_eq!(slice(&data, &[4]), vec![2, 3, 4, 4, 0, 1, 4, 1, 2]);
}

#[test]
fn ring_without_ears_is_split() {
    let data = [0.0, 4.0, 2.0, 1.0, 4.0, 2.0, 2.0, 2.0, 3.0, 2.0];
    assert_eq!(slice(&data, &[4]), vec![1, 3, 0, 3, 1, 2]);
}

#[test]
fn bow_tie_gives_what_can_be_sliced() {
    let data = [0.0, 0.0, 10.0, 10.0, 10.0, 0.0, 0.0, 10.0];
    assert_eq!(slice(&data, &[]), vec![3, 2, 1]);
}

/// Healing one edge of a slit can drop the node at its other end.
#[test]
fn bridges_that_are_healed_away() {
    let one = [
        4.0, 0.0, 4.0, 4.0, 3.0, 4.0, 4.0, 4.0, 4.0, 0.0, 4.0, 3.0, 0.0, 0.0, 3.0, 2.0, 1.0, 3.0,
        1.0, 2.0, 0.0, 0.0, 0.0, 1.0, 2.0, 1.0, 4.0, 0.0, 5.0, 2.0, 4.0, 3.0, 2.0, 6.0, 4.0, 2.0,
        3.0, 1.0, 1.0, 4.0,
    ];
    assert_eq!(slice(&one, &[14, 16, 17]), vec![12, 0, 5, 7, 8, 9, 7, 9, 10, 12, 5, 10]);

    let two = [
        2.0, 0.0, 4.0, 3.0, 0.0, 4.0, 0.0, 0.0, 3.0, 4.0, 0.0, 1.0, 2.0, 3.0, 2.0, 2.0, 1.0, 3.0,
        2.0, 1.0, 0.0, 4.0, 6.0, 3.0, 5.0, 4.0, 4.0, 4.0, 5.0, 5.0, 4.0, 3.0, 3.0, 3.0, 2.0, 3.0,
        4.0, 1.0, 4.0, 1.0,
    ];
    assert_eq!(
        slice(&two, &[11, 15, 18]),
        vec![
            6, 13, 14, 11, 12, 13, 11, 13, 6, 11, 6, 7, 9, 10, 0, 9, 0, 1, 2, 3, 4, 4, 6, 14, 2, 4,
            14, 9, 1, 2, 9, 7, 8
        ]
    );

    let three = [
        2.0, 0.0, 1.0, 1.0, 0.0, 1.0, 1.0, 0.0, 1.0, 2.0, 2.0, 1.0, 2.0, 0.0, 2.0, 2.0, 2.0, 0.0,
        2.0, 1.0, 3.0, 1.0, 2.0, 2.0, 4.0, 2.0, 5.0, 2.0, 3.0, 2.0, 2.0, 0.0,
    ];
    assert_eq!(slice(&three, &[9, 11]), vec![8, 5, 4, 8, 4, 1]);
}

// ------------------------------------------------------------------------------------------
// Forms of input
// ------------------------------------------------------------------------------------------
#[test]
fn further_dimensions_are_passed_over() {
    let data = coords(&[0.0, 0.0, 7.0, 10.0, 0.0, 8.0, 10.0, 10.0, 9.0, 0.0, 10.0, 1.0]);
    let triangles: Vec<u32> = earcut(&data, &[], 3);
    assert_eq!(triangles, vec![2, 3, 0, 2, 0, 1]);
    assert_eq!(deviation(&data, &[], 3, &triangles), F(0.0));
}

#[test]
fn nothing_to_slice() {
    let square = coords(&[0.0, 0.0, 10.0, 0.0, 10.0, 10.0, 0.0, 10.0]);
    let none: Vec<u32> = Vec::new();
    assert_eq!(earcut::<u32, F>(&square, &[], 0), none);
    assert_eq!(earcut::<u32, F>(&square, &[0], 2), none);
    assert_eq!(earcut::<u32, F>(&square, &[1], 2), none);
    assert_eq!(earcut::<u32, F>(&square, &[2], 2), none);
    assert_eq!(slice(&[0.0, 0.0, 5.0, 5.0], &[]), none);
    assert_eq!(slice(&[0.0, 0.0, 5.0, 5.0, 10.0, 10.0], &[]), none);
}

#[test]
fn empty_holes_are_passed_over() {
    let data = [0.0, 0.0, 10.0, 0.0, 10.0, 10.0, 0.0, 10.0];
    assert_eq!(slice(&data, &[4]), vec![2, 3, 0, 2, 0, 1]);
    assert_eq!(slice(&data, &[4, 4]), vec![2, 3, 0, 2, 0, 1]);
    let falling = [0.0, 0.0, 10.0, 0.0, 10.0, 10.0, 0.0, 10.0, 2.0, 2.0, 2.0, 3.0, 3.0, 3.0];
    assert_eq!(slice(&falling, &[4, 7]), slice(&falling, &[4]));
}

#[test]
fn output_index_types() {
    let data = coords(&[10.0, 0.0, 0.0, 50.0, 60.0, 60.0, 70.0, 10.0]);
    assert_eq!(earcut::<u16, F>(&data, &[], 2), vec![1u16, 0, 3, 1, 3, 2]);
    assert_eq!(earcut::<u64, F>(&data, &[], 2), vec![1u64, 0, 3, 1, 3, 2]);
    assert_eq!(earcut::<usize, F>(&data, &[], 2), vec![1usize, 0, 3, 1, 3, 2]);
    assert_eq!(u16::from_usize(65535).to_usize(), 65535);
    assert_eq!(u32::from_usize(70000).to_usize(), 70000);
}

#[test]
fn output_is_cleared_first() {
    let data = coords(&[10.0, 0.0, 0.0, 50.0, 60.0, 60.0, 70.0, 10.0]);
    let mut out: Vec<u32> = vec![9, 9, 9];
    earcut_into(&data, &[], 2, &mut out);
    assert_eq!(out, vec![1, 0, 3, 1, 3, 2]);
    earcut_into(&coords(&[]), &[], 2, &mut out);
    assert!(out.is_empty());
    let mut reused = Earcut::default();
    out.push(7);
    reused.earcut_into(&data, &[], 2, &mut out);
    assert_eq!(out, vec![1, 0, 3, 1, 3, 2]);
}

#[test]
fn flattened_rings_can_be_sliced() {
    let rings = vec![
        vec![[F(0.0), F(0.0)], [F(100.0), F(0.0)], [F(100.0), F(100.0)], [F(0.0), F(100.0)]],
        vec![[F(20.0), F(20.0)], [F(80.0), F(20.0)], [F(80.0), F(80.0)], [F(20.0), F(80.0)]],
    ];
    let (data, holes, dim) = flatten(&rings);
    assert_eq!(holes, vec![4]);
    assert_eq!(dim, 2);
    let triangles: Vec<u32> = earcut(&data, &holes, dim);
    assert_eq!(triangles.len(), 24);
    assert_eq!(deviation(&data, &holes, dim, &triangles), F(0.0));
}

#[test]
fn holes_that_cannot_be_sorted_are_found() {
    let nan = f64::NAN;
    let square = [0.0, 0.0, 30.0, 0.0, 30.0, 30.0, 0.0, 30.0];
    let with = |more: &[f64]| -> Vec<F> {
        let mut all = square.to_vec();
        all.extend_from_slice(more);
        coords(&all)
    };
    assert!(can_sort_holes(&with(&[5.0, 5.0, 9.0, 9.0]), &[4, 5], 2));
    assert!(!can_sort_holes(&with(&[5.0, 5.0, nan, 9.0]), &[4, 5], 2));
    assert!(!can_sort_holes(&with(&[5.0, 5.0, 5.0, nan]), &[4, 5], 2));
    assert!(can_sort_holes(&with(&[5.0, 5.0, 6.0, nan]), &[4, 5], 2));
    assert!(can_sort_holes(&with(&[nan, 5.0]), &[4], 2));
    assert!(can_sort_holes(&coords(&[0.0, 0.0, 1.0, 1.0, nan, nan, nan, nan]), &[2, 3], 2));
    assert!(can_sort_holes(&coords(&[]), &[], 2));
}

// ------------------------------------------------------------------------------------------
// Deviation
// ------------------------------------------------------------------------------------------
#[test]
fn deviation_of_wrong_triangles() {
    let data = coords(&[0.0, 0.0, 10.0, 0.0, 10.0, 10.0, 0.0, 10.0]);
    let half: [u32; 3] = [0, 1, 2];
    assert_eq!(deviation(&data, &[], 2, &half), F(0.5));
    let twice: [u32; 12] = [0, 1, 2, 0, 2, 3, 0, 1, 2, 0, 2, 3];
    assert_eq!(deviation(&data, &[], 2, &twice), F(1.0));
    let none: [u32; 0] = [];
    assert_eq!(deviation(&data, &[], 2, &none), F(1.0));
    assert_eq!(deviation(&coords(&[]), &[], 2, &none), F(0.0));
    assert_eq!(deviation(&coords(&[]), &[], 0, &none), F(0.0));
    assert_eq!(deviation(&coords(&[]), &[0, 0], 2, &none), F(0.0));
}

#[test]
fn deviation_takes_holes_away() {
    let data = coords(&[
        0.0, 0.0, 10.0, 0.0, 10.0, 10.0, 0.0, 10.0, 2.0, 2.0, 2.0, 4.0, 4.0, 4.0, 4.0, 2.0,
    ]);
    let whole: [u32; 6] = [0, 1, 2, 0, 2, 3];
    let expected = (200.0 - 192.0) / 192.0;
    assert_eq!(deviation(&data, &[4], 2, &whole), F(expected));
}

// ------------------------------------------------------------------------------------------
// Larger polygons
// ------------------------------------------------------------------------------------------
fn pseudo_random(seed: &mut u64) -> f64 {
    *seed = seed.wrapping_mul(6364136223846793005).wrapping_add(1442695040888963407);
    ((*seed >> 33) as f64) / ((1u64 << 31) as f64)
}

/// A star around the origin with `n` points whose radii vary.
fn star(n: usize) -> Vec<F> {
    let mut seed: u64 = 7;
    let mut data = Vec::new();
    for k in 0..n {
        let a = (k as f64) * 2.0 * std::f64::consts::PI / (n as f64);
        let r = 50.0 + 50.0 * pseudo_random(&mut seed);
        data.push(F(r * a.cos()));
        data.push(F(r * a.sin()));
    }
    data
}

#[test]
fn stars_are_covered() {
    for &n in [16usize, 80, 81, 256, 600, 2000].iter() {
        let data = star(n);
        let triangles: Vec<u32> = earcut(&data, &[], 2);
        assert_eq!(triangles.len(), 3 * (n - 2));
        assert!(deviation(&data, &[], 2, &triangles).0 < 1e-9);
    }
}

/// A square with a grid of `m` by `m` square holes.
fn holed(m: usize) -> (Vec<F>, Vec<usize>) {
    let size = 10.0 * (m as f64) + 10.0;
    let mut data = coords(&[0.0, 0.0, size, 0.0, size, size, 0.0, size]);
    let mut holes = Vec::new();
    for i in 0..m {
        for j in 0..m {
            holes.push(data.len() / 2);
            let x = 10.0 * (i as f64) + 5.0;
            let y = 10.0 * (j as f64) + 5.0;
            for &(dx, dy) in [(0.0, 0.0), (0.0, 5.0), (5.0, 5.0), (5.0, 0.0)].iter() {
                data.push(F(x + dx));
                data.push(F(y + dy));
            }
        }
    }
    (data, holes)
}

#[test]
fn grids_of_holes_are_covered() {
    for &m in [1usize, 2, 4, 8, 12].iter() {
        let (data, holes) = holed(m);
        let triangles: Vec<u32> = earcut(&data, &holes, 2);
        assert!(triangles.len() <= 3 * (data.len() / 2 + 2 * holes.len() - 2));
        assert_eq!(triangles.len() % 3, 0);
        assert!(triangles.iter().all(|&v| (v as usize) < data.len() / 2));
        assert!(deviation(&data, &holes, 2, &triangles).0 < 1e-9);
    }
}

/// Polygons with small integer coordinates give the same triangles in exact arithmetic.
#[test]
fn exact_coordinates_agree() {
    for seed in 0..300u64 {
        let (data, holes) = scribble(seed, false);
        let exact: Vec<Exact> = data.iter().map(|c| Exact::new(c.0 as i64)).collect();
        let one: Vec<u32> = earcut(&data, &holes, 2);
        let two: Vec<u32> = earcut(&exact, &holes, 2);
        assert_eq!(one, two);
    }
}

/// A linear congruential generator.
struct Lcg(u64);

impl Lcg {
    fn below(&mut self, m: u64) -> u64 {
        self.0 = self.0.wrapping_mul(6364136223846793005).wrapping_add(1442695040888963407);
        (self.0 >> 33) % m
    }
}

/// A polygon of random points, mostly with self-intersections, and random holes.
fn scribble(seed: u64, big: bool) -> (Vec<F>, Vec<usize>) {
    let mut r = Lcg(seed);
    let small_size = [3u64, 5, 9, 40][r.below(4) as usize];
    let n = if big { 60 + r.below(300) } else { 3 + r.below(12) };
    let size = if big { [20u64, 60, 400, 3000][r.below(4) as usize] } else { small_size };
    let mut data = Vec::new();
    let mut holes = Vec::new();
    for _ in 0..n {
        data.push(F(r.below(size) as f64));
        data.push(F(r.below(size) as f64));
    }
    let count = if big { r.below(40) } else { r.below(4) };
    for _ in 0..count {
        holes.push(data.len() / 2);
        let m = 1 + r.below(5);
        let x = r.below(size);
        let y = r.below(size);
        for _ in 0..m {
            data.push(F((x + r.below(4)) as f64));
            data.push(F((y + r.below(4)) as f64));
        }
    }
    (data, holes)
}

/// A checksum of the triangles of the scribbles with the given seeds.
fn checksum(from: u64, to: u64, big: bool) -> u64 {
    let mut sum = 0xcbf29ce484222325u64;
    let mut reused = Earcut::new();
    let mut out: Vec<u32> = Vec::new();
    for seed in from..to {
        let (data, holes) = scribble(seed, big);
        reused.earcut_into(&data, &holes, 2, &mut out);
        let len = out.len() as u32;
        for v in std::iter::once(len).chain(out.iter().copied()) {
            for b in v.to_le_bytes() {
                sum = (sum ^ (b as u64)).wrapping_mul(0x100000001b3);
            }
        }
    }
    sum
}

/// Random scribbles run through curing, splitting, and bridges of all kinds.
#[test]
fn scribbles_are_sliced_as_ever() {
    assert_eq!(checksum(0, 500, false), 0xd758ee2b7a95d372);
    assert_eq!(checksum(500, 1000, false), 0x355793a55e6f911b);
    assert_eq!(checksum(1000, 1500, false), 0x199f59846eafd12a);
    assert_eq!(checksum(1500, 2000, false), 0x83c8538a42134966);
    assert_eq!(checksum(2000, 2500, false), 0x76ac359542d035b2);
    assert_eq!(checksum(2500, 3000, false), 0x2da4ad85bec81624);
}

/// Large scribbles run through the z-order and the hole-bridge index as well.
#[test]
fn large_scribbles_are_sliced_as_ever() {
    assert_eq!(checksum(0, 10, true), 0x493bcfc9fe681904);
    assert_eq!(checksum(10, 20, true), 0x954ea9561832f3eb);
    assert_eq!(checksum(20, 30, true), 0xa08c3b223f624953);
    assert_eq!(checksum(30, 40, true), 0xccc5439d7544d42a);
}

#[test]
fn indices_and_counts_are_in_bounds() {
    for seed in 0..200u64 {
        let (data, holes) = scribble(seed, false);
        let triangles: Vec<u32> = earcut(&data, &holes, 2);
        let n = data.len() / 2;
        assert_eq!(triangles.len() % 3, 0);
        assert!(triangles.iter().all(|&v| (v as usize) < n));
        assert!(triangles.len() <= 3 * (n + 2 * holes.len()));
    }
}
