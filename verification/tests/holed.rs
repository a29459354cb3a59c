use rearcut::{deviation, earcut, Exact, Scalar};

/// Numbers that look random.
struct Noise(u64);

impl Noise {
    fn below(&mut self, n: i64) -> i64 {
        self.0 = self.0.wrapping_mul(6364136223846793005).wrapping_add(1442695040888963407);
        ((self.0 >> 33) as i64) % n
    }
}

/// A ring around a centre, with corners in all directions at different distances.
fn ring(
    noise: &mut Noise,
    centre: (i64, i64),
    corners: i64,
    near: i64,
    far: i64,
) -> Vec<(i64, i64)> {
    let mut ring = Vec::new();
    for k in 0..corners {
        // a point on the square around the centre, at an equal share of its length
        let at = (8000 * k + noise.below(2000)) / corners;
        let (side, t) = (at / 2000, at % 2000 - 1000);
        let (x, y) = match side {
            0 => (t, -1000),
            1 => (1000, t),
            2 => (-t, 1000),
            _ => (-1000, -t),
        };
        let d = near + noise.below(far - near);
        ring.push((centre.0 + x * d / 1000, centre.1 + y * d / 1000));
    }
    ring
}

fn turn(a: (i64, i64), b: (i64, i64), c: (i64, i64)) -> i64 {
    (b.0 - a.0) * (c.1 - a.1) - (b.1 - a.1) * (c.0 - a.0)
}

fn no_three_in_line(all: &[(i64, i64)]) -> bool {
    for i in 0..all.len() {
        for j in 0..i {
            for k in 0..j {
                if turn(all[i], all[j], all[k]) == 0 {
                    return false;
                }
            }
        }
    }
    true
}

/// A polygon with `side * side` holes, no three of whose vertices lie on one line.
fn polygon(seed: u64, side: i64, outer: i64, inner: i64) -> (Vec<(i64, i64)>, Vec<usize>) {
    let mut noise = Noise(seed);
    loop {
        let mut all = ring(&mut noise, (0, 0), outer, 400_000, 700_000);
        let mut holes = Vec::new();
        let cell = 500_000 / side;
        for i in 0..side {
            for j in 0..side {
                holes.push(all.len());
                let centre = ((2 * i + 1 - side) * cell / 2, (2 * j + 1 - side) * cell / 2);
                let mut hole = ring(&mut noise, centre, inner, cell / 8, cell / 3);
                if noise.below(2) == 0 {
                    hole.reverse();
                }
                all.extend(hole);
            }
        }
        if no_three_in_line(&all) {
            return (all, holes);
        }
    }
}

fn check(seed: u64, side: i64, outer: i64, inner: i64) {
    let (all, holes) = polygon(seed, side, outer, inner);
    let data: Vec<Exact> =
        all.iter().flat_map(|c| [Exact::new(c.0), Exact::new(c.1)]).collect();
    let triangles: Vec<u32> = earcut(&data, &holes, 2);
    assert_eq!(triangles.len(), 3 * (all.len() + 2 * holes.len() - 2));
    assert!(deviation(&data, &holes, 2, &triangles).same(Exact::new(0)));
}

/// The polygon with the first vertex of each ring repeated behind its last.
fn closed(all: &[(i64, i64)], holes: &[usize]) -> (Vec<(i64, i64)>, Vec<usize>) {
    let (mut more, mut starts) = (Vec::new(), Vec::new());
    let mut from = 0;
    for &to in holes.iter().chain([all.len()].iter()) {
        if from > 0 {
            starts.push(more.len());
        }
        more.extend_from_slice(&all[from..to]);
        more.push(all[from]);
        from = to;
    }
    (more, starts)
}

#[test]
fn polygons_with_a_hole_are_triangulated_completely() {
    for seed in 0..40 {
        check(seed, 1, 7, 5);
    }
}

#[test]
fn polygons_with_holes_are_triangulated_completely() {
    for seed in 0..40 {
        check(seed, 2, 12, 4);
    }
    for seed in 0..10 {
        check(seed, 3, 9, 6);
    }
}

#[test]
fn closed_polygons_with_holes_are_triangulated_completely() {
    for seed in 0..20 {
        let (all, holes) = polygon(seed, 2, 11, 5);
        let (more, starts) = closed(&all, &holes);
        assert_eq!(more.len(), all.len() + 5);
        let data: Vec<Exact> =
            more.iter().flat_map(|c| [Exact::new(c.0), Exact::new(c.1)]).collect();
        let triangles: Vec<u32> = earcut(&data, &starts, 2);
        assert_eq!(triangles.len(), 3 * (all.len() + 2 * 4 - 2));
        assert!(deviation(&data, &starts, 2, &triangles).same(Exact::new(0)));
    }
}

#[test]
fn hashed_polygons_with_holes_are_triangulated_completely() {
    for seed in 0..4 {
        check(seed, 4, 40, 5);
    }
}

#[test]
fn indexed_polygons_with_holes_are_triangulated_completely() {
    check(1, 5, 140, 5);
    check(2, 6, 100, 5);
}

#[test]
fn holes_in_line_with_the_outer_ring() {
    // the corners of both rings are in line, and still nothing is lost
    let coords = [0, 0, 9, 0, 9, 9, 0, 9, 3, 3, 3, 6, 6, 6, 6, 3];
    let data: Vec<Exact> = coords.map(Exact::new).to_vec();
    let triangles: Vec<u32> = earcut(&data, &[4], 2);
    assert_eq!(triangles.len(), 3 * 8);
    assert!(deviation(&data, &[4], 2, &triangles).same(Exact::new(0)));
}
