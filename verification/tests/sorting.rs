use rearcut::zsort::sort_by_z;

fn sorted(items: &[(i32, u32)]) -> Vec<(i32, u32)> {
    let mut order = items.to_vec();
    let mut scratch = Vec::new();
    sort_by_z(&mut order, &mut scratch);
    order
}

/// A queue of `n` items with keys spread over the curve.
fn queue(n: usize, modulus: u32) -> Vec<(i32, u32)> {
    let mut key: u32 = 12345;
    (0..n)
        .map(|i| {
            key = key.wrapping_mul(1664525).wrapping_add(1013904223);
            ((key >> 2) as i32 % modulus as i32, i as u32)
        })
        .collect()
}

#[test]
fn short_queues_are_sorted() {
    assert_eq!(sorted(&[]), vec![]);
    assert_eq!(sorted(&[(5, 1)]), vec![(5, 1)]);
    assert_eq!(
        sorted(&[(7, 0), (3, 1), (9, 2), (1, 3)]),
        vec![(1, 3), (3, 1), (7, 0), (9, 2)]
    );
    assert_eq!(sorted(&[(0, 0), (-4, 1), (2, 2)]), vec![(-4, 1), (0, 0), (2, 2)]);
}

#[test]
fn ties_keep_their_order() {
    assert_eq!(
        sorted(&[(2, 0), (1, 1), (2, 2), (1, 3), (2, 4)]),
        vec![(1, 1), (1, 3), (2, 0), (2, 2), (2, 4)]
    );
    let many = queue(2000, 7);
    let mut expected = many.clone();
    expected.sort_by_key(|&(z, _)| z);
    assert_eq!(sorted(&many), expected);
}

#[test]
fn long_queues_are_sorted_by_radix() {
    for &n in [511usize, 512, 513, 3000].iter() {
        let items = queue(n, 0x3fff_ffff);
        let mut expected = items.clone();
        expected.sort_by_key(|&(z, _)| z);
        assert_eq!(sorted(&items), expected);
    }
}

#[test]
fn long_queues_take_keys_for_unsigned() {
    let mut items = queue(600, 1000);
    items[17].0 = -1;
    items[400].0 = i32::MIN;
    let mut expected = items.clone();
    expected.sort_by_key(|&(z, _)| z as u32);
    let result = sorted(&items);
    assert_eq!(result, expected);
    assert_eq!(result[598].0, i32::MIN);
    assert_eq!(result[599].0, -1);
}

#[test]
fn scratch_can_be_reused() {
    let mut scratch: Vec<(i32, u32)> = vec![(1, 1); 10];
    let mut first = queue(700, 100000);
    let mut second = queue(900, 50);
    sort_by_z(&mut first, &mut scratch);
    sort_by_z(&mut second, &mut scratch);
    assert!(first.windows(2).all(|w| w[0].0 <= w[1].0));
    assert!(second.windows(2).all(|w| w[0].0 <= w[1].0));
}
