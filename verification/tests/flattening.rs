use rearcut::flatten;

#[test]
fn rings_are_laid_out_one_after_the_other() {
    let rings: Vec<Vec<[i32; 2]>> = vec![
        vec![[0, 1], [2, 3], [4, 5]],
        vec![[6, 7], [8, 9]],
        vec![[10, 11]],
    ];
    let (vertices, holes, dimensions) = flatten(&rings);
    assert_eq!(vertices, vec![0, 1, 2, 3, 4, 5, 6, 7, 8, 9, 10, 11]);
    assert_eq!(holes, vec![3, 5]);
    assert_eq!(dimensions, 2);
}

#[test]
fn nothing_is_flattened_to_nothing() {
    let rings: Vec<Vec<[i32; 2]>> = vec![];
    assert_eq!(flatten(&rings), (vec![], vec![], 2));
    let rings: Vec<Vec<[i32; 2]>> = vec![vec![]];
    assert_eq!(flatten(&rings), (vec![], vec![], 2));
}

#[test]
fn a_ring_behind_an_empty_one_starts_no_hole() {
    let rings: Vec<Vec<[i32; 2]>> = vec![vec![], vec![[1, 2], [3, 4]], vec![[5, 6]]];
    assert_eq!(flatten(&rings), (vec![1, 2, 3, 4, 5, 6], vec![2], 2));
    let rings: Vec<Vec<[i32; 2]>> = vec![vec![[1, 2]], vec![], vec![[3, 4]]];
    assert_eq!(flatten(&rings), (vec![1, 2, 3, 4], vec![1], 2));
}
