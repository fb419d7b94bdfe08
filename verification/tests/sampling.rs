use ground_segmentation::sampling::sample_ground_points;

fn sorted(mut v: Vec<usize>) -> Vec<usize> {
    v.sort();
    v
}

#[test]
fn lowest_point_per_cell_first_of_ties() {
    let cells = [(0i64, 0i64), (1, 0), (0, 0), (1, 0), (0, 0)];
    let heights = [5u64, 3, 2, 3, 2];
    assert_eq!(sorted(sample_ground_points(&cells, &heights)), vec![1, 2]);
}

#[test]
fn every_cell_once() {
    let cells = [(-1i64, 7i64), (2, -3), (-1, 7), (0, 0), (2, -3), (0, 1)];
    let heights = [10u64, 1, 9, 4, 1, 4];
    assert_eq!(sorted(sample_ground_points(&cells, &heights)), vec![1, 2, 3, 5]);
}

#[test]
fn extreme_cells_stay_apart() {
    let cells = [
        (i64::MIN, i64::MAX),
        (i64::MIN + 1, i64::MIN),
        (i64::MAX, i64::MIN),
        (i64::MAX, i64::MAX),
        (i64::MIN, i64::MIN),
    ];
    let heights = [0u64, 0, 0, 0, 0];
    assert_eq!(sorted(sample_ground_points(&cells, &heights)), vec![0, 1, 2, 3, 4]);
}

#[test]
fn no_points_no_cells() {
    assert!(sample_ground_points(&[], &[]).is_empty());
}
