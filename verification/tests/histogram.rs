use ground_segmentation::histogram::{
    bin_counts, find_largest_peak, find_next_valley, smoothing_windows, valley_after_largest_peak,
};

#[test]
fn next_valley_first_after_start() {
    let h = [5u64, 3, 4, 2, 2, 6];
    assert_eq!(find_next_valley(&h, 0), 1);
    assert_eq!(find_next_valley(&h, 1), 3);
}

#[test]
fn next_valley_none_gives_last_bin() {
    let h = [1u64, 2, 3, 4];
    assert_eq!(find_next_valley(&h, 0), 3);
    assert_eq!(find_next_valley(&h, 10), 3);
    assert_eq!(find_next_valley(&[9u64], 0), 0);
}

#[test]
fn next_valley_needs_strict_drop() {
    // a flat stretch is no valley: 4 is not below its left neighbour 4
    let h = [4u64, 4, 5, 3, 3];
    assert_eq!(find_next_valley(&h, 0), 3);
}

#[test]
fn largest_peak_first_of_equal() {
    let h = [0u64, 5, 1, 5, 2];
    assert_eq!(find_largest_peak(&h), 1);
}

#[test]
fn largest_peak_highest() {
    let h = [0u64, 3, 1, 7, 2, 6, 0];
    assert_eq!(find_largest_peak(&h), 3);
}

#[test]
fn largest_peak_falls_back_to_last_maximum() {
    assert_eq!(find_largest_peak(&[1u64, 2, 3]), 2);
    assert_eq!(find_largest_peak(&[3u64, 3, 1]), 1);
    assert_eq!(find_largest_peak(&[7u64]), 0);
    assert_eq!(find_largest_peak(&[4u64, 4]), 1);
}

#[test]
fn bin_counts_clamps_to_last_bin() {
    let bins = [0usize, 2, 2, 5, 9];
    let counts = bin_counts(&bins, 3);
    assert_eq!(counts, vec![1, 0, 4]);
    assert_eq!(counts.iter().sum::<usize>(), bins.len());
}

#[test]
fn bin_counts_empty_input() {
    assert_eq!(bin_counts(&[], 4), vec![0, 0, 0, 0]);
}

#[test]
fn smoothing_windows_cut_at_ends() {
    let h = [1usize, 2, 3, 4];
    assert_eq!(smoothing_windows(&h, 2), vec![(3, 2), (6, 3), (9, 3), (7, 2)]);
    assert_eq!(smoothing_windows(&h, 3), vec![(3, 2), (6, 3), (9, 3), (7, 2)]);
    assert_eq!(smoothing_windows(&h, 0), vec![(1, 1), (2, 1), (3, 1), (4, 1)]);
}

#[test]
fn smoothing_windows_wider_than_histogram() {
    let h = [1usize, 2, 3];
    assert_eq!(smoothing_windows(&h, 10), vec![(6, 3), (6, 3), (6, 3)]);
    assert_eq!(smoothing_windows(&[], 10), vec![]);
}

#[test]
fn smoothing_windows_large_counts_per_bin() {
    // every window fits though the whole histogram does not
    let h = [usize::MAX, 1];
    assert_eq!(smoothing_windows(&h, 0), vec![(usize::MAX, 1), (1, 1)]);
    assert_eq!(smoothing_windows(&h, 1), vec![(usize::MAX, 1), (1, 1)]);
}

#[test]
fn valley_after_peak() {
    // largest peak at 3, first valley after it at 5
    let h = [1u64, 4, 2, 9, 5, 3, 8, 1];
    assert_eq!(valley_after_largest_peak(&h), 5);
}

#[test]
fn valley_after_peak_none_gives_last_bin() {
    let h = [1u64, 4, 3, 2, 1];
    assert_eq!(valley_after_largest_peak(&h), 4);
    assert_eq!(valley_after_largest_peak(&[3u64]), 0);
}
