use wavalyze::selection::snapped_selection_range;

/// The rounding the view applies before snapping: drag position over block size, rounded.
fn block(sample: f64, block_size: u64) -> i128 {
    (sample / block_size.max(1) as f64).round() as i128
}

#[test]
fn span_between_positions_snaps_to_block_boundaries() {
    assert_eq!(snapped_selection_range(block(10.0, 4), block(30.0, 4), 4, false), (12, 32));
    assert_eq!(snapped_selection_range(block(30.0, 4), block(10.0, 4), 4, false), (12, 32));
}

#[test]
fn same_block_widens_by_one_block_in_the_drag_direction() {
    assert_eq!(snapped_selection_range(3, 3, 1024, false), (3072, 4096));
    assert_eq!(snapped_selection_range(3, 3, 1024, true), (2048, 3072));
}

#[test]
fn zero_block_size_counts_as_one_sample() {
    assert_eq!(snapped_selection_range(5, 5, 0, false), (5, 6));
}

#[test]
fn ranges_are_clamped_to_the_sample_index_range() {
    let (start, end) = snapped_selection_range(i128::MAX, i128::MAX, 1, false);
    assert_eq!((start, end), (i64::MAX - 1, i64::MAX));
    let (start, end) = snapped_selection_range(i128::MIN, i128::MIN, 1, true);
    assert_eq!((start, end), (i64::MIN, i64::MIN + 1));
    let (start, end) = snapped_selection_range(i128::MIN, i128::MAX, 1000, false);
    assert_eq!(start, -9_223_372_036_854_775_000);
    assert_eq!(end, 9_223_372_036_854_775_000);
}

#[test]
fn huge_block_size_is_capped() {
    let (start, end) = snapped_selection_range(0, 0, u64::MAX, false);
    assert_eq!((start, end), (0, i64::MAX));
}
