use subtitle_ocr::stats::mode_position;

#[test]
fn mode_single_key() {
    assert_eq!(mode_position(&[(5, 0)]), 0);
}

#[test]
fn mode_first_to_reach_highest_count() {
    // 7 reaches count 2 at position 2, 3 reaches count 2 only at position 3
    assert_eq!(mode_position(&[(7, 0), (3, 0), (7, 0), (3, 0)]), 2);
    // all distinct: the first one
    assert_eq!(mode_position(&[(1, 1), (2, 2), (3, 3)]), 0);
    // the most frequent key wins, at the occurrence where its count peaks
    assert_eq!(mode_position(&[(1, 0), (2, 0), (2, 0), (2, 0), (1, 0)]), 3);
}

#[test]
fn mode_distinguishes_pairs_and_negative_keys() {
    assert_eq!(mode_position(&[(1, 2), (2, 1), (-1, 2), (1, 2)]), 3);
    assert_eq!(mode_position(&[(-1, -1), (i32::MAX, i32::MIN), (-1, -1)]), 2);
    assert_eq!(mode_position(&[(0, -1), (-1, 0), (0, -1)]), 2);
}
