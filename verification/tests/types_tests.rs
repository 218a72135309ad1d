use subtitle_ocr::adjust::{box_filter_outcome, nearest_gap, segment_midpoint, BoxFilterOutcome};
use subtitle_ocr::types::{
    default_dedup_edit_distance, default_is_merge_substring, default_iso_threshold_ms,
    FrameTimes, MergeFramesArgs,
};

#[test]
fn frame_times_sort_key() {
    assert_eq!(FrameTimes::NoTime.sort_key(), 0);
    assert_eq!(FrameTimes::Single(500).sort_key(), 500);
    assert_eq!(FrameTimes::Range(100, 200).sort_key(), 100);
}

#[test]
fn frame_times_timestamps() {
    assert_eq!(FrameTimes::NoTime.frame_timestamps(), vec![0]);
    assert_eq!(FrameTimes::Single(7).frame_timestamps(), vec![7]);
    assert_eq!(FrameTimes::Range(1, 9).frame_timestamps(), vec![1, 9]);
}

#[test]
fn merge_args_defaults() {
    let a = MergeFramesArgs::default();
    assert!(!a.is_merge_substring());
    assert_eq!(a.dedup_edit_distance(), 1);
    let b = MergeFramesArgs { is_merge_substring: Some(true), dedup_edit_distance: Some(3) };
    assert!(b.is_merge_substring());
    assert_eq!(b.dedup_edit_distance(), 3);
    assert_eq!(default_is_merge_substring(), Some(false));
    assert_eq!(default_dedup_edit_distance(), Some(1));
    assert_eq!(default_iso_threshold_ms(), Some(1500));
}

#[test]
fn box_filter_outcomes() {
    assert!(matches!(box_filter_outcome(&[]), BoxFilterOutcome::Dropped));
    assert!(matches!(box_filter_outcome(&[true, true]), BoxFilterOutcome::Dropped));
    assert!(matches!(box_filter_outcome(&[false, false]), BoxFilterOutcome::Unchanged));
    match box_filter_outcome(&[true, false, true, false]) {
        BoxFilterOutcome::Rebuilt(keep) => assert_eq!(keep, vec![1, 3]),
        _ => panic!("expected a rebuilt frame"),
    }
}

#[test]
fn nearest_gap_cases() {
    assert_eq!(nearest_gap(&[], 100), None);
    assert_eq!(nearest_gap(&[100], 100), None);
    assert_eq!(nearest_gap(&[10, 100, 130], 100), Some(30));
    assert_eq!(nearest_gap(&[90, 100, 300], 100), Some(10));
    assert_eq!(nearest_gap(&[10, 40], 100), Some(60));
    assert_eq!(nearest_gap(&[150, 400], 100), Some(50));
    assert_eq!(segment_midpoint(100, 201), 150);
    assert_eq!(segment_midpoint(u32::MAX, u32::MAX), u32::MAX as u64);
}
