use subtitle_ocr::segments::SegmentCore;
use subtitle_ocr::triplet::{triplet_start, triplet_step};
use subtitle_ocr::types::SubtitleSegment;

fn seg(text: &str, start_ms: u32, end_ms: u32, frame_count: Option<u32>) -> SegmentCore {
    SegmentCore {
        base: SubtitleSegment { text: text.into(), start_ms, end_ms },
        frame_count,
    }
}

#[test]
fn triplet_start_keeps_every_segment_alone() {
    let segs = vec![seg("a", 0, 100, Some(2)), seg("b", 100, 200, None)];
    let out = triplet_start(&segs);
    assert_eq!(out.len(), 2);
    assert_eq!(out[0].members, vec![0]);
    assert_eq!(out[1].members, vec![1]);
    assert_eq!(out[0].frame_count, Some(2));
    assert_eq!(out[1].frame_count, None);
    assert_eq!(out[1].y_source, 1);
    assert_eq!(out[1].base.text, "b");
}

#[test]
fn triplet_step_without_noise_moves_on() {
    let segs = triplet_start(&[seg("a", 0, 100, None), seg("x", 100, 150, None), seg("a", 150, 300, None)]);
    let (out, next) = triplet_step(segs, 0, false).unwrap();
    assert_eq!(out.len(), 3);
    assert_eq!(next, 1);
}

#[test]
fn triplet_step_folds_the_window() {
    let segs = triplet_start(&[
        seg("z", 0, 50, Some(1)),
        seg("hello", 100, 1000, Some(4)),
        seg("hxllo", 1000, 1200, None),
        seg("hello", 1200, 2000, Some(5)),
        seg("bye", 2500, 3000, Some(2)),
    ]);
    let (out, next) = triplet_step(segs, 1, true).unwrap();
    assert_eq!(next, 0);
    assert_eq!(out.len(), 3);
    assert_eq!(out[0].members, vec![0]);
    assert_eq!(out[1].base.text, "hello");
    assert_eq!((out[1].base.start_ms, out[1].base.end_ms), (100, 2000));
    assert_eq!(out[1].frame_count, Some(10));
    assert_eq!(out[1].members, vec![1, 2, 3]);
    assert_eq!(out[1].y_source, 1);
    assert_eq!(out[2].members, vec![4]);
    assert_eq!(out[2].base.text, "bye");
}

#[test]
fn triplet_step_at_start_stays_at_start() {
    let segs = triplet_start(&[seg("a", 0, 100, None), seg("b", 100, 150, None), seg("a", 150, 300, None)]);
    let (out, next) = triplet_step(segs, 0, true).unwrap();
    assert_eq!(next, 0);
    assert_eq!(out.len(), 1);
    assert_eq!(out[0].frame_count, Some(3));
    assert_eq!(out[0].members, vec![0, 1, 2]);
}

#[test]
fn triplet_step_reports_frame_count_overflow() {
    let segs = triplet_start(&[
        seg("a", 0, 100, Some(u32::MAX - 1)),
        seg("b", 100, 150, Some(1)),
        seg("a", 150, 300, Some(1)),
    ]);
    assert!(triplet_step(segs, 0, true).is_none());
    let segs = triplet_start(&[
        seg("a", 0, 100, Some(u32::MAX - 1)),
        seg("b", 100, 150, Some(1)),
        seg("a", 150, 300, Some(1)),
    ]);
    assert!(triplet_step(segs, 0, false).is_some());
}
