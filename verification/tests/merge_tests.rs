use subtitle_ocr::merge::{base_merge_frames, FrameText};
use subtitle_ocr::types::MergeFramesArgs;

fn make_frame(text: &str, ts: u64) -> FrameText {
    FrameText { text: text.to_string(), timestamp: ts }
}

#[test]
fn base_merge_groups_same_text() {
    let frames = vec![make_frame("hello", 100), make_frame("hello", 200), make_frame("world", 300)];
    let segs = base_merge_frames(&frames, &MergeFramesArgs::default());
    assert_eq!(segs.len(), 2);
    assert_eq!(segs[0].base.text, "hello");
    assert_eq!(segs[0].base.start_ms, 100);
    assert_eq!(segs[0].base.end_ms, 200);
    assert_eq!(segs[1].base.text, "world");
}

#[test]
fn base_merge_splits_same_text_far_apart() {
    let frames = vec![
        make_frame("啊", 3200),
        make_frame("啊", 4366),
        make_frame("啊", 17033),
        make_frame("啊", 18266),
    ];
    let segs = base_merge_frames(&frames, &MergeFramesArgs::default());
    assert_eq!(segs.len(), 2);
    assert_eq!(segs[0].base.start_ms, 3200);
    assert_eq!(segs[0].base.end_ms, 4366);
    assert_eq!(segs[0].frame_count, Some(2));
    assert_eq!(segs[1].base.start_ms, 17033);
    assert_eq!(segs[1].base.end_ms, 18266);
}

#[test]
fn base_merge_keeps_same_text_within_gap() {
    let frames = vec![make_frame("我徒弟哈哈亲生的", 36100), make_frame("我徒弟哈哈亲生的", 39366)];
    let segs = base_merge_frames(&frames, &MergeFramesArgs::default());
    assert_eq!(segs.len(), 1);
    assert_eq!(segs[0].base.start_ms, 36100);
    assert_eq!(segs[0].base.end_ms, 39366);
}

#[test]
fn base_merge_bridges_short_empty_gap_with_similar_text() {
    let frames = vec![
        make_frame("hello world", 1000),
        make_frame("", 1100),
        make_frame("hello", 2000),
        make_frame("hello world", 2100),
    ];
    let segs = base_merge_frames(&frames, &MergeFramesArgs::default());
    assert_eq!(segs.len(), 1);
    assert_eq!(segs[0].base.text, "hello world");
    assert_eq!(segs[0].base.start_ms, 1000);
    assert_eq!(segs[0].base.end_ms, 2100);
    // the bridging frame counts for confidence but is not listed
    assert_eq!(segs[0].confidence_frames, vec![0, 2, 3]);
    assert_eq!(segs[0].detail_frames, vec![0, 3]);
    assert_eq!(segs[0].frame_count, Some(3));
    assert_eq!(segs[0].first_frame, 0);
}

#[test]
fn base_merge_ends_segment_at_long_gap() {
    let frames = vec![
        make_frame("abc", 1000),
        make_frame("", 1200),
        make_frame("", 1300),
        make_frame("abc", 3000),
    ];
    let segs = base_merge_frames(&frames, &MergeFramesArgs::default());
    assert_eq!(segs.len(), 2);
    assert_eq!((segs[0].base.start_ms, segs[0].base.end_ms), (1000, 1200));
    assert_eq!((segs[1].base.start_ms, segs[1].base.end_ms), (3000, 3000));
    assert_eq!(segs[1].first_frame, 3);
}

#[test]
fn base_merge_trailing_gap_ends_last_segment() {
    let frames = vec![make_frame("x", 10), make_frame("x", 20), make_frame("", 30)];
    let segs = base_merge_frames(&frames, &MergeFramesArgs::default());
    assert_eq!(segs.len(), 1);
    assert_eq!(segs[0].base.end_ms, 30);
}

#[test]
fn base_merge_whitespace_differences_do_not_split() {
    let frames = vec![make_frame("a b", 0), make_frame("ab", 100), make_frame(" a  b ", 200)];
    let segs = base_merge_frames(&frames, &MergeFramesArgs::default());
    assert_eq!(segs.len(), 1);
    assert_eq!(segs[0].base.text, "a b");
    assert_eq!(segs[0].confidence_frames, vec![0, 1, 2]);
}

#[test]
fn base_merge_accounts_for_every_text_frame_once() {
    let frames = vec![
        make_frame("", 0),
        make_frame("a", 100),
        make_frame("b", 200),
        make_frame("", 300),
        make_frame("b", 400),
        make_frame("c", 9000),
        make_frame("c", 20000),
    ];
    let segs = base_merge_frames(&frames, &MergeFramesArgs::default());
    let all: Vec<usize> = segs.iter().flat_map(|s| s.confidence_frames.clone()).collect();
    assert_eq!(all, vec![1, 2, 4, 5, 6]);
    for s in &segs {
        assert!(!s.base.text.is_empty());
        assert_eq!(s.frame_count, Some(s.confidence_frames.len() as u32));
        assert_eq!(s.confidence_frames[0], s.first_frame);
    }
    assert!(base_merge_frames(&[], &MergeFramesArgs::default()).is_empty());
}

#[test]
fn base_merge_time_ordered_frames_give_time_ordered_segments() {
    let texts = ["a", "a", "", "b", "", "", "b", "c", "c", "", "a"];
    let frames: Vec<FrameText> =
        texts.iter().enumerate().map(|(i, t)| make_frame(t, 700 * i as u64)).collect();
    let segs = base_merge_frames(&frames, &MergeFramesArgs::default());
    for s in &segs {
        assert!(s.base.start_ms <= s.base.end_ms);
    }
    for w in segs.windows(2) {
        assert!(w[0].base.end_ms <= w[1].base.start_ms);
    }
    assert_eq!(segs.len(), 4);
}
