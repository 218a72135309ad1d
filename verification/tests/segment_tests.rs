use subtitle_ocr::segments::{
    dedup_overlap, merge_adjacent_same_text, merge_substring_segments, SegmentCore,
};
use subtitle_ocr::types::SubtitleSegment;

fn seg(text: &str, start_ms: u32, end_ms: u32, frame_count: Option<u32>) -> SegmentCore {
    SegmentCore {
        base: SubtitleSegment { text: text.into(), start_ms, end_ms },
        frame_count,
    }
}

#[test]
fn dedup_merge_overlapping_near_text() {
    let segs = vec![seg("hello", 0, 1000, Some(1)), seg("helo", 900, 1100, Some(1))];
    let out = dedup_overlap(&segs, 1).unwrap();
    assert_eq!(out.len(), 1);
    assert_eq!(out[0].base.text, "hello");
}

#[test]
fn dedup_spans_both_and_sums_counts() {
    let segs = vec![seg("helo", 900, 1100, None), seg("hello", 0, 1000, Some(3))];
    let out = dedup_overlap(&segs, 1).unwrap();
    assert_eq!(out.len(), 1);
    assert_eq!(out[0].base.text, "hello");
    assert_eq!((out[0].base.start_ms, out[0].base.end_ms), (0, 1100));
    assert_eq!(out[0].frame_count, Some(4));
    assert_eq!(out[0].members, vec![0, 1]);
    assert_eq!(out[0].y_source, 0);
}

#[test]
fn dedup_keeps_distant_or_different_segments() {
    let segs = vec![
        seg("hello", 0, 1000, Some(1)),
        seg("hello", 2000, 3000, Some(1)),
        seg("world", 3100, 3200, Some(1)),
        seg("ab", 3300, 3400, Some(1)),
        seg("cd", 3300, 3400, Some(1)),
    ];
    let out = dedup_overlap(&segs, 1).unwrap();
    assert_eq!(out.len(), 5);
    let members: Vec<usize> = out.iter().flat_map(|m| m.members.clone()).collect();
    assert_eq!(members, vec![0, 1, 2, 3, 4]);
    assert_eq!(out[1].frame_count, Some(1));
}

#[test]
fn dedup_short_words_merge_only_when_related() {
    let segs = vec![seg("啊", 0, 100, Some(1)), seg("啊啊", 150, 300, Some(1))];
    let out = dedup_overlap(&segs, 1).unwrap();
    assert_eq!(out.len(), 1);
    assert_eq!(out[0].base.text, "啊啊");
}

#[test]
fn adjacent_same_text_joins_runs() {
    let segs = vec![
        seg("a b", 0, 100, Some(2)),
        seg("ab", 1500, 1600, None),
        seg(" ab", 3000, 3100, Some(1)),
        seg("ab", 9000, 9100, Some(1)),
        seg("c", 9200, 9300, Some(5)),
    ];
    let out = merge_adjacent_same_text(&segs).unwrap();
    assert_eq!(out.len(), 3);
    assert_eq!(out[0].base.text, "a b");
    assert_eq!((out[0].base.start_ms, out[0].base.end_ms), (0, 3100));
    assert_eq!(out[0].frame_count, Some(4));
    assert_eq!(out[0].members, vec![0, 1, 2]);
    assert_eq!(out[1].members, vec![3]);
    assert_eq!(out[1].frame_count, Some(1));
    assert_eq!(out[2].frame_count, Some(5));
}

#[test]
fn adjacent_same_text_overlapping_times_stay_apart() {
    let segs = vec![seg("hi", 0, 1000, Some(1)), seg("hi", 500, 1500, Some(1))];
    let out = merge_adjacent_same_text(&segs).unwrap();
    assert_eq!(out.len(), 2);
    assert_eq!(out[0].base.end_ms, 1000);
    assert_eq!(out[1].base.start_ms, 500);
    let segs = vec![seg("x", 100, 500, Some(1)), seg("x", 200, 300, Some(1))];
    assert_eq!(merge_adjacent_same_text(&segs).unwrap().len(), 2);
}

#[test]
fn adjacent_same_text_touching_segments_join() {
    let segs = vec![seg("hi", 0, 1000, Some(1)), seg("hi", 1000, 1500, Some(1))];
    let out = merge_adjacent_same_text(&segs).unwrap();
    assert_eq!(out.len(), 1);
    assert_eq!((out[0].base.start_ms, out[0].base.end_ms), (0, 1500));
}

#[test]
fn adjacent_same_text_second_pass_changes_nothing() {
    let segs = vec![
        seg("a", 0, 100, Some(1)),
        seg("a", 200, 300, Some(1)),
        seg("b", 400, 500, Some(1)),
        seg("b", 9000, 9100, Some(1)),
    ];
    let once = merge_adjacent_same_text(&segs).unwrap();
    let again: Vec<SegmentCore> = once
        .iter()
        .map(|m| SegmentCore { base: m.base.clone(), frame_count: m.frame_count })
        .collect();
    let twice = merge_adjacent_same_text(&again).unwrap();
    assert_eq!(twice.len(), once.len());
    for (t, o) in twice.iter().zip(once.iter()) {
        assert_eq!(t.base.text, o.base.text);
        assert_eq!((t.base.start_ms, t.base.end_ms), (o.base.start_ms, o.base.end_ms));
        assert_eq!(t.frame_count, o.frame_count);
    }
}

#[test]
fn merging_reports_frame_count_overflow() {
    let segs = vec![seg("a", 0, 100, Some(u32::MAX)), seg("a", 200, 300, Some(1))];
    assert!(merge_adjacent_same_text(&segs).is_none());
    let apart = vec![seg("a", 0, 100, Some(u32::MAX)), seg("b", 200, 300, Some(u32::MAX))];
    assert_eq!(merge_adjacent_same_text(&apart).unwrap().len(), 2);
}

#[test]
fn substring_merge_takes_latest_text() {
    let segs = vec![
        seg("你好", 0, 100, Some(1)),
        seg("你好世界", 100, 200, Some(2)),
        seg("世界", 200, 300, Some(1)),
        seg("别的", 300, 400, Some(1)),
    ];
    let out = merge_substring_segments(&segs, &[false, true, true, true]).unwrap();
    assert_eq!(out.len(), 2);
    assert_eq!(out[0].base.text, "世界");
    assert_eq!((out[0].base.start_ms, out[0].base.end_ms), (0, 300));
    assert_eq!(out[0].frame_count, Some(4));
    assert_eq!(out[0].y_source, 2);
    assert_eq!(out[0].members, vec![0, 1, 2]);
    assert_eq!(out[1].members, vec![3]);
}

#[test]
fn substring_merge_needs_vertical_overlap() {
    let segs = vec![seg("你好", 0, 100, Some(1)), seg("你好世界", 100, 200, Some(2))];
    let out = merge_substring_segments(&segs, &[false, false]).unwrap();
    assert_eq!(out.len(), 2);
}

#[test]
fn adjacent_same_text_out_of_order_second_pass_rejoins() {
    let segs = vec![seg("x", 1000, 1100, Some(1)), seg("x", 0, 50, Some(1)), seg("x", 20, 60, Some(1))];
    let once = merge_adjacent_same_text(&segs).unwrap();
    assert_eq!(once.len(), 2);
    assert_eq!((once[0].base.start_ms, once[0].base.end_ms), (1000, 50));
    assert_eq!(once[1].members, vec![2]);
    let again: Vec<SegmentCore> = once
        .iter()
        .map(|m| SegmentCore { base: m.base.clone(), frame_count: m.frame_count })
        .collect();
    let twice = merge_adjacent_same_text(&again).unwrap();
    assert_eq!(twice.len(), 1);
    assert_eq!(twice[0].frame_count, Some(3));
}
