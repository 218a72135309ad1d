//! Grouping of recognised frames into timed subtitle segments.
//!
//! The functions here decide which frames and segments belong together and
//! what text and time span each result carries. Every result names the
//! inputs it was made of, so that a caller can carry along per-frame data
//! (confidences, coordinates) that the grouping does not read.

use vstd::prelude::*;
use crate::text::{normalized, substring_either_way, normalize, is_substring_of};
use crate::types::{SubtitleSegment, MergeFramesArgs};

verus! {

/// Longest gap (ms) across empty frames after which a frame with similar
/// text still continues the current segment.
pub const MAX_EMPTY_GAP_MS: u32 = 1500;

/// Longest gap (ms) between two frames with the same text that still belong
/// to one segment; past it the text is taken to appear anew.
pub const MAX_SAME_TEXT_GAP_MS: u32 = 4000;

/// What frame grouping reads of a recognised frame.
#[derive(Clone, Debug)]
pub struct FrameText {
    /// Recognised text; empty when the frame holds no subtitle.
    pub text: String,
    /// Time of the frame in milliseconds.
    pub timestamp: u64,
}

/// A segment made of consecutive frames.
#[derive(Clone, Debug)]
pub struct FrameSegment {
    pub base: SubtitleSegment,
    /// Number of frames whose confidence the segment averages.
    pub frame_count: Option<u32>,
    /// The frame whose vertical range the segment takes.
    pub first_frame: usize,
    /// Frames whose confidences the segment averages, in order.
    pub confidence_frames: Vec<usize>,
    /// Frames listed as the segment's own, in order.
    pub detail_frames: Vec<usize>,
}

/// Mathematical content of a [`FrameSegment`].
pub ghost struct SegView {
    pub text: Seq<char>,
    pub start: u32,
    pub end: u32,
    pub frame_count: Option<u32>,
    pub first: usize,
    pub confs: Seq<usize>,
    pub details: Seq<usize>,
}

impl View for FrameSegment {
    type V = SegView;

    open spec fn view(&self) -> SegView {
        SegView {
            text: self.base.text@,
            start: self.base.start_ms,
            end: self.base.end_ms,
            frame_count: self.frame_count,
            first: self.first_frame,
            confs: self.confidence_frames@,
            details: self.detail_frames@,
        }
    }
}

pub open spec fn seg_views(v: Seq<FrameSegment>) -> Seq<SegView> {
    v.map_values(|s: FrameSegment| s@)
}

/// State of the frame scan: the segments closed so far and the open one.
pub ghost struct ScanState {
    pub done: Seq<SegView>,
    /// Text of the open segment; empty when none is open.
    pub text: Seq<char>,
    pub start: u32,
    pub end: u32,
    pub first: usize,
    /// Time of the first empty frame after the open segment, 0 when none.
    pub gap: u32,
    pub confs: Seq<usize>,
    pub details: Seq<usize>,
}

pub open spec fn scan_init() -> ScanState {
    ScanState {
        done: Seq::empty(),
        text: Seq::empty(),
        start: 0,
        end: 0,
        first: 0,
        gap: 0,
        confs: Seq::empty(),
        details: Seq::empty(),
    }
}

/// The open segment, closed at time `end`.
pub open spec fn closed_segment(st: ScanState, end: u32) -> SegView {
    SegView {
        text: st.text,
        start: st.start,
        end: end,
        frame_count: Some(st.confs.len() as u32),
        first: st.first,
        confs: st.confs,
        details: st.details,
    }
}

/// Texts that count as the same subtitle across a gap: equal once
/// whitespace is removed, or one a proper substring of the other.
pub open spec fn similar_text(a: Seq<char>, b: Seq<char>) -> bool {
    normalized(a) == normalized(b) || substring_either_way(a, b) || substring_either_way(b, a)
}

/// One step of the scan, over frame `k` with text `text` at time `ts`.
pub open spec fn scan_step(st: ScanState, k: usize, text: Seq<char>, ts: u32) -> ScanState {
    if text.len() == 0 {
        if st.text.len() > 0 && st.gap == 0 {
            ScanState { gap: ts, ..st }
        } else {
            st
        }
    } else if st.gap > 0 && ts.saturating_sub(st.gap) <= MAX_EMPTY_GAP_MS && similar_text(
        text,
        st.text,
    ) {
        ScanState { confs: st.confs.push(k), end: ts, gap: 0, ..st }
    } else {
        let st1 = if st.gap > 0 {
            ScanState {
                done: st.done.push(closed_segment(st, st.gap)),
                text: Seq::empty(),
                start: 0,
                gap: 0,
                confs: Seq::empty(),
                details: Seq::empty(),
                ..st
            }
        } else {
            st
        };
        let too_far = st1.text.len() > 0 && ts.saturating_sub(st1.end) > MAX_SAME_TEXT_GAP_MS;
        if st1.text.len() == 0 || too_far || normalized(text) != normalized(st1.text) {
            ScanState {
                done: if st1.text.len() > 0 {
                    st1.done.push(closed_segment(st1, st1.end))
                } else {
                    st1.done
                },
                text: text,
                start: ts,
                end: ts,
                first: k,
                gap: 0,
                confs: seq![k],
                details: seq![k],
            }
        } else {
            ScanState { confs: st1.confs.push(k), end: ts, details: st1.details.push(k), ..st1 }
        }
    }
}

/// The scan state after the first `n` frames.
pub open spec fn scan(frames: Seq<FrameText>, n: nat) -> ScanState
    decreases n,
{
    if n == 0 {
        scan_init()
    } else {
        scan_step(
            scan(frames, (n - 1) as nat),
            (n - 1) as usize,
            frames[n - 1].text@,
            frames[n - 1].timestamp as u32,
        )
    }
}

/// The segments of a completed scan: the open one is closed at its end, or
/// at the start of the gap that follows it.
pub open spec fn scan_finish(st: ScanState) -> Seq<SegView> {
    if st.text.len() > 0 {
        st.done.push(closed_segment(st, if st.gap > 0 { st.gap } else { st.end }))
    } else {
        st.done
    }
}

/// Segments that frame grouping makes of `frames`.
pub open spec fn frame_segments(frames: Seq<FrameText>) -> Seq<SegView> {
    scan_finish(scan(frames, frames.len()))
}

/// Indices of the frames among the first `n` whose text is non-empty.
pub open spec fn text_frames(frames: Seq<FrameText>, n: nat) -> Seq<usize>
    decreases n,
{
    if n == 0 {
        Seq::empty()
    } else if frames[n - 1].text@.len() > 0 {
        text_frames(frames, (n - 1) as nat).push((n - 1) as usize)
    } else {
        text_frames(frames, (n - 1) as nat)
    }
}

/// The confidence frames of all segments, one segment after the other.
pub open spec fn all_confidence_frames(segs: Seq<SegView>) -> Seq<usize>
    decreases segs.len(),
{
    if segs.len() == 0 {
        Seq::empty()
    } else {
        all_confidence_frames(segs.drop_last()) + segs.last().confs
    }
}

/// A segment of `frames` has text, at least one frame, and counts its
/// confidence frames. It starts with the frame whose vertical range it
/// takes, whose text and time it has. Every frame listed as its own has the
/// same text up to whitespace, and every confidence frame a similar one.
pub open spec fn well_formed_segment(frames: Seq<FrameText>, s: SegView) -> bool {
    &&& s.text.len() > 0
    &&& s.confs.len() > 0
    &&& s.details.len() > 0
    &&& s.confs[0] == s.first
    &&& s.details[0] == s.first
    &&& s.frame_count == Some(s.confs.len() as u32)
    &&& s.first < frames.len()
    &&& s.text == frames[s.first as int].text@
    &&& s.start == frames[s.first as int].timestamp as u32
    &&& forall|i: int|
        0 <= i < s.details.len() ==> (#[trigger] s.details[i]) < frames.len() && normalized(
            frames[s.details[i] as int].text@,
        ) == normalized(s.text)
    &&& forall|i: int|
        0 <= i < s.confs.len() ==> (#[trigger] s.confs[i]) < frames.len() && similar_text(
            frames[s.confs[i] as int].text@,
            s.text,
        )
}

spec fn scan_inv(frames: Seq<FrameText>, n: nat, st: ScanState) -> bool {
    &&& all_confidence_frames(st.done) + st.confs == text_frames(frames, n)
    &&& (st.text.len() == 0 <==> st.confs.len() == 0)
    &&& st.gap > 0 ==> st.text.len() > 0
    &&& st.text.len() > 0 ==> well_formed_segment(frames, closed_segment(st, st.end))
    &&& forall|i: int| 0 <= i < st.done.len() ==> well_formed_segment(frames, #[trigger] st.done[i])
}

proof fn lemma_all_confidence_frames_push(segs: Seq<SegView>, s: SegView)
    ensures
        all_confidence_frames(segs.push(s)) == all_confidence_frames(segs) + s.confs,
{
    assert(segs.push(s).drop_last() == segs);
}

proof fn lemma_scan_inv(frames: Seq<FrameText>, n: nat)
    requires
        n <= frames.len(),
        frames.len() <= usize::MAX,
    ensures
        scan_inv(frames, n, scan(frames, n)),
    decreases n,
{
    if n == 0 {
        assert(all_confidence_frames(Seq::<SegView>::empty()) + Seq::<usize>::empty()
            =~= Seq::<usize>::empty());
    } else {
        let m = (n - 1) as nat;
        lemma_scan_inv(frames, m);
        let st = scan(frames, m);
        let k = m as usize;
        let text = frames[m as int].text@;
        let ts = frames[m as int].timestamp as u32;
        let prev = text_frames(frames, m);
        let acc = all_confidence_frames(st.done);
        if text.len() == 0 {
        } else if st.gap > 0 && ts.saturating_sub(st.gap) <= MAX_EMPTY_GAP_MS && similar_text(
            text,
            st.text,
        ) {
            assert(acc + st.confs.push(k) =~= (acc + st.confs).push(k));
        } else {
            let st1 = if st.gap > 0 {
                ScanState {
                    done: st.done.push(closed_segment(st, st.gap)),
                    text: Seq::empty(),
                    start: 0,
                    gap: 0,
                    confs: Seq::empty(),
                    details: Seq::empty(),
                    ..st
                }
            } else {
                st
            };
            if st.gap > 0 {
                lemma_all_confidence_frames_push(st.done, closed_segment(st, st.gap));
                assert(all_confidence_frames(st1.done) + st1.confs =~= acc + st.confs);
                assert(well_formed_segment(frames, closed_segment(st, st.gap)));
                assert forall|i: int| 0 <= i < st1.done.len() implies well_formed_segment(
                    frames,
                    #[trigger] st1.done[i],
                ) by {
                    if i < st.done.len() {
                        assert(st1.done[i] == st.done[i]);
                    }
                }
            }
            assert(scan_inv(frames, m, st1));
            let acc1 = all_confidence_frames(st1.done);
            let too_far = st1.text.len() > 0 && ts.saturating_sub(st1.end)
                > MAX_SAME_TEXT_GAP_MS;
            if st1.text.len() == 0 || too_far || normalized(text) != normalized(st1.text) {
                if st1.text.len() > 0 {
                    let d2 = st1.done.push(closed_segment(st1, st1.end));
                    assert(well_formed_segment(frames, closed_segment(st1, st1.end)));
                    assert forall|i: int| 0 <= i < d2.len() implies well_formed_segment(
                        frames,
                        #[trigger] d2[i],
                    ) by {
                        if i < st1.done.len() {
                            assert(d2[i] == st1.done[i]);
                        }
                    }
                    lemma_all_confidence_frames_push(st1.done, closed_segment(st1, st1.end));
                    assert(all_confidence_frames(st1.done.push(closed_segment(st1, st1.end)))
                        + seq![k] =~= (acc1 + st1.confs).push(k));
                } else {
                    assert(acc1 + seq![k] =~= (acc1 + st1.confs).push(k));
                }
            } else {
                assert(acc1 + st1.confs.push(k) =~= (acc1 + st1.confs).push(k));
            }
        }
    }
}

/// Grouping accounts for every frame with text exactly once and in order:
/// the segments' confidence frames, one segment after the other, are the
/// indices of the non-empty frames. Every segment has text and frames, and
/// its frame count is the number of its confidence frames.
pub proof fn frame_segments_partition(frames: Seq<FrameText>)
    requires
        frames.len() <= usize::MAX,
    ensures
        all_confidence_frames(frame_segments(frames)) == text_frames(frames, frames.len()),
        forall|i: int|
            0 <= i < frame_segments(frames).len() ==> well_formed_segment(
                frames,
                #[trigger] frame_segments(frames)[i],
            ),
{
    lemma_scan_inv(frames, frames.len());
    let st = scan(frames, frames.len());
    if st.text.len() > 0 {
        let end = if st.gap > 0 {
            st.gap
        } else {
            st.end
        };
        let d = st.done.push(closed_segment(st, end));
        lemma_all_confidence_frames_push(st.done, closed_segment(st, end));
        assert(well_formed_segment(frames, closed_segment(st, end)));
        assert forall|i: int| 0 <= i < d.len() implies well_formed_segment(frames, #[trigger] d[i]) by {
            if i < st.done.len() {
                assert(d[i] == st.done[i]);
            }
        }
    } else {
        assert(all_confidence_frames(st.done) + st.confs =~= all_confidence_frames(st.done));
    }
}

/// Frame time as grouping reads it (modulo 2^32).
pub open spec fn frame_time(frames: Seq<FrameText>, i: int) -> u32 {
    frames[i].timestamp as u32
}

/// Frame times (modulo 2^32) never decrease.
pub open spec fn frames_in_time_order(frames: Seq<FrameText>) -> bool {
    forall|i: int, j: int|
        0 <= i <= j < frames.len() ==> frame_time(frames, i) <= frame_time(frames, j)
}

/// Segments each start no later than they end, and each ends no later
/// than the next one starts.
pub open spec fn segments_in_time_order(segs: Seq<SegView>) -> bool {
    &&& forall|j: int| 0 <= j < segs.len() ==> (#[trigger] segs[j]).start <= segs[j].end
    &&& forall|j: int| 0 <= j < segs.len() - 1 ==> (#[trigger] segs[j]).end <= segs[j + 1].start
}

spec fn time_bound(frames: Seq<FrameText>, n: nat) -> u32 {
    if n == 0 {
        0
    } else {
        frame_time(frames, n - 1)
    }
}

spec fn time_inv(frames: Seq<FrameText>, n: nat, st: ScanState) -> bool {
    &&& st.gap > 0 ==> st.text.len() > 0
    &&& segments_in_time_order(st.done)
    &&& st.done.len() > 0 ==> st.done.last().end <= time_bound(frames, n)
    &&& st.text.len() > 0 ==> {
        &&& st.start <= st.end <= time_bound(frames, n)
        &&& st.done.len() > 0 ==> st.done.last().end <= st.start
        &&& st.gap > 0 ==> st.end <= st.gap <= time_bound(frames, n)
    }
}

proof fn lemma_time_order_push(segs: Seq<SegView>, s: SegView)
    requires
        segments_in_time_order(segs),
        s.start <= s.end,
        segs.len() > 0 ==> segs.last().end <= s.start,
    ensures
        segments_in_time_order(segs.push(s)),
{
    let t = segs.push(s);
    assert forall|j: int| 0 <= j < t.len() implies (#[trigger] t[j]).start <= t[j].end by {
        if j < segs.len() {
            assert(t[j] == segs[j]);
        }
    }
    assert forall|j: int| 0 <= j < t.len() - 1 implies (#[trigger] t[j]).end <= t[j + 1].start by {
        assert(t[j] == segs[j]);
        if j + 1 < segs.len() {
            assert(t[j + 1] == segs[j + 1]);
        }
    }
}

proof fn lemma_time_step(frames: Seq<FrameText>, m: nat, st: ScanState)
    requires
        m < frames.len() <= usize::MAX,
        frames_in_time_order(frames),
        time_inv(frames, m, st),
    ensures
        time_inv(
            frames,
            m + 1,
            scan_step(st, m as usize, frames[m as int].text@, frames[m as int].timestamp as u32),
        ),
{
    let text = frames[m as int].text@;
    let ts = frames[m as int].timestamp as u32;
    assert(ts == frame_time(frames, m as int));
    assert(time_bound(frames, m) <= ts) by {
        if m > 0 {
            assert(frame_time(frames, m - 1) <= frame_time(frames, m as int));
        }
    }
    assert(time_bound(frames, m + 1) == ts);
    if text.len() == 0 {
    } else if st.gap > 0 && ts.saturating_sub(st.gap) <= MAX_EMPTY_GAP_MS && similar_text(
        text,
        st.text,
    ) {
    } else {
        let st1 = if st.gap > 0 {
            ScanState {
                done: st.done.push(closed_segment(st, st.gap)),
                text: Seq::empty(),
                start: 0,
                gap: 0,
                confs: Seq::empty(),
                details: Seq::empty(),
                ..st
            }
        } else {
            st
        };
        if st.gap > 0 {
            lemma_time_order_push(st.done, closed_segment(st, st.gap));
        }
        let too_far = st1.text.len() > 0 && ts.saturating_sub(st1.end) > MAX_SAME_TEXT_GAP_MS;
        if st1.text.len() == 0 || too_far || normalized(text) != normalized(st1.text) {
            if st1.text.len() > 0 {
                lemma_time_order_push(st1.done, closed_segment(st1, st1.end));
            }
        }
    }
}

proof fn lemma_time_inv(frames: Seq<FrameText>, n: nat)
    requires
        n <= frames.len() <= usize::MAX,
        frames_in_time_order(frames),
    ensures
        time_inv(frames, n, scan(frames, n)),
    decreases n,
{
    if n > 0 {
        let m = (n - 1) as nat;
        lemma_time_inv(frames, m);
        lemma_time_step(frames, m, scan(frames, m));
    }
}

/// For frames in time order, segments come out in time order: each starts
/// no later than it ends and ends no later than the next one starts.
pub proof fn frame_segments_time_order(frames: Seq<FrameText>)
    requires
        frames.len() <= usize::MAX,
        frames_in_time_order(frames),
    ensures
        segments_in_time_order(frame_segments(frames)),
{
    lemma_time_inv(frames, frames.len());
    let st = scan(frames, frames.len());
    if st.text.len() > 0 {
        let end = if st.gap > 0 {
            st.gap
        } else {
            st.end
        };
        lemma_time_order_push(st.done, closed_segment(st, end));
    }
}

/// Why a segment ends before the segment starting at frame `f`: that frame's
/// text differs from the segment's once whitespace is removed, or it comes
/// more than [`MAX_SAME_TEXT_GAP_MS`] after the segment's end, or an empty
/// frame lies between the segment's last frame and it.
pub open spec fn split_reason(frames: Seq<FrameText>, s: SegView, f: int) -> bool {
    ||| normalized(frames[f].text@) != normalized(s.text)
    ||| frame_time(frames, f).saturating_sub(s.end) > MAX_SAME_TEXT_GAP_MS
    ||| exists|e: int| s.confs.last() < e < f && (#[trigger] frames[e]).text@.len() == 0
}

spec fn split_inv(frames: Seq<FrameText>, n: nat, st: ScanState) -> bool {
    &&& st.text.len() > 0 ==> st.confs.len() > 0 && st.confs.last() < n && st.first < n
    &&& st.text.len() == 0 ==> st.done.len() == 0 && st.gap == 0
    &&& st.gap > 0 ==> exists|e: int|
        st.confs.last() < e < n && (#[trigger] frames[e]).text@.len() == 0
    &&& forall|j: int|
        0 <= j < st.done.len() - 1 ==> split_reason(
            frames,
            #[trigger] st.done[j],
            st.done[j + 1].first as int,
        )
    &&& st.text.len() > 0 && st.done.len() > 0 ==> split_reason(
        frames,
        st.done.last(),
        st.first as int,
    )
}

proof fn lemma_split_done_push(frames: Seq<FrameText>, done: Seq<SegView>, s: SegView)
    requires
        forall|j: int|
            0 <= j < done.len() - 1 ==> split_reason(frames, #[trigger] done[j], done[j + 1].first as int),
        done.len() > 0 ==> split_reason(frames, done.last(), s.first as int),
    ensures
        forall|j: int|
            0 <= j < done.push(s).len() - 1 ==> split_reason(
                frames,
                #[trigger] done.push(s)[j],
                done.push(s)[j + 1].first as int,
            ),
{
    let d = done.push(s);
    assert forall|j: int| 0 <= j < d.len() - 1 implies split_reason(
        frames,
        #[trigger] d[j],
        d[j + 1].first as int,
    ) by {
        assert(d[j] == done[j]);
        if j + 1 < done.len() {
            assert(d[j + 1] == done[j + 1]);
        }
    }
}

proof fn lemma_split_step(frames: Seq<FrameText>, m: nat, st: ScanState)
    requires
        m < frames.len() <= usize::MAX,
        split_inv(frames, m, st),
    ensures
        split_inv(
            frames,
            m + 1,
            scan_step(st, m as usize, frames[m as int].text@, frames[m as int].timestamp as u32),
        ),
{
    let k = m as usize;
    let text = frames[m as int].text@;
    let ts = frames[m as int].timestamp as u32;
    assert(ts == frame_time(frames, m as int));
    if text.len() == 0 {
        if st.text.len() > 0 && st.gap == 0 {
            assert(frames[m as int].text@.len() == 0);
        }
        if st.gap > 0 {
            let e = choose|e: int| st.confs.last() < e < m && (#[trigger] frames[e]).text@.len() == 0;
            assert(st.confs.last() < e < m + 1 && frames[e].text@.len() == 0);
        }
    } else if st.gap > 0 && ts.saturating_sub(st.gap) <= MAX_EMPTY_GAP_MS && similar_text(
        text,
        st.text,
    ) {
        assert(st.confs.push(k).last() == k);
    } else {
        let st1 = if st.gap > 0 {
            ScanState {
                done: st.done.push(closed_segment(st, st.gap)),
                text: Seq::empty(),
                start: 0,
                gap: 0,
                confs: Seq::empty(),
                details: Seq::empty(),
                ..st
            }
        } else {
            st
        };
        if st.gap > 0 {
            lemma_split_done_push(frames, st.done, closed_segment(st, st.gap));
            let e = choose|e: int| st.confs.last() < e < m && (#[trigger] frames[e]).text@.len() == 0;
            assert(split_reason(frames, closed_segment(st, st.gap), k as int));
        }
        let too_far = st1.text.len() > 0 && ts.saturating_sub(st1.end) > MAX_SAME_TEXT_GAP_MS;
        if st1.text.len() == 0 || too_far || normalized(text) != normalized(st1.text) {
            if st1.text.len() > 0 {
                lemma_split_done_push(frames, st1.done, closed_segment(st1, st1.end));
                assert(split_reason(frames, closed_segment(st1, st1.end), k as int));
            }
            assert(seq![k].last() == k);
        } else {
            assert(st1.confs.push(k).last() == k);
        }
    }
}

proof fn lemma_split_inv(frames: Seq<FrameText>, n: nat)
    requires
        n <= frames.len() <= usize::MAX,
    ensures
        split_inv(frames, n, scan(frames, n)),
    decreases n,
{
    if n > 0 {
        let m = (n - 1) as nat;
        lemma_split_inv(frames, m);
        lemma_split_step(frames, m, scan(frames, m));
    }
}

/// Neighbouring segments are split for a reason: the next segment's first
/// frame has different text once whitespace is removed, or comes more than
/// [`MAX_SAME_TEXT_GAP_MS`] after the segment's end, or an empty frame lies
/// between the segment's last frame and it.
pub proof fn frame_segments_split(frames: Seq<FrameText>)
    requires
        frames.len() <= usize::MAX,
    ensures
        forall|j: int|
            0 <= j < frame_segments(frames).len() - 1 ==> split_reason(
                frames,
                #[trigger] frame_segments(frames)[j],
                frame_segments(frames)[j + 1].first as int,
            ),
{
    lemma_split_inv(frames, frames.len());
    let st = scan(frames, frames.len());
    if st.text.len() > 0 {
        let end = if st.gap > 0 {
            st.gap
        } else {
            st.end
        };
        lemma_split_done_push(frames, st.done, closed_segment(st, end));
    }
}

/// Frames `p` and `q` bound a gap opened at time `g`: `g` is the time of the
/// first frame after `p` (and before `q`) whose time is not zero, and 0 when
/// there is none.
pub open spec fn gap_between(frames: Seq<FrameText>, p: int, q: int, g: u32) -> bool {
    ||| g == 0 && forall|e: int| p < e < q ==> frame_time(frames, e) == 0
    ||| g > 0 && exists|e: int|
        p < e < q && frame_time(frames, e) == g && forall|d: int|
            p < d < e ==> frame_time(frames, d) == 0
}

/// Frame `q` continues a segment with text `t` whose previous frame is
/// `p`: only empty frames lie between them, and either no gap opened and
/// `q`'s text equals `t` once whitespace is removed, at most
/// [`MAX_SAME_TEXT_GAP_MS`] after `p`, or a gap opened and `q`'s text is
/// similar to `t`, at most [`MAX_EMPTY_GAP_MS`] after the gap began.
pub open spec fn continues(frames: Seq<FrameText>, t: Seq<char>, p: int, q: int) -> bool {
    &&& p < q
    &&& frames[q].text@.len() > 0
    &&& forall|e: int| p < e < q ==> (#[trigger] frames[e]).text@.len() == 0
    &&& exists|g: u32|
        #![trigger gap_between(frames, p, q, g)]
        gap_between(frames, p, q, g) && if g == 0 {
            normalized(frames[q].text@) == normalized(t) && frame_time(frames, q).saturating_sub(
                frame_time(frames, p),
            ) <= MAX_SAME_TEXT_GAP_MS
        } else {
            similar_text(frames[q].text@, t) && frame_time(frames, q).saturating_sub(g)
                <= MAX_EMPTY_GAP_MS
        }
}

/// Each of the frames `confs` after the first continues the segment from
/// the one before it.
pub open spec fn confs_continue(frames: Seq<FrameText>, t: Seq<char>, confs: Seq<usize>) -> bool {
    forall|i: int|
        0 <= i < confs.len() - 1 ==> continues(frames, t, #[trigger] confs[i] as int, confs[i + 1] as int)
}

proof fn lemma_confs_continue_push(frames: Seq<FrameText>, t: Seq<char>, confs: Seq<usize>, q: usize)
    requires
        confs.len() > 0,
        confs_continue(frames, t, confs),
        continues(frames, t, confs.last() as int, q as int),
    ensures
        confs_continue(frames, t, confs.push(q)),
{
    let c = confs.push(q);
    assert forall|i: int| 0 <= i < c.len() - 1 implies continues(
        frames,
        t,
        #[trigger] c[i] as int,
        c[i + 1] as int,
    ) by {
        assert(c[i] == confs[i]);
        if i + 1 < confs.len() {
            assert(c[i + 1] == confs[i + 1]);
        }
    }
}

spec fn continue_inv(frames: Seq<FrameText>, n: nat, st: ScanState) -> bool {
    &&& st.gap > 0 ==> st.text.len() > 0
    &&& st.text.len() > 0 ==> {
        &&& st.confs.len() > 0
        &&& st.confs.last() < n
        &&& st.end == frame_time(frames, st.confs.last() as int)
        &&& confs_continue(frames, st.text, st.confs)
        &&& gap_between(frames, st.confs.last() as int, n as int, st.gap)
        &&& forall|e: int| st.confs.last() < e < n ==> (#[trigger] frames[e]).text@.len() == 0
    }
    &&& forall|j: int| 0 <= j < st.done.len() ==> confs_continue(frames, (#[trigger] st.done[j]).text, st.done[j].confs)
}

proof fn lemma_continue_done_push(frames: Seq<FrameText>, done: Seq<SegView>, s: SegView)
    requires
        forall|j: int| 0 <= j < done.len() ==> confs_continue(frames, (#[trigger] done[j]).text, done[j].confs),
        confs_continue(frames, s.text, s.confs),
    ensures
        forall|j: int| 0 <= j < done.push(s).len() ==> confs_continue(
            frames,
            (#[trigger] done.push(s)[j]).text,
            done.push(s)[j].confs,
        ),
{
    assert forall|j: int| 0 <= j < done.push(s).len() implies confs_continue(
        frames,
        (#[trigger] done.push(s)[j]).text,
        done.push(s)[j].confs,
    ) by {
        if j < done.len() {
            assert(done.push(s)[j] == done[j]);
        }
    }
}

proof fn lemma_continue_step(frames: Seq<FrameText>, m: nat, st: ScanState)
    requires
        m < frames.len() <= usize::MAX,
        continue_inv(frames, m, st),
    ensures
        continue_inv(
            frames,
            m + 1,
            scan_step(st, m as usize, frames[m as int].text@, frames[m as int].timestamp as u32),
        ),
{
    let k = m as usize;
    let text = frames[m as int].text@;
    let ts = frames[m as int].timestamp as u32;
    assert(ts == frame_time(frames, m as int));
    if text.len() == 0 {
        if st.text.len() > 0 {
            let last = st.confs.last() as int;
            if st.gap == 0 {
                if ts > 0 {
                    assert(last < m < m + 1 && frame_time(frames, m as int) == ts && forall|d: int|
                        last < d < m ==> frame_time(frames, d) == 0);
                }
            } else {
                let e = choose|e: int|
                    last < e < m && frame_time(frames, e) == st.gap && forall|d: int|
                        last < d < e ==> frame_time(frames, d) == 0;
                assert(last < e < m + 1);
            }
        }
    } else if st.gap > 0 && ts.saturating_sub(st.gap) <= MAX_EMPTY_GAP_MS && similar_text(
        text,
        st.text,
    ) {
        let last = st.confs.last() as int;
        assert(gap_between(frames, last, k as int, st.gap));
        assert(continues(frames, st.text, last, k as int));
        lemma_confs_continue_push(frames, st.text, st.confs, k);
        assert(st.confs.push(k).last() == k);
        assert(gap_between(frames, k as int, (m + 1) as int, 0));
    } else {
        let st1 = if st.gap > 0 {
            ScanState {
                done: st.done.push(closed_segment(st, st.gap)),
                text: Seq::empty(),
                start: 0,
                gap: 0,
                confs: Seq::empty(),
                details: Seq::empty(),
                ..st
            }
        } else {
            st
        };
        if st.gap > 0 {
            lemma_continue_done_push(frames, st.done, closed_segment(st, st.gap));
        }
        let too_far = st1.text.len() > 0 && ts.saturating_sub(st1.end) > MAX_SAME_TEXT_GAP_MS;
        if st1.text.len() == 0 || too_far || normalized(text) != normalized(st1.text) {
            if st1.text.len() > 0 {
                lemma_continue_done_push(frames, st1.done, closed_segment(st1, st1.end));
            }
            assert(seq![k].last() == k);
            assert(gap_between(frames, k as int, (m + 1) as int, 0));
            assert(confs_continue(frames, text, seq![k]));
        } else {
            let last = st.confs.last() as int;
            assert(gap_between(frames, last, k as int, 0));
            assert(continues(frames, st.text, last, k as int));
            lemma_confs_continue_push(frames, st.text, st.confs, k);
            assert(st.confs.push(k).last() == k);
            assert(gap_between(frames, k as int, (m + 1) as int, 0));
        }
    }
}

proof fn lemma_continue_inv(frames: Seq<FrameText>, n: nat)
    requires
        n <= frames.len() <= usize::MAX,
    ensures
        continue_inv(frames, n, scan(frames, n)),
    decreases n,
{
    if n > 0 {
        let m = (n - 1) as nat;
        lemma_continue_inv(frames, m);
        lemma_continue_step(frames, m, scan(frames, m));
    }
}

/// Inside every segment, each frame whose confidence the segment counts,
/// after the first, continues the segment from the one before it
/// ([`continues`]): only empty frames lie between the two, and the later
/// one either has the segment's text (up to whitespace) within
/// [`MAX_SAME_TEXT_GAP_MS`], or bridges a gap with similar text within
/// [`MAX_EMPTY_GAP_MS`] of the gap's start.
pub proof fn frame_segments_continue(frames: Seq<FrameText>)
    requires
        frames.len() <= usize::MAX,
    ensures
        forall|j: int|
            0 <= j < frame_segments(frames).len() ==> confs_continue(
                frames,
                (#[trigger] frame_segments(frames)[j]).text,
                frame_segments(frames)[j].confs,
            ),
{
    lemma_continue_inv(frames, frames.len());
    let st = scan(frames, frames.len());
    if st.text.len() > 0 {
        let end = if st.gap > 0 {
            st.gap
        } else {
            st.end
        };
        lemma_continue_done_push(frames, st.done, closed_segment(st, end));
    }
}

/// Texts are similar the same way round: `similar_text(a, b)` exactly when
/// `similar_text(b, a)`; equal texts up to whitespace, and texts of which
/// either is a proper part of the other, are similar.
pub proof fn similar_text_symmetric(a: Seq<char>, b: Seq<char>)
    ensures
        similar_text(a, b) == similar_text(b, a),
        normalized(a) == normalized(b) ==> similar_text(a, b),
        substring_either_way(a, b) ==> similar_text(a, b) && similar_text(b, a),
{
}

/// Exactly why segment `s` ends before the segment starting at frame `f`,
/// with `p` the last frame whose confidence `s` counts. When no gap opened
/// between `p` and `f`, `f`'s text differs from the segment's once
/// whitespace is removed, or `f` comes more than [`MAX_SAME_TEXT_GAP_MS`]
/// after `p`. When a gap opened, the segment ends where the gap began, and
/// `f`'s text is neither equal to the segment's up to whitespace nor a
/// proper part of it nor contains it as a proper part, or `f` comes more
/// than [`MAX_EMPTY_GAP_MS`] after the gap began.
pub open spec fn split_exact(frames: Seq<FrameText>, s: SegView, f: int) -> bool {
    let p = s.confs.last() as int;
    let t = frames[f].text@;
    ||| gap_between(frames, p, f, 0) && (normalized(t) != normalized(s.text) || frame_time(
        frames,
        f,
    ).saturating_sub(frame_time(frames, p)) > MAX_SAME_TEXT_GAP_MS)
    ||| s.end > 0 && gap_between(frames, p, f, s.end) && (!(normalized(t) == normalized(s.text)
        || substring_either_way(t, s.text) || substring_either_way(s.text, t)) || frame_time(
        frames,
        f,
    ).saturating_sub(s.end) > MAX_EMPTY_GAP_MS)
}

spec fn exact_inv(frames: Seq<FrameText>, st: ScanState) -> bool {
    &&& st.text.len() == 0 ==> st.done.len() == 0
    &&& forall|j: int|
        0 <= j < st.done.len() - 1 ==> split_exact(
            frames,
            #[trigger] st.done[j],
            st.done[j + 1].first as int,
        )
    &&& st.text.len() > 0 && st.done.len() > 0 ==> split_exact(
        frames,
        st.done.last(),
        st.first as int,
    )
}

proof fn lemma_exact_done_push(frames: Seq<FrameText>, done: Seq<SegView>, s: SegView)
    requires
        forall|j: int|
            0 <= j < done.len() - 1 ==> split_exact(frames, #[trigger] done[j], done[j + 1].first as int),
        done.len() > 0 ==> split_exact(frames, done.last(), s.first as int),
    ensures
        forall|j: int|
            0 <= j < done.push(s).len() - 1 ==> split_exact(
                frames,
                #[trigger] done.push(s)[j],
                done.push(s)[j + 1].first as int,
            ),
{
    let d = done.push(s);
    assert forall|j: int| 0 <= j < d.len() - 1 implies split_exact(
        frames,
        #[trigger] d[j],
        d[j + 1].first as int,
    ) by {
        assert(d[j] == done[j]);
        if j + 1 < done.len() {
            assert(d[j + 1] == done[j + 1]);
        }
    }
}

proof fn lemma_exact_step(frames: Seq<FrameText>, m: nat, st: ScanState)
    requires
        m < frames.len() <= usize::MAX,
        continue_inv(frames, m, st),
        exact_inv(frames, st),
    ensures
        exact_inv(
            frames,
            scan_step(st, m as usize, frames[m as int].text@, frames[m as int].timestamp as u32),
        ),
{
    let k = m as usize;
    let text = frames[m as int].text@;
    let ts = frames[m as int].timestamp as u32;
    assert(ts == frame_time(frames, m as int));
    if text.len() == 0 {
    } else if st.gap > 0 && ts.saturating_sub(st.gap) <= MAX_EMPTY_GAP_MS && similar_text(
        text,
        st.text,
    ) {
    } else {
        if st.gap > 0 {
            let c = closed_segment(st, st.gap);
            assert(c.confs.last() == st.confs.last());
            assert(split_exact(frames, c, k as int));
            lemma_exact_done_push(frames, st.done, c);
        } else if st.text.len() > 0 {
            let too_far = ts.saturating_sub(st.end) > MAX_SAME_TEXT_GAP_MS;
            if too_far || normalized(text) != normalized(st.text) {
                let c = closed_segment(st, st.end);
                assert(c.confs.last() == st.confs.last());
                assert(split_exact(frames, c, k as int));
                lemma_exact_done_push(frames, st.done, c);
            }
        }
    }
}

proof fn lemma_exact_inv(frames: Seq<FrameText>, n: nat)
    requires
        n <= frames.len() <= usize::MAX,
    ensures
        exact_inv(frames, scan(frames, n)),
    decreases n,
{
    if n > 0 {
        let m = (n - 1) as nat;
        lemma_exact_inv(frames, m);
        lemma_continue_inv(frames, m);
        lemma_exact_step(frames, m, scan(frames, m));
    }
}

/// Neighbouring segments are split exactly for the reasons of
/// [`split_exact`]: in particular a frame after a short run of empty frames
/// whose text equals the segment's up to whitespace, or contains it or is
/// contained in it as a proper part, always continues the segment.
pub proof fn frame_segments_split_exact(frames: Seq<FrameText>)
    requires
        frames.len() <= usize::MAX,
    ensures
        forall|j: int|
            0 <= j < frame_segments(frames).len() - 1 ==> split_exact(
                frames,
                #[trigger] frame_segments(frames)[j],
                frame_segments(frames)[j + 1].first as int,
            ),
{
    lemma_exact_inv(frames, frames.len());
    let st = scan(frames, frames.len());
    if st.text.len() > 0 {
        let end = if st.gap > 0 {
            st.gap
        } else {
            st.end
        };
        lemma_exact_done_push(frames, st.done, closed_segment(st, end));
    }
}

fn similar(a: &String, b: &String) -> (r: bool)
    ensures
        r == similar_text(a@, b@),
{
    let na = normalize(a.as_str());
    let nb = normalize(b.as_str());
    na == nb || is_substring_of(a.as_str(), b.as_str()) || is_substring_of(b.as_str(), a.as_str())
}

fn close_segment(
    segments: &mut Vec<FrameSegment>,
    text: String,
    start: u32,
    end: u32,
    first: usize,
    confs: Vec<usize>,
    details: Vec<usize>,
)
    ensures
        seg_views(final(segments)@) == seg_views(old(segments)@).push(
            SegView {
                text: text@,
                start: start,
                end: end,
                frame_count: Some(confs@.len() as u32),
                first: first,
                confs: confs@,
                details: details@,
            },
        ),
{
    let count = confs.len() as u32;
    let seg = FrameSegment {
        base: SubtitleSegment { text: text, start_ms: start, end_ms: end },
        frame_count: Some(count),
        first_frame: first,
        confidence_frames: confs,
        detail_frames: details,
    };
    let ghost before = segments@;
    segments.push(seg);
    assert(seg_views(segments@) =~= seg_views(before).push(seg@));
}

/// Groups consecutive frames into subtitle segments.
///
/// A frame with the same text (ignoring whitespace) as the open segment
/// extends it, unless more than [`MAX_SAME_TEXT_GAP_MS`] passed since the
/// segment's last frame. Empty frames open a gap; a frame with similar text
/// within [`MAX_EMPTY_GAP_MS`] of the gap's start bridges it (its confidence
/// counts, it is not listed as a frame of the segment), otherwise the segment
/// ends where the gap began. Timestamps are taken modulo 2^32. The merge
/// options do not affect this step.
pub fn base_merge_frames(frames: &[FrameText], _args: &MergeFramesArgs) -> (r: Vec<FrameSegment>)
    ensures
        seg_views(r@) == frame_segments(frames@),
{
    let mut segments: Vec<FrameSegment> = Vec::new();
    let mut cur_text = String::new();
    let mut cur_start: u32 = 0;
    let mut cur_end: u32 = 0;
    let mut cur_first: usize = 0;
    let mut gap_start: u32 = 0;
    let mut confs: Vec<usize> = Vec::new();
    let mut details: Vec<usize> = Vec::new();
    let n = frames.len();
    let mut k: usize = 0;
    assert(seg_views(segments@) =~= Seq::<SegView>::empty());
    while k < n
        invariant
            n == frames@.len(),
            k <= n,
            scan(frames@, k as nat) == (ScanState {
                done: seg_views(segments@),
                text: cur_text@,
                start: cur_start,
                end: cur_end,
                first: cur_first,
                gap: gap_start,
                confs: confs@,
                details: details@,
            }),
        decreases n - k,
    {
        let f = &frames[k];
        let ts = #[verifier::truncate] (f.timestamp as u32);
        if f.text.as_str().is_empty() {
            if !cur_text.as_str().is_empty() && gap_start == 0 {
                gap_start = ts;
            }
            k = k + 1;
            continue;
        }
        if gap_start > 0 {
            let gap_ms = ts.saturating_sub(gap_start);
            if gap_ms <= MAX_EMPTY_GAP_MS && similar(&f.text, &cur_text) {
                confs.push(k);
                cur_end = ts;
                gap_start = 0;
                k = k + 1;
                continue;
            }
            close_segment(&mut segments, cur_text, cur_start, gap_start, cur_first, confs, details);
            cur_text = String::new();
            cur_start = 0;
            gap_start = 0;
            confs = Vec::new();
            details = Vec::new();
        }
        let too_far = !cur_text.as_str().is_empty() && ts.saturating_sub(cur_end)
            > MAX_SAME_TEXT_GAP_MS;
        let changed = if cur_text.as_str().is_empty() || too_far {
            true
        } else {
            let nf = normalize(f.text.as_str());
            let nc = normalize(cur_text.as_str());
            !(nf == nc)
        };
        if changed {
            if !cur_text.as_str().is_empty() {
                close_segment(&mut segments, cur_text, cur_start, cur_end, cur_first, confs, details);
            }
            cur_text = f.text.clone();
            cur_start = ts;
            cur_end = ts;
            cur_first = k;
            confs = Vec::new();
            confs.push(k);
            details = Vec::new();
            details.push(k);
        } else {
            confs.push(k);
            cur_end = ts;
            details.push(k);
        }
        k = k + 1;
    }
    if !cur_text.as_str().is_empty() {
        let last = if gap_start > 0 {
            gap_start
        } else {
            cur_end
        };
        close_segment(&mut segments, cur_text, cur_start, last, cur_first, confs, details);
    }
    segments
}

} // verus!
