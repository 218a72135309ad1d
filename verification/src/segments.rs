//! Merging of neighbouring subtitle segments: overlap de-duplication,
//! substring merging and joining of repeated texts.
//!
//! Each function reads the segments' text, time span and frame count, and
//! returns the merged segments together with the indices of the input
//! segments each one was made of, in order.

use vstd::prelude::*;
use crate::text::{
    levenshtein, normalized, substring_either_way, normalize, is_substring_of, edit_distance,
    char_count, edit_distance_zero_iff_equal,
};
use crate::types::SubtitleSegment;

verus! {

/// Segments at most this far apart (ms) count as touching.
pub const TOUCH_GAP_MS: u32 = 500;

/// Segments with the same text at most this far apart (ms) are joined.
pub const MAX_SAME_TEXT_JOIN_GAP_MS: u32 = 2000;

/// What segment merging reads of a segment.
#[derive(Clone, Debug)]
pub struct SegmentCore {
    pub base: SubtitleSegment,
    /// Number of frames the segment was made of; an absent count counts as one.
    pub frame_count: Option<u32>,
}

/// A merged segment and the input segments it was made of.
#[derive(Clone, Debug)]
pub struct MergedSegment {
    pub base: SubtitleSegment,
    pub frame_count: Option<u32>,
    /// Indices of the input segments merged into this one, in order.
    pub members: Vec<usize>,
    /// The input segment whose vertical range this one takes.
    pub y_source: usize,
}

/// Mathematical content of a [`MergedSegment`].
pub ghost struct MergedView {
    pub text: Seq<char>,
    pub start: u32,
    pub end: u32,
    pub frame_count: Option<u32>,
    pub members: Seq<usize>,
    pub y_source: usize,
}

impl View for MergedSegment {
    type V = MergedView;

    open spec fn view(&self) -> MergedView {
        MergedView {
            text: self.base.text@,
            start: self.base.start_ms,
            end: self.base.end_ms,
            frame_count: self.frame_count,
            members: self.members@,
            y_source: self.y_source,
        }
    }
}

pub open spec fn merged_views(v: Seq<MergedSegment>) -> Seq<MergedView> {
    v.map_values(|s: MergedSegment| s@)
}

/// How many frames a frame count stands for: an absent count is one.
pub open spec fn count_of(c: Option<u32>) -> nat {
    match c {
        Some(n) => n as nat,
        None => 1,
    }
}

/// Total frame count of the first `n` segments.
pub open spec fn total_count(segs: Seq<SegmentCore>, n: nat) -> nat
    decreases n,
{
    if n == 0 {
        0
    } else {
        total_count(segs, (n - 1) as nat) + count_of(segs[n - 1].frame_count)
    }
}

/// Total frame count of merged segments.
pub open spec fn merged_count(out: Seq<MergedView>) -> nat
    decreases out.len(),
{
    if out.len() == 0 {
        0
    } else {
        merged_count(out.drop_last()) + count_of(out.last().frame_count)
    }
}

/// The member lists of merged segments, one after the other.
pub open spec fn all_members(out: Seq<MergedView>) -> Seq<usize>
    decreases out.len(),
{
    if out.len() == 0 {
        Seq::empty()
    } else {
        all_members(out.drop_last()) + out.last().members
    }
}

/// The indices `0..n`.
pub open spec fn indices(n: nat) -> Seq<usize> {
    Seq::new(n, |i: int| i as usize)
}

/// Input segment `k` on its own.
pub open spec fn single(s: SegmentCore, k: usize) -> MergedView {
    MergedView {
        text: s.base.text@,
        start: s.base.start_ms,
        end: s.base.end_ms,
        frame_count: s.frame_count,
        members: seq![k],
        y_source: k,
    }
}

/// How the text of a merged segment is chosen.
#[derive(Clone, Copy, Debug, PartialEq, Eq, Structural)]
pub enum TextRule {
    /// The text of the first segment stays.
    KeepFirst,
    /// The text (and vertical range) of the segment joined last is taken.
    TakeLatest,
    /// The longer text (in characters) is kept, the earlier one on a tie;
    /// the time span covers both segments.
    Longer,
}

/// `v` with input segment `k` joined to it under `rule`.
pub open spec fn joined(v: MergedView, s: SegmentCore, k: usize, rule: TextRule) -> MergedView {
    let t = s.base.text@;
    MergedView {
        text: match rule {
            TextRule::KeepFirst => v.text,
            TextRule::TakeLatest => t,
            TextRule::Longer => if v.text.len() >= t.len() {
                v.text
            } else {
                t
            },
        },
        start: match rule {
            TextRule::Longer => if v.start <= s.base.start_ms {
                v.start
            } else {
                s.base.start_ms
            },
            _ => v.start,
        },
        end: match rule {
            TextRule::Longer => if v.end >= s.base.end_ms {
                v.end
            } else {
                s.base.end_ms
            },
            _ => s.base.end_ms,
        },
        frame_count: Some((count_of(v.frame_count) + count_of(s.frame_count)) as u32),
        members: v.members.push(k),
        y_source: match rule {
            TextRule::TakeLatest => k,
            _ => v.y_source,
        },
    }
}

/// Merging of the first `n` segments, one after the other: segment `k`
/// joins the last merged segment when `joins(last, segs[k], k)` holds, and
/// starts a new one otherwise.
pub open spec fn merge_scan(
    segs: Seq<SegmentCore>,
    n: nat,
    joins: spec_fn(MergedView, SegmentCore, nat) -> bool,
    rule: TextRule,
) -> Seq<MergedView>
    decreases n,
{
    if n == 0 {
        Seq::empty()
    } else {
        let out = merge_scan(segs, (n - 1) as nat, joins, rule);
        let k = (n - 1) as usize;
        if out.len() > 0 && joins(out.last(), segs[k as int], k as nat) {
            out.drop_last().push(joined(out.last(), segs[k as int], k, rule))
        } else {
            out.push(single(segs[k as int], k))
        }
    }
}

/// Whether joining `s` to `v` would add frame counts past `u32::MAX`.
pub open spec fn join_overflows(v: MergedView, s: SegmentCore) -> bool {
    count_of(v.frame_count) + count_of(s.frame_count) > u32::MAX
}

/// Whether some join among the first `n` segments adds frame counts past
/// `u32::MAX`.
pub open spec fn merge_overflows(
    segs: Seq<SegmentCore>,
    n: nat,
    joins: spec_fn(MergedView, SegmentCore, nat) -> bool,
    rule: TextRule,
) -> bool
    decreases n,
{
    if n == 0 {
        false
    } else {
        let out = merge_scan(segs, (n - 1) as nat, joins, rule);
        let k = (n - 1) as usize;
        ||| merge_overflows(segs, (n - 1) as nat, joins, rule)
        ||| out.len() > 0 && joins(out.last(), segs[k as int], k as nat) && join_overflows(
            out.last(),
            segs[k as int],
        )
    }
}

proof fn lemma_overflow_monotone(
    segs: Seq<SegmentCore>,
    m: nat,
    n: nat,
    joins: spec_fn(MergedView, SegmentCore, nat) -> bool,
    rule: TextRule,
)
    requires
        m <= n,
        merge_overflows(segs, m, joins, rule),
    ensures
        merge_overflows(segs, n, joins, rule),
    decreases n,
{
    if m < n {
        lemma_overflow_monotone(segs, m, (n - 1) as nat, joins, rule);
    }
}

proof fn lemma_merged_last(out: Seq<MergedView>, v: MergedView)
    ensures
        merged_count(out.push(v)) == merged_count(out) + count_of(v.frame_count),
        all_members(out.push(v)) == all_members(out) + v.members,
{
    assert(out.push(v).drop_last() == out);
}

/// Each input segment belongs to exactly one merged segment, in order, and
/// frame counts add up.
pub open spec fn merge_scan_inv(segs: Seq<SegmentCore>, n: nat, out: Seq<MergedView>) -> bool {
    &&& all_members(out) == indices(n)
    &&& merged_count(out) == total_count(segs, n)
    &&& forall|j: int| 0 <= j < out.len() ==> (#[trigger] out[j]).members.len() > 0
}

proof fn lemma_merge_scan_inv(
    segs: Seq<SegmentCore>,
    n: nat,
    joins: spec_fn(MergedView, SegmentCore, nat) -> bool,
    rule: TextRule,
)
    requires
        n <= segs.len() <= usize::MAX,
        !merge_overflows(segs, n, joins, rule),
    ensures
        merge_scan_inv(segs, n, merge_scan(segs, n, joins, rule)),
    decreases n,
{
    if n == 0 {
        assert(indices(0) =~= Seq::<usize>::empty());
        assert(merge_scan(segs, n, joins, rule) == Seq::<MergedView>::empty());
        assert(all_members(Seq::<MergedView>::empty()) == Seq::<usize>::empty());
    } else {
        let m = (n - 1) as nat;
        lemma_merge_scan_inv(segs, m, joins, rule);
        let out = merge_scan(segs, m, joins, rule);
        let k = m as usize;
        assert(indices(n) =~= indices(m).push(k));
        if out.len() > 0 && joins(out.last(), segs[k as int], k as nat) {
            let rest = out.drop_last();
            let last = out.last();
            assert(out == rest.push(last));
            lemma_merged_last(rest, last);
            let v = joined(last, segs[k as int], k, rule);
            lemma_merged_last(rest, v);
            assert(all_members(rest) + last.members.push(k) =~= (all_members(rest)
                + last.members).push(k));
            let out2 = rest.push(v);
            assert forall|j: int| 0 <= j < out2.len() implies (#[trigger] out2[j]).members.len()
                > 0 by {
                if j < rest.len() {
                    assert(out2[j] == out[j]);
                }
            }
            assert(out2 == merge_scan(segs, n, joins, rule));
            assert(all_members(out2) == indices(n));
            assert(merged_count(out2) == total_count(segs, n));
        } else {
            let v = single(segs[k as int], k);
            lemma_merged_last(out, v);
            let out2 = out.push(v);
            assert forall|j: int| 0 <= j < out2.len() implies (#[trigger] out2[j]).members.len()
                > 0 by {
                if j < out.len() {
                    assert(out2[j] == out[j]);
                }
            }
            assert(out2 == merge_scan(segs, n, joins, rule));
            assert(all_members(out2) == indices(n));
            assert(merged_count(out2) == total_count(segs, n));
        }
    }
}

/// Shape of a merged segment under `rule`, in terms of its members, which
/// are consecutive input segments.
pub open spec fn merged_shape(segs: Seq<SegmentCore>, v: MergedView, rule: TextRule) -> bool {
    let first = v.members[0] as int;
    let last = v.members.last() as int;
    &&& v.members.len() > 0
    &&& v.members.last() < segs.len()
    &&& forall|t: int| 0 <= t < v.members.len() ==> #[trigger] v.members[t] == first + t
    &&& match rule {
        TextRule::KeepFirst => {
            &&& v.text == segs[first].base.text@
            &&& v.start == segs[first].base.start_ms
            &&& v.end == segs[last].base.end_ms
            &&& v.y_source == first
        },
        TextRule::TakeLatest => {
            &&& v.text == segs[last].base.text@
            &&& v.start == segs[first].base.start_ms
            &&& v.end == segs[last].base.end_ms
            &&& v.y_source == last
        },
        TextRule::Longer => {
            &&& exists|i: int| 0 <= i < v.members.len() && v.text == segs[v.members[i] as int].base.text@
            &&& v.y_source == first
        },
    }
}

/// The merged segments cover the first `n` inputs as consecutive runs: the
/// first starts at input 0, each starts right after the previous one ends,
/// and the last ends at input `n - 1`.
pub open spec fn runs_cover(out: Seq<MergedView>, n: nat) -> bool {
    &&& out.len() <= n
    &&& (n == 0 <==> out.len() == 0)
    &&& out.len() > 0 ==> out[0].members[0] == 0 && out.last().members.last() == n - 1
    &&& forall|j: int|
        0 <= j < out.len() - 1 ==> #[trigger] out[j + 1].members[0] == out[j].members.last() + 1
}

/// No merged segment would have taken in the first segment of the next one.
pub open spec fn merge_maximal(
    segs: Seq<SegmentCore>,
    out: Seq<MergedView>,
    joins: spec_fn(MergedView, SegmentCore, nat) -> bool,
) -> bool {
    forall|j: int|
        0 <= j < out.len() - 1 ==> !joins(
            #[trigger] out[j],
            segs[out[j + 1].members[0] as int],
            out[j + 1].members[0] as nat,
        )
}

proof fn lemma_merge_scan_shape(
    segs: Seq<SegmentCore>,
    n: nat,
    joins: spec_fn(MergedView, SegmentCore, nat) -> bool,
    rule: TextRule,
)
    requires
        n <= segs.len() <= usize::MAX,
    ensures
        forall|j: int|
            0 <= j < merge_scan(segs, n, joins, rule).len() ==> merged_shape(
                segs,
                #[trigger] merge_scan(segs, n, joins, rule)[j],
                rule,
            ),
        runs_cover(merge_scan(segs, n, joins, rule), n),
        merge_maximal(segs, merge_scan(segs, n, joins, rule), joins),
    decreases n,
{
    if n > 0 {
        let m = (n - 1) as nat;
        lemma_merge_scan_shape(segs, m, joins, rule);
        let out = merge_scan(segs, m, joins, rule);
        let k = m as usize;
        let s = segs[k as int];
        if out.len() > 0 && joins(out.last(), s, k as nat) {
            let last = out.last();
            let v = joined(last, s, k, rule);
            let out2 = out.drop_last().push(v);
            assert(merged_shape(segs, out[out.len() - 1], rule));
            assert(v.members[0] == last.members[0]);
            assert(v.members.last() == k);
            assert forall|t: int| 0 <= t < v.members.len() implies #[trigger] v.members[t]
                == v.members[0] + t by {
                if t < last.members.len() {
                    assert(v.members[t] == last.members[t]);
                }
            }
            if rule is Longer {
                let i = choose|i: int|
                    0 <= i < last.members.len() && last.text == segs[last.members[i] as int].base.text@;
                if last.text.len() >= s.base.text@.len() {
                    assert(v.members[i] == last.members[i]);
                } else {
                    assert(v.members[last.members.len() as int] == k);
                }
            }
            assert(merged_shape(segs, v, rule));
            assert forall|j: int| 0 <= j < out2.len() implies merged_shape(
                segs,
                #[trigger] out2[j],
                rule,
            ) by {
                if j < out.len() - 1 {
                    assert(out2[j] == out[j]);
                }
            }
            assert forall|j: int| 0 <= j < out2.len() - 1 implies !joins(
                #[trigger] out2[j],
                segs[out2[j + 1].members[0] as int],
                out2[j + 1].members[0] as nat,
            ) by {
                assert(out2[j] == out[j]);
                assert(out2[j + 1].members[0] == out[j + 1].members[0]);
            }
            assert forall|j: int| 0 <= j < out2.len() - 1 implies #[trigger] out2[j + 1].members[0]
                == out2[j].members.last() + 1 by {
                assert(out2[j] == out[j]);
                assert(out2[j + 1].members[0] == out[j + 1].members[0]);
            }
            assert(out2[0].members[0] == out[0].members[0]);
        } else {
            let v = single(s, k);
            let out2 = out.push(v);
            assert(v.members =~= seq![k]);
            assert(merged_shape(segs, v, rule));
            assert forall|j: int| 0 <= j < out2.len() implies merged_shape(
                segs,
                #[trigger] out2[j],
                rule,
            ) by {
                if j < out.len() {
                    assert(out2[j] == out[j]);
                }
            }
            assert forall|j: int| 0 <= j < out2.len() - 1 implies !joins(
                #[trigger] out2[j],
                segs[out2[j + 1].members[0] as int],
                out2[j + 1].members[0] as nat,
            ) by {
                assert(out2[j] == out[j]);
                if j < out.len() - 1 {
                    assert(out2[j + 1] == out[j + 1]);
                }
            }
            assert forall|j: int| 0 <= j < out2.len() - 1 implies #[trigger] out2[j + 1].members[0]
                == out2[j].members.last() + 1 by {
                assert(out2[j] == out[j]);
                if j < out.len() - 1 {
                    assert(out2[j + 1] == out[j + 1]);
                }
            }
            if out.len() > 0 {
                assert(out2[0] == out[0]);
            }
        }
    }
}

/// Segment merging, whatever the joining test, when no frame-count sum
/// overflows: every input segment belongs to exactly one merged segment, in
/// order (the member lists, one after the other, are `0..n`, and each is a
/// run of consecutive inputs); there are at most as many merged segments as
/// inputs; the merged frame counts add up to the input's; every merged
/// segment has the shape its text rule gives it; and no merged segment
/// would have taken in the first member of the next one.
pub proof fn merge_scan_laws(
    segs: Seq<SegmentCore>,
    joins: spec_fn(MergedView, SegmentCore, nat) -> bool,
    rule: TextRule,
)
    requires
        segs.len() <= usize::MAX,
        !merge_overflows(segs, segs.len(), joins, rule),
    ensures
        merge_scan_inv(segs, segs.len(), merge_scan(segs, segs.len(), joins, rule)),
        runs_cover(merge_scan(segs, segs.len(), joins, rule), segs.len()),
        forall|j: int|
            0 <= j < merge_scan(segs, segs.len(), joins, rule).len() ==> merged_shape(
                segs,
                #[trigger] merge_scan(segs, segs.len(), joins, rule)[j],
                rule,
            ),
        merge_maximal(segs, merge_scan(segs, segs.len(), joins, rule), joins),
{
    lemma_merge_scan_inv(segs, segs.len(), joins, rule);
    lemma_merge_scan_shape(segs, segs.len(), joins, rule);
}

/// The join test depends only on the pair of neighbouring inputs: whenever
/// a merged segment of the right shape ends with input `k - 1`, input `k`
/// joins it exactly when `pair(k)` holds.
pub open spec fn joins_by_neighbours(
    segs: Seq<SegmentCore>,
    joins: spec_fn(MergedView, SegmentCore, nat) -> bool,
    rule: TextRule,
    pair: spec_fn(int) -> bool,
) -> bool {
    forall|v: MergedView, k: int|
        0 < k < segs.len() && merged_shape(segs, v, rule) && v.members.last() == k - 1 ==> (
        #[trigger] joins(v, segs[k], k as nat) == pair(k))
}

/// Every member after the first of a merged segment satisfies `pair`; the
/// first member of every merged segment after the first does not.
pub open spec fn maximal_runs(out: Seq<MergedView>, pair: spec_fn(int) -> bool) -> bool {
    &&& forall|j: int, t: int|
        0 <= j < out.len() && 0 < t < out[j].members.len() ==> pair(
            #[trigger] out[j].members[t] as int,
        )
    &&& forall|j: int| 0 < j < out.len() ==> !pair((#[trigger] out[j]).members[0] as int)
}

proof fn lemma_maximal_runs(
    segs: Seq<SegmentCore>,
    n: nat,
    joins: spec_fn(MergedView, SegmentCore, nat) -> bool,
    rule: TextRule,
    pair: spec_fn(int) -> bool,
)
    requires
        n <= segs.len() <= usize::MAX,
        joins_by_neighbours(segs, joins, rule, pair),
    ensures
        maximal_runs(merge_scan(segs, n, joins, rule), pair),
    decreases n,
{
    if n > 0 {
        let m = (n - 1) as nat;
        lemma_maximal_runs(segs, m, joins, rule, pair);
        lemma_merge_scan_shape(segs, m, joins, rule);
        let out = merge_scan(segs, m, joins, rule);
        let k = m as usize;
        let s = segs[k as int];
        let out2 = merge_scan(segs, n, joins, rule);
        if out.len() > 0 {
            let last = out.last();
            assert(merged_shape(segs, out[out.len() - 1], rule));
            assert(joins(last, segs[k as int], k as nat) == pair(k as int));
        }
        if out.len() > 0 && joins(out.last(), s, k as nat) {
            let last = out.last();
            let v = joined(last, s, k, rule);
            assert(out2 == out.drop_last().push(v));
            assert forall|j: int, t: int|
                0 <= j < out2.len() && 0 < t < out2[j].members.len() implies pair(
                #[trigger] out2[j].members[t] as int,
            ) by {
                if j < out.len() - 1 {
                    assert(out2[j] == out[j]);
                } else if t < last.members.len() {
                    assert(out2[j].members[t] == last.members[t]);
                } else {
                    assert(out2[j].members[t] == k);
                }
            }
            assert forall|j: int| 0 < j < out2.len() implies !pair(
                (#[trigger] out2[j]).members[0] as int,
            ) by {
                if j < out.len() - 1 {
                    assert(out2[j] == out[j]);
                } else {
                    assert(out2[j].members[0] == last.members[0]);
                }
            }
        } else {
            let v = single(s, k);
            assert(out2 == out.push(v));
            assert(v.members =~= seq![k]);
            assert forall|j: int, t: int|
                0 <= j < out2.len() && 0 < t < out2[j].members.len() implies pair(
                #[trigger] out2[j].members[t] as int,
            ) by {
                if j < out.len() {
                    assert(out2[j] == out[j]);
                }
            }
            assert forall|j: int| 0 < j < out2.len() implies !pair(
                (#[trigger] out2[j]).members[0] as int,
            ) by {
                if j < out.len() {
                    assert(out2[j] == out[j]);
                }
            }
        }
    }
}

/// Every input on its own.
pub open spec fn singles(segs: Seq<SegmentCore>, n: nat) -> Seq<MergedView> {
    Seq::new(n, |k: int| single(segs[k], k as usize))
}

proof fn lemma_no_joins(
    segs: Seq<SegmentCore>,
    n: nat,
    joins: spec_fn(MergedView, SegmentCore, nat) -> bool,
    rule: TextRule,
    pair: spec_fn(int) -> bool,
)
    requires
        n <= segs.len() <= usize::MAX,
        joins_by_neighbours(segs, joins, rule, pair),
        forall|k: int| 0 < k < n ==> !#[trigger] pair(k),
    ensures
        merge_scan(segs, n, joins, rule) == singles(segs, n),
    decreases n,
{
    if n > 0 {
        let m = (n - 1) as nat;
        lemma_no_joins(segs, m, joins, rule, pair);
        lemma_merge_scan_shape(segs, m, joins, rule);
        let out = merge_scan(segs, m, joins, rule);
        let k = m as usize;
        if out.len() > 0 {
            assert(merged_shape(segs, out[out.len() - 1], rule));
            assert(joins(out.last(), segs[k as int], k as nat) == pair(k as int));
        }
        assert(singles(segs, n) =~= singles(segs, m).push(single(segs[k as int], k)));
    }
}

/// Whether segment `cur` joins `prev` when de-duplicating overlaps with
/// edit-distance threshold `max_edit`: the two overlap in time or lie at
/// most [`TOUCH_GAP_MS`] apart, their texts are at most `max_edit` edits
/// apart, and they are not two different words of at most two characters.
pub open spec fn dedup_joins(prev: MergedView, cur: SegmentCore, max_edit: u32) -> bool {
    let (ps, pe, cs, ce) = (prev.start, prev.end, cur.base.start_ms, cur.base.end_ms);
    let hi = if ps >= cs { ps } else { cs };
    let lo = if pe <= ce { pe } else { ce };
    let overlaps = ps < ce && cs < pe;
    let touching = hi.saturating_sub(lo) <= TOUCH_GAP_MS;
    let t = cur.base.text@;
    let both_short = prev.text.len() <= 2 && t.len() <= 2;
    let not_same_word = prev.text != t && !substring_either_way(prev.text, t);
    (overlaps || touching) && levenshtein(prev.text, t) <= max_edit && !(both_short
        && not_same_word)
}

/// Neighbouring input segments with the same text (up to whitespace) that
/// do not overlap in time, the second starting at most
/// [`MAX_SAME_TEXT_JOIN_GAP_MS`] after the first ends.
pub open spec fn same_text_neighbours(a: SegmentCore, b: SegmentCore) -> bool {
    &&& normalized(a.base.text@) == normalized(b.base.text@)
    &&& b.base.start_ms.saturating_sub(a.base.end_ms) <= MAX_SAME_TEXT_JOIN_GAP_MS
    &&& !(a.base.start_ms < b.base.end_ms && b.base.start_ms < a.base.end_ms)
}

/// Neighbouring input segments, the second one number `k`, whose vertical
/// ranges overlap (`y_overlaps[k]`) and of which one text is a proper
/// substring of the other.
pub open spec fn substring_neighbours(a: SegmentCore, b: SegmentCore, k: int, y_overlaps: Seq<
    bool,
>) -> bool {
    y_overlaps[k] && (substring_either_way(a.base.text@, b.base.text@) || substring_either_way(
        b.base.text@,
        a.base.text@,
    ))
}

/// The test by which a segment joins the one before it.
#[derive(Clone, Copy, Debug, PartialEq, Eq, Structural)]
pub enum JoinTest {
    /// [`dedup_joins`] with the given edit-distance threshold.
    Overlap(u32),
    /// Input `k` and input `k - 1` are [`same_text_neighbours`].
    SameText,
    /// `y_overlaps[k]`, and one of the texts of the merged segment and of
    /// input `k` is a proper substring of the other.
    Substring,
}

pub open spec fn join_rule(test: JoinTest, segs: Seq<SegmentCore>, y_overlaps: Seq<bool>) -> spec_fn(
    MergedView,
    SegmentCore,
    nat,
) -> bool {
    |prev: MergedView, cur: SegmentCore, k: nat|
        match test {
            JoinTest::Overlap(d) => dedup_joins(prev, cur, d),
            JoinTest::SameText => k > 0 && same_text_neighbours(segs[k - 1], cur),
            JoinTest::Substring => y_overlaps[k as int] && (substring_either_way(
                prev.text,
                cur.base.text@,
            ) || substring_either_way(cur.base.text@, prev.text)),
        }
}

/// De-duplication of `segs` with edit-distance threshold `max_edit`.
pub open spec fn dedup_scan(segs: Seq<SegmentCore>, max_edit: u32) -> Seq<MergedView> {
    merge_scan(segs, segs.len(), join_rule(JoinTest::Overlap(max_edit), segs, seq![]), TextRule::Longer)
}

/// Joining of repeated texts of `segs`.
pub open spec fn same_text_scan(segs: Seq<SegmentCore>) -> Seq<MergedView> {
    merge_scan(segs, segs.len(), join_rule(JoinTest::SameText, segs, seq![]), TextRule::KeepFirst)
}

/// Substring merging of `segs` with vertical-overlap flags `y`.
pub open spec fn substring_scan(segs: Seq<SegmentCore>, y: Seq<bool>) -> Seq<MergedView> {
    merge_scan(segs, segs.len(), join_rule(JoinTest::Substring, segs, y), TextRule::TakeLatest)
}

pub open spec fn same_text_pair(segs: Seq<SegmentCore>) -> spec_fn(int) -> bool {
    |k: int| same_text_neighbours(segs[k - 1], segs[k])
}

pub open spec fn substring_pair(segs: Seq<SegmentCore>, y: Seq<bool>) -> spec_fn(int) -> bool {
    |k: int| substring_neighbours(segs[k - 1], segs[k], k, y)
}

/// Joining repeated texts merges exactly the maximal runs of same-text
/// neighbours: the merged segments are runs of consecutive inputs covering
/// all of them, within a run every member after the first is a same-text
/// neighbour of the one before it, and the first member of every run after
/// the first is not.
pub proof fn merge_adjacent_same_text_runs(segs: Seq<SegmentCore>)
    requires
        segs.len() <= usize::MAX,
    ensures
        runs_cover(same_text_scan(segs), segs.len()),
        maximal_runs(same_text_scan(segs), same_text_pair(segs)),
{
    let joins = join_rule(JoinTest::SameText, segs, seq![]);
    assert(joins_by_neighbours(segs, joins, TextRule::KeepFirst, same_text_pair(segs)));
    lemma_maximal_runs(segs, segs.len(), joins, TextRule::KeepFirst, same_text_pair(segs));
    lemma_merge_scan_shape(segs, segs.len(), joins, TextRule::KeepFirst);
}

/// Substring merging merges exactly the maximal runs of neighbours with
/// overlapping vertical ranges of which one text is a proper substring of
/// the other; it makes at most as many segments as it is given, the first
/// keeps the first input's start, and where no neighbours overlap
/// vertically every segment stays as it is.
pub proof fn merge_substring_segments_runs(segs: Seq<SegmentCore>, y: Seq<bool>)
    requires
        segs.len() <= usize::MAX,
    ensures
        runs_cover(substring_scan(segs, y), segs.len()),
        maximal_runs(substring_scan(segs, y), substring_pair(segs, y)),
        substring_scan(segs, y).len() <= segs.len(),
        segs.len() > 0 ==> substring_scan(segs, y)[0].start == segs[0].base.start_ms,
        (forall|k: int| 0 < k < segs.len() ==> !y[k]) ==> substring_scan(segs, y) == singles(
            segs,
            segs.len(),
        ),
{
    let joins = join_rule(JoinTest::Substring, segs, y);
    let pair = substring_pair(segs, y);
    assert forall|v: MergedView, k: int|
        0 < k < segs.len() && merged_shape(segs, v, TextRule::TakeLatest) && v.members.last() == k
            - 1 implies (#[trigger] joins(v, segs[k], k as nat) == pair(k)) by {}
    lemma_maximal_runs(segs, segs.len(), joins, TextRule::TakeLatest, pair);
    lemma_merge_scan_shape(segs, segs.len(), joins, TextRule::TakeLatest);
    if segs.len() > 0 {
        assert(merged_shape(segs, substring_scan(segs, y)[0], TextRule::TakeLatest));
    }
    if forall|k: int| 0 < k < segs.len() ==> !y[k] {
        assert forall|k: int| 0 < k < segs.len() implies !#[trigger] pair(k) by {}
        lemma_no_joins(segs, segs.len(), joins, TextRule::TakeLatest, pair);
    }
}

/// Start and end times never decrease from one segment to the next.
pub open spec fn in_time_order(segs: Seq<SegmentCore>) -> bool {
    forall|i: int, j: int|
        0 <= i <= j < segs.len() ==> segs[i].base.start_ms <= segs[j].base.start_ms
            && segs[i].base.end_ms <= segs[j].base.end_ms
}

/// Segment `c` carries the text, span and frame count of merged segment `v`.
pub open spec fn core_matches(c: SegmentCore, v: MergedView) -> bool {
    &&& c.base.text@ == v.text
    &&& c.base.start_ms == v.start
    &&& c.base.end_ms == v.end
    &&& c.frame_count == v.frame_count
}

proof fn lemma_run_same_text(segs: Seq<SegmentCore>, v: MergedView, t: int)
    requires
        merged_shape(segs, v, TextRule::KeepFirst),
        0 <= t < v.members.len(),
        forall|u: int| 0 < u < v.members.len() ==> (same_text_pair(segs))(#[trigger] v.members[u] as int),
    ensures
        normalized(segs[v.members[t] as int].base.text@) == normalized(v.text),
    decreases t,
{
    if t > 0 {
        lemma_run_same_text(segs, v, t - 1);
        assert(v.members[t] == v.members[0] + t);
        assert(v.members[t - 1] == v.members[0] + t - 1);
        assert((same_text_pair(segs))(v.members[t] as int));
    } else {
        assert(v.members[0] == v.members[0] + 0);
    }
}

/// At the boundary between merged segments `out[j]` and `out[j + 1]`, the
/// inputs on either side (the last of `out[j]` and the first of
/// `out[j + 1]`) have the same text up to whitespace and overlap in time,
/// while `out[j]` starts no earlier than `out[j + 1]` ends. Joining
/// repeated texts kept those two inputs apart, and a second pass joins the
/// two merged segments.
pub open spec fn rejoins_at(segs: Seq<SegmentCore>, out: Seq<MergedView>, j: int) -> bool {
    let l = out[j].members.last() as int;
    let k = out[j + 1].members[0] as int;
    let f = out[j].members[0] as int;
    let e = out[j + 1].members.last() as int;
    &&& normalized(segs[l].base.text@) == normalized(segs[k].base.text@)
    &&& segs[l].base.start_ms < segs[k].base.end_ms
    &&& segs[k].base.start_ms < segs[l].base.end_ms
    &&& segs[f].base.start_ms >= segs[e].base.end_ms
}

proof fn lemma_second_pass_pair(
    segs: Seq<SegmentCore>,
    out: Seq<MergedView>,
    again: Seq<SegmentCore>,
    k: int,
)
    requires
        forall|j: int| 0 <= j < out.len() ==> merged_shape(segs, #[trigger] out[j], TextRule::KeepFirst),
        runs_cover(out, segs.len()),
        maximal_runs(out, same_text_pair(segs)),
        again.len() == out.len(),
        forall|j: int| 0 <= j < again.len() ==> core_matches(again[j], #[trigger] out[j]),
        0 < k < again.len(),
    ensures
        same_text_neighbours(again[k - 1], again[k]) <==> rejoins_at(segs, out, k - 1),
{
    let pair = same_text_pair(segs);
    let a = out[k - 1];
    let b = out[k];
    assert(merged_shape(segs, a, TextRule::KeepFirst));
    assert(merged_shape(segs, b, TextRule::KeepFirst));
    assert(out[k - 1 + 1].members[0] == out[k - 1].members.last() + 1);
    assert(!pair(out[k].members[0] as int));
    assert forall|u: int| 0 < u < a.members.len() implies (same_text_pair(segs))(
        #[trigger] a.members[u] as int,
    ) by {
        assert(pair(out[k - 1].members[u] as int));
    }
    lemma_run_same_text(segs, a, a.members.len() - 1);
    assert(a.members[a.members.len() - 1] == a.members.last());
    assert(b.members[0] == b.members[0] + 0);
    assert(core_matches(again[k - 1], out[k - 1]));
    assert(core_matches(again[k], out[k]));
}

/// Joining repeated texts twice is the same as once exactly when no
/// boundary between the merged segments rejoins ([`rejoins_at`]): then a
/// second pass over the merged segments leaves every one of them on its
/// own and unchanged. Segments in time order have no such boundary.
pub proof fn merge_adjacent_same_text_idempotent(segs: Seq<SegmentCore>, again: Seq<SegmentCore>)
    requires
        segs.len() <= usize::MAX,
        again.len() == same_text_scan(segs).len(),
        forall|j: int| 0 <= j < again.len() ==> core_matches(again[j], #[trigger] same_text_scan(segs)[j]),
    ensures
        (same_text_scan(again) == singles(again, again.len())) <==> !exists|j: int|
            0 <= j < again.len() - 1 && #[trigger] rejoins_at(segs, same_text_scan(segs), j),
        in_time_order(segs) ==> same_text_scan(again) == singles(again, again.len()),
{
    let out = same_text_scan(segs);
    let joins = join_rule(JoinTest::SameText, segs, seq![]);
    let pair = same_text_pair(segs);
    assert(joins_by_neighbours(segs, joins, TextRule::KeepFirst, pair));
    lemma_maximal_runs(segs, segs.len(), joins, TextRule::KeepFirst, pair);
    lemma_merge_scan_shape(segs, segs.len(), joins, TextRule::KeepFirst);
    let joins2 = join_rule(JoinTest::SameText, again, seq![]);
    let pair2 = same_text_pair(again);
    assert(joins_by_neighbours(again, joins2, TextRule::KeepFirst, pair2));
    assert forall|k: int| 0 < k < again.len() implies (#[trigger] pair2(k) <==> rejoins_at(
        segs,
        out,
        k - 1,
    )) by {
        lemma_second_pass_pair(segs, out, again, k);
    }
    if exists|j: int| 0 <= j < again.len() - 1 && #[trigger] rejoins_at(segs, out, j) {
        let j = choose|j: int| 0 <= j < again.len() - 1 && #[trigger] rejoins_at(segs, out, j);
        assert(pair2(j + 1));
        lemma_maximal_runs(again, again.len(), joins2, TextRule::KeepFirst, pair2);
        let out2 = same_text_scan(again);
        if out2 == singles(again, again.len()) {
            assert(out2[j + 1].members == seq![(j + 1) as usize]);
            assert(!pair2(out2[j + 1].members[0] as int));
        }
    } else {
        assert forall|k: int| 0 < k < again.len() implies !#[trigger] pair2(k) by {
            assert(!rejoins_at(segs, out, k - 1));
        }
        lemma_no_joins(again, again.len(), joins2, TextRule::KeepFirst, pair2);
    }
    if in_time_order(segs) {
        assert forall|j: int| 0 <= j < again.len() - 1 implies !#[trigger] rejoins_at(
            segs,
            out,
            j,
        ) by {
            let a = out[j];
            let b = out[j + 1];
            assert(merged_shape(segs, a, TextRule::KeepFirst));
            assert(merged_shape(segs, b, TextRule::KeepFirst));
            assert(a.members[a.members.len() - 1] == a.members[0] + a.members.len() - 1);
            assert(b.members[b.members.len() - 1] == b.members[0] + b.members.len() - 1);
            assert(out[j + 1].members[0] == out[j].members.last() + 1);
        }
    }
}

/// The span of `v` is the union of its members' spans: it starts at the
/// least start and ends at the greatest end among them.
pub open spec fn spans_members(segs: Seq<SegmentCore>, v: MergedView) -> bool {
    &&& forall|t: int|
        0 <= t < v.members.len() ==> v.start <= (#[trigger] segs[v.members[t] as int]).base.start_ms
            && segs[v.members[t] as int].base.end_ms <= v.end
    &&& exists|t: int| 0 <= t < v.members.len() && v.start == segs[v.members[t] as int].base.start_ms
    &&& exists|t: int| 0 <= t < v.members.len() && v.end == segs[v.members[t] as int].base.end_ms
}

/// The text of `v` is that of its first member with the most characters.
pub open spec fn first_longest_text(segs: Seq<SegmentCore>, v: MergedView) -> bool {
    exists|i: int|
        0 <= i < v.members.len() && v.text == segs[v.members[i] as int].base.text@ && (forall|t: int|
            0 <= t < v.members.len() ==> (#[trigger] segs[v.members[t] as int]).base.text@.len()
                <= v.text.len()) && (forall|t: int|
            0 <= t < i ==> (#[trigger] segs[v.members[t] as int]).base.text@.len() < v.text.len())
}

proof fn lemma_longer_spans(
    segs: Seq<SegmentCore>,
    n: nat,
    joins: spec_fn(MergedView, SegmentCore, nat) -> bool,
)
    requires
        n <= segs.len() <= usize::MAX,
    ensures
        forall|j: int|
            0 <= j < merge_scan(segs, n, joins, TextRule::Longer).len() ==> spans_members(
                segs,
                #[trigger] merge_scan(segs, n, joins, TextRule::Longer)[j],
            ) && first_longest_text(segs, merge_scan(segs, n, joins, TextRule::Longer)[j]),
    decreases n,
{
    if n > 0 {
        let m = (n - 1) as nat;
        lemma_longer_spans(segs, m, joins);
        let out = merge_scan(segs, m, joins, TextRule::Longer);
        let k = m as usize;
        let s = segs[k as int];
        let out2 = merge_scan(segs, n, joins, TextRule::Longer);
        if out.len() > 0 && joins(out.last(), s, k as nat) {
            let last = out.last();
            assert(spans_members(segs, out[out.len() - 1]));
            assert(first_longest_text(segs, out[out.len() - 1]));
            let v = joined(last, s, k, TextRule::Longer);
            let lm = last.members.len() as int;
            assert(v.members[lm] == k);
            assert forall|t: int| 0 <= t < lm implies v.members[t] == last.members[t] by {}
            assert forall|t: int| 0 <= t < v.members.len() implies v.start <= (
            #[trigger] segs[v.members[t] as int]).base.start_ms && segs[v.members[t] as int].base.end_ms
                <= v.end by {
                if t < lm {
                    assert(v.members[t] == last.members[t]);
                    assert(segs[last.members[t] as int].base.start_ms >= last.start);
                }
            }
            if last.start <= s.base.start_ms {
                let t = choose|t: int|
                    0 <= t < last.members.len() && last.start == segs[last.members[t] as int].base.start_ms;
                assert(v.members[t] == last.members[t]);
            } else {
                assert(v.start == segs[v.members[lm] as int].base.start_ms);
            }
            if last.end >= s.base.end_ms {
                let t = choose|t: int|
                    0 <= t < last.members.len() && last.end == segs[last.members[t] as int].base.end_ms;
                assert(v.members[t] == last.members[t]);
            } else {
                assert(v.end == segs[v.members[lm] as int].base.end_ms);
            }
            assert(spans_members(segs, v));
            let i = choose|i: int|
                0 <= i < last.members.len() && last.text == segs[last.members[i] as int].base.text@
                    && (forall|t: int|
                    0 <= t < last.members.len() ==> (#[trigger] segs[last.members[t] as int]).base.text@.len()
                        <= last.text.len()) && (forall|t: int|
                    0 <= t < i ==> (#[trigger] segs[last.members[t] as int]).base.text@.len()
                        < last.text.len());
            if last.text.len() >= s.base.text@.len() {
                assert(v.members[i] == last.members[i]);
                assert forall|t: int| 0 <= t < v.members.len() implies (#[trigger] segs[v.members[t] as int]).base.text@.len()
                    <= v.text.len() by {
                    if t < lm {
                        assert(v.members[t] == last.members[t]);
                    }
                }
                assert forall|t: int| 0 <= t < i implies (#[trigger] segs[v.members[t] as int]).base.text@.len()
                    < v.text.len() by {
                    assert(v.members[t] == last.members[t]);
                }
            } else {
                assert forall|t: int| 0 <= t < v.members.len() implies (#[trigger] segs[v.members[t] as int]).base.text@.len()
                    <= v.text.len() by {
                    if t < lm {
                        assert(v.members[t] == last.members[t]);
                    }
                }
                assert forall|t: int| 0 <= t < lm implies (#[trigger] segs[v.members[t] as int]).base.text@.len()
                    < v.text.len() by {
                    assert(v.members[t] == last.members[t]);
                }
                assert(v.text == segs[v.members[lm] as int].base.text@);
            }
            assert(first_longest_text(segs, v));
            assert(out2 == out.drop_last().push(v));
            assert forall|j: int| 0 <= j < out2.len() implies spans_members(segs, #[trigger] out2[j])
                && first_longest_text(segs, out2[j]) by {
                if j < out.len() - 1 {
                    assert(out2[j] == out[j]);
                }
            }
        } else {
            let v = single(s, k);
            assert(v.members =~= seq![k]);
            assert(v.members[0] == k);
            assert(spans_members(segs, v));
            assert(first_longest_text(segs, v));
            assert(out2 == out.push(v));
            assert forall|j: int| 0 <= j < out2.len() implies spans_members(segs, #[trigger] out2[j])
                && first_longest_text(segs, out2[j]) by {
                if j < out.len() {
                    assert(out2[j] == out[j]);
                }
            }
        }
    }
}

/// Two texts that are different words of at most two characters each:
/// neither equal nor one a proper part of the other.
pub open spec fn different_short_words(a: Seq<char>, b: Seq<char>) -> bool {
    &&& a.len() <= 2
    &&& b.len() <= 2
    &&& a != b
    &&& !substring_either_way(a, b)
}

/// Spans `[ps, pe]` and `[cs, ce]` overlap, or both are proper spans that
/// lie at most [`TOUCH_GAP_MS`] apart.
pub open spec fn spans_meet(ps: u32, pe: u32, cs: u32, ce: u32) -> bool {
    ||| ps < ce && cs < pe
    ||| ps <= pe && cs <= ce && cs <= pe + TOUCH_GAP_MS && ps <= ce + TOUCH_GAP_MS
}

/// De-duplication never joins a segment to one whose text is a different
/// word of at most two characters, whatever the times and the threshold.
pub proof fn dedup_keeps_short_words_apart(prev: MergedView, cur: SegmentCore, max_edit: u32)
    requires
        different_short_words(prev.text, cur.base.text@),
    ensures
        !dedup_joins(prev, cur, max_edit),
{
}

/// De-duplication always joins a segment to one with the same text whose
/// span it overlaps or touches, whatever the length of the text.
pub proof fn dedup_joins_equal_texts(prev: MergedView, cur: SegmentCore, max_edit: u32)
    requires
        prev.text == cur.base.text@,
        spans_meet(prev.start, prev.end, cur.base.start_ms, cur.base.end_ms),
    ensures
        dedup_joins(prev, cur, max_edit),
{
    edit_distance_zero_iff_equal(prev.text, cur.base.text@);
}

/// Each member of `v` after the first has an earlier member of which its
/// text is not a different short word.
pub open spec fn words_kept_apart(segs: Seq<SegmentCore>, v: MergedView) -> bool {
    forall|t: int|
        0 < t < v.members.len() ==> exists|s: int|
            0 <= s < t && !different_short_words(
                segs[v.members[s] as int].base.text@,
                segs[#[trigger] v.members[t] as int].base.text@,
            )
}

proof fn lemma_words_join(segs: Seq<SegmentCore>, last: MergedView, s: SegmentCore, k: usize, d: u32)
    requires
        words_kept_apart(segs, last),
        merged_shape(segs, last, TextRule::Longer),
        dedup_joins(last, s, d),
        s == segs[k as int],
    ensures
        words_kept_apart(segs, joined(last, s, k, TextRule::Longer)),
{
    let v = joined(last, s, k, TextRule::Longer);
    let lm = last.members.len() as int;
    let i = choose|i: int|
        0 <= i < last.members.len() && last.text == segs[last.members[i] as int].base.text@;
    assert forall|t: int| 0 < t < v.members.len() implies exists|q: int|
        0 <= q < t && !different_short_words(
            segs[v.members[q] as int].base.text@,
            segs[#[trigger] v.members[t] as int].base.text@,
        ) by {
        if t < lm {
            assert(v.members[t] == last.members[t]);
            let q = choose|q: int|
                0 <= q < t && !different_short_words(
                    segs[last.members[q] as int].base.text@,
                    segs[last.members[t] as int].base.text@,
                );
            assert(v.members[q] == last.members[q]);
        } else {
            assert(v.members[t] == k);
            assert(v.members[i] == last.members[i]);
            assert(!different_short_words(
                segs[v.members[i] as int].base.text@,
                segs[v.members[t] as int].base.text@,
            ));
        }
    }
}

proof fn lemma_dedup_words(segs: Seq<SegmentCore>, n: nat, d: u32)
    requires
        n <= segs.len() <= usize::MAX,
    ensures
        ({
            let out = merge_scan(segs, n, join_rule(JoinTest::Overlap(d), segs, seq![]), TextRule::Longer);
            forall|j: int| 0 <= j < out.len() ==> words_kept_apart(segs, #[trigger] out[j])
        }),
    decreases n,
{
    let joins = join_rule(JoinTest::Overlap(d), segs, seq![]);
    if n > 0 {
        let m = (n - 1) as nat;
        lemma_dedup_words(segs, m, d);
        lemma_merge_scan_shape(segs, m, joins, TextRule::Longer);
        let out = merge_scan(segs, m, joins, TextRule::Longer);
        let k = m as usize;
        let s = segs[k as int];
        let out2 = merge_scan(segs, n, joins, TextRule::Longer);
        if out.len() > 0 && joins(out.last(), s, k as nat) {
            let lj = out.len() - 1;
            assert(merged_shape(segs, out[lj], TextRule::Longer));
            assert(words_kept_apart(segs, out[lj]));
            lemma_words_join(segs, out.last(), s, k, d);
            let v = joined(out.last(), s, k, TextRule::Longer);
            assert(out2 == out.drop_last().push(v));
            assert forall|j: int| 0 <= j < out2.len() implies words_kept_apart(segs, #[trigger] out2[j]) by {
                if j < lj {
                    assert(out2[j] == out[j]);
                }
            }
        } else {
            let v = single(s, k);
            assert(v.members =~= seq![k]);
            assert(words_kept_apart(segs, v));
            assert(out2 == out.push(v));
            assert forall|j: int| 0 <= j < out2.len() implies words_kept_apart(segs, #[trigger] out2[j]) by {
                if j < out.len() {
                    assert(out2[j] == out[j]);
                }
            }
        }
    }
}

/// Laws of de-duplication, for every input:
/// - each merged segment spans its members exactly: it starts at their
///   least start and ends at their greatest end;
/// - its text is that of its first member with the most characters;
/// - each member after the first has an earlier member of which it is not
///   a different short word, so two different words of at most two
///   characters never end up merged on their own;
/// - a merged segment and the next one's first input never have the same
///   text while their spans meet (such inputs are always joined).
pub proof fn dedup_overlap_laws(segs: Seq<SegmentCore>, max_edit: u32)
    requires
        segs.len() <= usize::MAX,
    ensures
        forall|j: int|
            0 <= j < dedup_scan(segs, max_edit).len() ==> spans_members(
                segs,
                #[trigger] dedup_scan(segs, max_edit)[j],
            ) && first_longest_text(segs, dedup_scan(segs, max_edit)[j]),
        forall|j: int|
            0 <= j < dedup_scan(segs, max_edit).len() ==> words_kept_apart(
                segs,
                #[trigger] dedup_scan(segs, max_edit)[j],
            ),
        forall|j: int|
            0 <= j < dedup_scan(segs, max_edit).len() - 1 ==> !({
                let v = #[trigger] dedup_scan(segs, max_edit)[j];
                let f = segs[dedup_scan(segs, max_edit)[j + 1].members[0] as int];
                v.text == f.base.text@ && spans_meet(v.start, v.end, f.base.start_ms, f.base.end_ms)
            }),
{
    let joins = join_rule(JoinTest::Overlap(max_edit), segs, seq![]);
    lemma_longer_spans(segs, segs.len(), joins);
    lemma_dedup_words(segs, segs.len(), max_edit);
    lemma_merge_scan_shape(segs, segs.len(), joins, TextRule::Longer);
    let out = dedup_scan(segs, max_edit);
    assert forall|j: int| 0 <= j < out.len() - 1 implies !({
        let v = #[trigger] out[j];
        let f = segs[out[j + 1].members[0] as int];
        v.text == f.base.text@ && spans_meet(v.start, v.end, f.base.start_ms, f.base.end_ms)
    }) by {
        let v = out[j];
        let f = segs[out[j + 1].members[0] as int];
        assert(!joins(out[j], f, out[j + 1].members[0] as nat));
        if v.text == f.base.text@ && spans_meet(v.start, v.end, f.base.start_ms, f.base.end_ms) {
            dedup_joins_equal_texts(v, f, max_edit);
        }
    }
}

/// Texts of input segments are short enough to measure edit distances.
pub open spec fn measurable_texts(segs: Seq<SegmentCore>) -> bool {
    forall|i: int| 0 <= i < segs.len() ==> (#[trigger] segs[i]).base.text@.len() < u32::MAX
}

pub(crate) fn single_segment(s: &SegmentCore, k: usize) -> (r: MergedSegment)
    ensures
        r@ == single(*s, k),
{
    let mut members: Vec<usize> = Vec::new();
    members.push(k);
    let r = MergedSegment {
        base: SubtitleSegment {
            text: s.base.text.clone(),
            start_ms: s.base.start_ms,
            end_ms: s.base.end_ms,
        },
        frame_count: s.frame_count,
        members: members,
        y_source: k,
    };
    assert(r.members@ =~= seq![k]);
    r
}

fn join_segment(prev: MergedSegment, s: &SegmentCore, k: usize, rule: TextRule) -> (r:
    MergedSegment)
    requires
        count_of(prev.frame_count) + count_of(s.frame_count) <= u32::MAX,
    ensures
        r@ == joined(prev@, *s, k, rule),
{
    let count = prev.frame_count.unwrap_or(1) + s.frame_count.unwrap_or(1);
    let mut members = prev.members;
    members.push(k);
    let prev_text = prev.base.text;
    let (text, start, end, y_source) = match rule {
        TextRule::KeepFirst => (prev_text, prev.base.start_ms, s.base.end_ms, prev.y_source),
        TextRule::TakeLatest => (s.base.text.clone(), prev.base.start_ms, s.base.end_ms, k),
        TextRule::Longer => {
            let text = if char_count(prev_text.as_str()) >= char_count(s.base.text.as_str()) {
                prev_text
            } else {
                s.base.text.clone()
            };
            let start = if prev.base.start_ms <= s.base.start_ms {
                prev.base.start_ms
            } else {
                s.base.start_ms
            };
            let end = if prev.base.end_ms >= s.base.end_ms {
                prev.base.end_ms
            } else {
                s.base.end_ms
            };
            (text, start, end, prev.y_source)
        },
    };
    MergedSegment {
        base: SubtitleSegment { text, start_ms: start, end_ms: end },
        frame_count: Some(count),
        members,
        y_source,
    }
}

fn dedup_joins_exec(prev: &MergedSegment, cur: &SegmentCore, max_edit: u32) -> (r: bool)
    requires
        prev.base.text@.len() < u32::MAX,
        cur.base.text@.len() < u32::MAX,
    ensures
        r == dedup_joins(prev@, *cur, max_edit),
{
    let ps = prev.base.start_ms;
    let pe = prev.base.end_ms;
    let cs = cur.base.start_ms;
    let ce = cur.base.end_ms;
    let hi = if ps >= cs {
        ps
    } else {
        cs
    };
    let lo = if pe <= ce {
        pe
    } else {
        ce
    };
    let overlaps = ps < ce && cs < pe;
    let touching = hi.saturating_sub(lo) <= TOUCH_GAP_MS;
    let pt = prev.base.text.as_str();
    let ct = cur.base.text.as_str();
    let both_short = char_count(pt) <= 2 && char_count(ct) <= 2;
    let not_same_word = !(prev.base.text == cur.base.text) && !is_substring_of(pt, ct);
    (overlaps || touching) && edit_distance(pt, ct) <= max_edit && !(both_short && not_same_word)
}

fn same_text_neighbours_exec(a: &SegmentCore, b: &SegmentCore) -> (r: bool)
    ensures
        r == same_text_neighbours(*a, *b),
{
    let na = normalize(a.base.text.as_str());
    let nb = normalize(b.base.text.as_str());
    na == nb && b.base.start_ms.saturating_sub(a.base.end_ms) <= MAX_SAME_TEXT_JOIN_GAP_MS && !(
    a.base.start_ms < b.base.end_ms && b.base.start_ms < a.base.end_ms)
}

fn joins_exec(
    test: JoinTest,
    segments: &[SegmentCore],
    prev: &MergedSegment,
    k: usize,
    y_overlaps: &[bool],
) -> (r: bool)
    requires
        k < segments@.len(),
        test is Overlap ==> prev.base.text@.len() < u32::MAX && segments@[k as int].base.text@.len()
            < u32::MAX,
        test is Substring ==> k < y_overlaps@.len(),
    ensures
        r == (join_rule(test, segments@, y_overlaps@))(prev@, segments@[k as int], k as nat),
{
    let cur = &segments[k];
    match test {
        JoinTest::Overlap(d) => dedup_joins_exec(prev, cur, d),
        JoinTest::SameText => k > 0 && same_text_neighbours_exec(&segments[k - 1], cur),
        JoinTest::Substring => {
            let p = prev.base.text.as_str();
            let c = cur.base.text.as_str();
            y_overlaps[k] && (is_substring_of(p, c) || is_substring_of(c, p))
        },
    }
}

/// Merges the segments one after the other: each joins the last merged
/// segment when `test` says so, under `rule`; `None` when a join would add
/// frame counts past `u32::MAX`.
fn merge_by(segments: &[SegmentCore], test: JoinTest, rule: TextRule, y_overlaps: &[bool]) -> (r:
    Option<Vec<MergedSegment>>)
    requires
        test is Overlap ==> measurable_texts(segments@),
        test is Substring ==> y_overlaps@.len() == segments@.len(),
    ensures
        match r {
            None => merge_overflows(
                segments@,
                segments@.len(),
                join_rule(test, segments@, y_overlaps@),
                rule,
            ),
            Some(v) => !merge_overflows(
                segments@,
                segments@.len(),
                join_rule(test, segments@, y_overlaps@),
                rule,
            ) && merged_views(v@) == merge_scan(
                segments@,
                segments@.len(),
                join_rule(test, segments@, y_overlaps@),
                rule,
            ),
        },
{
    let n = segments.len();
    let mut out: Vec<MergedSegment> = Vec::new();
    let ghost joins = join_rule(test, segments@, y_overlaps@);
    assert(merged_views(out@) =~= Seq::<MergedView>::empty());
    let mut k: usize = 0;
    while k < n
        invariant
            n == segments@.len(),
            k <= n,
            test is Overlap ==> measurable_texts(segments@),
            test is Substring ==> y_overlaps@.len() == n,
            joins == join_rule(test, segments@, y_overlaps@),
            merged_views(out@) == merge_scan(segments@, k as nat, joins, rule),
            !merge_overflows(segments@, k as nat, joins, rule),
            test is Overlap ==> forall|j: int|
                0 <= j < out@.len() ==> (#[trigger] out@[j]).base.text@.len() < u32::MAX,
        decreases n - k,
    {
        let cur = &segments[k];
        let ghost before = merged_views(out@);
        let mut joins_last = false;
        if out.len() > 0 {
            let last = out.len() - 1;
            joins_last = joins_exec(test, segments, &out[last], k, y_overlaps);
        }
        if joins_last {
            let last = out.len() - 1;
            let a = out[last].frame_count.unwrap_or(1);
            let b = cur.frame_count.unwrap_or(1);
            if a > u32::MAX - b {
                proof {
                    assert(before.last() == out@[last as int]@);
                    assert(merge_overflows(segments@, (k + 1) as nat, joins, rule));
                    lemma_overflow_monotone(segments@, (k + 1) as nat, n as nat, joins, rule);
                }
                return None;
            }
            let prev = out.pop().unwrap();
            proof {
                assert(before == merged_views(out@).push(prev@));
            }
            let m = join_segment(prev, cur, k, rule);
            out.push(m);
            assert(merged_views(out@) =~= before.drop_last().push(m@));
        } else {
            let m = single_segment(cur, k);
            out.push(m);
            assert(merged_views(out@) =~= before.push(m@));
        }
        k = k + 1;
    }
    Some(out)
}

/// De-duplicates segments: a segment joins the previous (merged) one when
/// [`dedup_joins`] holds; the merged segment keeps the longer text, spans
/// both time ranges and adds up the frame counts. `None` exactly when a
/// sum of frame counts would exceed `u32::MAX`.
pub fn dedup_overlap(segments: &[SegmentCore], dedup_edit_distance: u32) -> (r: Option<
    Vec<MergedSegment>,
>)
    requires
        measurable_texts(segments@),
    ensures
        match r {
            None => merge_overflows(
                segments@,
                segments@.len(),
                join_rule(JoinTest::Overlap(dedup_edit_distance), segments@, seq![]),
                TextRule::Longer,
            ),
            Some(v) => merged_views(v@) == dedup_scan(segments@, dedup_edit_distance),
        },
{
    let none: Vec<bool> = Vec::new();
    let r = merge_by(segments, JoinTest::Overlap(dedup_edit_distance), TextRule::Longer, none.as_slice());
    assert(none@ == Seq::<bool>::empty());
    r
}

/// Joins runs of neighbouring segments whose texts are equal once
/// whitespace is removed, that do not overlap in time and of which each
/// starts at most [`MAX_SAME_TEXT_JOIN_GAP_MS`] after the one before it ends
/// ([`same_text_neighbours`]). A run becomes one segment with the first
/// one's text and start, the last one's end and the summed frame count.
/// `None` exactly when a sum of frame counts would exceed `u32::MAX`.
pub fn merge_adjacent_same_text(segments: &[SegmentCore]) -> (r: Option<Vec<MergedSegment>>)
    ensures
        match r {
            None => merge_overflows(
                segments@,
                segments@.len(),
                join_rule(JoinTest::SameText, segments@, seq![]),
                TextRule::KeepFirst,
            ),
            Some(v) => merged_views(v@) == same_text_scan(segments@),
        },
{
    let none: Vec<bool> = Vec::new();
    let r = merge_by(segments, JoinTest::SameText, TextRule::KeepFirst, none.as_slice());
    assert(none@ == Seq::<bool>::empty());
    r
}

/// Merges neighbouring segments of which one text is a proper substring of
/// the other and whose vertical ranges overlap (`y_overlaps[k]`: segment
/// `k`'s range overlaps that of segment `k - 1`). The merged segment takes
/// the text and vertical range of the segment joined last, keeps the first
/// start, takes the last end and sums the frame counts. `None` exactly when
/// a sum of frame counts would exceed `u32::MAX`.
pub fn merge_substring_segments(segments: &[SegmentCore], y_overlaps: &[bool]) -> (r: Option<
    Vec<MergedSegment>,
>)
    requires
        y_overlaps@.len() == segments@.len(),
    ensures
        match r {
            None => merge_overflows(
                segments@,
                segments@.len(),
                join_rule(JoinTest::Substring, segments@, y_overlaps@),
                TextRule::TakeLatest,
            ),
            Some(v) => merged_views(v@) == substring_scan(segments@, y_overlaps@),
        },
{
    merge_by(segments, JoinTest::Substring, TextRule::TakeLatest, y_overlaps)
}

} // verus!
