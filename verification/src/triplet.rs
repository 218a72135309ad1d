//! Removal of noise segments that sit between two segments of the same
//! subtitle (A-B-C becomes A+C).
//!
//! Whether a window of three segments is such a triplet is a judgement on
//! their confidences, made by the caller; this module holds the scan over
//! the segments and the folding of a window into one segment.

use vstd::prelude::*;
use crate::segments::{
    MergedSegment, MergedView, SegmentCore, merged_views, merged_count, all_members, count_of,
    singles, single, single_segment, indices, total_count,
};
use crate::types::SubtitleSegment;

verus! {

/// Three neighbouring segments folded into one: the first one's text, start
/// and vertical range, the last one's end, the summed frame count, and the
/// members of all three in order.
pub open spec fn folded(a: MergedView, b: MergedView, c: MergedView) -> MergedView {
    MergedView {
        text: a.text,
        start: a.start,
        end: c.end,
        frame_count: Some(
            (count_of(a.frame_count) + count_of(b.frame_count) + count_of(c.frame_count)) as u32,
        ),
        members: a.members + b.members + c.members,
        y_source: a.y_source,
    }
}

/// Whether folding the window at `pos` would add frame counts past
/// `u32::MAX`.
pub open spec fn fold_overflows(v: Seq<MergedView>, pos: int) -> bool {
    count_of(v[pos].frame_count) + count_of(v[pos + 1].frame_count) + count_of(
        v[pos + 2].frame_count,
    ) > u32::MAX
}

/// `v` with the window `v[pos..pos + 3]` folded into one segment.
pub open spec fn fold_at(v: Seq<MergedView>, pos: int) -> Seq<MergedView> {
    v.subrange(0, pos).push(folded(v[pos], v[pos + 1], v[pos + 2])) + v.subrange(
        pos + 3,
        v.len() as int,
    )
}

/// The scan position after a fold at `pos`: one step back, so that the
/// folded segment is looked at again as the middle of a window.
pub open spec fn back_one(pos: nat) -> nat {
    if pos > 0 {
        (pos - 1) as nat
    } else {
        0
    }
}

proof fn lemma_concat(a: Seq<MergedView>, b: Seq<MergedView>)
    ensures
        merged_count(a + b) == merged_count(a) + merged_count(b),
        all_members(a + b) == all_members(a) + all_members(b),
    decreases b.len(),
{
    if b.len() == 0 {
        assert(a + b =~= a);
        assert(all_members(a) + all_members(b) =~= all_members(a));
    } else {
        lemma_concat(a, b.drop_last());
        assert((a + b).drop_last() =~= a + b.drop_last());
        assert((a + b).last() == b.last());
        assert(all_members(a) + all_members(b.drop_last()) + b.last().members =~= all_members(a)
            + (all_members(b.drop_last()) + b.last().members));
    }
}

proof fn lemma_push(out: Seq<MergedView>, v: MergedView)
    ensures
        merged_count(out.push(v)) == merged_count(out) + count_of(v.frame_count),
        all_members(out.push(v)) == all_members(out) + v.members,
{
    assert(out.push(v).drop_last() =~= out);
}

proof fn lemma_three(x: MergedView, y: MergedView, z: MergedView)
    ensures
        merged_count(seq![x, y, z]) == count_of(x.frame_count) + count_of(y.frame_count)
            + count_of(z.frame_count),
        all_members(seq![x, y, z]) == x.members + y.members + z.members,
{
    let e = Seq::<MergedView>::empty();
    assert(merged_count(e) == 0);
    assert(all_members(e) == Seq::<usize>::empty());
    lemma_push(e, x);
    lemma_push(e.push(x), y);
    lemma_push(e.push(x).push(y), z);
    assert(e.push(x).push(y).push(z) =~= seq![x, y, z]);
    assert(Seq::<usize>::empty() + x.members =~= x.members);
}

/// Folding a window of three segments leaves two segments fewer, keeps the
/// total frame count, and keeps the member lists one after the other, so
/// that every input segment still belongs to exactly one segment, in order.
/// The segments before the window and after it are unchanged.
pub proof fn fold_keeps_frames_and_members(v: Seq<MergedView>, pos: int)
    requires
        0 <= pos,
        pos + 2 < v.len(),
        !fold_overflows(v, pos),
    ensures
        fold_at(v, pos).len() == v.len() - 2,
        merged_count(fold_at(v, pos)) == merged_count(v),
        all_members(fold_at(v, pos)) == all_members(v),
        forall|j: int| 0 <= j < pos ==> #[trigger] fold_at(v, pos)[j] == v[j],
        forall|j: int|
            pos < j < v.len() - 2 ==> #[trigger] fold_at(v, pos)[j] == v[j + 2],
        fold_at(v, pos)[pos].start == v[pos].start,
        fold_at(v, pos)[pos].end == v[pos + 2].end,
        count_of(fold_at(v, pos)[pos].frame_count) == count_of(v[pos].frame_count) + count_of(
            v[pos + 1].frame_count,
        ) + count_of(v[pos + 2].frame_count),
{
    let pre = v.subrange(0, pos);
    let mid = v.subrange(pos, pos + 3);
    let post = v.subrange(pos + 3, v.len() as int);
    let f = folded(v[pos], v[pos + 1], v[pos + 2]);
    assert(v =~= pre + mid + post);
    assert(mid =~= seq![v[pos], v[pos + 1], v[pos + 2]]);
    lemma_three(v[pos], v[pos + 1], v[pos + 2]);
    lemma_concat(pre, mid);
    lemma_concat(pre + mid, post);
    assert(pre.push(f) =~= pre + seq![f]);
    let e = Seq::<MergedView>::empty();
    assert(merged_count(e) == 0);
    assert(all_members(e) == Seq::<usize>::empty());
    lemma_push(e, f);
    assert(e.push(f) =~= seq![f]);
    assert(Seq::<usize>::empty() + f.members =~= f.members);
    lemma_concat(pre, seq![f]);
    lemma_concat(pre.push(f), post);
    assert(all_members(pre) + (v[pos].members + v[pos + 1].members + v[pos + 2].members)
        + all_members(post) =~= all_members(pre) + f.members + all_members(post));
}

/// The segments a triplet scan starts from: every input on its own.
pub fn triplet_start(segments: &[SegmentCore]) -> (r: Vec<MergedSegment>)
    ensures
        merged_views(r@) == singles(segments@, segments@.len()),
{
    let mut out: Vec<MergedSegment> = Vec::new();
    let mut k: usize = 0;
    while k < segments.len()
        invariant
            k <= segments@.len(),
            merged_views(out@) == singles(segments@, k as nat),
        decreases segments@.len() - k,
    {
        let m = single_segment(&segments[k], k);
        let ghost before = merged_views(out@);
        out.push(m);
        assert(merged_views(out@) =~= before.push(m@));
        assert(singles(segments@, (k + 1) as nat) =~= singles(segments@, k as nat).push(
            single(segments@[k as int], k),
        ));
        k = k + 1;
    }
    out
}

/// The start of a triplet scan covers every input once, in order, with the
/// inputs' total frame count.
pub proof fn triplet_start_covers(segs: Seq<SegmentCore>)
    requires
        segs.len() <= usize::MAX,
    ensures
        all_members(singles(segs, segs.len())) == indices(segs.len()),
        merged_count(singles(segs, segs.len())) == total_count(segs, segs.len()),
    decreases segs.len(),
{
    lemma_singles_cover(segs, segs.len());
}

proof fn lemma_singles_cover(segs: Seq<SegmentCore>, n: nat)
    requires
        n <= segs.len() <= usize::MAX,
    ensures
        all_members(singles(segs, n)) == indices(n),
        merged_count(singles(segs, n)) == total_count(segs, n),
    decreases n,
{
    if n == 0 {
        assert(singles(segs, 0) =~= Seq::<MergedView>::empty());
        assert(indices(0) =~= Seq::<usize>::empty());
    } else {
        let m = (n - 1) as nat;
        lemma_singles_cover(segs, m);
        let k = m as usize;
        assert(singles(segs, n).drop_last() =~= singles(segs, m));
        assert(singles(segs, n).last() == single(segs[k as int], k));
        assert(indices(n) =~= indices(m).push(k));
        assert(single(segs[k as int], k).members =~= seq![k]);
        assert(indices(m) + seq![k] =~= indices(m).push(k));
    }
}

/// One step of the triplet scan over `segs` at position `pos`, where
/// `noise` says whether `segs[pos..pos + 3]` is a triplet whose middle
/// segment is noise. Without noise the scan moves on by one. With noise
/// the three segments are folded into one ([`folded`]) and the scan moves
/// back by one, not below the start. `None` exactly when the fold would add
/// frame counts past `u32::MAX`. The scan ends when fewer than three
/// segments are left from the position on; `2 * len - pos` decreases at
/// every step.
pub fn triplet_step(segs: Vec<MergedSegment>, pos: usize, noise: bool) -> (r: Option<
    (Vec<MergedSegment>, usize),
>)
    requires
        pos + 2 < segs@.len(),
    ensures
        match r {
            None => noise && fold_overflows(merged_views(segs@), pos as int),
            Some((out, next)) => if noise {
                &&& !fold_overflows(merged_views(segs@), pos as int)
                &&& merged_views(out@) == fold_at(merged_views(segs@), pos as int)
                &&& next == back_one(pos as nat)
            } else {
                &&& out@ == segs@
                &&& next == pos + 1
            },
        },
        r matches Some((out, next)) ==> next <= out@.len() && 2 * out@.len() - next < 2
            * segs@.len() - pos,
{
    let n = segs.len();
    assert(pos + 2 < n);
    if !noise {
        return Some((segs, pos + 1));
    }
    let ghost v = merged_views(segs@);
    assert(v[pos as int] == segs@[pos as int]@);
    assert(v[pos + 1] == segs@[pos + 1]@);
    assert(v[pos + 2] == segs@[pos + 2]@);
    let ca = segs[pos].frame_count.unwrap_or(1);
    let cb = segs[pos + 1].frame_count.unwrap_or(1);
    let cc = segs[pos + 2].frame_count.unwrap_or(1);
    if ca > u32::MAX - cb || ca + cb > u32::MAX - cc {
        return None;
    }
    let mut out: Vec<MergedSegment> = Vec::new();
    let mut k: usize = 0;
    while k < pos
        invariant
            k <= pos,
            pos + 2 < segs@.len(),
            v == merged_views(segs@),
            merged_views(out@) == v.subrange(0, k as int),
        decreases pos - k,
    {
        let ghost before = merged_views(out@);
        out.push(copy_merged(&segs[k]));
        assert(merged_views(out@) =~= before.push(segs@[k as int]@));
        assert(v.subrange(0, k + 1) =~= v.subrange(0, k as int).push(v[k as int]));
        k = k + 1;
    }
    let a = &segs[pos];
    let b = &segs[pos + 1];
    let c = &segs[pos + 2];
    let mut members: Vec<usize> = Vec::new();
    append_members(&mut members, &a.members);
    append_members(&mut members, &b.members);
    append_members(&mut members, &c.members);
    let f = MergedSegment {
        base: SubtitleSegment {
            text: a.base.text.clone(),
            start_ms: a.base.start_ms,
            end_ms: c.base.end_ms,
        },
        frame_count: Some(ca + cb + cc),
        members,
        y_source: a.y_source,
    };
    assert(f@ == folded(v[pos as int], v[pos + 1], v[pos + 2]));
    let ghost before = merged_views(out@);
    out.push(f);
    assert(merged_views(out@) =~= before.push(f@));
    let mut k: usize = pos + 3;
    while k < segs.len()
        invariant
            pos + 3 <= k <= segs@.len(),
            v == merged_views(segs@),
            merged_views(out@) == v.subrange(0, pos as int).push(f@) + v.subrange(
                pos + 3,
                k as int,
            ),
        decreases segs@.len() - k,
    {
        let ghost before = merged_views(out@);
        out.push(copy_merged(&segs[k]));
        assert(merged_views(out@) =~= before.push(segs@[k as int]@));
        assert(v.subrange(0, pos as int).push(f@) + v.subrange(pos + 3, k + 1) =~= (v.subrange(
            0,
            pos as int,
        ).push(f@) + v.subrange(pos + 3, k as int)).push(v[k as int]));
        k = k + 1;
    }
    let next = if pos > 0 {
        pos - 1
    } else {
        0
    };
    Some((out, next))
}

fn copy_merged(s: &MergedSegment) -> (r: MergedSegment)
    ensures
        r@ == s@,
{
    let mut members: Vec<usize> = Vec::new();
    append_members(&mut members, &s.members);
    assert(members@ =~= s.members@);
    MergedSegment {
        base: SubtitleSegment {
            text: s.base.text.clone(),
            start_ms: s.base.start_ms,
            end_ms: s.base.end_ms,
        },
        frame_count: s.frame_count,
        members,
        y_source: s.y_source,
    }
}

fn append_members(members: &mut Vec<usize>, more: &Vec<usize>)
    ensures
        final(members)@ == old(members)@ + more@,
{
    let mut t: usize = 0;
    while t < more.len()
        invariant
            members@ == old(members)@ + more@.subrange(0, t as int),
            t <= more@.len(),
        decreases more@.len() - t,
    {
        members.push(more[t]);
        assert(members@ =~= old(members)@ + more@.subrange(0, t + 1));
        t = t + 1;
    }
    assert(more@.subrange(0, more@.len() as int) =~= more@);
}

} // verus!
