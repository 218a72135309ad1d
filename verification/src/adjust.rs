//! Integer decisions of box filtering and segment confidence adjustment.

use vstd::prelude::*;

verus! {

/// What filtering outlier boxes does to a frame.
#[derive(Clone, Debug)]
pub enum BoxFilterOutcome {
    /// No box is left: the frame is dropped.
    Dropped,
    /// No box is an outlier: the frame stays as it is.
    Unchanged,
    /// Some boxes are outliers: the frame is rebuilt from the remaining
    /// boxes, listed by index in order.
    Rebuilt(Vec<usize>),
}

/// Indices of the boxes among the first `n` that are not outliers.
pub open spec fn clean_boxes(is_outlier: Seq<bool>, n: nat) -> Seq<usize>
    decreases n,
{
    if n == 0 {
        Seq::empty()
    } else if !is_outlier[n - 1] {
        clean_boxes(is_outlier, (n - 1) as nat).push((n - 1) as usize)
    } else {
        clean_boxes(is_outlier, (n - 1) as nat)
    }
}

proof fn lemma_clean_boxes_len(is_outlier: Seq<bool>, n: nat)
    ensures
        clean_boxes(is_outlier, n).len() <= n,
        clean_boxes(is_outlier, n).len() == n <==> forall|i: int|
            0 <= i < n ==> !is_outlier[i],
    decreases n,
{
    if n > 0 {
        lemma_clean_boxes_len(is_outlier, (n - 1) as nat);
    }
}

/// Decides how a frame fares when its outlier boxes are removed.
pub fn box_filter_outcome(is_outlier: &[bool]) -> (r: BoxFilterOutcome)
    ensures
        ({
            let clean = clean_boxes(is_outlier@, is_outlier@.len());
            match r {
                BoxFilterOutcome::Dropped => clean.len() == 0,
                BoxFilterOutcome::Unchanged => clean.len() > 0 && clean.len()
                    == is_outlier@.len(),
                BoxFilterOutcome::Rebuilt(keep) => 0 < clean.len() < is_outlier@.len()
                    && keep@ == clean,
            }
        }),
{
    let n = is_outlier.len();
    let mut keep: Vec<usize> = Vec::new();
    let mut i: usize = 0;
    while i < n
        invariant
            n == is_outlier@.len(),
            i <= n,
            keep@ == clean_boxes(is_outlier@, i as nat),
        decreases n - i,
    {
        if !is_outlier[i] {
            keep.push(i);
        }
        i = i + 1;
    }
    proof {
        lemma_clean_boxes_len(is_outlier@, n as nat);
    }
    if keep.len() == 0 {
        BoxFilterOutcome::Dropped
    } else if keep.len() == n {
        BoxFilterOutcome::Unchanged
    } else {
        BoxFilterOutcome::Rebuilt(keep)
    }
}

/// The last of the first `n` times that lies before `mid`.
pub open spec fn last_before(ts: Seq<u64>, mid: u64, n: nat) -> Option<u64>
    decreases n,
{
    if n == 0 {
        None
    } else if ts[n - 1] < mid {
        Some(ts[n - 1])
    } else {
        last_before(ts, mid, (n - 1) as nat)
    }
}

/// The first of the first `n` times that lies after `mid`.
pub open spec fn first_after(ts: Seq<u64>, mid: u64, n: nat) -> Option<u64>
    decreases n,
{
    if n == 0 {
        None
    } else {
        match first_after(ts, mid, (n - 1) as nat) {
            Some(t) => Some(t),
            None => if ts[n - 1] > mid {
                Some(ts[n - 1])
            } else {
                None
            },
        }
    }
}

/// Distance from `mid` to the nearer of the last time before it and the
/// first time after it; `None` when there is neither.
pub open spec fn nearest_gap_spec(ts: Seq<u64>, mid: u64) -> Option<u64> {
    match (last_before(ts, mid, ts.len()), first_after(ts, mid, ts.len())) {
        (Some(b), Some(a)) => Some(
            if mid - b <= a - mid {
                (mid - b) as u64
            } else {
                (a - mid) as u64
            },
        ),
        (Some(b), None) => Some((mid - b) as u64),
        (None, Some(a)) => Some((a - mid) as u64),
        (None, None) => None,
    }
}

/// Midpoint of a segment's time span, rounded down.
pub fn segment_midpoint(start_ms: u32, end_ms: u32) -> (m: u64)
    ensures
        m == (start_ms + end_ms) / 2,
{
    (start_ms as u64 + end_ms as u64) / 2
}

/// How far `mid` lies from the nearest other subtitle frame time: the
/// distance to the nearer of the last time before it and the first time
/// after it, `None` when `ts` has neither. (With `ts` sorted these are the
/// nearest times on either side.)
pub fn nearest_gap(ts: &[u64], mid: u64) -> (g: Option<u64>)
    ensures
        g == nearest_gap_spec(ts@, mid),
{
    let n = ts.len();
    let mut before: Option<u64> = None;
    let mut after: Option<u64> = None;
    let mut i: usize = 0;
    while i < n
        invariant
            n == ts@.len(),
            i <= n,
            before == last_before(ts@, mid, i as nat),
            after == first_after(ts@, mid, i as nat),
            before matches Some(b) ==> b < mid,
            after matches Some(a) ==> a > mid,
        decreases n - i,
    {
        let t = ts[i];
        if t < mid {
            before = Some(t);
        }
        if after.is_none() && t > mid {
            after = Some(t);
        }
        i = i + 1;
    }
    match (before, after) {
        (Some(b), Some(a)) => {
            let db = mid - b;
            let da = a - mid;
            Some(
                if db <= da {
                    db
                } else {
                    da
                },
            )
        },
        (Some(b), None) => Some(mid - b),
        (None, Some(a)) => Some(a - mid),
        (None, None) => None,
    }
}

} // verus!
