//! Plain data types shared by the OCR pipeline: subtitle segments, merge
//! options, run metadata and frame timing of input images.

use vstd::prelude::*;

verus! {

/// A subtitle segment: text and its time span in milliseconds.
#[derive(Clone, Debug)]
pub struct SubtitleSegment {
    pub text: String,
    pub start_ms: u32,
    pub end_ms: u32,
}

/// Options of the frame-merging pipeline. A field left `None` takes its
/// default (see the getters).
#[derive(Clone, Copy, Debug)]
pub struct MergeFramesArgs {
    /// Whether adjacent segments whose texts contain each other are merged.
    pub is_merge_substring: Option<bool>,
    /// Largest edit distance at which overlapping segments are merged.
    pub dedup_edit_distance: Option<u32>,
}

impl Default for MergeFramesArgs {
    fn default() -> (r: Self)
        ensures
            r.is_merge_substring is None,
            r.dedup_edit_distance is None,
    {
        MergeFramesArgs { is_merge_substring: None, dedup_edit_distance: None }
    }
}

/// Value that a configuration file supplies for an absent
/// `is_merge_substring`.
pub fn default_is_merge_substring() -> (r: Option<bool>)
    ensures
        r == Some(false),
{
    Some(false)
}

/// Value that a configuration file supplies for an absent
/// `dedup_edit_distance`.
pub fn default_dedup_edit_distance() -> (r: Option<u32>)
    ensures
        r == Some(1u32),
{
    Some(1)
}

/// Value that a configuration file supplies for an absent isolation
/// threshold (milliseconds) of segment confidence adjustment.
pub fn default_iso_threshold_ms() -> (r: Option<u64>)
    ensures
        r == Some(1500u64),
{
    Some(1500)
}

impl MergeFramesArgs {
    /// Whether substring merging is on; off unless set.
    pub fn is_merge_substring(&self) -> (r: bool)
        ensures
            r == match self.is_merge_substring {
                Some(b) => b,
                None => false,
            },
    {
        self.is_merge_substring.unwrap_or(false)
    }

    /// The edit-distance threshold of overlap merging; 1 unless set.
    pub fn dedup_edit_distance(&self) -> (r: u32)
        ensures
            r == match self.dedup_edit_distance {
                Some(d) => d,
                None => 1,
            },
    {
        self.dedup_edit_distance.unwrap_or(1)
    }
}

/// Device an OCR run executed on.
#[derive(Clone, Copy, Debug, PartialEq, Eq, Structural)]
pub enum OcrDevice {
    Cpu,
    Cuda,
    Directml,
    Coreml,
    Rocm,
    Mps,
}

/// Provenance of an OCR run.
#[derive(Clone, Debug)]
pub struct OcrFramesMeta {
    /// Name of the OCR engine.
    pub engine: String,
    /// Device it ran on.
    pub device: OcrDevice,
    /// Pixel height of the images that `y_range` coordinates refer to, where known.
    pub video_height: Option<u32>,
}

/// The time(s) in milliseconds that an input image stands for.
#[derive(Clone, Copy, Debug, PartialEq, Eq, Structural)]
pub enum FrameTimes {
    NoTime,
    Single(u64),
    Range(u64, u64),
}

impl FrameTimes {
    /// Key by which entries are ordered: the (first) time, 0 when there is none.
    pub fn sort_key(&self) -> (k: u64)
        ensures
            k == match *self {
                FrameTimes::NoTime => 0u64,
                FrameTimes::Single(t) => t,
                FrameTimes::Range(s, _) => s,
            },
    {
        match self {
            FrameTimes::NoTime => 0,
            FrameTimes::Single(t) => *t,
            FrameTimes::Range(s, _) => *s,
        }
    }

    /// Timestamps of the frame results that one recognised image yields: one
    /// result at time 0 when untimed, one at `t`, or two, at the start and
    /// at the end of a range.
    pub fn frame_timestamps(&self) -> (ts: Vec<u64>)
        ensures
            ts@ == match *self {
                FrameTimes::NoTime => seq![0u64],
                FrameTimes::Single(t) => seq![t],
                FrameTimes::Range(s, e) => seq![s, e],
            },
    {
        match self {
            FrameTimes::NoTime => vec![0],
            FrameTimes::Single(t) => vec![*t],
            FrameTimes::Range(s, e) => vec![*s, *e],
        }
    }
}

/// std's `PathBuf`, declared so that an entry can hold the path of its
/// image. Trusted only as an opaque type: nothing is claimed of its contents.
#[verifier::external_type_specification]
#[verifier::external_body]
pub struct ExPathBuf(std::path::PathBuf);

/// An input image and the time(s) it stands for.
pub struct OcrEntry {
    pub path: std::path::PathBuf,
    pub times: FrameTimes,
}

} // verus!
