//! Post-processing of subtitle OCR output: text normalisation and comparison,
//! and the grouping of recognised frames into timed subtitle segments.

pub mod text;
pub mod types;
pub mod merge;
pub mod segments;
pub mod adjust;
pub mod stats;
pub mod triplet;
