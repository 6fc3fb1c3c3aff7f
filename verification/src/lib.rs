//! Text processing toolkit: UTF-8 validation, line splitting, field
//! extraction, number parsing, character classification and base64, with
//! composable pipelines.
//!
//! Every operation here is the scalar algorithm, verified against a
//! specification of what it computes.

mod aligned;
mod detect_mod;
mod pipeline_mod;
pub mod base64;
pub mod classify;
pub mod fields;
pub mod lines;
pub mod numbers;
pub mod positions;
pub mod text;
pub mod utf8;

pub use aligned::AlignedBuffer;
pub use base64::{base64_decode, base64_encode, DecodeError};
pub use classify::CharClassifier;
pub use detect_mod::{select_level, SimdLevel};
pub use fields::{split_fields, split_records, Fields, Records};
pub use lines::{line_ranges, LineRanges, LineScanner, ScanStep};
pub use numbers::{
    extract_numbers, float_text, parse_integer, Integer, NumberKind, NumberSpan, ParseError,
    ParseErrorKind,
};
pub use pipeline_mod::{pipeline, Pipeline, PipelineBuilder, PipelineResults, Stage};
pub use utf8::{validate_and_split_lines, validate_utf8, Utf8Error};
