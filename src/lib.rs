//! Parsing of line-oriented multiple-choice quiz files.
//!
//! Each line of a quiz file reads `Question | Option | ... | Option | index`.
//! The text model (lines, fields, trimming, numerals) lives in `text`; the
//! quiz records and the parser live in `quiz`; the laws that tie several
//! calls together are proved in `laws`.

pub mod ids;
pub mod laws;
pub mod quiz;
pub mod text;


pub use quiz::{parse_quiz_file, parse_with_diagnostics, ParseResult, Question, SkippedLine};
