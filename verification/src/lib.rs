//! Bulk-import core for replaying a textual database dump against a remote
//! import endpoint: a statement lexer over the dump bytes, a section-marker
//! classifier, a single-pass segmenter that indexes every table's data
//! section, a size-bounded batch builder with skip/resume support, an
//! encoding check for the dump's UTF-8 text, and attribution of the
//! per-statement failures the import sink reports.
//!
//! Everything here works on plain bytes and values; opening files, HTTP
//! transport and progress rendering are left to the surrounding program.

pub mod batch;
pub mod bytes;
pub mod comment;
pub mod lexer;
pub mod outcome;
pub mod segment;
pub mod utf8;
