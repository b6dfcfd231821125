//! Canonical-source renderer for a CommonMark document tree.
//!
//! The library walks a parsed document tree depth-first and writes it back
//! out as minimal, unambiguous CommonMark source: context-sensitive escaping,
//! column-aware line wrapping, nested block prefixes, deferred blank lines,
//! list markers, and fence-length selection for code spans and blocks.

pub mod ast;
pub mod chars;
pub mod fence;
pub mod model;
pub mod formatter;
pub mod scheme;
pub mod render;

pub use fence::longest_backtick_sequence;
pub use fence::shortest_unused_backtick_sequence;
