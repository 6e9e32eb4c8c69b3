//! Verified core of a small directory-listing tool: size-string parsing and
//! formatting, date-range parsing, per-entry filter predicates, and output
//! rendering. Filesystem traversal and terminal I/O live outside the library.

pub mod dates;
pub mod filter;
pub mod render;
pub mod size;
pub mod strutil;

pub use size::{format_size, parse_size};
