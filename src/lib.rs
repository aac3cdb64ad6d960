//! Multi-pattern line search with AND semantics over a file's bytes.
//!
//! Every pattern must match somewhere in the bytes; the lines reported are
//! then those that hold the start of a match of any pattern, in ascending
//! order, each once.

pub mod cache;
pub mod lines;
pub mod matcher;

pub use cache::SearchCache;
pub use lines::{extract_line_text, positions_to_line_results, SearchLineResult};
pub use matcher::{search_file_impl, CompileFailure, Matcher};
