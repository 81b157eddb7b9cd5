//! Verified core of a line-counting utility.
//!
//! The library turns user-supplied patterns into traversal jobs, counts
//! newline terminators in byte streams, aggregates per-file results, and
//! renders the final summary. Filesystem walking, argument parsing and the
//! worker pool live outside the library and only feed it plain values.

pub mod app;
pub mod cmd;
pub mod job;
pub mod text;
pub mod work;
