//! Three-way merge diff of two key-ordered record streams.
//!
//! Records are raw byte lines (terminator included). Each record's key is the
//! span before its first comma. Walking the two streams in step, the library
//! routes every record to one of three outputs: creates (key only in the new
//! stream), updates (key in both, content changed) and deletes (key only in
//! the old stream). Unchanged records produce no output.
pub mod key;
pub mod engine;
pub mod lemmas;
pub mod sink;
pub mod source;
