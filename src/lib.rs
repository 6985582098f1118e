//! Filesystem service core: a file index kept current by a debounced change
//! stream, a bounded grep engine, and the text rules behind reads and edits.
//!
//! The logic here is verified. Calls into outside crates (dashmap, globset,
//! regex, rayon) and into std where vstd gives no specification go through
//! small trusted wrappers, each documenting what it relies on. Walking
//! directories, reading and writing files, memory maps, threads and the
//! platform watcher live in the companion program.

pub mod error;
pub mod watcher;
pub mod text;
pub mod paths;
pub mod pattern;
pub mod search;
pub mod store;
pub mod index;
