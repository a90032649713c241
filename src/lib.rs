//! A streaming engine for tabular records: a chunk splitter that rotates
//! output sinks at record-count boundaries, and a deduplicator that keeps the
//! first record seen for each distinct projection of selected fields.
pub mod record;
pub mod select;
pub mod split;
pub mod uniq;
