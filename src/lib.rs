//! Incremental reader of line-oriented JSON conversation logs: classifies
//! records into typed events, normalizes ISO-8601 timestamps and bounds
//! text previews at character boundaries.
pub mod archive;
pub mod bytes;
pub mod calendar;
pub mod connections;
pub mod json;
pub mod records;
pub mod text;
pub mod transcript;
