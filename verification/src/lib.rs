//! A personal time-tracking library: an append-only text journal of tracked
//! intervals with offset-based addressing and backward cursoring, and a
//! hierarchical report tree that aggregates durations by note segments.

pub mod cmd;
pub mod journal;
pub mod numtext;
pub mod record;
pub mod report;
pub mod settings;
pub mod time;
