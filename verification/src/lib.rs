//! Phrase detection and hit statistics for a speech watcher.
pub mod calendar;
pub mod engine;
pub mod log;
pub mod matcher;
pub mod models;
pub mod stats;
pub mod text;
pub mod updates;
