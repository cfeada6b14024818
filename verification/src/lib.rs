//! A personal time-tracking journal core: free-text entries are parsed into
//! timestamped records, chained into durated activities per day, persisted in
//! a plain-text log, and searched for history-based autocomplete.

pub mod app;
pub mod clock;
pub mod config;
pub mod codec;
pub mod store;
pub mod entries;
pub mod history;
pub mod text;

