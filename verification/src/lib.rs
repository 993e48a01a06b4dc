//! An in-memory key-value store driven by whitespace-delimited text commands,
//! with the civil-calendar conversion used to timestamp its log lines.

pub mod calendar;
pub mod clock;
pub mod logline;
pub mod protocol;
pub mod store;
pub mod text;
pub mod timestamp;
