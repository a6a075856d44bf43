//! Core of a small journaling service: month-partitioned log entries,
//! `{tag}` extraction from entry text, an in-memory tag index rebuilt from
//! the partitions, and rendering of history queries.

pub mod history;
pub mod nums;
pub mod store;
pub mod tags;
pub mod text;
