//! Snapshots of MySQL tables.

pub mod assignment;
pub mod conduct;
pub mod course;
pub mod desc;
pub mod error;
pub mod history;
pub mod outcome;
pub mod progress;
pub mod query;
pub mod sampling;
pub mod sharing;
pub mod splits;
pub mod sql;
pub mod statistics;
pub mod survey;
pub mod tables;
pub mod worker;
