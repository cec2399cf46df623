//! Decision logic for ingesting tables out of upstream databases: what a worker reads during a
//! MySQL snapshot and in which order it does it, and how upstream SQL Server schema changes are
//! reported.

pub mod mysql;
pub mod order;
pub mod sql_server;
pub mod tally;
pub mod text;

