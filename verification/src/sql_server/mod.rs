//! SQL Server sources.

pub mod schema_change;
