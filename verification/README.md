# upstream_ingest

Verified decision logic for ingesting tables out of upstream databases.

- `src/mysql` decides how the workers of a source take a consistent snapshot of MySQL tables:
  which outputs still need one, how tables are split into key ranges, who reads what, which SQL
  is run in which order, and what becomes of every failure. `worker.rs` is the state machine of
  one worker. `course.rs` states what holds of every run of it, and `sharing.rs` what holds of
  what the workers share. `history.rs` puts what happens on all workers in order, `outcome.rs`
  states what a snapshot comes to in the end, and `statistics.rs` what its statistics add up to.
- `src/sql_server` reports SQL Server schema changes that ingestion cannot follow, with the
  steps to recover.
- `src/text.rs`, `src/order.rs` and `src/tally.rs` are about quoting, joining and ordering names,
  and about counting.
- `app` performs what the library decides: it talks to the database and to the dataflow.
- `tests` run the library on concrete values.

Trusted without proof are the contracts of `String::push` and of `escape_identifier` and
`escape_literal` of `postgres-protocol`. They are declared in `src/text.rs` and
`src/sql_server/schema_change.rs`.
