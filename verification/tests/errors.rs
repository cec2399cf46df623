use upstream_ingest::mysql::desc::{GtidPartition, GtidState, MySqlTableName};
use upstream_ingest::mysql::error::{
    classify_query_error, classify_settings_error, error_update, row_update, row_updates, Decoded,
    DefiniteError, MySqlError, QueryError, SnapshotSetupError, ER_NO_SUCH_TABLE,
};
use upstream_ingest::mysql::progress::{
    add_table_size, yield_interval, ReadProgress, RowOutcome,
};
use upstream_ingest::mysql::query::{
    count_query, has_same_columns, lock_clauses, lock_statement, lock_wait_timeout_statement,
    max_execution_time_statement, table_count,
};

fn server(code: u16) -> QueryError<&'static str> {
    QueryError::Server { code, message: "gone".to_string(), source: "server" }
}

fn table(name: &str) -> MySqlTableName {
    MySqlTableName("s".to_string(), name.to_string())
}

#[test]
fn a_missing_table_is_definite() {
    assert_eq!(ER_NO_SUCH_TABLE, 1146);
    assert!(matches!(
        classify_query_error(server(1146)),
        SnapshotSetupError::Definite(DefiniteError::TableDropped(message)) if message == "gone"
    ));
}

#[test]
fn other_query_errors_are_transient() {
    assert!(matches!(
        classify_query_error(server(1205)),
        SnapshotSetupError::Transient("server")
    ));
    assert!(matches!(
        classify_query_error(QueryError::Other("io")),
        SnapshotSetupError::Transient("io")
    ));
}

#[test]
fn conversions_are_transient() {
    assert!(matches!(
        SnapshotSetupError::from(server(1146)),
        SnapshotSetupError::Transient("server")
    ));
    let setting = MySqlError::InvalidSystemSetting { message: "m".to_string(), source: "set" };
    assert!(matches!(SnapshotSetupError::from(setting), SnapshotSetupError::Transient("set")));
}

#[test]
fn settings_errors() {
    let setting = MySqlError::InvalidSystemSetting { message: "off".to_string(), source: "set" };
    assert!(matches!(
        classify_settings_error(setting),
        SnapshotSetupError::Definite(DefiniteError::ServerConfigurationError(m)) if m == "off"
    ));
    let decode = MySqlError::ValueDecodeError { message: "bad".to_string(), source: "dec" };
    assert!(matches!(classify_settings_error(decode), SnapshotSetupError::Transient("dec")));
    assert!(matches!(
        classify_settings_error(MySqlError::Other("io")),
        SnapshotSetupError::Transient("io")
    ));
}

#[test]
fn rows_become_additions_at_the_minimum() {
    let minimum = GtidPartition { lower: 0, upper: u128::MAX, timestamp: GtidState::Absent };
    let update = row_update::<u8, &str>(3, Ok(7)).unwrap();
    assert_eq!((update.output_index, update.time, update.diff), (3, minimum, 1));
    assert!(matches!(update.event, Ok(7)));

    let decode = MySqlError::ValueDecodeError { message: "bad".to_string(), source: "dec" };
    let update = row_update::<u8, &str>(4, Err(decode)).unwrap();
    assert_eq!((update.output_index, update.time, update.diff), (4, minimum, 1));
    assert!(
        matches!(update.event, Err(DefiniteError::ValueDecodeError(message)) if message == "bad")
    );

    assert_eq!(row_update::<u8, &str>(4, Err(MySqlError::Other("io"))).unwrap_err(), "io");
    let setting = MySqlError::InvalidSystemSetting { message: "m".to_string(), source: "set" };
    assert_eq!(row_update::<u8, &str>(4, Err(setting)).unwrap_err(), "set");
}

#[test]
fn errors_become_additions_at_the_minimum() {
    let update = error_update::<u8>(5, DefiniteError::IncompatibleSchema("x".to_string()));
    assert_eq!((update.output_index, update.time, update.diff), (5, GtidPartition::minimum(), 1));
    assert!(matches!(update.event, Err(DefiniteError::IncompatibleSchema(_))));
}

#[test]
fn lock_statements() {
    assert_eq!(lock_clauses(&[]), "");
    let clauses = lock_clauses(&[table("a"), table("b`")]);
    assert_eq!(clauses, "`s`.`a` READ, `s`.`b``` READ");
    assert_eq!(lock_statement(&clauses), "LOCK TABLES `s`.`a` READ, `s`.`b``` READ");
    assert_eq!(lock_wait_timeout_statement(30), "SET @@session.lock_wait_timeout = 30");
    assert_eq!(max_execution_time_statement(0), "SET @@session.max_execution_time = 0");
}

#[test]
fn counting_rows() {
    assert_eq!(count_query(&table("a")), "SELECT COUNT(*) FROM `s`.`a`");
    assert_eq!(table_count(&table("a"), Some(12)), Ok(12));
    assert_eq!(table_count(&table("a"), None), Err("failed to COUNT(*) `s`.`a`".to_string()));
}

#[test]
fn no_outputs_agree_on_columns() {
    assert!(has_same_columns(&[]));
}

#[test]
fn more_workers_yield_more_often() {
    assert_eq!(yield_interval(0), 10_000);
    assert_eq!(yield_interval(1), 10_000);
    assert_eq!(yield_interval(3), 3_333);
    assert_eq!(yield_interval(10_000), 1);
    assert_eq!(yield_interval(10_001), 1);
    assert_eq!(yield_interval(usize::MAX), 1);
}

#[test]
fn progress_is_published_every_thousand_rows() {
    let mut progress = ReadProgress::new(4);
    assert_eq!(progress, ReadProgress { interval: 2_500, staged: 0, total: 0 });
    let mut published = vec![];
    let mut yields = 0;
    for _ in 0..2_500 {
        let outcome = progress.on_row(2);
        published.extend(outcome.publish);
        if outcome.yield_now {
            yields += 1;
        }
    }
    // Every row counts twice, so the thousands come after 500 rows each.
    assert_eq!(published, vec![500, 1_000, 1_500, 2_000, 2_500]);
    assert_eq!(yields, 2);
    progress.start_table();
    assert_eq!(progress, ReadProgress { interval: 2_500, staged: 0, total: 5_000 });
    assert_eq!(progress.on_row(1), RowOutcome { yield_now: false, publish: None });
    assert_eq!(progress, ReadProgress { interval: 2_500, staged: 1, total: 5_001 });
}

#[test]
fn sizes_count_rows_per_output() {
    assert_eq!(add_table_size(0, 10, 3), 30);
    assert_eq!(add_table_size(30, 7, 0), 30);
    assert_eq!(add_table_size(5, u64::MAX - 5, 1), u64::MAX);
}

fn decoded(
    output_index: usize,
    row: Result<u8, MySqlError<&'static str>>,
) -> Decoded<u8, &'static str> {
    Decoded { output_index, row }
}

#[test]
fn a_row_is_added_to_each_output() {
    let broken = MySqlError::ValueDecodeError { message: "bad".to_string(), source: "dec" };
    let (updates, failure) =
        row_updates(vec![decoded(4, Ok(1)), decoded(2, Err(broken)), decoded(9, Ok(3))]);
    assert_eq!(failure, None);
    assert_eq!(updates.iter().map(|u| u.output_index).collect::<Vec<_>>(), vec![4, 2, 9]);
    assert!(matches!(updates[0].event, Ok(1)));
    assert!(matches!(&updates[1].event, Err(DefiniteError::ValueDecodeError(m)) if m == "bad"));
    assert!(matches!(updates[2].event, Ok(3)));
    assert!(updates.iter().all(|u| u.diff == 1 && u.time == GtidPartition::minimum()));
    assert!(row_updates::<u8, &str>(vec![]).0.is_empty());
}

#[test]
fn a_failure_ends_the_additions_of_a_row() {
    let (updates, failure) = row_updates(vec![
        decoded(4, Ok(1)),
        decoded(2, Err(MySqlError::Other("io"))),
        decoded(9, Ok(3)),
    ]);
    assert_eq!(failure, Some("io"));
    assert_eq!(updates.len(), 1);
    assert_eq!(updates[0].output_index, 4);
}
