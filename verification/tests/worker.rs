use upstream_ingest::mysql::assignment::{
    SampledTable, SchemaFailure, SnapshotInfo, TableBounds,
};
use upstream_ingest::mysql::desc::{
    GlobalId, GtidPartition, GtidState, KeySet, MySqlColumnDesc, MySqlKeyDesc, MySqlTableDesc,
    MySqlTableName, SourceOutputInfo, SqlColumnType, SqlScalarType,
};
use upstream_ingest::mysql::error::{DefiniteError, MySqlError, QueryError, SnapshotSetupError};
use upstream_ingest::mysql::splits::PkSplits;
use upstream_ingest::mysql::tables::snapshot_tables;
use upstream_ingest::mysql::worker::{
    gtid_set_variable, transaction_options, Action, Event, IsolationLevel, Settings,
    SnapshotWorker, Statement, Timeout, TransactionOptions,
};

type Worker = SnapshotWorker<&'static str>;

fn output(output_index: usize, table: &str) -> SourceOutputInfo {
    let mut keys = KeySet::new();
    keys.insert(MySqlKeyDesc {
        name: "PRIMARY".to_string(),
        is_primary: true,
        columns: vec!["id".to_string()],
    });
    SourceOutputInfo {
        output_index,
        table_name: MySqlTableName("s".to_string(), table.to_string()),
        desc: MySqlTableDesc {
            schema_name: "s".to_string(),
            name: table.to_string(),
            columns: vec![MySqlColumnDesc {
                name: "id".to_string(),
                column_type: Some(SqlColumnType {
                    scalar_type: SqlScalarType::Int64,
                    nullable: false,
                }),
            }],
            keys,
        },
        text_columns: vec![],
        exclude_columns: vec![],
        initial_gtid_set: vec![],
        resume_upper: vec![GtidPartition::minimum()],
        export_id: GlobalId::User(output_index as u64),
        binlog_full_metadata: false,
    }
}

fn settings(worker_id: usize, worker_count: usize, is_leader: bool) -> Settings {
    Settings {
        worker_id,
        worker_count,
        is_leader,
        lock_wait_timeout: None,
        max_execution_time: None,
    }
}

fn worker(settings: Settings, outputs: Vec<SourceOutputInfo>, owners: &[usize]) -> Worker {
    let (all_outputs, tables) = snapshot_tables(outputs);
    SnapshotWorker::new(settings, all_outputs, tables, &owners.to_vec())
}

fn upper() -> Vec<GtidPartition> {
    vec![GtidPartition { timestamp: GtidState::Active(5), ..GtidPartition::minimum() }]
}

/// Takes a step with an event that fits.
fn step(w: Worker, event: Event<&'static str>) -> (Worker, Action<&'static str>) {
    assert!(w.can_take(&event), "{:?} does not fit {event:?}", w.phase);
    w.step(event)
}

/// Takes steps with [`Event::Done`] for as long as they fit, and gives the names of all actions.
fn run(mut w: Worker, event: Event<&'static str>) -> (Worker, Action<&'static str>, Vec<String>) {
    let mut names = vec![];
    let mut event = event;
    loop {
        let (next, action) = step(w, event);
        w = next;
        names.push(match &action {
            Action::LockStatement(s) | Action::ReadStatement(s) => w.sql(*s),
            Action::Broadcast(Some(_)) => "Broadcast(info)".to_string(),
            Action::Broadcast(None) => "Broadcast(failure)".to_string(),
            Action::ReadTable(i) => format!("ReadTable({i})"),
            Action::Finish(result) => format!("Finish({result:?})"),
            other => format!("{other:?}").split('(').next().unwrap().to_string(),
        });
        if !w.can_take(&Event::Done) {
            return (w, action, names);
        }
        event = Event::Done;
    }
}

/// Runs a leader up to the point where it waits for its own broadcast, and gives the broadcast.
fn lead(w: Worker, samples: Vec<SampledTable>) -> (Worker, SnapshotInfo) {
    let (w, action, _) = run(w, Event::Done);
    let w = match action {
        Action::SampleBoundaries(_) => run(w, Event::Sampled(samples)).0,
        _ => w,
    };
    let (w, _) = step(w, Event::GtidSetRead("uuid:1-4".to_string()));
    let (w, action) = step(w, Event::Done);
    match action {
        Action::Broadcast(Some(info)) => (step(w, Event::Done).0, info),
        other => panic!("{other:?}"),
    }
}

#[test]
fn nothing_to_snapshot() {
    let mut done = output(1, "a");
    done.resume_upper = vec![];
    let (_, _, names) = run(worker(settings(0, 2, true), vec![done], &[]), Event::Done);
    assert_eq!(names, vec!["Finish(Ok(()))"]);
}

#[test]
fn a_single_worker_does_everything() {
    let s = Settings {
        lock_wait_timeout: Some(Timeout { nanos: 60_999_999_999 }),
        max_execution_time: Some(Timeout { nanos: 1_500_999_999 }),
        ..settings(0, 1, true)
    };
    let w = worker(s, vec![output(1, "b"), output(2, "a")], &[0, 0]);
    let (w, _, names) = run(w, Event::Done);
    assert_eq!(
        names,
        vec![
            "ResetStatistics",
            "ResolveConnection",
            "OpenLockConnection",
            "SET @@session.lock_wait_timeout = 60",
            "LOCK TABLES `s`.`a` READ, `s`.`b` READ",
            "ReadGtidSet",
        ]
    );
    assert_eq!(gtid_set_variable(), "global.gtid_executed");
    let (w, _) = step(w, Event::GtidSetRead("uuid:1-4".to_string()));
    let (w, action) = step(w, Event::Done);
    let info = match action {
        Action::Broadcast(Some(info)) => info,
        other => panic!("{other:?}"),
    };
    assert_eq!(info.gtid_set, "uuid:1-4");
    assert_eq!(info.pk_bounds.len(), 2);
    assert!(info.pk_bounds.iter().all(|b| b.splits.is_none()));
    let (w, action) = step(w, Event::Done);
    assert!(matches!(action, Action::AwaitFeedback));
    let (w, action) = step(w, Event::FeedbackProgress);
    assert!(matches!(action, Action::AwaitFeedback));
    let (w, action) = step(w, Event::FeedbackData(vec![]));
    assert!(matches!(action, Action::AwaitFeedback));
    let (w, action) = step(w, Event::FeedbackData(vec![Some(info)]));
    assert!(matches!(action, Action::ParseGtidSet(set) if set == "uuid:1-4"));
    let (w, _, names) = run(w, Event::GtidSetParsed(upper()));
    assert_eq!(
        names,
        vec![
            "Connect",
            "CheckSettings",
            "StartTransaction",
            "set @@session.time_zone = '+00:00'",
            "SET @@session.max_execution_time = 1500",
            "ReleaseBroadcast",
            "AwaitFeedback",
        ]
    );
    let (w, _) = step(w, Event::FeedbackData(vec![None]));
    let (w, _) = step(w, Event::FeedbackProgress);
    let (w, _, names) = run(w, Event::FeedbackClosed);
    assert_eq!(names, vec!["UNLOCK TABLES", "CloseLockConnection", "VerifySchemas"]);
    assert_eq!(w.tables_to_verify(), vec![0, 1]);
    let (w, action) = step(w, Event::SchemasVerified(vec![]));
    assert!(matches!(action, Action::PublishSchemaErrors(errors) if errors.is_empty()));
    let (w, action) = step(w, Event::Done);
    assert!(matches!(action, Action::MeasureTables));
    let (w, action) = step(w, Event::Done);
    assert!(matches!(action, Action::ReadTable(0)));
    assert_eq!(w.table_query(0), "SELECT `id` FROM `s`.`a`");
    let (w, action) = step(w, Event::Done);
    assert!(matches!(action, Action::ReadTable(1)));
    assert_eq!(w.table_query(1), "SELECT `id` FROM `s`.`b`");
    let (w, action) = step(w, Event::Done);
    match action {
        Action::EmitRewinds(requests) => {
            let indexes: Vec<usize> = requests.iter().map(|r| r.output_index).collect();
            assert_eq!(indexes, vec![2, 1]);
            assert!(requests.iter().all(|r| r.snapshot_upper == upper()));
        }
        other => panic!("{other:?}"),
    }
    let (w, action) = step(w, Event::Done);
    assert!(matches!(action, Action::Finish(Ok(()))));
    // Nothing follows the end.
    assert!(!w.can_take(&Event::Done));
    assert!(!w.can_take(&Event::FeedbackClosed));
    assert!(!w.can_take(&Event::Failed(QueryError::Other("late"))));
}

#[test]
fn workers_share_a_sampled_table() {
    let leader = worker(settings(0, 2, true), vec![output(1, "a")], &[1]);
    let (leader, action, names) = run(leader, Event::Done);
    // Boundaries are sampled before the tables are locked.
    assert_eq!(
        names,
        vec!["ResetStatistics", "ResolveConnection", "OpenLockConnection", "SampleBoundaries"]
    );
    assert!(matches!(action, Action::SampleBoundaries(jobs) if jobs.len() == 1));
    let splits = PkSplits { pk_col: "`id`".to_string(), boundaries: vec!["50".to_string()] };
    let samples = vec![SampledTable { table: 0, splits: Some(splits) }];
    let (leader, _, names) = run(leader, Event::Sampled(samples));
    assert_eq!(names, vec!["LOCK TABLES `s`.`a` READ", "ReadGtidSet"]);
    let (leader, _) = step(leader, Event::GtidSetRead("".to_string()));
    let (leader, action) = step(leader, Event::Done);
    let info = match action {
        Action::Broadcast(Some(info)) => info,
        other => panic!("{other:?}"),
    };
    let splits = info.pk_bounds[0].splits.clone().unwrap();
    let copy = SnapshotInfo {
        gtid_set: info.gtid_set.clone(),
        pk_bounds: vec![TableBounds {
            table: info.pk_bounds[0].table.clone(),
            splits: Some(splits),
        }],
    };

    let (leader, _) = step(leader, Event::Done);
    let (leader, _) = step(leader, Event::FeedbackData(vec![Some(info)]));
    let (leader, _, _) = run(leader, Event::GtidSetParsed(upper()));
    let (leader, _, _) = run(leader, Event::FeedbackClosed);
    let (leader, _) = step(leader, Event::SchemasVerified(vec![]));
    let (leader, _) = step(leader, Event::Done);
    let (leader, action) = step(leader, Event::Done);
    assert!(matches!(action, Action::ReadTable(0)));
    assert_eq!(leader.table_query(0), "SELECT `id` FROM `s`.`a` WHERE `id` >= 50");
    // The other worker owns the table.
    let (_, action) = step(leader, Event::Done);
    assert!(matches!(action, Action::EmitRewinds(requests) if requests.is_empty()));

    let owner = worker(settings(1, 2, false), vec![output(1, "a")], &[1]);
    let (owner, action, _) = run(owner, Event::Done);
    assert!(matches!(action, Action::AwaitFeedback));
    let (owner, _) = step(owner, Event::FeedbackData(vec![Some(copy)]));
    let (owner, _, names) = run(owner, Event::GtidSetParsed(upper()));
    assert_eq!(
        names,
        vec![
            "Connect",
            "CheckSettings",
            "StartTransaction",
            "set @@session.time_zone = '+00:00'",
            "ReleaseBroadcast",
            "VerifySchemas",
        ]
    );
    let (owner, _) = step(owner, Event::SchemasVerified(vec![]));
    // Only the leader counts rows.
    let (owner, action) = step(owner, Event::Done);
    assert!(matches!(action, Action::ReadTable(0)));
    assert_eq!(owner.table_query(0), "SELECT `id` FROM `s`.`a` WHERE `id` < 50");
    let (_, action) = step(owner, Event::Done);
    assert!(matches!(action, Action::EmitRewinds(requests) if requests.len() == 1));
}

#[test]
fn a_worker_without_work_opens_no_connection() {
    let (_, info) = lead(worker(settings(0, 3, true), vec![output(1, "a")], &[1]), vec![]);
    let idle = worker(settings(2, 3, false), vec![output(1, "a")], &[1]);
    let (idle, _, _) = run(idle, Event::Done);
    let (idle, _) = step(idle, Event::FeedbackData(vec![Some(info)]));
    let (_, _, names) = run(idle, Event::GtidSetParsed(upper()));
    assert_eq!(names, vec!["ReleaseBroadcast", "Finish(Ok(()))"]);
}

#[test]
fn a_leader_without_work_still_measures() {
    let (leader, info) = lead(worker(settings(0, 3, true), vec![output(1, "a")], &[1]), vec![]);
    let (leader, _) = step(leader, Event::FeedbackData(vec![Some(info)]));
    let (leader, _, _) = run(leader, Event::GtidSetParsed(upper()));
    let (leader, _, _) = run(leader, Event::FeedbackClosed);
    assert!(leader.tables_to_verify().is_empty());
    let (_, _, names) = run(leader, Event::SchemasVerified(vec![]));
    assert_eq!(
        names,
        vec!["PublishSchemaErrors", "MeasureTables", "EmitRewinds", "Finish(Ok(()))"]
    );
}

#[test]
fn the_leader_tells_of_every_setup_failure() {
    let start = || {
        let s = Settings { lock_wait_timeout: Some(Timeout { nanos: 1 }), ..settings(0, 1, true) };
        let w = worker(s, vec![output(1, "a")], &[0]);
        let (w, _) = step(w, Event::Done);
        let (w, _) = step(w, Event::Done);
        step(w, Event::Done).0
    };
    // Opening the lock connection, the time limit, the lock, the set of transactions.
    for stage in 0..4 {
        let mut w = start();
        for _ in 0..stage {
            w = step(w, Event::Done).0;
        }
        let (w, action) = step(w, Event::Failed(QueryError::Other("lost")));
        assert!(matches!(action, Action::Broadcast(None)));
        let (_, action) = step(w, Event::Done);
        assert!(matches!(action, Action::Finish(Err("lost"))));
    }
}

#[test]
fn a_missing_table_is_recorded() {
    let w = worker(settings(0, 1, true), vec![output(1, "a")], &[0]);
    let w = (0..4).fold(w, |w, _| step(w, Event::Done).0);
    let error = QueryError::Server { code: 1146, message: "no a".to_string(), source: "server" };
    let (w, action) = step(w, Event::Failed(error));
    assert!(matches!(action, Action::Broadcast(None)));
    let (w, action) = step(w, Event::Done);
    assert!(matches!(
        action,
        Action::ReportDefiniteError(DefiniteError::TableDropped(message)) if message == "no a"
    ));
    let (_, action) = step(w, Event::Done);
    assert!(matches!(action, Action::Finish(Ok(()))));
}

#[test]
fn only_locking_finds_missing_tables() {
    let w = worker(settings(0, 1, true), vec![output(1, "a")], &[0]);
    let w = (0..5).fold(w, |w, _| step(w, Event::Done).0);
    let error = QueryError::Server { code: 1146, message: "no a".to_string(), source: "server" };
    let (w, _) = step(w, Event::Failed(error));
    let (_, action) = step(w, Event::Done);
    assert!(matches!(action, Action::Finish(Err("server"))));
}

#[test]
fn failed_sampling_is_told() {
    let sampling = || {
        let w = worker(settings(0, 2, true), vec![output(1, "a")], &[0]);
        run(w, Event::Done).0
    };
    let error = SnapshotSetupError::Definite(DefiniteError::TableDropped("x".to_string()));
    let (_, _, names) = run(sampling(), Event::SamplingFailed(error));
    assert_eq!(names, vec!["Broadcast(failure)", "ReportDefiniteError", "Finish(Ok(()))"]);
    let error = SnapshotSetupError::Transient("lost");
    let (_, _, names) = run(sampling(), Event::SamplingFailed(error));
    assert_eq!(names, vec!["Broadcast(failure)", "Finish(Err(\"lost\"))"]);
}

#[test]
fn no_connection_settings_means_no_broadcast() {
    let w = worker(settings(0, 1, true), vec![output(1, "a")], &[0]);
    let w = (0..2).fold(w, |w, _| step(w, Event::Done).0);
    let (_, action) = step(w, Event::Failed(QueryError::Other("secret")));
    assert!(matches!(action, Action::Finish(Err("secret"))));
}

#[test]
fn others_leave_a_failure_to_the_leader() {
    let waiting = || {
        let w = worker(settings(1, 2, false), vec![output(1, "a")], &[1]);
        run(w, Event::Done).0
    };
    let (_, action) = step(waiting(), Event::FeedbackData(vec![None]));
    assert!(matches!(action, Action::Finish(Ok(()))));
    let (_, action) = step(waiting(), Event::FeedbackClosed);
    assert!(matches!(action, Action::Finish(Ok(()))));
}

/// A single worker that waits for its transaction to start, or for the check before it.
fn connecting(done: usize) -> Worker {
    let (w, info) = lead(worker(settings(0, 1, true), vec![output(1, "a")], &[0]), vec![]);
    let (w, _) = step(w, Event::FeedbackData(vec![Some(info)]));
    let (w, _) = step(w, Event::GtidSetParsed(upper()));
    (0..done).fold(w, |w, _| step(w, Event::Done).0)
}

#[test]
fn an_unsupported_gtid_set_is_recorded() {
    let (w, info) = lead(worker(settings(0, 1, true), vec![output(1, "a")], &[0]), vec![]);
    let (w, _) = step(w, Event::FeedbackData(vec![Some(info)]));
    let (w, action) = step(w, Event::GtidSetRejected("gaps".to_string()));
    assert!(matches!(
        action,
        Action::ReportDefiniteError(DefiniteError::UnsupportedGtidState(m)) if m == "gaps"
    ));
    assert_eq!(w.all_outputs, vec![1]);
    let (_, action) = step(w, Event::Done);
    assert!(matches!(action, Action::Finish(Ok(()))));
}

#[test]
fn wrong_settings_are_recorded() {
    let error = MySqlError::InvalidSystemSetting { message: "off".to_string(), source: "set" };
    let (_, action) = step(connecting(1), Event::SettingsRejected(error));
    assert!(matches!(
        action,
        Action::ReportDefiniteError(DefiniteError::ServerConfigurationError(m)) if m == "off"
    ));
    let (_, action) = step(connecting(1), Event::SettingsRejected(MySqlError::Other("lost")));
    assert!(matches!(action, Action::Finish(Err("lost"))));
}

#[test]
fn later_failures_end_the_snapshot() {
    // The connection, the transaction, the time zone.
    for done in [0, 2, 3] {
        let (_, action) = step(connecting(done), Event::Failed(QueryError::Other("lost")));
        assert!(matches!(action, Action::Finish(Err("lost"))));
    }
    let draining = connecting(5);
    let (unlocking, _) = step(draining, Event::FeedbackClosed);
    let (_, action) = step(unlocking, Event::Failed(QueryError::Other("lost")));
    assert!(matches!(action, Action::Finish(Err("lost"))));
}

/// A single worker that has to check the schemas of two tables, the first with two outputs.
fn verifying() -> Worker {
    let outputs = vec![output(1, "a"), output(2, "b"), output(3, "a")];
    let (w, info) = lead(worker(settings(0, 1, true), outputs, &[0, 0]), vec![]);
    let (w, _) = step(w, Event::FeedbackData(vec![Some(info)]));
    let (w, _, _) = run(w, Event::GtidSetParsed(upper()));
    run(w, Event::FeedbackClosed).0
}

fn failure(table: usize, output_index: usize) -> SchemaFailure {
    SchemaFailure {
        table,
        output_index,
        error: DefiniteError::IncompatibleSchema("changed".to_string()),
    }
}

#[test]
fn outputs_with_changed_schemas_are_left_out() {
    let (w, action) =
        step(verifying(), Event::SchemasVerified(vec![failure(0, 1), failure(1, 2)]));
    match action {
        Action::PublishSchemaErrors(errors) => {
            let indexes: Vec<usize> = errors.iter().map(|e| e.output_index).collect();
            assert_eq!(indexes, vec![1, 2]);
        }
        other => panic!("{other:?}"),
    }
    assert_eq!(w.tasks.len(), 1);
    let (_, action, names) = run(w, Event::Done);
    assert_eq!(names, vec!["MeasureTables", "ReadTable(0)", "EmitRewinds", "Finish(Ok(()))"]);
    assert!(matches!(action, Action::Finish(Ok(()))));
}

#[test]
fn no_output_left_means_no_read() {
    let failures = vec![failure(0, 1), failure(1, 2), failure(0, 3)];
    let (_, _, names) = run(verifying(), Event::SchemasVerified(failures));
    assert_eq!(names, vec!["PublishSchemaErrors", "MeasureTables", "Finish(Ok(()))"]);
}

#[test]
fn failures_of_unknown_tables_are_not_taken() {
    assert!(!verifying().can_take(&Event::SchemasVerified(vec![failure(2, 1)])));
    assert!(!verifying().can_take(&Event::Done));
    let (_, action) = step(verifying(), Event::Failed(QueryError::Other("lost")));
    assert!(matches!(action, Action::Finish(Err("lost"))));
}

#[test]
fn statements_have_fixed_texts() {
    let w = worker(settings(0, 1, true), vec![output(1, "a")], &[0]);
    assert_eq!(w.sql(Statement::UnlockTables), "UNLOCK TABLES");
    assert_eq!(w.sql(Statement::SetTimeZone), "set @@session.time_zone = '+00:00'");
    assert_eq!(w.sql(Statement::LockTables), "LOCK TABLES `s`.`a` READ");
}

#[test]
fn timeouts_are_cut_to_what_the_server_counts() {
    let limit = Timeout { nanos: 1_500_000_000 };
    assert_eq!((limit.as_secs(), limit.as_millis()), (1, 1_500));
    let limit = Timeout { nanos: 999_999 };
    assert_eq!((limit.as_secs(), limit.as_millis()), (0, 0));
}

#[test]
fn transactions_are_repeatable_consistent_and_read_only() {
    let expected = TransactionOptions {
        isolation_level: IsolationLevel::RepeatableRead,
        consistent_snapshot: true,
        read_only: true,
    };
    assert_eq!(transaction_options(), expected);
    let (_, action) = step(connecting(1), Event::Done);
    assert!(matches!(action, Action::StartTransaction(options) if options == expected));
}
