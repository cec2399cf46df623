//! Whole snapshots over several workers, with the database and the channel held in memory.

use std::collections::BTreeMap;

use upstream_ingest::mysql::assignment::{
    SampledTable, SamplingJob, SchemaFailure, SnapshotInfo, TableBounds, TableTask,
};
use upstream_ingest::mysql::desc::{
    GlobalId, GtidPartition, GtidState, KeySet, MySqlColumnDesc, MySqlKeyDesc, MySqlTableDesc,
    MySqlTableName, SourceOutputInfo, SqlColumnType, SqlScalarType,
};
use upstream_ingest::mysql::error::{error_update, row_updates, Decoded, DefiniteError, Update};
use upstream_ingest::mysql::progress::ReadProgress;
use upstream_ingest::mysql::sampling::{ProbeReply, SampleStep, SplitSampler};
use upstream_ingest::mysql::splits::ReadPlan;
use upstream_ingest::mysql::survey::{SizeSurvey, SurveyStep};
use upstream_ingest::mysql::tables::snapshot_tables;
use upstream_ingest::mysql::worker::{
    transaction_options, Action, Event, Settings, SnapshotWorker, Statement,
};

fn output(output_index: usize, table: &str, keyed: bool) -> SourceOutputInfo {
    let mut keys = KeySet::new();
    if keyed {
        keys.insert(MySqlKeyDesc {
            name: "PRIMARY".to_string(),
            is_primary: true,
            columns: vec!["id".to_string()],
        });
    }
    SourceOutputInfo {
        output_index,
        table_name: MySqlTableName("s".to_string(), table.to_string()),
        desc: MySqlTableDesc {
            schema_name: "s".to_string(),
            name: table.to_string(),
            columns: vec![MySqlColumnDesc {
                name: "id".to_string(),
                column_type: Some(SqlColumnType {
                    scalar_type: SqlScalarType::Int64,
                    nullable: false,
                }),
            }],
            keys,
        },
        text_columns: vec![],
        exclude_columns: vec![],
        initial_gtid_set: vec![],
        resume_upper: vec![GtidPartition::minimum()],
        export_id: GlobalId::User(output_index as u64),
        binlog_full_metadata: false,
    }
}

/// What came of a run.
#[derive(Default)]
struct Outcome {
    /// The rows written, by output and key.
    rows: BTreeMap<(usize, u64), usize>,
    /// The errors written, by output.
    errors: BTreeMap<usize, usize>,
    /// The rewinds requested: output and worker.
    rewinds: Vec<(usize, usize)>,
    /// The gauges: worker and export, records known and staged.
    gauges: BTreeMap<(usize, u64), (u64, u64)>,
    /// The most connections that were open at one time.
    connections: usize,
    /// What happened, by worker.
    log: Vec<(usize, &'static str)>,
}

fn copy(info: &SnapshotInfo) -> SnapshotInfo {
    SnapshotInfo {
        gtid_set: info.gtid_set.clone(),
        pk_bounds: info
            .pk_bounds
            .iter()
            .map(|b| TableBounds { table: b.table.clone(), splits: b.splits.clone() })
            .collect(),
    }
}

fn export_number(export: &GlobalId) -> u64 {
    match export {
        GlobalId::User(n) => *n,
        _ => panic!("user exports only"),
    }
}

/// The keys of the table that the plan covers.
fn covered(task: &TableTask, keys: &[u64]) -> Vec<u64> {
    let parse = |s: &Option<String>| s.as_ref().map(|s| s.parse::<u64>().unwrap());
    match task.plan.as_ref().unwrap() {
        ReadPlan::WholeTable => keys.to_vec(),
        ReadPlan::Range(range) => {
            let (lower, upper) = (parse(&range.lower), parse(&range.upper));
            keys.iter()
                .copied()
                .filter(|k| lower.map_or(true, |l| l <= *k) && upper.map_or(true, |u| *k < u))
                .collect()
        }
    }
}

/// Samples a table by going through its sorted keys as the probes say.
fn sample(job: SamplingJob, keys: &[u64], n: usize) -> SampledTable {
    let estimate = Some(Some(keys.len() as u64));
    let table = job.table;
    let mut sampler = SplitSampler::new(job.name, (job.pk_col, job.kind), n, estimate);
    let mut rest: Vec<u64> = keys.to_vec();
    while let Some(current) = sampler {
        let probe = current.probe();
        let offset: usize = probe.rsplit(' ').next().unwrap().parse().unwrap();
        let reply = match rest.get(offset) {
            Some(key) => ProbeReply::Literal(key.to_string()),
            None => ProbeReply::NoRow,
        };
        rest = rest.iter().copied().skip(offset + 1).collect();
        sampler = match current.advance(reply) {
            SampleStep::Probe(next) => Some(next),
            SampleStep::Finished(splits) => return SampledTable { table, splits },
        };
    }
    SampledTable { table, splits: None }
}

/// Runs a snapshot to the end on `n` workers. The workers take turns.
fn run(
    n: usize,
    leader: usize,
    outputs: &[SourceOutputInfo],
    contents: &BTreeMap<String, Vec<u64>>,
    broken: &[usize],
) -> Outcome {
    let upper = vec![GtidPartition { timestamp: GtidState::Active(8), ..GtidPartition::minimum() }];
    let mut outcome = Outcome::default();
    let mut channel: Option<SnapshotInfo> = None;
    let mut released = vec![false; n];
    let mut open = 0;
    let mut probes = 0;
    let mut progress: Vec<ReadProgress> = (0..n).map(|_| ReadProgress::new(n)).collect();
    let mut state: Vec<Option<(SnapshotWorker<()>, Event<()>)>> = (0..n)
        .map(|w| {
            let (all, tables) = snapshot_tables(outputs.to_vec());
            // The tables are spread over the workers.
            let owners: Vec<usize> = (0..tables.len()).map(|i| (i + 1) % n).collect();
            let settings = Settings {
                worker_id: w,
                worker_count: n,
                is_leader: w == leader,
                lock_wait_timeout: None,
                max_execution_time: None,
            };
            Some((SnapshotWorker::new(settings, all, tables, &owners), Event::Done))
        })
        .collect();
    while state.iter().any(|s| s.is_some()) {
        for w in 0..n {
            let Some((worker, event)) = state[w].take() else { continue };
            assert!(worker.can_take(&event));
            let (worker, action) = worker.step(event);
            let event = match action {
                Action::ResetStatistics => {
                    for o in outputs {
                        outcome.gauges.insert((w, export_number(&o.export_id)), (0, 0));
                    }
                    Event::Done
                }
                Action::OpenLockConnection | Action::Connect => {
                    open += 1;
                    Event::Done
                }
                Action::CloseLockConnection => {
                    open -= 1;
                    Event::Done
                }
                Action::ReleaseProbes => {
                    probes = 0;
                    Event::Done
                }
                Action::SampleBoundaries(jobs) => {
                    probes = n.min(jobs.len());
                    let results = jobs.into_iter().map(|job| {
                        let keys = contents[&job.name.1].clone();
                        sample(job, &keys, n)
                    });
                    Event::Sampled(results.collect())
                }
                Action::LockStatement(Statement::LockTables) => {
                    outcome.log.push((w, "lock"));
                    Event::Done
                }
                Action::LockStatement(Statement::UnlockTables) => {
                    outcome.log.push((w, "unlock"));
                    Event::Done
                }
                Action::StartTransaction(options) => {
                    assert_eq!(options, transaction_options());
                    outcome.log.push((w, "start"));
                    Event::Done
                }
                Action::ReadGtidSet => Event::GtidSetRead("uuid:1-7".to_string()),
                Action::Broadcast(info) => {
                    assert!(channel.is_none());
                    channel = info;
                    Event::Done
                }
                Action::AwaitFeedback if released[w] => {
                    if released.iter().all(|r| *r) {
                        Event::FeedbackClosed
                    } else {
                        Event::FeedbackProgress
                    }
                }
                Action::AwaitFeedback => match &channel {
                    Some(info) => Event::FeedbackData(vec![Some(copy(info))]),
                    None => Event::FeedbackProgress,
                },
                Action::ParseGtidSet(set) => {
                    assert_eq!(set, "uuid:1-7");
                    Event::GtidSetParsed(upper.clone())
                }
                Action::ReleaseBroadcast => {
                    released[w] = true;
                    Event::Done
                }
                Action::VerifySchemas => Event::SchemasVerified(
                    worker
                        .tables_to_verify()
                        .into_iter()
                        .flat_map(|table| {
                            let outputs = &worker.tasks[table].outputs;
                            outputs.iter().map(move |o| (table, o.output_index))
                        })
                        .filter(|(_, o)| broken.contains(o))
                        .map(|(table, output_index)| SchemaFailure {
                            table,
                            output_index,
                            error: DefiniteError::IncompatibleSchema("changed".to_string()),
                        })
                        .collect(),
                ),
                Action::PublishSchemaErrors(errors) => {
                    for e in errors {
                        let update: Update<u64> = error_update(e.output_index, e.error);
                        *outcome.errors.entry(update.output_index).or_default() += 1;
                    }
                    Event::Done
                }
                Action::MeasureTables => {
                    let mut step = SizeSurvey::start::<()>(worker.tasks.len());
                    while let SurveyStep::Count(survey) = step {
                        let count = contents[&worker.tasks[survey.table].name.1].len() as u64;
                        let (reports, next) = survey.advance(&worker.tasks, Ok(Some(count)));
                        for (export, known, staged) in reports {
                            outcome.gauges.insert((w, export_number(&export)), (known, staged));
                        }
                        step = next;
                    }
                    Event::Done
                }
                Action::ReadTable(i) => {
                    let task = &worker.tasks[i];
                    progress[w].start_table();
                    for key in covered(task, &contents[&task.name.1]) {
                        let decoded = task
                            .outputs
                            .iter()
                            .map(|o| Decoded { output_index: o.output_index, row: Ok(key) })
                            .collect();
                        let (updates, failure) = row_updates::<u64, ()>(decoded);
                        assert!(failure.is_none());
                        for u in updates {
                            let key = u.event.unwrap();
                            *outcome.rows.entry((u.output_index, key)).or_default() += 1;
                        }
                        progress[w].on_row(task.outputs.len());
                    }
                    for export in &task.exports {
                        let gauge = outcome.gauges.get_mut(&(w, export_number(export))).unwrap();
                        gauge.1 = progress[w].staged;
                    }
                    Event::Done
                }
                Action::EmitRewinds(requests) => {
                    for r in requests {
                        assert_eq!(r.snapshot_upper, upper);
                        outcome.rewinds.push((r.output_index, w));
                    }
                    Event::Done
                }
                Action::Finish(result) => {
                    assert_eq!(result, Ok(()));
                    continue;
                }
                _ => Event::Done,
            };
            outcome.connections = outcome.connections.max(open + probes);
            state[w] = Some((worker, event));
        }
    }
    outcome
}

fn outputs() -> Vec<SourceOutputInfo> {
    vec![
        output(1, "a", true),
        output(2, "b", false),
        output(3, "a", true),
        output(4, "c", true),
    ]
}

fn contents() -> BTreeMap<String, Vec<u64>> {
    BTreeMap::from([
        ("a".to_string(), (0..50).map(|k| k * 3).collect()),
        ("b".to_string(), (0..7).collect()),
        ("c".to_string(), vec![5]),
    ])
}

fn table_of(output_index: usize) -> &'static str {
    match output_index {
        1 | 3 => "a",
        2 => "b",
        _ => "c",
    }
}

#[test]
fn each_row_is_written_once_per_output() {
    for n in 1..6 {
        for leader in 0..n {
            let outcome = run(n, leader, &outputs(), &contents(), &[]);
            let mut expected = BTreeMap::new();
            for o in [1, 2, 3, 4] {
                for key in &contents()[table_of(o)] {
                    expected.insert((o, *key), 1);
                }
            }
            assert_eq!(outcome.rows, expected);
            assert!(outcome.errors.is_empty());
        }
    }
}

#[test]
fn each_output_is_rewound_once() {
    for n in 1..6 {
        let mut rewinds = run(n, 0, &outputs(), &contents(), &[]).rewinds;
        rewinds.sort();
        // Tables are owned in turn, from the second worker on.
        assert_eq!(rewinds, vec![(1, 1 % n), (2, 2 % n), (3, 1 % n), (4, 3 % n)]);
    }
}

#[test]
fn a_broken_output_has_one_error_and_nothing_else() {
    for n in 1..6 {
        let outcome = run(n, 0, &outputs(), &contents(), &[3, 4]);
        assert_eq!(outcome.errors, BTreeMap::from([(3, 1), (4, 1)]));
        assert!(outcome.rows.keys().all(|(o, _)| *o == 1 || *o == 2));
        assert_eq!(outcome.rows.len(), 50 + 7);
        assert!(outcome.rows.values().all(|times| *times == 1));
        let mut rewound: Vec<usize> = outcome.rewinds.iter().map(|r| r.0).collect();
        rewound.sort();
        assert_eq!(rewound, vec![1, 2]);
    }
}

#[test]
fn statistics_add_up_over_workers() {
    for n in 1..6 {
        let outcome = run(n, n - 1, &outputs(), &contents(), &[]);
        for o in [1, 2, 3, 4] {
            let gauges: Vec<(u64, u64)> =
                (0..n).map(|w| outcome.gauges[&(w, o as u64)]).collect();
            let rows = contents()[table_of(o)].len() as u64;
            assert_eq!(gauges.iter().map(|g| g.0).sum::<u64>(), rows);
            assert_eq!(gauges.iter().map(|g| g.1).sum::<u64>(), rows);
        }
    }
}

#[test]
fn transactions_start_between_lock_and_unlock() {
    for n in 1..6 {
        let log = run(n, 0, &outputs(), &contents(), &[]).log;
        assert_eq!(log.first(), Some(&(0, "lock")));
        assert_eq!(log.last(), Some(&(0, "unlock")));
        assert!(log[1..log.len() - 1].iter().all(|(_, what)| *what == "start"));
    }
}

#[test]
fn a_source_holds_one_connection_per_worker_and_one_more() {
    for n in 1..6 {
        for leader in 0..n {
            let outcome = run(n, leader, &outputs(), &contents(), &[]);
            assert!(outcome.connections <= n + 1);
        }
    }
}
