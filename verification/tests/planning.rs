use upstream_ingest::mysql::assignment::{
    assign_plans, collect_bounds, find_splits, has_work, make_tasks, retain_outputs,
    rewind_requests, split_failures, tables_to_sample, SampledTable, SchemaFailure, TableBounds,
    TableTask,
};
use upstream_ingest::mysql::desc::{
    GlobalId, GtidPartition, GtidState, KeySet, MySqlColumnDesc, MySqlKeyDesc, MySqlTableDesc,
    MySqlTableName, SourceOutputInfo, SqlColumnType, SqlScalarType,
};
use upstream_ingest::mysql::error::DefiniteError;
use upstream_ingest::mysql::query::has_same_columns;
use upstream_ingest::mysql::splits::{
    partition_for_worker, read_plan, PkColKind, PkSplits, ReadPlan,
};
use upstream_ingest::mysql::survey::{count_reports, CountError, SizeSurvey, SurveyStep};
use upstream_ingest::mysql::tables::{is_pending, snapshot_tables};

/// An output for a table with an integer key.
fn output(output_index: usize, table: &str) -> SourceOutputInfo {
    let mut keys = KeySet::new();
    keys.insert(MySqlKeyDesc {
        name: "PRIMARY".to_string(),
        is_primary: true,
        columns: vec!["id".to_string()],
    });
    SourceOutputInfo {
        output_index,
        table_name: MySqlTableName("s".to_string(), table.to_string()),
        desc: MySqlTableDesc {
            schema_name: "s".to_string(),
            name: table.to_string(),
            columns: vec![MySqlColumnDesc {
                name: "id".to_string(),
                column_type: Some(SqlColumnType {
                    scalar_type: SqlScalarType::Int64,
                    nullable: false,
                }),
            }],
            keys,
        },
        text_columns: vec![],
        exclude_columns: vec![],
        initial_gtid_set: vec![GtidPartition::minimum()],
        resume_upper: vec![GtidPartition::minimum()],
        export_id: GlobalId::User(output_index as u64),
        binlog_full_metadata: false,
    }
}

/// The same for a table without a key.
fn keyless(output_index: usize, table: &str) -> SourceOutputInfo {
    let mut output = output(output_index, table);
    output.desc.keys = KeySet::new();
    output
}

fn tasks(outputs: Vec<SourceOutputInfo>, owners: &[usize]) -> Vec<TableTask> {
    make_tasks(snapshot_tables(outputs).1, &owners.to_vec())
}

fn splits(boundaries: &[&str]) -> PkSplits {
    PkSplits {
        pk_col: "`id`".to_string(),
        boundaries: boundaries.iter().map(|b| b.to_string()).collect(),
    }
}

/// Whether a worker with the given plan reads the row with the given key.
fn reads(plan: &Option<ReadPlan>, key: u64) -> bool {
    match plan {
        None => false,
        Some(ReadPlan::WholeTable) => true,
        Some(ReadPlan::Range(range)) => {
            range.lower.as_ref().map_or(true, |b| b.parse::<u64>().unwrap() <= key)
                && range.upper.as_ref().map_or(true, |b| key < b.parse::<u64>().unwrap())
        }
    }
}

#[test]
fn only_outputs_at_the_minimum_are_pending() {
    let mut o = output(1, "a");
    assert!(is_pending(&o));
    o.resume_upper = vec![];
    assert!(!is_pending(&o));
    o.resume_upper = vec![GtidPartition::minimum(), GtidPartition::minimum()];
    assert!(!is_pending(&o));
    let active = GtidPartition { timestamp: GtidState::Active(1), ..GtidPartition::minimum() };
    o.resume_upper = vec![active];
    assert!(!is_pending(&o));
}

#[test]
fn outputs_are_grouped_by_table() {
    let mut done = output(4, "a");
    done.resume_upper = vec![];
    let (indexes, tables) = snapshot_tables(vec![
        output(7, "c"),
        output(2, "a"),
        done,
        output(9, "c"),
        output(1, "b"),
    ]);
    assert_eq!(indexes, vec![7, 2, 9, 1]);
    let shape: Vec<(String, Vec<usize>)> = tables
        .iter()
        .map(|t| (t.name.1.clone(), t.outputs.iter().map(|o| o.output_index).collect()))
        .collect();
    assert_eq!(
        shape,
        vec![("a".to_string(), vec![2]), ("b".to_string(), vec![1]), ("c".to_string(), vec![7, 9])]
    );
    assert_eq!(tables[2].exports, vec![GlobalId::User(7), GlobalId::User(9)]);
    assert_eq!(snapshot_tables(vec![]).1.len(), 0);
}

#[test]
fn outputs_disagree_on_columns() {
    let a = output(1, "a");
    let mut b = output(2, "a");
    assert!(has_same_columns(&[a.clone(), b.clone()]));
    b.desc.columns.clear();
    assert!(!has_same_columns(&[a, b]));
}

#[test]
fn tables_with_a_key_are_sampled() {
    let tasks = tasks(vec![output(1, "a"), keyless(2, "b"), output(3, "c")], &[0, 1, 0]);
    let jobs = tables_to_sample(&tasks, 2);
    assert_eq!(jobs.len(), 2);
    assert_eq!((jobs[0].table, jobs[0].name.1.as_str()), (0, "a"));
    assert_eq!((jobs[1].table, jobs[1].name.1.as_str()), (2, "c"));
    assert_eq!((jobs[1].pk_col.as_str(), jobs[1].kind), ("`id`", PkColKind::Numeric));
    assert!(tables_to_sample(&tasks, 1).is_empty());
}

#[test]
fn workers_find_what_was_sampled() {
    let tasks = tasks(vec![output(1, "a"), keyless(2, "b"), output(3, "c")], &[0, 1, 0]);
    let results = vec![
        SampledTable { table: 2, splits: Some(splits(&["5"])) },
        SampledTable { table: 0, splits: None },
    ];
    let bounds = collect_bounds(&tasks, &results);
    assert_eq!(bounds.len(), 3);
    assert!(find_splits(&bounds, &tasks[0].name).is_none());
    assert!(find_splits(&bounds, &tasks[1].name).is_none());
    assert_eq!(find_splits(&bounds, &tasks[2].name).unwrap().boundaries, vec!["5".to_string()]);
    let unknown = MySqlTableName("s".to_string(), "z".to_string());
    assert!(find_splits(&bounds, &unknown).is_none());
}

#[test]
fn each_key_is_read_by_one_worker() {
    for workers in 1..6 {
        for owner in 0..workers {
            let cuts: Vec<String> = (1..workers).map(|i| (i * 10).to_string()).collect();
            let cuts: Vec<&str> = cuts.iter().map(|c| c.as_str()).collect();
            // Any number of boundaries up to one per further worker.
            for n in 0..=cuts.len() {
                let splits = splits(&cuts[..n]);
                for key in 0..60 {
                    for table in [Some(&splits), None] {
                        let readers = (0..workers)
                            .filter(|w| reads(&read_plan(table, *w, owner, workers), key))
                            .count();
                        assert_eq!(readers, 1);
                    }
                }
            }
        }
    }
}

#[test]
fn repeated_boundaries_lose_no_key() {
    let splits = splits(&["10", "10", "20"]);
    for key in [0, 9, 10, 11, 19, 20, 21] {
        let readers =
            (0..4).filter(|w| reads(&read_plan(Some(&splits), *w, 1, 4), key)).count();
        assert_eq!(readers, 1);
    }
}

#[test]
fn owners_read_from_the_start() {
    let splits = splits(&["10"]);
    for owner in 0..5 {
        match read_plan(Some(&splits), owner, owner, 5) {
            Some(ReadPlan::Range(range)) => assert_eq!(range.lower, None),
            _ => panic!("no range"),
        }
        assert!(matches!(read_plan(None, owner, owner, 5), Some(ReadPlan::WholeTable)));
        assert!(read_plan(None, (owner + 1) % 5, owner, 5).is_none());
    }
}

#[test]
fn last_ranges_are_spread_by_owner() {
    let readers: Vec<usize> = (0..4)
        .map(|owner| (0..4).find(|w| partition_for_worker(*w, owner, 4) == 3).unwrap())
        .collect();
    assert_eq!(readers, vec![3, 0, 1, 2]);
}

#[test]
fn owners_beyond_the_workers_wrap_around() {
    assert_eq!(partition_for_worker(2, 6, 4), 0);
    assert_eq!(partition_for_worker(1, 6, 4), 3);
}

#[test]
fn plans_follow_the_broadcast() {
    let bounds = vec![TableBounds {
        table: MySqlTableName("s".to_string(), "a".to_string()),
        splits: Some(splits(&["10"])),
    }];
    let outputs = || vec![output(1, "a"), output(2, "b")];
    // Worker 0 owns "b". Of "a" there are two ranges only, for worker 1, which owns it, and the
    // worker after that.
    let planned = assign_plans(tasks(outputs(), &[1, 0]), &bounds, 0, 3);
    assert!(planned[0].plan.is_none());
    assert!(matches!(planned[1].plan, Some(ReadPlan::WholeTable)));
    assert!(has_work(&planned));
    let planned = assign_plans(tasks(outputs(), &[1, 0]), &bounds, 2, 3);
    match &planned[0].plan {
        Some(ReadPlan::Range(range)) => {
            assert_eq!(range.lower.as_deref(), Some("10"));
            assert_eq!(range.upper, None);
        }
        _ => panic!("no range"),
    }
    assert!(planned[1].plan.is_none());
    // Without a part in any table there is no work.
    let planned = assign_plans(tasks(outputs(), &[1, 1]), &vec![], 0, 3);
    assert!(!has_work(&planned));
}

#[test]
fn errors_are_published_by_owners() {
    let failures = || {
        vec![
            SchemaFailure {
                table: 0,
                output_index: 1,
                error: DefiniteError::IncompatibleSchema("a".to_string()),
            },
            SchemaFailure {
                table: 1,
                output_index: 2,
                error: DefiniteError::TableDropped("b".to_string()),
            },
        ]
    };
    let tasks = tasks(vec![output(1, "a"), output(2, "b")], &[0, 1]);
    for worker in 0..3 {
        let (errors, removed) = split_failures(failures(), &tasks, worker);
        assert_eq!(removed, vec![1, 2]);
        let published: Vec<usize> = errors.iter().map(|e| e.output_index).collect();
        assert_eq!(published, if worker < 2 { vec![worker + 1] } else { vec![] });
    }
    let (errors, _) = split_failures(failures(), &tasks, 1);
    assert!(matches!(&errors[0].error, DefiniteError::TableDropped(m) if m == "b"));
}

#[test]
fn failed_outputs_are_dropped() {
    let tasks = tasks(vec![output(1, "a"), output(2, "b"), output(3, "b")], &[0, 1]);
    let left = retain_outputs(tasks, &vec![1, 3]);
    assert_eq!(left.len(), 1);
    assert_eq!((left[0].name.1.as_str(), left[0].owner), ("b", 1));
    assert_eq!(left[0].outputs.len(), 1);
    assert_eq!(left[0].outputs[0].output_index, 2);
    // Statistics still go to all exports of the table.
    assert_eq!(left[0].exports, vec![GlobalId::User(2), GlobalId::User(3)]);
    assert_eq!(retain_outputs(left, &vec![]).len(), 1);
}

#[test]
fn each_output_is_rewound_by_its_owner() {
    let upper = vec![GtidPartition { timestamp: GtidState::Active(9), ..GtidPartition::minimum() }];
    let tasks = tasks(vec![output(1, "a"), output(2, "b"), output(3, "a")], &[0, 1]);
    let mut all = vec![];
    for worker in 0..3 {
        let requests = rewind_requests(&tasks, worker, &upper);
        assert!(requests.iter().all(|r| r.snapshot_upper == upper));
        all.push(requests.iter().map(|r| r.output_index).collect::<Vec<_>>());
    }
    assert_eq!(all, vec![vec![1, 3], vec![2], vec![]]);
}

#[test]
fn counts_are_reported_per_export() {
    assert_eq!(
        count_reports(&vec![GlobalId::User(3), GlobalId::System(1)], 12),
        vec![(GlobalId::User(3), 12, 0), (GlobalId::System(1), 12, 0)]
    );
    assert!(count_reports(&vec![], 12).is_empty());
}

/// Counts tables with the given replies until the survey ends.
fn survey(
    tasks: &Vec<TableTask>,
    replies: Vec<Result<Option<u64>, &'static str>>,
) -> (Vec<(GlobalId, u64, u64)>, Result<u64, CountError<&'static str>>, usize) {
    let mut all = vec![];
    let mut asked = 0;
    let mut replies = replies.into_iter();
    let mut step = SizeSurvey::start(tasks.len());
    loop {
        match step {
            SurveyStep::Count(survey) => {
                assert_eq!(survey.table, asked);
                asked += 1;
                let (reports, next) = survey.advance(tasks, replies.next().unwrap());
                all.extend(reports);
                step = next;
            }
            SurveyStep::Finished(result) => return (all, result, asked),
        }
    }
}

#[test]
fn a_survey_adds_up_all_tables() {
    let tasks = tasks(vec![output(1, "a"), output(2, "b"), output(3, "a")], &[0, 1]);
    let (reports, result, asked) = survey(&tasks, vec![Ok(Some(10)), Ok(Some(7))]);
    assert_eq!(asked, 2);
    assert!(matches!(result, Ok(27)));
    assert_eq!(
        reports,
        vec![(GlobalId::User(1), 10, 0), (GlobalId::User(3), 10, 0), (GlobalId::User(2), 7, 0)]
    );
    assert!(matches!(survey(&vec![], vec![]), (_, Ok(0), 0)));
}

#[test]
fn a_survey_ends_with_the_first_failure() {
    let tasks = tasks(vec![output(1, "a"), output(2, "b")], &[0, 1]);
    let (reports, result, asked) = survey(&tasks, vec![Err("lost")]);
    assert!(matches!(result, Err(CountError::Query("lost"))));
    assert_eq!((reports.len(), asked), (0, 1));
    let (reports, result, asked) = survey(&tasks, vec![Ok(Some(1)), Ok(None)]);
    assert!(matches!(
        result,
        Err(CountError::NoRow(m)) if m == "failed to COUNT(*) `s`.`b`"
    ));
    assert_eq!((reports.len(), asked), (1, 2));
}
