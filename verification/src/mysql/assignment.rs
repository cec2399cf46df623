//! What each worker has to do for each table.

use vstd::prelude::*;

use crate::mysql::desc::{
    lemma_first_match, GlobalId, GtidPartition, MySqlTableName, SourceOutputInfo,
};
use crate::mysql::error::DefiniteError;
use crate::mysql::splits::{
    formattable_pk, plan_of, plan_view, read_plan, splits_of, splittable_pk, PkColKind, PkSplits,
    PlanView, ReadPlan, SplitsView,
};
use crate::mysql::tables::SnapshotTable;

verus! {

/// A worker's view of one table to snapshot.
#[derive(Debug)]
pub struct TableTask {
    pub name: MySqlTableName,
    /// The worker that is responsible for the table. It reads the table whole if the table is
    /// not partitioned, and it alone publishes errors and rewind requests for the table.
    pub owner: usize,
    pub exports: Vec<GlobalId>,
    pub outputs: Vec<SourceOutputInfo>,
    /// What this worker reads of the table, if anything.
    pub plan: Option<ReadPlan>,
}

/// What a [`TableTask`] stands for.
#[verifier::ext_equal]
pub struct TaskView {
    pub name: (Seq<char>, Seq<char>),
    pub owner: int,
    pub exports: Seq<GlobalId>,
    pub outputs: Seq<SourceOutputInfo>,
    pub plan: Option<PlanView>,
}

impl View for TableTask {
    type V = TaskView;

    open spec fn view(&self) -> TaskView {
        TaskView {
            name: self.name@,
            owner: self.owner as int,
            exports: self.exports@,
            outputs: self.outputs@,
            plan: plan_view(self.plan),
        }
    }
}

/// The contents of a list of tasks.
pub open spec fn task_views(tasks: Seq<TableTask>) -> Seq<TaskView> {
    tasks.map_values(|t: TableTask| t@)
}

/// No table is without outputs.
pub open spec fn all_have_outputs(tasks: Seq<TaskView>) -> bool {
    forall|i: int| 0 <= i < tasks.len() ==> (#[trigger] tasks[i]).outputs.len() > 0
}

/// The tasks for `tables`, table `i` being owned by worker `owners[i]`, before anything is known
/// about what to read.
pub open spec fn fresh_tasks(tables: Seq<SnapshotTable>, owners: Seq<usize>) -> Seq<TaskView> {
    Seq::new(
        tables.len(),
        |i: int|
            TaskView {
                name: tables[i].name@,
                owner: owners[i] as int,
                exports: tables[i].exports@,
                outputs: tables[i].outputs@,
                plan: None,
            },
    )
}

/// Makes a task of each table.
pub fn make_tasks(tables: Vec<SnapshotTable>, owners: &Vec<usize>) -> (r: Vec<TableTask>)
    requires
        owners@.len() == tables@.len(),
    ensures
        task_views(r@) == fresh_tasks(tables@, owners@),
{
    let ghost all = tables@;
    let mut r: Vec<TableTask> = Vec::new();
    let count = owners.len();
    let mut i: usize = 0;
    for table in it: tables
        invariant
            it.seq() == all,
            i == it.index(),
            count == owners@.len() == all.len(),
            task_views(r@) == fresh_tasks(all, owners@).take(i as int),
    {
        let ghost done = r@;
        assert(table == all[i as int]);
        let SnapshotTable { name, exports, outputs } = table;
        r.push(TableTask { name, owner: owners[i], exports, outputs, plan: None });
        assert(task_views(r@) =~= task_views(done).push(r@.last()@));
        assert(r@.last()@ == fresh_tasks(all, owners@)[i as int]);
        i += 1;
    }
    assert(fresh_tasks(all, owners@).take(all.len() as int) =~= fresh_tasks(all, owners@));
    r
}

/// A table whose boundaries are to be sampled.
#[derive(Debug)]
pub struct SamplingJob {
    /// The table's position among the tasks.
    pub table: usize,
    pub name: MySqlTableName,
    pub pk_col: String,
    pub kind: PkColKind,
}

/// What a [`SamplingJob`] stands for.
#[verifier::ext_equal]
pub struct JobView {
    pub table: int,
    pub name: (Seq<char>, Seq<char>),
    pub pk_col: Seq<char>,
    pub kind: PkColKind,
}

impl View for SamplingJob {
    type V = JobView;

    open spec fn view(&self) -> JobView {
        JobView {
            table: self.table as int,
            name: self.name@,
            pk_col: self.pk_col@,
            kind: self.kind,
        }
    }
}

/// The contents of a list of jobs.
pub open spec fn job_views(jobs: Seq<SamplingJob>) -> Seq<JobView> {
    jobs.map_values(|j: SamplingJob| j@)
}

/// The first `n` tables with a primary key that they can be split by. The first output of a table
/// describes it.
pub open spec fn splittable_tables(tasks: Seq<TaskView>, n: nat) -> Seq<JobView>
    decreases n,
{
    if n == 0 {
        Seq::empty()
    } else {
        let i = n - 1;
        let before = splittable_tables(tasks, i as nat);
        match splittable_pk(tasks[i].outputs[0].desc) {
            Some((pk_col, kind)) => before.push(
                JobView { table: i, name: tasks[i].name, pk_col, kind },
            ),
            None => before,
        }
    }
}

/// The tables to sample. A single worker has nothing to split.
pub open spec fn sampling_jobs(tasks: Seq<TaskView>, worker_count: int) -> Seq<JobView> {
    if worker_count < 2 {
        Seq::empty()
    } else {
        splittable_tables(tasks, tasks.len())
    }
}

/// Determines the tables to sample.
pub fn tables_to_sample(tasks: &Vec<TableTask>, worker_count: usize) -> (r: Vec<SamplingJob>)
    requires
        all_have_outputs(task_views(tasks@)),
    ensures
        job_views(r@) == sampling_jobs(task_views(tasks@), worker_count as int),
{
    let ghost views = task_views(tasks@);
    let mut r: Vec<SamplingJob> = Vec::new();
    assert(job_views(r@) =~= Seq::<JobView>::empty());
    if worker_count < 2 {
        return r;
    }
    let mut i: usize = 0;
    while i < tasks.len()
        invariant
            i <= tasks@.len(),
            views == task_views(tasks@),
            all_have_outputs(views),
            job_views(r@) == splittable_tables(views, i as nat),
        decreases tasks@.len() - i,
    {
        let ghost done = r@;
        assert(views[i as int].outputs.len() > 0);
        match formattable_pk(&tasks[i].outputs[0].desc) {
            Some((pk_col, kind)) => {
                r.push(SamplingJob { table: i, name: tasks[i].name.clone(), pk_col, kind });
                assert(job_views(r@) =~= job_views(done).push(r@.last()@));
            },
            None => {},
        }
        i += 1;
    }
    r
}

/// The outcome of sampling one table.
#[derive(Debug)]
pub struct SampledTable {
    /// The table's position among the tasks.
    pub table: usize,
    pub splits: Option<PkSplits>,
}

/// How a table is split. Without splits it is not partitioned.
#[derive(Debug)]
pub struct TableBounds {
    pub table: MySqlTableName,
    pub splits: Option<PkSplits>,
}

/// What a [`TableBounds`] stands for.
#[verifier::ext_equal]
pub struct BoundsView {
    pub table: (Seq<char>, Seq<char>),
    pub splits: Option<SplitsView>,
}

/// The contents of optional splits.
pub open spec fn splits_view(splits: Option<PkSplits>) -> Option<SplitsView> {
    match splits {
        Some(splits) => Some(splits@),
        None => None,
    }
}

impl View for TableBounds {
    type V = BoundsView;

    open spec fn view(&self) -> BoundsView {
        BoundsView { table: self.table@, splits: splits_view(self.splits) }
    }
}

/// The contents of a list of bounds.
pub open spec fn bounds_views(bounds: Seq<TableBounds>) -> Seq<BoundsView> {
    bounds.map_values(|b: TableBounds| b@)
}

/// What sampling found out about table `table`, the last outcome counting if there are several.
pub open spec fn outcome_for(results: Seq<SampledTable>, table: int) -> Option<SplitsView>
    decreases results.len(),
{
    if results.len() == 0 {
        None
    } else if results.last().table == table {
        splits_view(results.last().splits)
    } else {
        outcome_for(results.drop_last(), table)
    }
}

/// How each table is split. A table that was not sampled is not partitioned.
pub open spec fn bounds_from(tasks: Seq<TaskView>, results: Seq<SampledTable>) -> Seq<BoundsView> {
    Seq::new(
        tasks.len(),
        |i: int| BoundsView { table: tasks[i].name, splits: outcome_for(results, i) },
    )
}

/// Collects how each table is split.
pub fn collect_bounds(tasks: &Vec<TableTask>, results: &Vec<SampledTable>) -> (r: Vec<TableBounds>)
    ensures
        bounds_views(r@) == bounds_from(task_views(tasks@), results@),
{
    let ghost expected = bounds_from(task_views(tasks@), results@);
    let mut r: Vec<TableBounds> = Vec::new();
    let mut i: usize = 0;
    while i < tasks.len()
        invariant
            i <= tasks@.len(),
            expected == bounds_from(task_views(tasks@), results@),
            bounds_views(r@) == expected.take(i as int),
        decreases tasks@.len() - i,
    {
        let ghost done = r@;
        let splits = sampled_splits(results, i);
        r.push(TableBounds { table: tasks[i].name.clone(), splits });
        assert(bounds_views(r@) =~= bounds_views(done).push(r@.last()@));
        assert(r@.last()@ == expected[i as int]);
        i += 1;
    }
    assert(expected.take(i as int) =~= expected);
    r
}

/// What sampling found out about table `table`.
fn sampled_splits(results: &Vec<SampledTable>, table: usize) -> (r: Option<PkSplits>)
    ensures
        splits_view(r) == outcome_for(results@, table as int),
{
    let mut n = results.len();
    assert(results@.take(n as int) =~= results@);
    while n > 0
        invariant
            n <= results@.len(),
            outcome_for(results@, table as int) == outcome_for(
                results@.take(n as int),
                table as int,
            ),
        decreases n,
    {
        let result = &results[n - 1];
        assert(results@.take(n as int).drop_last() =~= results@.take(n - 1));
        if result.table == table {
            return match &result.splits {
                Some(splits) => Some(splits.clone()),
                None => None,
            };
        }
        n -= 1;
    }
    None
}

/// What the leader tells all workers.
#[derive(Debug)]
pub struct SnapshotInfo {
    /// The transactions that the locked tables contain.
    pub gtid_set: String,
    /// How each table is split.
    pub pk_bounds: Vec<TableBounds>,
}

/// Says how the given table is split.
pub open spec fn bounds_of(table: (Seq<char>, Seq<char>)) -> spec_fn(TableBounds) -> bool {
    |b: TableBounds| b.table@ == table
}

/// How the given table is split, if it is.
pub open spec fn splits_for(
    bounds: Seq<TableBounds>,
    table: (Seq<char>, Seq<char>),
) -> Option<SplitsView> {
    let found = bounds.filter(bounds_of(table));
    if found.len() > 0 {
        splits_view(found[0].splits)
    } else {
        None
    }
}

/// Looks up how `table` is split.
pub fn find_splits<'a>(bounds: &'a Vec<TableBounds>, table: &MySqlTableName) -> (r: Option<
    &'a PkSplits,
>)
    ensures
        splits_of(r) == splits_for(bounds@, table@),
{
    let ghost p = bounds_of(table@);
    let mut i: usize = 0;
    proof {
        assert(bounds@.take(0) =~= Seq::<TableBounds>::empty());
        reveal(Seq::filter);
    }
    while i < bounds.len()
        invariant
            i <= bounds@.len(),
            p == bounds_of(table@),
            bounds@.take(i as int).filter(p).len() == 0,
        decreases bounds@.len() - i,
    {
        proof {
            lemma_first_match(bounds@, p, i as int);
        }
        if bounds[i].table.same(table) {
            return match &bounds[i].splits {
                Some(splits) => Some(splits),
                None => None,
            };
        }
        i += 1;
    }
    assert(bounds@.take(i as int) =~= bounds@);
    None
}

/// The tasks of `worker` once it is known how the tables are split.
pub open spec fn planned(
    tasks: Seq<TaskView>,
    bounds: Seq<TableBounds>,
    worker: int,
    worker_count: int,
) -> Seq<TaskView> {
    tasks.map_values(
        |t: TaskView|
            TaskView {
                plan: plan_of(splits_for(bounds, t.name), worker, t.owner, worker_count),
                ..t
            },
    )
}

/// Decides what worker `worker_id` reads of each table.
pub fn assign_plans(
    tasks: Vec<TableTask>,
    bounds: &Vec<TableBounds>,
    worker_id: usize,
    worker_count: usize,
) -> (r: Vec<TableTask>)
    requires
        worker_count > 0,
        worker_id + worker_count <= usize::MAX,
    ensures
        task_views(r@) == planned(
            task_views(tasks@),
            bounds@,
            worker_id as int,
            worker_count as int,
        ),
{
    let ghost all = tasks@;
    let ghost expected = planned(
        task_views(all),
        bounds@,
        worker_id as int,
        worker_count as int,
    );
    let mut r: Vec<TableTask> = Vec::new();
    for task in it: tasks
        invariant
            it.seq() == all,
            worker_count > 0,
            worker_id + worker_count <= usize::MAX,
            expected == planned(task_views(all), bounds@, worker_id as int, worker_count as int),
            task_views(r@) == expected.take(it.index()),
    {
        let ghost done = r@;
        assert(task == all[it.index()]);
        let mut task = task;
        task.plan = read_plan(
            find_splits(bounds, &task.name),
            worker_id,
            task.owner,
            worker_count,
        );
        r.push(task);
        assert(task_views(r@) =~= task_views(done).push(r@.last()@));
        assert(r@.last()@ == expected[it.index()]);
    }
    assert(expected.take(all.len() as int) =~= expected);
    r
}

/// The worker has something to read.
pub open spec fn any_planned(tasks: Seq<TaskView>) -> bool {
    exists|i: int| 0 <= i < tasks.len() && (#[trigger] tasks[i]).plan is Some
}

/// Whether the worker has something to read.
pub fn has_work(tasks: &Vec<TableTask>) -> (r: bool)
    ensures
        r == any_planned(task_views(tasks@)),
{
    let ghost views = task_views(tasks@);
    let mut i: usize = 0;
    while i < tasks.len()
        invariant
            i <= tasks@.len(),
            views == task_views(tasks@),
            forall|j: int| 0 <= j < i ==> (#[trigger] views[j]).plan is None,
        decreases tasks@.len() - i,
    {
        assert(views[i as int].plan is Some <==> tasks@[i as int].plan is Some);
        if tasks[i].plan.is_some() {
            return true;
        }
        i += 1;
    }
    false
}

/// An output whose table does not look as it should any more.
#[derive(Debug)]
pub struct SchemaFailure {
    /// The table's position among the tasks.
    pub table: usize,
    pub output_index: usize,
    pub error: DefiniteError,
}

/// An error to write to an output.
#[derive(Debug)]
pub struct OutputError {
    pub output_index: usize,
    pub error: DefiniteError,
}

/// All failures are about tables among the tasks.
pub open spec fn failures_in_range(failures: Seq<SchemaFailure>, tasks: int) -> bool {
    forall|i: int| 0 <= i < failures.len() ==> (#[trigger] failures[i]).table < tasks
}

/// The failures that `worker` publishes: those of the tables that it owns. Every worker that
/// reads a table learns of a failure, but the error is to be written once.
pub open spec fn published(
    failures: Seq<SchemaFailure>,
    tasks: Seq<TaskView>,
    worker: int,
) -> Seq<OutputError> {
    failures.filter(|f: SchemaFailure| tasks[f.table as int].owner == worker).map_values(
        |f: SchemaFailure| OutputError { output_index: f.output_index, error: f.error },
    )
}

/// The outputs with the given indexes left out.
pub open spec fn without(outputs: Seq<SourceOutputInfo>, removed: Set<usize>) -> Seq<
    SourceOutputInfo,
> {
    outputs.filter(|o: SourceOutputInfo| !removed.contains(o.output_index))
}

/// The indexes of the outputs that failed.
pub open spec fn failed_outputs(failures: Seq<SchemaFailure>) -> Set<usize> {
    failures.map_values(|f: SchemaFailure| f.output_index).to_set()
}

/// The tasks with the given outputs left out. Tables without outputs are dropped.
pub open spec fn surviving(tasks: Seq<TaskView>, removed: Set<usize>) -> Seq<TaskView> {
    tasks.map_values(
        |t: TaskView| TaskView { outputs: without(t.outputs, removed), ..t },
    ).filter(|t: TaskView| t.outputs.len() > 0)
}

/// Picks the failures that worker `worker_id` publishes and collects the outputs that failed.
pub fn split_failures(
    failures: Vec<SchemaFailure>,
    tasks: &Vec<TableTask>,
    worker_id: usize,
) -> (r: (Vec<OutputError>, Vec<usize>))
    requires
        failures_in_range(failures@, tasks@.len() as int),
    ensures
        r.0@ == published(failures@, task_views(tasks@), worker_id as int),
        r.1@.to_set() == failed_outputs(failures@),
{
    let ghost all = failures@;
    let ghost views = task_views(tasks@);
    let ghost mine = |f: SchemaFailure| views[f.table as int].owner == worker_id as int;
    let ghost report = |f: SchemaFailure|
        OutputError { output_index: f.output_index, error: f.error };
    let mut errors: Vec<OutputError> = Vec::new();
    let mut removed: Vec<usize> = Vec::new();
    proof {
        reveal(Seq::filter);
        assert(all.take(0) =~= Seq::<SchemaFailure>::empty());
        assert(all.take(0).filter(mine).map_values(report) =~= Seq::<OutputError>::empty());
        assert(removed@ =~= all.take(0).map_values(|f: SchemaFailure| f.output_index));
    }
    for failure in it: failures
        invariant
            it.seq() == all,
            views == task_views(tasks@),
            failures_in_range(all, tasks@.len() as int),
            mine == (|f: SchemaFailure| views[f.table as int].owner == worker_id as int),
            report == (|f: SchemaFailure|
                OutputError { output_index: f.output_index, error: f.error }),
            errors@ == all.take(it.index()).filter(mine).map_values(report),
            removed@ == all.take(it.index()).map_values(|f: SchemaFailure| f.output_index),
    {
        let ghost done = all.take(it.index());
        let ghost before = removed@;
        let ghost reported = errors@;
        proof {
            assert(failure == all[it.index()]);
            assert(all.take(it.index() + 1) =~= done.push(failure));
            done.lemma_filter_push(failure, mine);
            assert(done.push(failure).map_values(|f: SchemaFailure| f.output_index) =~= before.push(
                failure.output_index,
            ));
            assert(done.filter(mine).push(failure).map_values(report) =~= reported.push(
                report(failure),
            ));
            assert(views[failure.table as int].owner == tasks@[failure.table as int].owner);
        }
        removed.push(failure.output_index);
        if tasks[failure.table].owner == worker_id {
            errors.push(
                OutputError { output_index: failure.output_index, error: failure.error },
            );
        }
    }
    assert(all.take(all.len() as int) =~= all);
    (errors, removed)
}

/// Whether `index` is among `indexes`.
fn contains_index(indexes: &Vec<usize>, index: usize) -> (r: bool)
    ensures
        r == indexes@.contains(index),
{
    let mut i: usize = 0;
    while i < indexes.len()
        invariant
            i <= indexes@.len(),
            forall|j: int| 0 <= j < i ==> indexes@[j] != index,
        decreases indexes@.len() - i,
    {
        if indexes[i] == index {
            return true;
        }
        i += 1;
    }
    false
}

/// Leaves out the given outputs.
fn drop_outputs(outputs: Vec<SourceOutputInfo>, removed: &Vec<usize>) -> (r: Vec<SourceOutputInfo>)
    ensures
        r@ == without(outputs@, removed@.to_set()),
{
    let ghost all = outputs@;
    let ghost p = |o: SourceOutputInfo| !removed@.to_set().contains(o.output_index);
    let mut r: Vec<SourceOutputInfo> = Vec::new();
    proof {
        reveal(Seq::filter);
        assert(all.take(0) =~= Seq::<SourceOutputInfo>::empty());
    }
    for output in it: outputs
        invariant
            it.seq() == all,
            p == (|o: SourceOutputInfo| !removed@.to_set().contains(o.output_index)),
            r@ == all.take(it.index()).filter(p),
    {
        proof {
            assert(output == all[it.index()]);
            assert(all.take(it.index() + 1) =~= all.take(it.index()).push(output));
            all.take(it.index()).lemma_filter_push(output, p);
        }
        if !contains_index(removed, output.output_index) {
            r.push(output);
        }
    }
    assert(all.take(all.len() as int) =~= all);
    r
}

/// Leaves out the given outputs, and the tables that have no outputs left.
pub fn retain_outputs(tasks: Vec<TableTask>, removed: &Vec<usize>) -> (r: Vec<TableTask>)
    ensures
        task_views(r@) == surviving(task_views(tasks@), removed@.to_set()),
{
    let ghost all = tasks@;
    let ghost gone = removed@.to_set();
    let ghost strip = |t: TaskView| TaskView { outputs: without(t.outputs, gone), ..t };
    let ghost p = |t: TaskView| t.outputs.len() > 0;
    let ghost stripped = task_views(all).map_values(strip);
    let mut r: Vec<TableTask> = Vec::new();
    proof {
        reveal(Seq::filter);
        assert(stripped.take(0) =~= Seq::<TaskView>::empty());
        assert(task_views(r@) =~= Seq::<TaskView>::empty());
    }
    for task in it: tasks
        invariant
            it.seq() == all,
            gone == removed@.to_set(),
            strip == (|t: TaskView| TaskView { outputs: without(t.outputs, gone), ..t }),
            p == (|t: TaskView| t.outputs.len() > 0),
            stripped == task_views(all).map_values(strip),
            task_views(r@) == stripped.take(it.index()).filter(p),
    {
        let ghost done = r@;
        assert(task == all[it.index()]);
        let TableTask { name, owner, exports, outputs, plan } = task;
        let outputs = drop_outputs(outputs, removed);
        let task = TableTask { name, owner, exports, outputs, plan };
        proof {
            assert(task@ == stripped[it.index()]);
            assert(stripped.take(it.index() + 1) =~= stripped.take(it.index()).push(task@));
            stripped.take(it.index()).lemma_filter_push(task@, p);
        }
        if task.outputs.len() > 0 {
            r.push(task);
            assert(task_views(r@) =~= task_views(done).push(task@));
        }
    }
    assert(stripped.take(all.len() as int) =~= stripped);
    r
}

/// Asks the replication side to take back what it sees of an output's table before
/// `snapshot_upper`, which the snapshot contains already.
#[derive(Debug)]
pub struct RewindRequest {
    pub output_index: usize,
    pub snapshot_upper: Vec<GtidPartition>,
}

/// What a [`RewindRequest`] stands for.
#[verifier::ext_equal]
pub struct RewindView {
    pub output_index: usize,
    pub snapshot_upper: Seq<GtidPartition>,
}

impl View for RewindRequest {
    type V = RewindView;

    open spec fn view(&self) -> RewindView {
        RewindView { output_index: self.output_index, snapshot_upper: self.snapshot_upper@ }
    }
}

/// The contents of a list of requests.
pub open spec fn rewind_views(requests: Seq<RewindRequest>) -> Seq<RewindView> {
    requests.map_values(|r: RewindRequest| r@)
}

/// The requests for outputs of one table.
pub open spec fn table_rewinds(
    outputs: Seq<SourceOutputInfo>,
    upper: Seq<GtidPartition>,
) -> Seq<RewindView> {
    outputs.map_values(
        |o: SourceOutputInfo| RewindView { output_index: o.output_index, snapshot_upper: upper },
    )
}

/// The requests that `worker` makes: one for each output of the tables that it owns.
pub open spec fn rewinds_of(
    tasks: Seq<TaskView>,
    worker: int,
    upper: Seq<GtidPartition>,
) -> Seq<RewindView>
    decreases tasks.len(),
{
    if tasks.len() == 0 {
        Seq::empty()
    } else if tasks.last().owner == worker {
        rewinds_of(tasks.drop_last(), worker, upper) + table_rewinds(tasks.last().outputs, upper)
    } else {
        rewinds_of(tasks.drop_last(), worker, upper)
    }
}

/// Makes the requests of worker `worker_id`.
pub fn rewind_requests(
    tasks: &Vec<TableTask>,
    worker_id: usize,
    upper: &Vec<GtidPartition>,
) -> (r: Vec<RewindRequest>)
    ensures
        rewind_views(r@) == rewinds_of(task_views(tasks@), worker_id as int, upper@),
{
    let ghost views = task_views(tasks@);
    let mut r: Vec<RewindRequest> = Vec::new();
    let mut i: usize = 0;
    assert(rewind_views(r@) =~= rewinds_of(views.take(0), worker_id as int, upper@));
    while i < tasks.len()
        invariant
            i <= tasks@.len(),
            views == task_views(tasks@),
            rewind_views(r@) == rewinds_of(views.take(i as int), worker_id as int, upper@),
        decreases tasks@.len() - i,
    {
        let ghost before = rewind_views(r@);
        assert(views.take(i + 1).drop_last() =~= views.take(i as int));
        assert(views[i as int] == tasks@[i as int]@);
        if tasks[i].owner == worker_id {
            let outputs = &tasks[i].outputs;
            let mut k: usize = 0;
            assert(before + table_rewinds(outputs@.take(0), upper@) =~= before);
            while k < outputs.len()
                invariant
                    k <= outputs@.len(),
                    rewind_views(r@) == before + table_rewinds(outputs@.take(k as int), upper@),
                decreases outputs@.len() - k,
            {
                let ghost done = r@;
                let snapshot_upper = upper.clone();
                assert(snapshot_upper@ =~= upper@);
                r.push(RewindRequest { output_index: outputs[k].output_index, snapshot_upper });
                proof {
                    assert(outputs@.take(k + 1) =~= outputs@.take(k as int).push(
                        outputs@[k as int],
                    ));
                    assert(rewind_views(r@) =~= rewind_views(done).push(r@.last()@));
                    assert(table_rewinds(outputs@.take(k + 1), upper@) =~= table_rewinds(
                        outputs@.take(k as int),
                        upper@,
                    ).push(r@.last()@));
                    assert(rewind_views(r@) =~= before + table_rewinds(
                        outputs@.take(k + 1),
                        upper@,
                    ));
                }
                k += 1;
            }
            assert(outputs@.take(k as int) =~= outputs@);
        }
        i += 1;
    }
    assert(views.take(i as int) =~= views);
    r
}

/// A task takes over all that is known of its table, and its owner. Nothing is planned yet.
pub proof fn law_tasks_take_over_their_tables(
    tables: Seq<SnapshotTable>,
    owners: Seq<usize>,
    i: int,
)
    requires
        0 <= i < tables.len(),
    ensures
        fresh_tasks(tables, owners).len() == tables.len(),
        fresh_tasks(tables, owners)[i].name == tables[i].name@,
        fresh_tasks(tables, owners)[i].owner == owners[i],
        fresh_tasks(tables, owners)[i].exports == tables[i].exports@,
        fresh_tasks(tables, owners)[i].outputs == tables[i].outputs@,
        fresh_tasks(tables, owners)[i].plan is None,
{
}

/// What a task stands for is made up of its parts.
pub proof fn law_task_views_keep_all_parts(task: TableTask)
    ensures
        task@.name == task.name@,
        task@.owner == task.owner,
        task@.exports == task.exports@,
        task@.outputs == task.outputs@,
        task@.plan is Some <==> task.plan is Some,
        task.plan matches Some(plan) ==> task@.plan == Some(plan@),
{
}

/// There is a job for table `i`.
pub open spec fn has_job(jobs: Seq<JobView>, i: int) -> bool {
    exists|j: int| 0 <= j < jobs.len() && (#[trigger] jobs[j]).table == i
}

proof fn lemma_jobs(tasks: Seq<TaskView>, n: nat)
    requires
        n <= tasks.len(),
    ensures
        ({
            let jobs = splittable_tables(tasks, n);
            &&& forall|j: int|
                #![trigger jobs[j]]
                0 <= j < jobs.len() ==> {
                    &&& 0 <= jobs[j].table < n
                    &&& jobs[j].name == tasks[jobs[j].table].name
                    &&& splittable_pk(tasks[jobs[j].table].outputs[0].desc) == Some(
                        (jobs[j].pk_col, jobs[j].kind),
                    )
                }
            &&& forall|j: int, k: int|
                0 <= j < k < jobs.len() ==> (#[trigger] jobs[j]).table < (#[trigger] jobs[k]).table
            &&& forall|i: int|
                0 <= i < n && splittable_pk(
                    (#[trigger] tasks[i]).outputs[0].desc,
                ) is Some ==> has_job(jobs, i)
        }),
    decreases n,
{
    if n > 0 {
        let i = n - 1;
        lemma_jobs(tasks, i as nat);
        let before = splittable_tables(tasks, i as nat);
        let jobs = splittable_tables(tasks, n);
        assert forall|x: int|
            0 <= x < n && splittable_pk(
                (#[trigger] tasks[x]).outputs[0].desc,
            ) is Some implies has_job(jobs, x) by {
            if x < i {
                assert(has_job(before, x));
                let j = choose|j: int| 0 <= j < before.len() && (#[trigger] before[j]).table == x;
                assert(jobs[j].table == x);
            } else {
                assert(jobs[jobs.len() - 1].table == x);
            }
        }
    }
}

/// With two workers or more, every table that can be split is sampled, by its own key column, once
/// and in order, and no other table is. With one worker none is.
pub proof fn law_tables_that_can_be_split_are_sampled(tasks: Seq<TaskView>, worker_count: int)
    ensures
        ({
            let jobs = sampling_jobs(tasks, worker_count);
            &&& worker_count < 2 ==> jobs.len() == 0
            &&& worker_count >= 2 ==> {
                &&& forall|i: int|
                    0 <= i < tasks.len() && splittable_pk(
                        (#[trigger] tasks[i]).outputs[0].desc,
                    ) is Some ==> has_job(jobs, i)
                &&& forall|j: int|
                    #![trigger jobs[j]]
                    0 <= j < jobs.len() ==> {
                        &&& 0 <= jobs[j].table < tasks.len()
                        &&& jobs[j].name == tasks[jobs[j].table].name
                        &&& splittable_pk(tasks[jobs[j].table].outputs[0].desc) == Some(
                            (jobs[j].pk_col, jobs[j].kind),
                        )
                    }
                &&& forall|j: int, k: int|
                    0 <= j < k < jobs.len() ==> (#[trigger] jobs[j]).table < (
                    #[trigger] jobs[k]).table
            }
        }),
{
    lemma_jobs(tasks, tasks.len());
}

/// The outcome of sampling counts for the table that was sampled, and for no other. Where a table
/// was sampled more than once, the last outcome counts.
pub proof fn law_outcomes_count_for_their_table(
    results: Seq<SampledTable>,
    result: SampledTable,
    table: int,
)
    ensures
        outcome_for(Seq::<SampledTable>::empty(), table) is None,
        outcome_for(results.push(result), table) == (if result.table == table {
            match result.splits {
                Some(splits) => Some(splits@),
                None => None,
            }
        } else {
            outcome_for(results, table)
        }),
{
    assert(results.push(result).drop_last() =~= results);
}

/// Every table has its bounds, in order: what came of sampling it.
pub proof fn law_every_table_has_its_bounds(
    tasks: Seq<TaskView>,
    results: Seq<SampledTable>,
    i: int,
)
    requires
        0 <= i < tasks.len(),
    ensures
        bounds_from(tasks, results).len() == tasks.len(),
        bounds_from(tasks, results)[i].table == tasks[i].name,
        bounds_from(tasks, results)[i].splits == outcome_for(results, i),
{
}

/// Planning decides what a worker reads of each table and changes nothing else.
pub proof fn law_planning_only_plans(
    tasks: Seq<TaskView>,
    bounds: Seq<TableBounds>,
    worker: int,
    worker_count: int,
    i: int,
)
    requires
        0 <= i < tasks.len(),
    ensures
        planned(tasks, bounds, worker, worker_count).len() == tasks.len(),
        planned(tasks, bounds, worker, worker_count)[i].name == tasks[i].name,
        planned(tasks, bounds, worker, worker_count)[i].owner == tasks[i].owner,
        planned(tasks, bounds, worker, worker_count)[i].exports == tasks[i].exports,
        planned(tasks, bounds, worker, worker_count)[i].outputs == tasks[i].outputs,
        planned(tasks, bounds, worker, worker_count)[i].plan == plan_of(
            splits_for(bounds, tasks[i].name),
            worker,
            tasks[i].owner,
            worker_count,
        ),
{
}

/// A table is looked up by its name: the first entry for it counts.
pub proof fn law_lookup_goes_by_name(
    bounds: Seq<TableBounds>,
    entry: TableBounds,
    name: (Seq<char>, Seq<char>),
)
    ensures
        splits_for(Seq::<TableBounds>::empty(), name) is None,
        entry.table@ == name && bounds.filter(bounds_of(name)).len() == 0 ==> splits_for(
            bounds.push(entry),
            name,
        ) == (match entry.splits {
            Some(splits) => Some(splits@),
            None => None,
        }),
        entry.table@ != name || bounds.filter(bounds_of(name)).len() > 0 ==> splits_for(
            bounds.push(entry),
            name,
        ) == splits_for(bounds, name),
{
    reveal(Seq::filter);
    bounds.lemma_filter_push(entry, bounds_of(name));
}

/// Outputs are left out one by one: one that failed is dropped and any other is kept, in order.
pub proof fn law_outputs_are_left_out_one_by_one(
    outputs: Seq<SourceOutputInfo>,
    output: SourceOutputInfo,
    removed: Set<usize>,
)
    ensures
        without(Seq::<SourceOutputInfo>::empty(), removed).len() == 0,
        without(outputs.push(output), removed) == (if removed.contains(output.output_index) {
            without(outputs, removed)
        } else {
            without(outputs, removed).push(output)
        }),
{
    reveal(Seq::filter);
    outputs.lemma_filter_push(output, |o: SourceOutputInfo| !removed.contains(o.output_index));
}

/// Tables lose the outputs that failed and nothing else, one by one and in order. A table is
/// dropped if it has no output left.
pub proof fn law_tables_lose_only_outputs(
    tasks: Seq<TaskView>,
    task: TaskView,
    removed: Set<usize>,
)
    ensures
        surviving(Seq::<TaskView>::empty(), removed).len() == 0,
        without(task.outputs, removed).len() == 0 ==> surviving(tasks.push(task), removed)
            == surviving(tasks, removed),
        without(task.outputs, removed).len() > 0 ==> {
            let all = surviving(tasks.push(task), removed);
            let last = all[all.len() - 1];
            &&& all.len() == surviving(tasks, removed).len() + 1
            &&& all.drop_last() == surviving(tasks, removed)
            &&& last.name == task.name
            &&& last.owner == task.owner
            &&& last.exports == task.exports
            &&& last.plan == task.plan
            &&& last.outputs == without(task.outputs, removed)
        },
{
    let strip = |t: TaskView| TaskView { outputs: without(t.outputs, removed), ..t };
    let p = |t: TaskView| t.outputs.len() > 0;
    reveal(Seq::filter);
    assert(Seq::<TaskView>::empty().map_values(strip) =~= Seq::<TaskView>::empty());
    assert(tasks.push(task).map_values(strip) =~= tasks.map_values(strip).push(strip(task)));
    tasks.map_values(strip).lemma_filter_push(strip(task), p);
    if without(task.outputs, removed).len() > 0 {
        assert(surviving(tasks.push(task), removed).drop_last() =~= surviving(tasks, removed));
    }
}

/// Failures are published one by one and in order, each with its own error, by the worker that
/// owns the table. The output fails on every worker that learns of it.
pub proof fn law_failures_are_published_one_by_one(
    failures: Seq<SchemaFailure>,
    failure: SchemaFailure,
    tasks: Seq<TaskView>,
    worker: int,
    output_index: usize,
)
    ensures
        published(Seq::<SchemaFailure>::empty(), tasks, worker).len() == 0,
        published(failures.push(failure), tasks, worker) == (
        if tasks[failure.table as int].owner == worker {
            published(failures, tasks, worker).push(
                OutputError { output_index: failure.output_index, error: failure.error },
            )
        } else {
            published(failures, tasks, worker)
        }),
        failed_outputs(failures.push(failure)).contains(output_index) <==> output_index
            == failure.output_index || failed_outputs(failures).contains(output_index),
        !failed_outputs(Seq::<SchemaFailure>::empty()).contains(output_index),
{
    let mine = |f: SchemaFailure| tasks[f.table as int].owner == worker;
    let report = |f: SchemaFailure| OutputError { output_index: f.output_index, error: f.error };
    let index = |f: SchemaFailure| f.output_index;
    reveal(Seq::filter);
    failures.lemma_filter_push(failure, mine);
    assert(failures.filter(mine).push(failure).map_values(report) =~= failures.filter(
        mine,
    ).map_values(report).push(report(failure)));
    let before = failures.map_values(index);
    let after = failures.push(failure).map_values(index);
    assert(after =~= before.push(failure.output_index));
    if before.contains(output_index) {
        let k = choose|k: int| 0 <= k < before.len() && before[k] == output_index;
        assert(after[k] == output_index);
    }
    assert(after[after.len() - 1] == failure.output_index);
    if after.contains(output_index) && output_index != failure.output_index {
        let k = choose|k: int| 0 <= k < after.len() && after[k] == output_index;
        assert(before[k] == output_index);
    }
}

/// Rewinds are requested table by table and output by output, in order, by the owner alone, each
/// up to the given frontier.
pub proof fn law_rewinds_are_requested_one_by_one(
    tasks: Seq<TaskView>,
    task: TaskView,
    worker: int,
    upper: Seq<GtidPartition>,
    k: int,
)
    requires
        0 <= k < task.outputs.len(),
    ensures
        rewinds_of(Seq::<TaskView>::empty(), worker, upper).len() == 0,
        task.owner != worker ==> rewinds_of(tasks.push(task), worker, upper) == rewinds_of(
            tasks,
            worker,
            upper,
        ),
        task.owner == worker ==> {
            let before = rewinds_of(tasks, worker, upper);
            let all = rewinds_of(tasks.push(task), worker, upper);
            &&& all.len() == before.len() + task.outputs.len()
            &&& all.take(before.len() as int) == before
            &&& all[before.len() + k].output_index == task.outputs[k].output_index
            &&& all[before.len() + k].snapshot_upper == upper
        },
{
    assert(tasks.push(task).drop_last() =~= tasks);
    if task.owner == worker {
        let before = rewinds_of(tasks, worker, upper);
        assert(rewinds_of(tasks.push(task), worker, upper).take(before.len() as int) =~= before);
    }
}

/// What bounds and requests stand for is made up of their parts.
pub proof fn law_broadcast_views_keep_all_parts(
    bounds: TableBounds,
    request: RewindRequest,
    job: SamplingJob,
)
    ensures
        bounds@.table == bounds.table@,
        bounds@.splits is Some <==> bounds.splits is Some,
        bounds.splits matches Some(splits) ==> bounds@.splits == Some(splits@),
        request@.output_index == request.output_index,
        request@.snapshot_upper == request.snapshot_upper@,
        job@.table == job.table,
        job@.name == job.name@,
        job@.pk_col == job.pk_col@,
        job@.kind == job.kind,
{
}

} // verus!
