//! What a snapshot comes to once all workers have returned.

use vstd::prelude::*;

use crate::mysql::assignment::{
    any_planned, published, rewind_views, rewinds_of, surviving, table_rewinds, task_views, without,
    OutputError, RewindView, SchemaFailure, TaskView,
};
use crate::mysql::course::{
    has_been, is_course, law_failed_leader_answers, law_nothing_follows_the_end,
    lemma_course_basics, lemma_has_been_last, lemma_not_released, Moment,
};
use crate::mysql::desc::{GtidPartition, SourceOutputInfo};
use crate::mysql::error::{addition, DefiniteError, Update};
use crate::mysql::history::{
    bounds_ok, course_of, failing, failures_fit, has_kept, has_output, is_failure_notice,
    is_history, is_read_output, kept, leads, lemma_courses, lemma_notice_stays, lemma_settings,
    lemma_state, lemma_told_once, let_go, plans, setup_failed, starts, state_fits, told, Entry,
    InfoView, World,
};
use crate::mysql::sharing::{
    distinct_outputs, errors_for, lemma_distinct_rest, lemma_published_count,
};
use crate::mysql::splits::{
    law_every_row_is_read_once, law_owner_always_reads, plan_of, reads_key, PlanView,
};
use crate::mysql::worker::{
    lemma_next_planned, next_planned, reads_on, steps, Action, Event, Phase, SnapshotWorker,
};
use crate::tally::{
    lemma_tally_add, lemma_total_add, lemma_total_same, lemma_total_single, lemma_total_zero, tally,
    total,
};

verus! {

/// A row of a table as of the point at which the tables were locked.
pub struct TableRow<R> {
    pub key: Seq<char>,
    /// What the row is for the output of the given index: a value, or an error if it cannot be
    /// decoded.
    pub decoded: spec_fn(usize) -> Result<R, DefiniteError>,
}

/// The rows of each table.
pub struct Contents<R> {
    pub rows: spec_fn((Seq<char>, Seq<char>)) -> Seq<TableRow<R>>,
}

/// What is written for a row that is read: one addition per output of its table.
pub open spec fn row_additions<R>(outputs: Seq<SourceOutputInfo>, row: TableRow<R>) -> Seq<
    Update<R>,
> {
    outputs.map_values(
        |o: SourceOutputInfo| addition(o.output_index, (row.decoded)(o.output_index)),
    )
}

/// What is written for a table: the additions for those of its rows that the plan covers.
pub open spec fn table_updates<R>(
    outputs: Seq<SourceOutputInfo>,
    plan: Option<PlanView>,
    rows: Seq<TableRow<R>>,
    le: spec_fn(Seq<char>, Seq<char>) -> bool,
) -> Seq<Update<R>>
    decreases rows.len(),
{
    if rows.len() == 0 {
        Seq::empty()
    } else if reads_key(plan, rows.last().key, le) {
        table_updates(outputs, plan, rows.drop_last(), le) + row_additions(outputs, rows.last())
    } else {
        table_updates(outputs, plan, rows.drop_last(), le)
    }
}

/// What a worker writes for the table of a task.
pub open spec fn task_updates<R>(world: World, contents: Contents<R>, task: TaskView) -> Seq<
    Update<R>,
> {
    table_updates(task.outputs, task.plan, (contents.rows)(task.name), (world.order)(task.name))
}

/// What a worker writes for the tables of all tasks.
pub open spec fn data<R>(world: World, contents: Contents<R>, tasks: Seq<TaskView>) -> Seq<
    Update<R>,
>
    decreases tasks.len(),
{
    if tasks.len() == 0 {
        Seq::empty()
    } else {
        data(world, contents, tasks.drop_last()) + task_updates(world, contents, tasks.last())
    }
}

/// What is written for errors.
pub open spec fn error_additions<R>(errors: Seq<OutputError>) -> Seq<Update<R>> {
    errors.map_values(
        |e: OutputError| addition(e.output_index, Err::<R, DefiniteError>(e.error)),
    )
}

/// What is written at one moment: errors as they are published, and the rows of a table as it is
/// read.
pub open spec fn written<E, R>(world: World, contents: Contents<R>, m: Moment<E>) -> Seq<
    Update<R>,
> {
    match m.action {
        Action::PublishSchemaErrors(errors) => error_additions(errors@),
        Action::ReadTable(i) => task_updates(
            world,
            contents,
            task_views(m.worker.tasks@)[i as int],
        ),
        _ => Seq::empty(),
    }
}

/// All that has been written on a worker.
pub open spec fn updates_of<E, R>(
    world: World,
    contents: Contents<R>,
    c: Seq<Moment<E>>,
) -> Seq<Update<R>>
    decreases c.len(),
{
    if c.len() == 0 {
        Seq::empty()
    } else {
        updates_of(world, contents, c.drop_last()) + written(world, contents, c.last())
    }
}

/// The rewinds that are requested at one moment.
pub open spec fn requested<E>(m: Moment<E>) -> Seq<RewindView> {
    match m.action {
        Action::EmitRewinds(requests) => rewind_views(requests@),
        _ => Seq::empty(),
    }
}

/// All rewinds that have been requested on a worker.
pub open spec fn requests_of<E>(c: Seq<Moment<E>>) -> Seq<RewindView>
    decreases c.len(),
{
    if c.len() == 0 {
        Seq::empty()
    } else {
        requests_of(c.drop_last()) + requested(c.last())
    }
}

/// Records an error in all outputs.
pub open spec fn is_report<E>() -> spec_fn(Action<E>) -> bool {
    |a: Action<E>| a is ReportDefiniteError
}

/// Worker `w` has come to its end without a failure.
pub open spec fn ended_well<E>(c: Seq<Moment<E>>) -> bool {
    &&& c.len() > 0
    &&& c.last().action == Action::<E>::Finish(Ok(()))
    &&& !has_been(c, is_report())
}

/// All workers have come to their end without a failure.
pub open spec fn all_ended_well<E>(world: World, h: Seq<Entry<E>>) -> bool {
    forall|w: int| 0 <= w < world.worker_count ==> ended_well(#[trigger] course_of(h, w))
}

/// What a worker has written when it has read the first `n` of the tables that it keeps.
pub open spec fn wrote<R>(
    world: World,
    contents: Contents<R>,
    info: InfoView,
    w: int,
    n: int,
    updates: Seq<Update<R>>,
) -> bool {
    exists|failures: Seq<SchemaFailure>|
        {
            &&& #[trigger] failures_fit(plans(world, info, w), world.broken, failures)
            &&& updates == error_additions::<R>(
                published(failures, plans(world, info, w), w),
            ) + data(world, contents, kept(world, info, w).take(n))
        }
}

/// How many of its tables a worker has read, or is reading.
pub open spec fn tables_read(phase: Phase, tables: int) -> int {
    match phase {
        Phase::ReadingTable(i) => i + 1,
        Phase::EmittingRewinds => tables,
        _ => 0,
    }
}

/// The rewinds that worker `w` requests.
pub open spec fn due_rewinds(world: World, info: InfoView, w: int) -> Seq<RewindView> {
    rewinds_of(kept(world, info, w), w, (world.frontier)(info.gtid_set))
}

/// What has been written and requested on worker `w` fits its phase.
spec fn output_fits<E, R>(
    world: World,
    contents: Contents<R>,
    info: Option<InfoView>,
    failed: bool,
    w: int,
    c: Seq<Moment<E>>,
) -> bool {
    let phase = c.last().worker.phase;
    let updates = updates_of(world, contents, c);
    let requests = requests_of(c);
    &&& !has_kept(phase) && phase != Phase::Finished && phase != Phase::ReportingDefiniteError
        ==> updates.len() == 0 && requests.len() == 0
    &&& has_kept(phase) ==> {
        let tables = kept(world, info->0, w).len() as int;
        &&& wrote(world, contents, info->0, w, tables_read(phase, tables), updates)
        &&& requests == if phase == Phase::EmittingRewinds {
            due_rewinds(world, info->0, w)
        } else {
            Seq::empty()
        }
    }
    &&& phase == Phase::Finished && ended_well(c) && world.tasks.len() > 0 && !failed ==> {
        let tables = kept(world, info->0, w).len() as int;
        &&& info is Some
        &&& wrote(world, contents, info->0, w, tables, updates)
        &&& requests == due_rewinds(world, info->0, w)
    }
}

/// What is not read is not written.
proof fn lemma_unread_table<R>(
    outputs: Seq<SourceOutputInfo>,
    rows: Seq<TableRow<R>>,
    le: spec_fn(Seq<char>, Seq<char>) -> bool,
)
    ensures
        table_updates(outputs, None, rows, le) == Seq::<Update<R>>::empty(),
    decreases rows.len(),
{
    if rows.len() > 0 {
        lemma_unread_table(outputs, rows.drop_last(), le);
    }
}

/// Tables without a plan add nothing to what is written.
proof fn lemma_data_skip<R>(
    world: World,
    contents: Contents<R>,
    tasks: Seq<TaskView>,
    from: int,
    to: int,
)
    requires
        0 <= from <= to <= tasks.len(),
        forall|j: int| from <= j < to ==> (#[trigger] tasks[j]).plan is None,
    ensures
        data(world, contents, tasks.take(to)) == data(world, contents, tasks.take(from)),
    decreases to - from,
{
    if from < to {
        let last = tasks[to - 1];
        lemma_data_skip(world, contents, tasks, from, to - 1);
        assert(tasks.take(to).drop_last() =~= tasks.take(to - 1));
        assert(tasks.take(to).last() == last);
        assert(last.plan is None);
        lemma_unread_table(last.outputs, (contents.rows)(last.name), (world.order)(last.name));
        assert(data(world, contents, tasks.take(to)) =~= data(
            world,
            contents,
            tasks.take(to - 1),
        ));
    }
}

/// A worker that owns no table requests no rewind.
proof fn lemma_owns_nothing(tasks: Seq<TaskView>, w: int, upper: Seq<GtidPartition>)
    requires
        forall|i: int| 0 <= i < tasks.len() ==> (#[trigger] tasks[i]).owner != w,
    ensures
        rewinds_of(tasks, w, upper) == Seq::<RewindView>::empty(),
    decreases tasks.len(),
{
    if tasks.len() > 0 {
        let rest = tasks.drop_last();
        assert forall|i: int| 0 <= i < rest.len() implies (#[trigger] rest[i]).owner != w by {
            assert(rest[i] == tasks[i]);
        }
        lemma_owns_nothing(rest, w, upper);
        assert(tasks[tasks.len() - 1].owner != w);
    }
}

/// A task that survives is one of the tasks, but for outputs that it lost.
pub proof fn lemma_survivor(tasks: Seq<TaskView>, removed: Set<usize>, k: int) -> (i: int)
    requires
        0 <= k < surviving(tasks, removed).len(),
    ensures
        0 <= i < tasks.len(),
        surviving(tasks, removed)[k] == (TaskView {
            outputs: without(tasks[i].outputs, removed),
            ..tasks[i]
        }),
{
    let strip = |t: TaskView| TaskView { outputs: without(t.outputs, removed), ..t };
    let p = |t: TaskView| t.outputs.len() > 0;
    let stripped = tasks.map_values(strip);
    let left = surviving(tasks, removed);
    assert(left == stripped.filter(p));
    assert(stripped.filter(p).contains(left[k]));
    stripped.lemma_filter_contains_rev(p, left[k]);
    let i = choose|i: int| 0 <= i < stripped.len() && stripped[i] == left[k];
    i
}

/// A worker without a part in the reading has nothing to write and nothing to request.
proof fn lemma_idle_worker<R>(world: World, contents: Contents<R>, info: InfoView, w: int)
    requires
        world.well_formed(),
        0 <= w < world.worker_count,
        !any_planned(plans(world, info, w)),
    ensures
        wrote(
            world,
            contents,
            info,
            w,
            kept(world, info, w).len() as int,
            Seq::<Update<R>>::empty(),
        ),
        due_rewinds(world, info, w) == Seq::<RewindView>::empty(),
{
    let all = plans(world, info, w);
    let left = kept(world, info, w);
    let none = Seq::<SchemaFailure>::empty();
    assert forall|i: int| 0 <= i < all.len() implies (#[trigger] all[i]).plan is None by {}
    assert(failures_fit(all, world.broken, none));
    assert(published(none, all, w) =~= Seq::<OutputError>::empty()) by {
        reveal(Seq::filter);
    }
    assert forall|k: int| 0 <= k < left.len() implies (#[trigger] left[k]).plan is None
        && left[k].owner != w by {
        let i = lemma_survivor(all, failing(all, world.broken), k);
        assert(all[i].plan is None);
        if world.tasks[i].owner == w {
            law_owner_always_reads(info.bounds[i].splits, w, world.worker_count);
        }
    }
    lemma_data_skip(world, contents, left, 0, left.len() as int);
    assert(data(world, contents, left.take(0)) =~= Seq::<Update<R>>::empty());
    assert(error_additions::<R>(published(none, all, w)) + data(
        world,
        contents,
        left.take(left.len() as int),
    ) =~= Seq::<Update<R>>::empty());
    lemma_owns_nothing(left, w, (world.frontier)(info.gtid_set));
}

/// Reading on from position `from` comes to the next table with a plan, if there is one.
proof fn lemma_reads_on<E, R>(
    world: World,
    contents: Contents<R>,
    info: InfoView,
    w: int,
    a: Moment<E>,
    b: Moment<E>,
    from: int,
    updates: Seq<Update<R>>,
)
    requires
        task_views(a.worker.tasks@) == kept(world, info, w),
        0 <= from <= a.worker.tasks@.len(),
        reads_on(a.worker, b.worker, b.action, from),
        wrote(world, contents, info, w, from, updates),
    ensures
        wrote(
            world,
            contents,
            info,
            w,
            tables_read(b.worker.phase, kept(world, info, w).len() as int),
            updates + written(world, contents, b),
        ),
        b.worker.phase is ReadingTable || b.worker.phase == Phase::EmittingRewinds,
{
    let tasks = a.worker.tasks@;
    let views = kept(world, info, w);
    let next = next_planned(tasks, from);
    lemma_next_planned(tasks, from);
    assert(views.len() == tasks.len());
    assert(tasks.len() == a.worker.tasks.len());
    assert forall|j: int| from <= j < next implies (#[trigger] views[j]).plan is None by {
        assert(views[j] == tasks[j]@);
        assert(tasks[j].plan is None);
    }
    lemma_data_skip(world, contents, views, from, next);
    let failures = choose|failures: Seq<SchemaFailure>|
        {
            &&& #[trigger] failures_fit(plans(world, info, w), world.broken, failures)
            &&& updates == error_additions::<R>(
                published(failures, plans(world, info, w), w),
            ) + data(world, contents, views.take(from))
        };
    let errors = error_additions::<R>(published(failures, plans(world, info, w), w));
    if next < tasks.len() {
        assert(views.take(next + 1).drop_last() =~= views.take(next));
        assert(views.take(next + 1).last() == views[next]);
        assert(written(world, contents, b) == task_updates(world, contents, views[next]));
        assert(updates + written(world, contents, b) =~= errors + data(
            world,
            contents,
            views.take(next + 1),
        ));
    } else {
        assert(updates + written(world, contents, b) =~= errors + data(
            world,
            contents,
            views.take(next),
        ));
    }
}

proof fn lemma_step_output<E, R>(
    world: World,
    contents: Contents<R>,
    h: Seq<Entry<E>>,
    failed: bool,
    w: int,
    c: Seq<Moment<E>>,
    event: Event<E>,
    b: Moment<E>,
)
    requires
        world.well_formed(),
        0 <= w < world.worker_count,
        is_course(c),
        leads(world, h, c.last(), event, b),
        c == course_of(h, w),
        c.last().worker.settings.worker_id == w,
        c.last().worker.settings.is_leader == (w == world.leader),
        state_fits(world, told(h), failed, w, c.last()),
        setup_failed(world, h) ==> failed,
        output_fits(world, contents, told(h), failed, w, c),
    ensures
        output_fits(world, contents, told(h), failed, w, c.push(b)),
{
    let a = c.last();
    let d = c.push(b);
    assert(d.drop_last() =~= c);
    assert(d.last() == b);
    lemma_course_basics(c);
    lemma_has_been_last(d, is_report::<E>());
    lemma_has_been_last(c, is_report::<E>());
    let info = told(h)->0;
    let before = updates_of(world, contents, c);
    let after = updates_of(world, contents, d);
    assert(after == before + written(world, contents, b));
    assert(written(world, contents, b).len() == 0 ==> after =~= before);
    assert(requested(b).len() == 0 ==> requests_of(d) =~= requests_of(c));
    match event {
        Event::SchemasVerified(failures) => {
            let all = plans(world, info, w);
            let errors = error_additions::<R>(published(failures@, all, w));
            assert(data(world, contents, kept(world, info, w).take(0)).len() == 0);
            assert(after =~= errors + data(world, contents, kept(world, info, w).take(0)));
            assert(failures_fit(all, world.broken, failures@));
        },
        Event::FeedbackClosed => {
            if a.worker.phase == Phase::AwaitingInfo {
                lemma_not_released(c);
                assert(let_go(course_of(h, w)));
            }
        },
        Event::FeedbackData(batch) => {
            if a.worker.phase == Phase::AwaitingInfo && batch@.len() > 0 {
                assert(batch@[batch@.len() - 1] == batch@.last());
            }
        },
        Event::Done => {
            match a.worker.phase {
                Phase::PublishingSchemaErrors | Phase::MeasuringTables => {
                    if b.worker.phase == Phase::MeasuringTables || b.worker.phase
                        == Phase::Finished {
                    } else {
                        lemma_reads_on(world, contents, info, w, a, b, 0, before);
                        if b.worker.phase == Phase::EmittingRewinds {
                            assert(requests_of(d) =~= requested(b));
                        }
                    }
                },
                Phase::ReadingTable(i) => {
                    lemma_reads_on(world, contents, info, w, a, b, i + 1, before);
                    if b.worker.phase == Phase::EmittingRewinds {
                        assert(requests_of(d) =~= requested(b));
                    }
                },
                Phase::ReleasingBroadcast | Phase::ClosingLock => {
                    if b.worker.phase == Phase::Finished {
                        lemma_idle_worker(world, contents, info, w);
                        assert(after =~= Seq::<Update<R>>::empty());
                        assert(requests_of(d) =~= Seq::<RewindView>::empty());
                    }
                },
                _ => {},
            }
        },
        _ => {},
    }
}

/// At every moment what has been written and requested on a worker fits its phase.
proof fn lemma_output<E, R>(world: World, contents: Contents<R>, h: Seq<Entry<E>>, w: int)
    requires
        world.well_formed(),
        is_history(world, h),
        course_of(h, w).len() > 0,
    ensures
        output_fits(world, contents, told(h), setup_failed(world, h), w, course_of(h, w)),
    decreases h.len(),
{
    let before = h.drop_last();
    let e = h.last();
    let c = course_of(before, w);
    let b = e.moment;
    if told(before) is Some {
        lemma_told_once(world, h);
    }
    lemma_notice_stays(world, h);
    lemma_courses(world, h, w);
    lemma_state(world, h, w);
    lemma_course_basics(course_of(h, w));
    if e.worker != w {
        lemma_output(world, contents, before, w);
        lemma_state(world, before, w);
    } else if c.len() == 0 {
        assert(course_of(h, w).drop_last() =~= c);
        assert(updates_of(world, contents, c).len() == 0);
        assert(requests_of(c).len() == 0);
        let start = choose|start: SnapshotWorker<E>| #[trigger]
            starts(world, w, start) && steps(start, Event::Done, b.worker, b.action);
        assert(starts(world, w, start));
        assert(written(world, contents, b).len() == 0);
        assert(task_views(start.tasks@).len() == start.tasks@.len());
    } else {
        lemma_courses(world, before, w);
        lemma_settings(world, before, w);
        lemma_state(world, before, w);
        lemma_output(world, contents, before, w);
        let event = choose|event: Event<E>| #[trigger] leads(world, before, c.last(), event, b);
        lemma_step_output(world, contents, before, setup_failed(world, h), w, c, event, b);
        assert(course_of(h, w) == c.push(b));
        assert(output_fits(world, contents, told(h), setup_failed(world, h), w, c.push(b)));
    }
}

/// What a worker has written and requested in the end.
pub open spec fn came_out<R>(
    world: World,
    contents: Contents<R>,
    info: InfoView,
    w: int,
    updates: Seq<Update<R>>,
    requests: Seq<RewindView>,
) -> bool {
    &&& wrote(world, contents, info, w, kept(world, info, w).len() as int, updates)
    &&& requests == due_rewinds(world, info, w)
}

/// Where no worker fails, all have been told the same, and each has written and requested what
/// follows from that.
pub proof fn lemma_outcome<E, R>(world: World, contents: Contents<R>, h: Seq<Entry<E>>, w: int)
    requires
        world.well_formed(),
        is_history(world, h),
        world.tasks.len() > 0,
        all_ended_well(world, h),
        0 <= w < world.worker_count,
    ensures
        told(h) is Some,
        bounds_ok(world, told(h)->0.bounds),
        came_out(
            world,
            contents,
            told(h)->0,
            w,
            updates_of(world, contents, course_of(h, w)),
            requests_of(course_of(h, w)),
        ),
{
    lemma_all_went_well(world, h, w);
    lemma_output(world, contents, h, w);
    lemma_state(world, h, w);
}

/// Where no worker fails, the leader's setup has not failed and every worker has returned.
pub proof fn lemma_all_went_well<E>(world: World, h: Seq<Entry<E>>, w: int)
    requires
        world.well_formed(),
        is_history(world, h),
        all_ended_well(world, h),
        0 <= w < world.worker_count,
    ensures
        course_of(h, w).len() > 0,
        ended_well(course_of(h, w)),
        course_of(h, w).last().worker.phase == Phase::Finished,
        !setup_failed(world, h),
{
    assert(ended_well(course_of(h, w)));
    assert(ended_well(course_of(h, world.leader)));
    lemma_courses(world, h, world.leader);
    lemma_failed_leader(course_of(h, world.leader));
    lemma_courses(world, h, w);
    lemma_course_basics(course_of(h, w));
}

/// A leader whose setup failed does not come to its end without a failure.
proof fn lemma_failed_leader<E>(c: Seq<Moment<E>>)
    requires
        is_course(c),
    ensures
        has_been(c, is_failure_notice()) ==> {
            ||| c.last().action == Action::<E>::Broadcast(None)
            ||| c.last().action matches Action::Finish(Err(_))
            ||| has_been(c, is_report())
        },
    decreases c.len(),
{
    lemma_has_been_last(c, is_failure_notice::<E>());
    lemma_has_been_last(c, is_report::<E>());
    if c.len() > 1 {
        let before = c.drop_last();
        lemma_failed_leader(before);
        assert(before.last() == c[c.len() - 2]);
        if has_been(before, is_failure_notice()) {
            if before.last().action == Action::<E>::Broadcast(None) {
                law_failed_leader_answers(before, c.last());
            } else if before.last().action is Finish {
                law_nothing_follows_the_end(before, c.last());
            }
        }
    } else {
        assert(c.drop_last() =~= Seq::<Moment<E>>::empty());
        assert(!has_been(c.drop_last(), is_failure_notice::<E>()));
    }
}

/// No output index occurs twice in the list.
pub open spec fn distinct_indexes(outputs: Seq<SourceOutputInfo>) -> bool {
    forall|k: int, l: int|
        0 <= k < outputs.len() && 0 <= l < outputs.len() && (#[trigger] outputs[k]).output_index
            == (#[trigger] outputs[l]).output_index ==> k == l
}

/// What is made of the outputs that are left occurs once if it is about one of them.
proof fn lemma_tally_left<B>(
    outputs: Seq<SourceOutputInfo>,
    removed: Set<usize>,
    g: spec_fn(SourceOutputInfo) -> B,
    x: B,
    output_index: usize,
    good: bool,
)
    requires
        distinct_indexes(outputs),
        forall|o: SourceOutputInfo| #[trigger]
            g(o) == x <==> o.output_index == output_index && good,
    ensures
        tally(without(outputs, removed).map_values(g), x) == (if has_output(outputs, output_index)
            && !removed.contains(output_index) && good {
            1nat
        } else {
            0nat
        }),
    decreases outputs.len(),
{
    let p = |o: SourceOutputInfo| !removed.contains(o.output_index);
    if outputs.len() == 0 {
        reveal(Seq::filter);
        assert(without(outputs, removed).map_values(g) =~= Seq::<B>::empty());
    } else {
        let rest = outputs.drop_last();
        let last = outputs.last();
        assert forall|k: int, l: int|
            0 <= k < rest.len() && 0 <= l < rest.len() && (#[trigger] rest[k]).output_index == (
            #[trigger] rest[l]).output_index implies k == l by {
            assert(rest[k] == outputs[k] && rest[l] == outputs[l]);
        }
        lemma_tally_left(rest, removed, g, x, output_index, good);
        assert(outputs =~= rest.push(last));
        rest.lemma_filter_push(last, p);
        let before = without(rest, removed).map_values(g);
        if p(last) {
            assert(without(outputs, removed).map_values(g) =~= before.push(g(last)));
            assert(before.push(g(last)).drop_last() =~= before);
        }
        // The last output is the only one of its index.
        if has_output(rest, output_index) {
            let k = choose|k: int|
                0 <= k < rest.len() && (#[trigger] rest[k]).output_index == output_index;
            assert(outputs[k] == rest[k]);
            assert(outputs[outputs.len() - 1] == last);
            assert(last.output_index != output_index);
        }
        if has_output(outputs, output_index) && last.output_index != output_index {
            let k = choose|k: int|
                0 <= k < outputs.len() && (#[trigger] outputs[k]).output_index == output_index;
            assert(rest[k] == outputs[k]);
        }
        if last.output_index == output_index {
            assert(outputs[outputs.len() - 1].output_index == output_index);
        }
    }
}

/// The row is written as `u` for the output that `u` is about.
pub open spec fn is_row<R>(row: TableRow<R>, u: Update<R>) -> bool {
    addition(u.output_index, (row.decoded)(u.output_index)) == u
}

/// How many rows are written as `u`.
pub open spec fn rows_as<R>(rows: Seq<TableRow<R>>, u: Update<R>) -> nat
    decreases rows.len(),
{
    if rows.len() == 0 {
        0
    } else {
        rows_as(rows.drop_last(), u) + if is_row(rows.last(), u) {
            1nat
        } else {
            0nat
        }
    }
}

/// How many of the rows that the plan covers are written as `u`.
pub open spec fn hits<R>(
    plan: Option<PlanView>,
    rows: Seq<TableRow<R>>,
    le: spec_fn(Seq<char>, Seq<char>) -> bool,
    u: Update<R>,
) -> nat
    decreases rows.len(),
{
    if rows.len() == 0 {
        0
    } else {
        hits(plan, rows.drop_last(), le, u) + if reads_key(plan, rows.last().key, le) && is_row(
            rows.last(),
            u,
        ) {
            1nat
        } else {
            0nat
        }
    }
}

proof fn lemma_table_tally<R>(
    outputs: Seq<SourceOutputInfo>,
    removed: Set<usize>,
    plan: Option<PlanView>,
    rows: Seq<TableRow<R>>,
    le: spec_fn(Seq<char>, Seq<char>) -> bool,
    u: Update<R>,
)
    requires
        distinct_indexes(outputs),
    ensures
        tally(table_updates(without(outputs, removed), plan, rows, le), u) == (if has_output(
            outputs,
            u.output_index,
        ) && !removed.contains(u.output_index) {
            hits(plan, rows, le, u)
        } else {
            0
        }),
    decreases rows.len(),
{
    if rows.len() > 0 {
        let row = rows.last();
        let left = without(outputs, removed);
        lemma_table_tally(outputs, removed, plan, rows.drop_last(), le, u);
        let g = |o: SourceOutputInfo| addition(o.output_index, (row.decoded)(o.output_index));
        assert(row_additions(left, row) == left.map_values(g));
        lemma_tally_left(outputs, removed, g, u, u.output_index, is_row(row, u));
        lemma_tally_add(
            table_updates(left, plan, rows.drop_last(), le),
            row_additions(left, row),
            u,
        );
    }
}

/// How `surviving` treats the last task.
proof fn lemma_surviving_last(tasks: Seq<TaskView>, removed: Set<usize>)
    requires
        tasks.len() > 0,
    ensures
        surviving(tasks, removed) == (if without(tasks.last().outputs, removed).len() > 0 {
            surviving(tasks.drop_last(), removed).push(
                TaskView { outputs: without(tasks.last().outputs, removed), ..tasks.last() },
            )
        } else {
            surviving(tasks.drop_last(), removed)
        }),
{
    let strip = |t: TaskView| TaskView { outputs: without(t.outputs, removed), ..t };
    let p = |t: TaskView| t.outputs.len() > 0;
    let rest = tasks.drop_last();
    assert(tasks.map_values(strip) =~= rest.map_values(strip).push(strip(tasks.last())));
    rest.map_values(strip).lemma_filter_push(strip(tasks.last()), p);
}

/// An output without rows or requests of its own adds nothing.
proof fn lemma_nothing_left<R>(
    outputs: Seq<SourceOutputInfo>,
    plan: Option<PlanView>,
    rows: Seq<TableRow<R>>,
    le: spec_fn(Seq<char>, Seq<char>) -> bool,
)
    requires
        outputs.len() == 0,
    ensures
        table_updates(outputs, plan, rows, le) == Seq::<Update<R>>::empty(),
    decreases rows.len(),
{
    if rows.len() > 0 {
        lemma_nothing_left(outputs, plan, rows.drop_last(), le);
        assert(table_updates(outputs, plan, rows, le) =~= Seq::<Update<R>>::empty());
    }
}

/// The outputs of each task, taken by themselves, have distinct indexes.
proof fn lemma_distinct_in_task(tasks: Seq<TaskView>, i: int)
    requires
        distinct_outputs(tasks),
        0 <= i < tasks.len(),
    ensures
        distinct_indexes(tasks[i].outputs),
{
    let outputs = tasks[i].outputs;
    assert forall|k: int, l: int|
        0 <= k < outputs.len() && 0 <= l < outputs.len() && (#[trigger] outputs[k]).output_index
            == (#[trigger] outputs[l]).output_index implies k == l by {
        assert(tasks[i].outputs[k].output_index == tasks[i].outputs[l].output_index);
    }
}

/// An output is in one table only.
proof fn lemma_one_table(tasks: Seq<TaskView>, i: int, j: int, o: usize)
    requires
        distinct_outputs(tasks),
        0 <= i < tasks.len(),
        0 <= j < tasks.len(),
        has_output(tasks[i].outputs, o),
        has_output(tasks[j].outputs, o),
    ensures
        i == j,
{
    let k = choose|k: int|
        0 <= k < tasks[i].outputs.len() && (#[trigger] tasks[i].outputs[k]).output_index == o;
    let l = choose|l: int|
        0 <= l < tasks[j].outputs.len() && (#[trigger] tasks[j].outputs[l]).output_index == o;
    assert(tasks[i].outputs[k].output_index == tasks[j].outputs[l].output_index);
}

/// What is written for an output are the rows of its table that are read.
proof fn lemma_data_tally<R>(
    world: World,
    contents: Contents<R>,
    tasks: Seq<TaskView>,
    removed: Set<usize>,
    u: Update<R>,
    i: int,
)
    requires
        distinct_outputs(tasks),
        0 <= i < tasks.len() ==> has_output(tasks[i].outputs, u.output_index),
        !(0 <= i < tasks.len()) ==> forall|j: int|
            0 <= j < tasks.len() ==> !has_output((#[trigger] tasks[j]).outputs, u.output_index),
    ensures
        tally(data(world, contents, surviving(tasks, removed)), u) == (if 0 <= i < tasks.len()
            && !removed.contains(u.output_index) {
            hits(
                tasks[i].plan,
                (contents.rows)(tasks[i].name),
                (world.order)(tasks[i].name),
                u,
            )
        } else {
            0
        }),
    decreases tasks.len(),
{
    if tasks.len() == 0 {
        reveal(Seq::filter);
        assert(surviving(tasks, removed) =~= Seq::<TaskView>::empty());
    } else {
        let rest = tasks.drop_last();
        let last = tasks.last();
        let n = tasks.len() - 1;
        let inner = if i == n {
            -1
        } else {
            i
        };
        lemma_distinct_rest(tasks);
        assert forall|j: int| 0 <= j < rest.len() implies #[trigger] rest[j] == tasks[j] by {}
        if !(0 <= inner < rest.len()) {
            assert forall|j: int| 0 <= j < rest.len() implies !has_output(
                (#[trigger] rest[j]).outputs,
                u.output_index,
            ) by {
                assert(rest[j] == tasks[j]);
                if i == n && has_output(tasks[j].outputs, u.output_index) {
                    lemma_one_table(tasks, i, j, u.output_index);
                }
            }
        }
        lemma_data_tally(world, contents, rest, removed, u, inner);
        lemma_surviving_last(tasks, removed);
        lemma_distinct_in_task(tasks, n);
        let left = TaskView { outputs: without(last.outputs, removed), ..last };
        let rows = (contents.rows)(last.name);
        let le = (world.order)(last.name);
        lemma_table_tally(last.outputs, removed, last.plan, rows, le, u);
        lemma_tally_add(
            data(world, contents, surviving(rest, removed)),
            task_updates(world, contents, left),
            u,
        );
        if left.outputs.len() > 0 {
            assert(surviving(tasks, removed).drop_last() =~= surviving(rest, removed));
        } else {
            lemma_nothing_left(left.outputs, last.plan, rows, le);
        }
        if i < n && 0 <= i && has_output(last.outputs, u.output_index) {
            lemma_one_table(tasks, i, n, u.output_index);
        }
    }
}

/// What is requested for an output: one rewind by the owner of its table.
proof fn lemma_rewind_tally(
    tasks: Seq<TaskView>,
    removed: Set<usize>,
    w: int,
    upper: Seq<GtidPartition>,
    request: RewindView,
    i: int,
)
    requires
        distinct_outputs(tasks),
        0 <= i < tasks.len() ==> has_output(tasks[i].outputs, request.output_index),
        !(0 <= i < tasks.len()) ==> forall|j: int|
            0 <= j < tasks.len() ==> !has_output(
                (#[trigger] tasks[j]).outputs,
                request.output_index,
            ),
    ensures
        tally(rewinds_of(surviving(tasks, removed), w, upper), request) == (if 0 <= i
            < tasks.len() && !removed.contains(request.output_index) && tasks[i].owner == w
            && request.snapshot_upper == upper {
            1nat
        } else {
            0nat
        }),
    decreases tasks.len(),
{
    if tasks.len() == 0 {
        reveal(Seq::filter);
        assert(surviving(tasks, removed) =~= Seq::<TaskView>::empty());
    } else {
        let rest = tasks.drop_last();
        let last = tasks.last();
        let n = tasks.len() - 1;
        let o = request.output_index;
        let inner = if i == n {
            -1
        } else {
            i
        };
        lemma_distinct_rest(tasks);
        assert forall|j: int| 0 <= j < rest.len() implies #[trigger] rest[j] == tasks[j] by {}
        if !(0 <= inner < rest.len()) {
            assert forall|j: int| 0 <= j < rest.len() implies !has_output(
                (#[trigger] rest[j]).outputs,
                o,
            ) by {
                assert(rest[j] == tasks[j]);
                if i == n && has_output(tasks[j].outputs, o) {
                    lemma_one_table(tasks, i, j, o);
                }
            }
        }
        lemma_rewind_tally(rest, removed, w, upper, request, inner);
        lemma_surviving_last(tasks, removed);
        lemma_distinct_in_task(tasks, n);
        let left = without(last.outputs, removed);
        let g = |x: SourceOutputInfo|
            RewindView { output_index: x.output_index, snapshot_upper: upper };
        lemma_tally_left(last.outputs, removed, g, request, o, request.snapshot_upper == upper);
        assert(table_rewinds(left, upper) == left.map_values(g));
        lemma_tally_add(
            rewinds_of(surviving(rest, removed), w, upper),
            table_rewinds(left, upper),
            request,
        );
        if left.len() > 0 {
            assert(surviving(tasks, removed).drop_last() =~= surviving(rest, removed));
        } else {
            assert(table_rewinds(left, upper) =~= Seq::<RewindView>::empty());
        }
        if i < n && 0 <= i && has_output(last.outputs, o) {
            lemma_one_table(tasks, i, n, o);
        }
    }
}

/// Errors that are written for an output.
proof fn lemma_error_tally<R>(
    errors: Seq<OutputError>,
    broken: Map<usize, DefiniteError>,
    u: Update<R>,
)
    requires
        forall|e: int|
            0 <= e < errors.len() ==> (#[trigger] errors[e]).error
                == broken[errors[e].output_index],
    ensures
        tally(error_additions::<R>(errors), u) == (if u == addition(
            u.output_index,
            Err::<R, DefiniteError>(broken[u.output_index]),
        ) {
            errors_for(errors, u.output_index)
        } else {
            0
        }),
    decreases errors.len(),
{
    let p = |e: OutputError| e.output_index == u.output_index;
    if errors.len() == 0 {
        reveal(Seq::filter);
    } else {
        let rest = errors.drop_last();
        let last = errors.last();
        assert forall|e: int| 0 <= e < rest.len() implies (#[trigger] rest[e]).error
            == broken[rest[e].output_index] by {
            assert(rest[e] == errors[e]);
        }
        lemma_error_tally(rest, broken, u);
        assert(errors =~= rest.push(last));
        rest.lemma_filter_push(last, p);
        assert(error_additions::<R>(errors).drop_last() =~= error_additions::<R>(rest));
        assert(errors[errors.len() - 1].error == broken[last.output_index]);
    }
}

/// Over all workers, each row of a table counts once.
proof fn lemma_hits_total<R>(
    world: World,
    info: InfoView,
    i: int,
    rows: Seq<TableRow<R>>,
    u: Update<R>,
)
    requires
        world.well_formed(),
        bounds_ok(world, info.bounds),
        0 <= i < world.tasks.len(),
    ensures
        total(
            world.worker_count as nat,
            |w: int|
                hits(
                    plans(world, info, w)[i].plan,
                    rows,
                    (world.order)(world.tasks[i].name),
                    u,
                ),
        ) == rows_as(rows, u),
    decreases rows.len(),
{
    let n = world.worker_count;
    let le = (world.order)(world.tasks[i].name);
    let all = |w: int| hits(plans(world, info, w)[i].plan, rows, le, u);
    if rows.len() == 0 {
        lemma_total_zero(n as nat, all);
    } else {
        let row = rows.last();
        let before = |w: int| hits(plans(world, info, w)[i].plan, rows.drop_last(), le, u);
        let last = |w: int|
            if reads_key(plans(world, info, w)[i].plan, row.key, le) && is_row(row, u) {
                1nat
            } else {
                0nat
            };
        lemma_hits_total(world, info, i, rows.drop_last(), u);
        lemma_total_add(n as nat, before, last, all);
        if is_row(row, u) {
            let reader = lemma_one_reader(world, info, i, row.key);
            lemma_total_single(n as nat, last, reader);
        } else {
            lemma_total_zero(n as nat, last);
        }
    }
}

/// Each key of a table has one reader.
pub proof fn lemma_one_reader(world: World, info: InfoView, i: int, key: Seq<char>) -> (reader: int)
    requires
        world.well_formed(),
        bounds_ok(world, info.bounds),
        0 <= i < world.tasks.len(),
    ensures
        0 <= reader < world.worker_count,
        forall|w: int|
            #![trigger plans(world, info, w)]
            0 <= w < world.worker_count ==> (reads_key(
                plans(world, info, w)[i].plan,
                key,
                (world.order)(world.tasks[i].name),
            ) <==> w == reader),
{
    let n = world.worker_count;
    let le = (world.order)(world.tasks[i].name);
    let splits = info.bounds[i].splits;
    let owner = world.tasks[i].owner;
    law_every_row_is_read_once(splits, owner, n, key, le);
    let reader = choose|w: int|
        #![trigger plan_of(splits, w, owner, n)]
        {
            &&& 0 <= w < n
            &&& reads_key(plan_of(splits, w, owner, n), key, le)
            &&& forall|v: int|
                #![trigger plan_of(splits, v, owner, n)]
                0 <= v < n && v != w ==> !reads_key(plan_of(splits, v, owner, n), key, le)
        };
    assert forall|w: int|
        #![trigger plans(world, info, w)]
        0 <= w < n implies (reads_key(plans(world, info, w)[i].plan, key, le) <==> w == reader) by {
        assert(plans(world, info, w)[i].plan == plan_of(splits, w, owner, n));
    }
    reader
}

/// The tasks of a worker are about the tables of the world.
proof fn lemma_plans_distinct(world: World, info: InfoView, w: int)
    requires
        world.well_formed(),
    ensures
        distinct_outputs(plans(world, info, w)),
{
    let all = plans(world, info, w);
    assert forall|a: int, b: int, c: int, d: int|
        #![trigger all[a].outputs[b], all[c].outputs[d]]
        0 <= a < all.len() && 0 <= b < all[a].outputs.len() && 0 <= c < all.len() && 0 <= d
            < all[c].outputs.len() && all[a].outputs[b].output_index
            == all[c].outputs[d].output_index implies a == c && b == d by {
        assert(all[a].outputs[b] == world.tasks[a].outputs[b]);
        assert(all[c].outputs[d] == world.tasks[c].outputs[d]);
    }
}

/// How often a worker publishes the error of a broken output: once if it owns the table.
proof fn lemma_published_tally<R>(
    world: World,
    info: InfoView,
    w: int,
    failures: Seq<SchemaFailure>,
    i: int,
    u: Update<R>,
)
    requires
        world.well_formed(),
        0 <= w < world.worker_count,
        failures_fit(plans(world, info, w), world.broken, failures),
        0 <= i < world.tasks.len(),
        has_output(world.tasks[i].outputs, u.output_index),
    ensures
        tally(error_additions::<R>(published(failures, plans(world, info, w), w)), u) == (
        if world.broken.contains_key(u.output_index) && world.tasks[i].owner == w && u == addition(
            u.output_index,
            Err::<R, DefiniteError>(world.broken[u.output_index]),
        ) {
            1nat
        } else {
            0nat
        }),
{
    let o = u.output_index;
    let all = plans(world, info, w);
    let errors = published(failures, all, w);
    let mine = |f: SchemaFailure| all[f.table as int].owner == w;
    assert forall|e: int| 0 <= e < errors.len() implies (#[trigger] errors[e]).error
        == world.broken[errors[e].output_index] by {
        let picked = failures.filter(mine);
        assert(picked.contains(picked[e]));
        failures.lemma_filter_contains_rev(mine, picked[e]);
        let f = choose|f: int| 0 <= f < failures.len() && failures[f] == picked[e];
        assert(failures[f].error == world.broken[failures[f].output_index]);
    }
    lemma_error_tally::<R>(errors, world.broken, u);
    lemma_published_count(failures, all, w, o);
    lemma_plans_distinct(world, info, w);
    // Every failure of the output is one of its table.
    assert forall|f: int|
        0 <= f < failures.len() && (
        #[trigger] failures[f]).output_index == o implies failures[f].table == i by {
        lemma_one_table(all, failures[f].table as int, i, o);
    }
    if world.broken.contains_key(o) && world.tasks[i].owner == w {
        law_owner_always_reads(info.bounds[i].splits, w, world.worker_count);
        assert(all[i].plan is Some);
        assert(is_read_output(all, o));
        assert(failing(all, world.broken).contains(o));
        let indexes = failures.map_values(|f: SchemaFailure| f.output_index);
        let f = choose|f: int| 0 <= f < indexes.len() && indexes[f] == o;
        assert(failures[f].output_index == o);
    }
}

/// How often a worker writes `u`.
proof fn lemma_worker_tally<E, R>(
    world: World,
    contents: Contents<R>,
    h: Seq<Entry<E>>,
    w: int,
    i: int,
    u: Update<R>,
)
    requires
        world.well_formed(),
        is_history(world, h),
        all_ended_well(world, h),
        0 <= w < world.worker_count,
        0 <= i < world.tasks.len(),
        has_output(world.tasks[i].outputs, u.output_index),
    ensures
        told(h) is Some,
        bounds_ok(world, told(h)->0.bounds),
        tally(updates_of(world, contents, course_of(h, w)), u) == (if world.broken.contains_key(
            u.output_index,
        ) {
            if world.tasks[i].owner == w && u == addition(
                u.output_index,
                Err::<R, DefiniteError>(world.broken[u.output_index]),
            ) {
                1nat
            } else {
                0nat
            }
        } else {
            hits(
                plans(world, told(h)->0, w)[i].plan,
                (contents.rows)(world.tasks[i].name),
                (world.order)(world.tasks[i].name),
                u,
            )
        }),
{
    let o = u.output_index;
    lemma_outcome(world, contents, h, w);
    let info = told(h)->0;
    let all = plans(world, info, w);
    let removed = failing(all, world.broken);
    let left = kept(world, info, w);
    let updates = updates_of(world, contents, course_of(h, w));
    let failures = choose|failures: Seq<SchemaFailure>|
        {
            &&& #[trigger] failures_fit(all, world.broken, failures)
            &&& updates == error_additions::<R>(published(failures, all, w)) + data(
                world,
                contents,
                left.take(left.len() as int),
            )
        };
    assert(left.take(left.len() as int) =~= left);
    lemma_tally_add(
        error_additions::<R>(published(failures, all, w)),
        data(world, contents, left),
        u,
    );
    lemma_published_tally(world, info, w, failures, i, u);
    lemma_plans_distinct(world, info, w);
    lemma_data_tally(world, contents, all, removed, u, i);
    if world.broken.contains_key(o) && !removed.contains(o) {
        // The table is not read.
        if all[i].plan is Some {
            assert(is_read_output(all, o));
        }
        lemma_no_hits((contents.rows)(all[i].name), (world.order)(all[i].name), u);
    }
}

/// Without a plan nothing is read.
proof fn lemma_no_hits<R>(
    rows: Seq<TableRow<R>>,
    le: spec_fn(Seq<char>, Seq<char>) -> bool,
    u: Update<R>,
)
    ensures
        hits(None, rows, le, u) == 0,
    decreases rows.len(),
{
    if rows.len() > 0 {
        lemma_no_hits(rows.drop_last(), le, u);
    }
}

/// How often `u` is written on all workers together.
pub open spec fn times_written<E, R>(
    world: World,
    contents: Contents<R>,
    h: Seq<Entry<E>>,
    u: Update<R>,
) -> nat {
    total(
        world.worker_count as nat,
        |w: int| tally(updates_of(world, contents, course_of(h, w)), u),
    )
}

/// Where no worker fails, all workers together write exactly one addition at the minimum time for
/// each row of a table and each of its outputs: no row is missed and none is written twice,
/// whether or not the table was split. That includes rows that cannot be decoded, which are
/// written as errors. The other outputs of a table with a broken output are not affected.
pub proof fn law_each_row_is_written_once<E, R>(
    world: World,
    contents: Contents<R>,
    h: Seq<Entry<E>>,
    i: int,
    u: Update<R>,
)
    requires
        world.well_formed(),
        is_history(world, h),
        all_ended_well(world, h),
        0 <= i < world.tasks.len(),
        has_output(world.tasks[i].outputs, u.output_index),
        !world.broken.contains_key(u.output_index),
    ensures
        times_written(world, contents, h, u) == rows_as((contents.rows)(world.tasks[i].name), u),
{
    let n = world.worker_count as nat;
    let rows = (contents.rows)(world.tasks[i].name);
    let le = (world.order)(world.tasks[i].name);
    lemma_worker_tally(world, contents, h, 0, i, u);
    let info = told(h)->0;
    let f = |w: int| tally(updates_of(world, contents, course_of(h, w)), u);
    let g = |w: int| hits(plans(world, info, w)[i].plan, rows, le, u);
    assert forall|w: int| 0 <= w < n implies #[trigger] f(w) == g(w) by {
        lemma_worker_tally(world, contents, h, w, i, u);
    }
    lemma_total_same(n, f, g);
    lemma_hits_total(world, info, i, rows, u);
}

/// Where no worker fails, all workers together write exactly one error for a broken output,
/// namely what is wrong with it, and nothing else: none of its rows. The owner of its table
/// writes it.
pub proof fn law_broken_output_has_one_error<E, R>(
    world: World,
    contents: Contents<R>,
    h: Seq<Entry<E>>,
    i: int,
    u: Update<R>,
)
    requires
        world.well_formed(),
        is_history(world, h),
        all_ended_well(world, h),
        0 <= i < world.tasks.len(),
        has_output(world.tasks[i].outputs, u.output_index),
        world.broken.contains_key(u.output_index),
    ensures
        times_written(world, contents, h, u) == (if u == addition(
            u.output_index,
            Err::<R, DefiniteError>(world.broken[u.output_index]),
        ) {
            1nat
        } else {
            0nat
        }),
        times_written(world, contents, h, u) == tally(
            updates_of(world, contents, course_of(h, world.tasks[i].owner)),
            u,
        ),
{
    let f = |w: int| tally(updates_of(world, contents, course_of(h, w)), u);
    let owner = world.tasks[i].owner;
    assert forall|w: int| 0 <= w < world.worker_count && w != owner implies #[trigger] f(w)
        == 0 by {
        lemma_worker_tally(world, contents, h, w, i, u);
    }
    lemma_worker_tally(world, contents, h, owner, i, u);
    lemma_total_single(world.worker_count as nat, f, owner);
}

/// How often `request` is made on all workers together.
pub open spec fn times_requested<E>(world: World, h: Seq<Entry<E>>, request: RewindView) -> nat {
    total(world.worker_count as nat, |w: int| tally(requests_of(course_of(h, w)), request))
}

/// Where no worker fails, all workers together request exactly one rewind for an output, and none
/// for one that is broken. The owner of its table requests it, up to the frontier of the
/// transactions that the leader read under the locks and told all workers.
pub proof fn law_each_output_is_rewound_once_overall<E>(
    world: World,
    h: Seq<Entry<E>>,
    i: int,
    request: RewindView,
)
    requires
        world.well_formed(),
        is_history(world, h),
        all_ended_well(world, h),
        0 <= i < world.tasks.len(),
        has_output(world.tasks[i].outputs, request.output_index),
    ensures
        told(h) is Some,
        times_requested(world, h, request) == (if !world.broken.contains_key(request.output_index)
            && request.snapshot_upper == (world.frontier)(told(h)->0.gtid_set) {
            1nat
        } else {
            0nat
        }),
        times_requested(world, h, request) == tally(
            requests_of(course_of(h, world.tasks[i].owner)),
            request,
        ),
{
    let contents = Contents::<()> {
        rows: |name: (Seq<char>, Seq<char>)| Seq::<TableRow<()>>::empty(),
    };
    let f = |w: int| tally(requests_of(course_of(h, w)), request);
    let owner = world.tasks[i].owner;
    let o = request.output_index;
    lemma_outcome(world, contents, h, owner);
    let info = told(h)->0;
    let upper = (world.frontier)(info.gtid_set);
    assert forall|w: int| 0 <= w < world.worker_count implies #[trigger] f(w) == (if w == owner
        && !world.broken.contains_key(o) && request.snapshot_upper == upper {
        1nat
    } else {
        0nat
    }) by {
        let all = plans(world, info, w);
        lemma_outcome(world, contents, h, w);
        lemma_plans_distinct(world, info, w);
        lemma_rewind_tally(all, failing(all, world.broken), w, upper, request, i);
        if w == owner {
            law_owner_always_reads(info.bounds[i].splits, w, world.worker_count);
            assert(all[i].plan is Some);
            assert(is_read_output(all, o));
        }
    }
    lemma_total_single(world.worker_count as nat, f, owner);
    assert(f(owner) == tally(requests_of(course_of(h, owner)), request));
}

} // verus!
