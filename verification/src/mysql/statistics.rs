//! What the statistics of a snapshot add up to.
//!
//! Each worker has two gauges per export: the number of records known and the number of records
//! staged. Their sums over all workers describe the snapshot as a whole.

use vstd::prelude::*;

use crate::mysql::assignment::{task_views, without, TaskView};
use crate::mysql::course::{
    is_course, lemma_course_basics, lemma_has_been_last, lemma_not_released, Moment,
};
use crate::mysql::desc::GlobalId;
use crate::mysql::history::{
    bounds_ok, course_of, failing, has_kept, is_history, kept, leads, lemma_courses,
    lemma_notice_stays, lemma_settings, lemma_state, lemma_told_once, let_go, plans, setup_failed,
    starts, state_fits, told, Entry, InfoView, World,
};
use crate::mysql::outcome::{
    all_ended_well, ended_well, is_report, lemma_all_went_well, lemma_one_reader, lemma_outcome,
    lemma_survivor, tables_read, Contents, TableRow,
};
use crate::mysql::sharing::law_only_failed_outputs_are_dropped;
use crate::mysql::splits::{reads_key, PlanView};
use crate::mysql::worker::{
    lemma_next_planned, next_planned, reads_on, steps, Action, Event, Phase, SnapshotWorker,
};
use crate::tally::{lemma_total_add, lemma_total_same, lemma_total_single, lemma_total_zero, total};

verus! {

/// The number of rows that the plan covers.
pub open spec fn rows_read<R>(
    plan: Option<PlanView>,
    rows: Seq<TableRow<R>>,
    le: spec_fn(Seq<char>, Seq<char>) -> bool,
) -> nat
    decreases rows.len(),
{
    if rows.len() == 0 {
        0
    } else {
        rows_read(plan, rows.drop_last(), le) + if reads_key(plan, rows.last().key, le) {
            1nat
        } else {
            0nat
        }
    }
}

/// The export is one of those that some task reports to.
pub open spec fn is_exported(tasks: Seq<TaskView>, export: GlobalId) -> bool {
    exists|i: int| 0 <= i < tasks.len() && (#[trigger] tasks[i]).exports.contains(export)
}

/// The table whose progress is reported to the export.
pub open spec fn table_behind(tasks: Seq<TaskView>, export: GlobalId) -> (Seq<char>, Seq<char>) {
    tasks[choose|i: int|
        0 <= i < tasks.len() && (#[trigger] tasks[i]).exports.contains(export)].name
}

/// The records of an export that a worker knows of, if it has said so: none after the reset, and
/// those of the table once it has counted them.
pub open spec fn known<E, R>(
    contents: Contents<R>,
    c: Seq<Moment<E>>,
    export: GlobalId,
) -> Option<nat>
    decreases c.len(),
{
    if c.len() == 0 {
        None
    } else {
        let tasks = task_views(c.last().worker.tasks@);
        match c.last().action {
            Action::ResetStatistics => Some(0nat),
            Action::MeasureTables => if is_exported(tasks, export) {
                Some((contents.rows)(table_behind(tasks, export)).len())
            } else {
                known(contents, c.drop_last(), export)
            },
            _ => known(contents, c.drop_last(), export),
        }
    }
}

/// The records of an export that a worker has staged, if it has said so: none after the reset or
/// once the table has been counted, and the rows read once the table has been read.
pub open spec fn staged<E, R>(
    world: World,
    contents: Contents<R>,
    c: Seq<Moment<E>>,
    export: GlobalId,
) -> Option<nat>
    decreases c.len(),
{
    if c.len() == 0 {
        None
    } else {
        let tasks = task_views(c.last().worker.tasks@);
        match c.last().action {
            Action::ResetStatistics => Some(0nat),
            Action::MeasureTables => if is_exported(tasks, export) {
                Some(0nat)
            } else {
                staged(world, contents, c.drop_last(), export)
            },
            Action::ReadTable(i) => if tasks[i as int].exports.contains(export) {
                Some(
                    rows_read(
                        tasks[i as int].plan,
                        (contents.rows)(tasks[i as int].name),
                        (world.order)(tasks[i as int].name),
                    ),
                )
            } else {
                staged(world, contents, c.drop_last(), export)
            },
            _ => staged(world, contents, c.drop_last(), export),
        }
    }
}

/// The export belongs to table `i` alone, and none of the table's outputs is broken.
pub open spec fn belongs(world: World, i: int, export: GlobalId) -> bool {
    &&& 0 <= i < world.tasks.len()
    &&& world.tasks[i].exports.contains(export)
    &&& world.tasks[i].outputs.len() > 0
    &&& forall|j: int|
        0 <= j < world.tasks.len() && (#[trigger] world.tasks[j]).exports.contains(export) ==> j
            == i
    &&& forall|k: int|
        0 <= k < world.tasks[i].outputs.len() ==> !world.broken.contains_key(
            (#[trigger] world.tasks[i].outputs[k]).output_index,
        )
}

/// The table of the given name is among the tasks.
pub open spec fn is_listed(tasks: Seq<TaskView>, name: (Seq<char>, Seq<char>)) -> bool {
    exists|k: int| 0 <= k < tasks.len() && (#[trigger] tasks[k]).name == name
}

/// The number of rows of table `i` that worker `w` reads.
pub open spec fn share<R>(
    world: World,
    contents: Contents<R>,
    info: InfoView,
    w: int,
    i: int,
) -> nat {
    rows_read(
        plans(world, info, w)[i].plan,
        (contents.rows)(world.tasks[i].name),
        (world.order)(world.tasks[i].name),
    )
}

/// The number of rows of table `i` that worker `w` counts: all if it leads.
pub open spec fn tallied<R>(world: World, contents: Contents<R>, w: int, i: int) -> nat {
    if w == world.leader {
        (contents.rows)(world.tasks[i].name).len()
    } else {
        0
    }
}

/// The gauges of worker `w` fit its phase.
spec fn gauges_fit<E, R>(
    world: World,
    contents: Contents<R>,
    info: Option<InfoView>,
    failed: bool,
    w: int,
    c: Seq<Moment<E>>,
    i: int,
    export: GlobalId,
) -> bool {
    let phase = c.last().worker.phase;
    let k = known(contents, c, export);
    let s = staged(world, contents, c, export);
    &&& !has_kept(phase) && phase != Phase::Finished && phase != Phase::ReportingDefiniteError
        ==> k == Some(0nat) && s == Some(0nat)
    &&& has_kept(phase) ==> {
        let tasks = kept(world, info->0, w);
        &&& k == Some(
            if phase == Phase::PublishingSchemaErrors {
                0nat
            } else {
                tallied(world, contents, w, i)
            },
        )
        &&& s == Some(
            if is_listed(
                tasks.take(tables_read(phase, tasks.len() as int)),
                world.tasks[i].name,
            ) {
                share(world, contents, info->0, w, i)
            } else {
                0nat
            },
        )
    }
    &&& phase == Phase::Finished && ended_well(c) && !failed ==> {
        &&& info is Some
        &&& k == Some(tallied(world, contents, w, i))
        &&& s == Some(share(world, contents, info->0, w, i))
    }
}

/// Without a plan no row is read.
proof fn lemma_no_rows<R>(
    rows: Seq<TableRow<R>>,
    le: spec_fn(Seq<char>, Seq<char>) -> bool,
)
    ensures
        rows_read(None, rows, le) == 0,
    decreases rows.len(),
{
    if rows.len() > 0 {
        lemma_no_rows(rows.drop_last(), le);
    }
}

/// Which of the tables that a worker keeps is table `i`.
proof fn lemma_kept_table(world: World, info: InfoView, w: int, i: int, export: GlobalId)
    requires
        world.well_formed(),
        belongs(world, i, export),
    ensures
        is_listed(kept(world, info, w), world.tasks[i].name),
        is_exported(kept(world, info, w), export),
        forall|k: int|
            #![trigger kept(world, info, w)[k]]
            0 <= k < kept(world, info, w).len() ==> {
                &&& kept(world, info, w)[k].name == world.tasks[i].name <==> kept(
                    world,
                    info,
                    w,
                )[k].exports.contains(export)
                &&& kept(world, info, w)[k].name == world.tasks[i].name ==> kept(
                    world,
                    info,
                    w,
                )[k].plan == plans(world, info, w)[i].plan
            },
{
    let all = plans(world, info, w);
    let removed = failing(all, world.broken);
    let left = kept(world, info, w);
    let strip = |t: TaskView| TaskView { outputs: without(t.outputs, removed), ..t };
    let p = |t: TaskView| t.outputs.len() > 0;
    let stripped = all.map_values(strip);
    let outputs = world.tasks[i].outputs;
    assert(!world.broken.contains_key(outputs[0].output_index));
    assert(!removed.contains(outputs[0].output_index));
    law_only_failed_outputs_are_dropped(outputs, removed, 0);
    assert(all[i].outputs == outputs);
    assert(p(stripped[i]));
    stripped.lemma_filter_contains(p, i);
    assert(left == stripped.filter(p));
    assert(left.contains(stripped[i]));
    let at = choose|k: int| 0 <= k < left.len() && left[k] == stripped[i];
    assert(left[at].name == world.tasks[i].name);
    assert(left[at].exports.contains(export));
    assert forall|k: int| #![trigger left[k]] 0 <= k < left.len() implies {
        &&& left[k].name == world.tasks[i].name <==> left[k].exports.contains(export)
        &&& left[k].name == world.tasks[i].name ==> left[k].plan == all[i].plan
    } by {
        let j = lemma_survivor(all, removed, k);
        assert(left[k].name == world.tasks[j].name);
        assert(left[k].exports == world.tasks[j].exports);
        if world.tasks[j].name == world.tasks[i].name {
            assert(j == i);
        }
    }
}

proof fn lemma_step_gauges<E, R>(
    world: World,
    contents: Contents<R>,
    h: Seq<Entry<E>>,
    failed: bool,
    w: int,
    c: Seq<Moment<E>>,
    event: Event<E>,
    b: Moment<E>,
    i: int,
    export: GlobalId,
)
    requires
        world.well_formed(),
        belongs(world, i, export),
        0 <= w < world.worker_count,
        is_course(c),
        leads(world, h, c.last(), event, b),
        c == course_of(h, w),
        c.last().worker.settings.worker_id == w,
        c.last().worker.settings.is_leader == (w == world.leader),
        state_fits(world, told(h), failed, w, c.last()),
        setup_failed(world, h) ==> failed,
        gauges_fit(world, contents, told(h), failed, w, c, i, export),
    ensures
        gauges_fit(world, contents, told(h), failed, w, c.push(b), i, export),
{
    let a = c.last();
    let d = c.push(b);
    assert(d.drop_last() =~= c);
    assert(d.last() == b);
    lemma_course_basics(c);
    lemma_has_been_last(d, is_report::<E>());
    lemma_has_been_last(c, is_report::<E>());
    let info = told(h)->0;
    let name = world.tasks[i].name;
    let tasks = kept(world, info, w);
    lemma_kept_table(world, info, w, i, export);
    assert(tasks.len() > 0);
    assert(!is_listed(tasks.take(0), name));
    lemma_no_rows((contents.rows)(name), (world.order)(name));
    match event {
        Event::FeedbackClosed => {
            if a.worker.phase == Phase::AwaitingInfo {
                lemma_not_released(c);
                assert(let_go(course_of(h, w)));
            }
        },
        Event::FeedbackData(batch) => {
            if a.worker.phase == Phase::AwaitingInfo && batch@.len() > 0 {
                assert(batch@[batch@.len() - 1] == batch@.last());
            }
        },
        Event::Done => {
            let from = match a.worker.phase {
                Phase::ReadingTable(k) => k + 1,
                _ => 0,
            };
            match a.worker.phase {
                Phase::PublishingSchemaErrors
                | Phase::MeasuringTables
                | Phase::ReadingTable(_) => {
                    assert(task_views(a.worker.tasks@).len() == a.worker.tasks@.len());
                    if b.worker.phase == Phase::MeasuringTables {
                        lemma_table_behind(tasks, export, name);
                    } else {
                        lemma_gauge_reads_on(world, contents, info, w, a, b, from, i, export);
                    }
                },
                Phase::ReleasingBroadcast | Phase::ClosingLock => {
                    if b.worker.phase == Phase::Finished {
                        assert(plans(world, info, w)[i].plan is None);
                    }
                },
                Phase::EmittingRewinds => {
                    assert(tasks.take(tasks.len() as int) =~= tasks);
                },
                _ => {},
            }
        },
        _ => {},
    }
}

/// The table behind an export is the one that it belongs to.
proof fn lemma_table_behind(tasks: Seq<TaskView>, export: GlobalId, name: (Seq<char>, Seq<char>))
    requires
        is_exported(tasks, export),
        forall|k: int|
            0 <= k < tasks.len() && (#[trigger] tasks[k]).exports.contains(export)
                ==> tasks[k].name == name,
    ensures
        table_behind(tasks, export) == name,
{
}

/// Reading on reports the rows of table `i` when it comes to it.
proof fn lemma_gauge_reads_on<E, R>(
    world: World,
    contents: Contents<R>,
    info: InfoView,
    w: int,
    a: Moment<E>,
    b: Moment<E>,
    from: int,
    i: int,
    export: GlobalId,
)
    requires
        world.well_formed(),
        belongs(world, i, export),
        task_views(a.worker.tasks@) == kept(world, info, w),
        0 <= from <= a.worker.tasks@.len(),
        reads_on(a.worker, b.worker, b.action, from),
    ensures
        ({
            let tasks = kept(world, info, w);
            let name = world.tasks[i].name;
            let to = tables_read(b.worker.phase, tasks.len() as int);
            match b.action {
                Action::ReadTable(k) => {
                    &&& k < tasks.len()
                    &&& task_views(b.worker.tasks@) == tasks
                    &&& tasks[k as int].exports.contains(export) ==> is_listed(
                        tasks.take(to),
                        name,
                    ) && tasks[k as int].plan == plans(world, info, w)[i].plan
                        && tasks[k as int].name == name
                    &&& !tasks[k as int].exports.contains(export) ==> {
                        ||| is_listed(tasks.take(to), name) == is_listed(tasks.take(from), name)
                        ||| plans(world, info, w)[i].plan is None
                    }
                },
                _ => {
                    ||| is_listed(tasks.take(to), name) == is_listed(tasks.take(from), name)
                    ||| plans(world, info, w)[i].plan is None
                },
            }
        }),
        b.worker.phase is ReadingTable || b.worker.phase == Phase::EmittingRewinds,
        b.action is ReadTable || b.action is EmitRewinds,
{
    let raw = a.worker.tasks@;
    let tasks = kept(world, info, w);
    let name = world.tasks[i].name;
    let next = next_planned(raw, from);
    lemma_next_planned(raw, from);
    lemma_kept_table(world, info, w, i, export);
    assert(tasks.len() == raw.len());
    assert(raw.len() == a.worker.tasks.len());
    let to = tables_read(b.worker.phase, tasks.len() as int);
    assert(to == if next < raw.len() {
        next + 1
    } else {
        next
    });
    if is_listed(tasks.take(from), name) {
        let k = choose|k: int|
            0 <= k < tasks.take(from).len() && (#[trigger] tasks.take(from)[k]).name == name;
        assert(tasks.take(to)[k].name == name);
    }
    if is_listed(tasks.take(to), name) && !is_listed(tasks.take(from), name) {
        let k = choose|k: int|
            0 <= k < tasks.take(to).len() && (#[trigger] tasks.take(to)[k]).name == name;
        assert(tasks[k].name == name);
        if k < from {
            assert(tasks.take(from)[k].name == name);
        }
        if k < next {
            assert(raw[k].plan is None);
            assert(tasks[k] == raw[k]@);
        }
    }
    if next < raw.len() {
        assert(tasks.take(to)[next] == tasks[next]);
    }
}

/// At every moment the gauges of a worker fit its phase.
proof fn lemma_gauges<E, R>(
    world: World,
    contents: Contents<R>,
    h: Seq<Entry<E>>,
    w: int,
    i: int,
    export: GlobalId,
)
    requires
        world.well_formed(),
        belongs(world, i, export),
        is_history(world, h),
        course_of(h, w).len() > 0,
    ensures
        gauges_fit(
            world,
            contents,
            told(h),
            setup_failed(world, h),
            w,
            course_of(h, w),
            i,
            export,
        ),
    decreases h.len(),
{
    let before = h.drop_last();
    let e = h.last();
    let c = course_of(before, w);
    let b = e.moment;
    if told(before) is Some {
        lemma_told_once(world, h);
    }
    lemma_notice_stays(world, h);
    lemma_courses(world, h, w);
    lemma_state(world, h, w);
    lemma_course_basics(course_of(h, w));
    if e.worker != w {
        lemma_gauges(world, contents, before, w, i, export);
        lemma_state(world, before, w);
    } else if c.len() == 0 {
        assert(course_of(h, w).drop_last() =~= c);
        let start = choose|start: SnapshotWorker<E>| #[trigger]
            starts(world, w, start) && steps(start, Event::Done, b.worker, b.action);
        assert(starts(world, w, start));
        assert(task_views(start.tasks@).len() == start.tasks@.len());
    } else {
        lemma_courses(world, before, w);
        lemma_settings(world, before, w);
        lemma_state(world, before, w);
        lemma_gauges(world, contents, before, w, i, export);
        let event = choose|event: Event<E>| #[trigger] leads(world, before, c.last(), event, b);
        lemma_step_gauges(
            world,
            contents,
            before,
            setup_failed(world, h),
            w,
            c,
            event,
            b,
            i,
            export,
        );
        assert(course_of(h, w) == c.push(b));
    }
}

/// The shares of all workers in a table add up to the table.
proof fn lemma_share_total<R>(
    world: World,
    info: InfoView,
    i: int,
    rows: Seq<TableRow<R>>,
)
    requires
        world.well_formed(),
        bounds_ok(world, info.bounds),
        0 <= i < world.tasks.len(),
    ensures
        total(
            world.worker_count as nat,
            |w: int|
                rows_read(
                    plans(world, info, w)[i].plan,
                    rows,
                    (world.order)(world.tasks[i].name),
                ),
        ) == rows.len(),
    decreases rows.len(),
{
    let n = world.worker_count as nat;
    let le = (world.order)(world.tasks[i].name);
    let all = |w: int| rows_read(plans(world, info, w)[i].plan, rows, le);
    if rows.len() == 0 {
        lemma_total_zero(n, all);
    } else {
        let row = rows.last();
        let before = |w: int| rows_read(plans(world, info, w)[i].plan, rows.drop_last(), le);
        let last = |w: int|
            if reads_key(plans(world, info, w)[i].plan, row.key, le) {
                1nat
            } else {
                0nat
            };
        lemma_share_total(world, info, i, rows.drop_last());
        lemma_total_add(n, before, last, all);
        let reader = lemma_one_reader(world, info, i, row.key);
        lemma_total_single(n, last, reader);
    }
}

/// Where no worker fails, every worker has set both gauges of an export, the records known sum up
/// to the rows of its table, and so do the records staged: the leader alone counts the table, and
/// no row is staged by two workers.
pub proof fn law_statistics_add_up<E, R>(
    world: World,
    contents: Contents<R>,
    h: Seq<Entry<E>>,
    i: int,
    export: GlobalId,
)
    requires
        world.well_formed(),
        is_history(world, h),
        all_ended_well(world, h),
        belongs(world, i, export),
    ensures
        forall|w: int|
            #![trigger course_of(h, w)]
            0 <= w < world.worker_count ==> known(contents, course_of(h, w), export) is Some
                && staged(world, contents, course_of(h, w), export) is Some,
        total(
            world.worker_count as nat,
            |w: int| known(contents, course_of(h, w), export)->0,
        ) == (contents.rows)(world.tasks[i].name).len(),
        total(
            world.worker_count as nat,
            |w: int| staged(world, contents, course_of(h, w), export)->0,
        ) == (contents.rows)(world.tasks[i].name).len(),
{
    let n = world.worker_count as nat;
    let rows = (contents.rows)(world.tasks[i].name);
    let le = (world.order)(world.tasks[i].name);
    lemma_outcome(world, contents, h, 0);
    let info = told(h)->0;
    assert forall|w: int| #![trigger course_of(h, w)] 0 <= w < n implies {
        &&& known(contents, course_of(h, w), export) == Some(tallied(world, contents, w, i))
        &&& staged(world, contents, course_of(h, w), export) == Some(
            share(world, contents, info, w, i),
        )
    } by {
        lemma_all_went_well(world, h, w);
        lemma_gauges(world, contents, h, w, i, export);
    }
    let k = |w: int| known(contents, course_of(h, w), export)->0;
    let s = |w: int| staged(world, contents, course_of(h, w), export)->0;
    assert forall|w: int| 0 <= w < n && w != world.leader implies #[trigger] k(w) == 0 by {
        assert(known(contents, course_of(h, w), export) == Some(tallied(world, contents, w, i)));
    }
    lemma_total_single(n, k, world.leader);
    assert(k(world.leader) == rows.len()) by {
        let c = course_of(h, world.leader);
        assert(known(contents, c, export) == Some(tallied(world, contents, world.leader, i)));
    }
    let g = |w: int| rows_read(plans(world, info, w)[i].plan, rows, le);
    assert forall|w: int| 0 <= w < n implies #[trigger] s(w) == g(w) by {
        assert(staged(world, contents, course_of(h, w), export) == Some(
            share(world, contents, info, w, i),
        ));
    }
    lemma_total_same(n, s, g);
    lemma_share_total(world, info, i, rows);
}

} // verus!
