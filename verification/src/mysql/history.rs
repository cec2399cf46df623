//! What happens on all workers of a snapshot, in the order in which it happens.

use vstd::prelude::*;

use crate::mysql::assignment::{
    bounds_from, bounds_views, failed_outputs, outcome_for, planned, surviving, task_views,
    BoundsView, SampledTable, SchemaFailure, SnapshotInfo, TableBounds, TaskView,
};
use crate::mysql::course::{
    count, fits, follows, has_been, is_broadcast, is_connect, is_course, is_early, is_lock,
    is_open_lock, is_release_broadcast, is_release_probes, is_sample, is_setup,
    is_start_transaction, is_unlock, law_channel_is_held_until_transaction,
    law_connections_are_bounded, law_gtid_set_is_read_under_lock, law_leader_broadcasts_once,
    law_nothing_follows_the_end, law_tables_are_unlocked_last, lemma_count_none,
    lemma_course_basics, lemma_course_prefix, lemma_has_been_last, Moment,
};
use crate::mysql::desc::{GtidPartition, SourceOutputInfo};
use crate::mysql::error::DefiniteError;
use crate::mysql::sampling::{
    increasing, law_sampled_boundaries_increase, replies_ascend, sampled, ReplyView, SamplerView,
};
use crate::mysql::sharing::{distinct_failures, distinct_outputs, distinct_tables, lemma_lookup};
use crate::mysql::splits::{non_decreasing, plan_of, total_preorder, SplitsView};
use crate::mysql::worker::{
    reading_transaction, steps, Action, Event, Phase, SnapshotWorker, Statement,
};
use crate::tally::{
    lemma_total_add, lemma_total_le, lemma_total_ones, lemma_total_single, lemma_total_zero, total,
};

verus! {

/// What a snapshot finds given.
pub struct World {
    pub worker_count: int,
    /// The worker that leads.
    pub leader: int,
    /// The tables to snapshot, before anything is known about what to read.
    pub tasks: Seq<TaskView>,
    /// The frontier that a set of transactions stands for.
    pub frontier: spec_fn(Seq<char>) -> Seq<GtidPartition>,
    /// How the server compares the keys of a table.
    pub order: spec_fn((Seq<char>, Seq<char>)) -> spec_fn(Seq<char>, Seq<char>) -> bool,
    /// The outputs whose table does not look as it should any more, and what is wrong.
    pub broken: Map<usize, DefiniteError>,
}

impl World {
    /// There is a leader, every table has an owner, no table and no output occurs twice, and keys
    /// can be compared.
    pub open spec fn well_formed(self) -> bool {
        &&& 0 <= self.leader < self.worker_count
        &&& distinct_tables(self.tasks)
        &&& distinct_outputs(self.tasks)
        &&& forall|i: int|
            #![trigger self.tasks[i]]
            0 <= i < self.tasks.len() ==> {
                &&& 0 <= self.tasks[i].owner < self.worker_count
                &&& total_preorder((self.order)(self.tasks[i].name))
            }
    }
}

/// What the leader broadcasts.
#[verifier::ext_equal]
pub struct InfoView {
    pub gtid_set: Seq<char>,
    pub bounds: Seq<BoundsView>,
}

/// The contents of a broadcast.
pub open spec fn info_view(info: SnapshotInfo) -> InfoView {
    InfoView { gtid_set: info.gtid_set@, bounds: bounds_views(info.pk_bounds@) }
}

/// What a worker has come to.
pub struct Entry<E> {
    pub worker: int,
    pub moment: Moment<E>,
}

/// What has happened on worker `w`.
pub open spec fn course_of<E>(h: Seq<Entry<E>>, w: int) -> Seq<Moment<E>>
    decreases h.len(),
{
    if h.len() == 0 {
        Seq::empty()
    } else if h.last().worker == w {
        course_of(h.drop_last(), w).push(h.last().moment)
    } else {
        course_of(h.drop_last(), w)
    }
}

/// What an action tells all workers, if it is the broadcast of a setup that succeeded.
pub open spec fn said<E>(action: Action<E>) -> Option<InfoView> {
    match action {
        Action::Broadcast(Some(info)) => Some(info_view(info)),
        _ => None,
    }
}

/// What the workers have been told, if they have been told anything.
pub open spec fn told<E>(h: Seq<Entry<E>>) -> Option<InfoView>
    decreases h.len(),
{
    if h.len() == 0 {
        None
    } else if said(h.last().moment.action) is Some {
        said(h.last().moment.action)
    } else {
        told(h.drop_last())
    }
}

/// Says that the leader's setup failed.
pub open spec fn is_failure_notice<E>() -> spec_fn(Action<E>) -> bool {
    |a: Action<E>| a == Action::<E>::Broadcast(None)
}

/// The leader has told all workers that its setup failed.
pub open spec fn setup_failed<E>(world: World, h: Seq<Entry<E>>) -> bool {
    has_been(course_of(h, world.leader), is_failure_notice())
}

/// The worker does not hold on to the broadcast channel any more.
pub open spec fn let_go<E>(c: Seq<Moment<E>>) -> bool {
    has_been(c, is_release_broadcast()) || (c.len() > 0 && c.last().action is Finish)
}

/// No worker holds on to the broadcast channel any more.
pub open spec fn all_let_go<E>(world: World, h: Seq<Entry<E>>) -> bool {
    forall|w: int| 0 <= w < world.worker_count ==> let_go(#[trigger] course_of(h, w))
}

/// The splits, if any, came of sampling for the workers there are.
pub open spec fn was_sampled(
    splits: Option<SplitsView>,
    worker_count: int,
    le: spec_fn(Seq<char>, Seq<char>) -> bool,
) -> bool {
    splits is Some ==> exists|start: SamplerView, replies: Seq<ReplyView>|
        {
            &&& start.well_formed()
            &&& start.boundaries.len() == 0
            &&& start.partitions == worker_count
            &&& #[trigger] sampled(start, replies) == Some(splits)
            &&& replies_ascend(start, replies, le)
        }
}

/// The output of the given index is among `outputs`.
pub open spec fn has_output(outputs: Seq<SourceOutputInfo>, output_index: usize) -> bool {
    exists|k: int| 0 <= k < outputs.len() && (#[trigger] outputs[k]).output_index == output_index
}

/// `failures` are the broken outputs of the tables that the worker reads something of, each once.
pub open spec fn failures_fit(
    tasks: Seq<TaskView>,
    broken: Map<usize, DefiniteError>,
    failures: Seq<SchemaFailure>,
) -> bool {
    &&& distinct_failures(failures)
    &&& forall|f: int|
        #![trigger failures[f]]
        0 <= f < failures.len() ==> {
            &&& failures[f].table < tasks.len()
            &&& tasks[failures[f].table as int].plan is Some
            &&& has_output(tasks[failures[f].table as int].outputs, failures[f].output_index)
            &&& broken.contains_key(failures[f].output_index)
            &&& failures[f].error == broken[failures[f].output_index]
        }
    &&& forall|o: usize| #[trigger]
        failing(tasks, broken).contains(o) ==> failed_outputs(failures).contains(o)
}

/// The broken outputs of the tables that the worker reads something of.
pub open spec fn failing(tasks: Seq<TaskView>, broken: Map<usize, DefiniteError>) -> Set<usize> {
    Set::new(|o: usize| broken.contains_key(o) && is_read_output(tasks, o))
}

/// The output is one of a table that the worker reads something of.
pub open spec fn is_read_output(tasks: Seq<TaskView>, o: usize) -> bool {
    exists|i: int|
        0 <= i < tasks.len() && (#[trigger] tasks[i]).plan is Some && has_output(
            tasks[i].outputs,
            o,
        )
}

/// `event` can come of the action that a worker waits for, after what has happened in `h`: the
/// channel delivers what was broadcast, and is closed when no worker holds on to it any more.
pub open spec fn can_come<E>(
    world: World,
    h: Seq<Entry<E>>,
    now: Moment<E>,
    event: Event<E>,
) -> bool {
    match event {
        Event::Sampled(results) => forall|i: int|
            #![trigger world.tasks[i]]
            0 <= i < world.tasks.len() ==> was_sampled(
                outcome_for(results@, i),
                world.worker_count,
                (world.order)(world.tasks[i].name),
            ),
        Event::FeedbackData(batch) => forall|b: int|
            #![trigger batch@[b]]
            0 <= b < batch@.len() ==> match batch@[b] {
                Some(info) => told(h) == Some(info_view(info)),
                None => setup_failed(world, h),
            },
        Event::FeedbackClosed => all_let_go(world, h),
        Event::GtidSetParsed(upper) => now.action matches Action::ParseGtidSet(gtid_set)
            ==> upper@ == (world.frontier)(gtid_set@),
        Event::SchemasVerified(failures) => failures_fit(
            task_views(now.worker.tasks@),
            world.broken,
            failures@,
        ),
        _ => true,
    }
}

/// `start` is worker `w` before it has done anything.
pub open spec fn starts<E>(world: World, w: int, start: SnapshotWorker<E>) -> bool {
    &&& start.well_formed()
    &&& start.phase == Phase::Start
    &&& start.settings.worker_id == w
    &&& start.settings.worker_count == world.worker_count
    &&& start.settings.is_leader == (w == world.leader)
    &&& task_views(start.tasks@) == world.tasks
    &&& world.tasks.len() > 0 ==> start.all_outputs@.len() > 0
}

/// `m` can be how worker `w` begins.
pub open spec fn opens<E>(world: World, w: int, m: Moment<E>) -> bool {
    exists|start: SnapshotWorker<E>| #[trigger]
        starts(world, w, start) && steps(start, Event::Done, m.worker, m.action)
}

/// `event` takes a worker from `a` to `b`, after what has happened in `h`.
pub open spec fn leads<E>(
    world: World,
    h: Seq<Entry<E>>,
    a: Moment<E>,
    event: Event<E>,
    b: Moment<E>,
) -> bool {
    &&& a.worker.accepts(event)
    &&& steps(a.worker, event, b.worker, b.action)
    &&& can_come(world, h, a, event)
}

/// `e` can be what happens next.
pub open spec fn extends<E>(world: World, h: Seq<Entry<E>>, e: Entry<E>) -> bool {
    let c = course_of(h, e.worker);
    &&& 0 <= e.worker < world.worker_count
    &&& if c.len() == 0 {
        opens(world, e.worker, e.moment)
    } else {
        exists|event: Event<E>| #[trigger] leads(world, h, c.last(), event, e.moment)
    }
}

/// `h` can be what has happened on all workers, up to some moment.
pub open spec fn is_history<E>(world: World, h: Seq<Entry<E>>) -> bool
    decreases h.len(),
{
    if h.len() == 0 {
        true
    } else {
        is_history(world, h.drop_last()) && extends(world, h.drop_last(), h.last())
    }
}

/// What has happened on a worker is a course.
pub proof fn lemma_courses<E>(world: World, h: Seq<Entry<E>>, w: int)
    requires
        is_history(world, h),
        course_of(h, w).len() > 0,
    ensures
        0 <= w < world.worker_count,
        is_course(course_of(h, w)),
    decreases h.len(),
{
    let before = h.drop_last();
    let e = h.last();
    if e.worker == w {
        let c = course_of(before, w);
        let d = course_of(h, w);
        assert(d == c.push(e.moment));
        if c.len() == 0 {
            let start = choose|start: SnapshotWorker<E>| #[trigger]
                starts(world, w, start) && steps(
                    start,
                    Event::Done,
                    e.moment.worker,
                    e.moment.action,
                );
            assert(start.well_formed());
            assert(d[0] == e.moment);
        } else {
            lemma_courses(world, before, w);
            let event = choose|event: Event<E>| #[trigger]
                leads(world, before, c.last(), event, e.moment);
            assert(c.last().worker.accepts(event));
            assert(d.drop_last() =~= c);
            assert(d[d.len() - 2] == c.last());
            assert(follows(c.last(), e.moment));
        }
    } else {
        lemma_courses(world, before, w);
    }
}

/// The settings of a worker are those that it started with.
pub proof fn lemma_settings<E>(world: World, h: Seq<Entry<E>>, w: int)
    requires
        is_history(world, h),
        course_of(h, w).len() > 0,
    ensures
        course_of(h, w).last().worker.settings.worker_id == w,
        course_of(h, w).last().worker.settings.worker_count == world.worker_count,
        course_of(h, w).last().worker.settings.is_leader == (w == world.leader),
    decreases h.len(),
{
    let before = h.drop_last();
    let e = h.last();
    if e.worker == w {
        let c = course_of(before, w);
        if c.len() > 0 {
            lemma_settings(world, before, w);
        }
    } else {
        lemma_settings(world, before, w);
    }
}

/// What the workers have been told is what the leader broadcast.
pub proof fn lemma_told<E>(world: World, h: Seq<Entry<E>>)
    requires
        is_history(world, h),
        told(h) is Some,
    ensures
        exists|k: int|
            0 <= k < course_of(h, world.leader).len() && said(
                (#[trigger] course_of(h, world.leader)[k]).action,
            ) == told(h),
        count(course_of(h, world.leader), is_broadcast()) >= 1,
    decreases h.len(),
{
    let before = h.drop_last();
    let e = h.last();
    let c = course_of(before, world.leader);
    let d = course_of(h, world.leader);
    if said(e.moment.action) is Some {
        lemma_courses(world, h, e.worker);
        lemma_settings(world, h, e.worker);
        let mine = course_of(h, e.worker);
        assert(mine.last() == e.moment);
        assert(mine.drop_last() =~= course_of(before, e.worker));
        law_leader_broadcasts_once(mine);
        assert(e.worker == world.leader);
        assert(said(d[d.len() - 1].action) == told(h));
    } else {
        lemma_told(world, before);
        let k = choose|k: int|
            0 <= k < c.len() && said((#[trigger] c[k]).action) == told(before);
        if e.worker == world.leader {
            assert(d.drop_last() =~= c);
        }
        assert(said(d[k].action) == told(h));
    }
}

/// The workers are told once: nothing replaces what they have been told.
pub proof fn lemma_told_once<E>(world: World, h: Seq<Entry<E>>)
    requires
        is_history(world, h),
        h.len() > 0,
        told(h.drop_last()) is Some,
    ensures
        told(h) == told(h.drop_last()),
{
    let before = h.drop_last();
    let e = h.last();
    if said(e.moment.action) is Some {
        lemma_told(world, before);
        lemma_courses(world, h, e.worker);
        lemma_settings(world, h, e.worker);
        let mine = course_of(h, e.worker);
        assert(mine.drop_last() =~= course_of(before, e.worker));
        law_leader_broadcasts_once(mine);
    }
}

/// The tasks of worker `w` once it has been told `info`.
pub open spec fn plans(world: World, info: InfoView, w: int) -> Seq<TaskView> {
    Seq::new(
        world.tasks.len(),
        |i: int|
            TaskView {
                plan: plan_of(
                    info.bounds[i].splits,
                    w,
                    world.tasks[i].owner,
                    world.worker_count,
                ),
                ..world.tasks[i]
            },
    )
}

/// The tasks of worker `w` once it has left out what is broken.
pub open spec fn kept(world: World, info: InfoView, w: int) -> Seq<TaskView> {
    surviving(plans(world, info, w), failing(plans(world, info, w), world.broken))
}

/// The bounds are those of the tables, one each, and partition the keys of each table for the
/// workers there are.
pub open spec fn bounds_ok(world: World, bounds: Seq<BoundsView>) -> bool {
    &&& bounds.len() == world.tasks.len()
    &&& forall|i: int|
        #![trigger bounds[i]]
        0 <= i < bounds.len() ==> {
            &&& bounds[i].table == world.tasks[i].name
            &&& bounds[i].splits matches Some(s) ==> {
                &&& non_decreasing(s.boundaries, (world.order)(world.tasks[i].name))
                &&& s.boundaries.len() < world.worker_count
            }
        }
}

/// The phases in which the leader holds the bounds that it will broadcast.
pub open spec fn holds_bounds(phase: Phase) -> bool {
    match phase {
        Phase::SettingLockTimeout | Phase::LockingTables | Phase::ReadingGtidSet => true,
        _ => false,
    }
}

/// The phases in which a worker has its plans, and has not looked at schemas yet.
pub open spec fn has_plans(phase: Phase) -> bool {
    match phase {
        Phase::Connecting
        | Phase::CheckingSettings
        | Phase::StartingTransaction
        | Phase::SettingTimeZone
        | Phase::SettingMaxExecutionTime
        | Phase::ReleasingBroadcast
        | Phase::DrainingFeedback
        | Phase::UnlockingTables
        | Phase::ClosingLock
        | Phase::VerifyingSchemas => true,
        _ => false,
    }
}

/// The phases in which a worker has left out what is broken.
pub open spec fn has_kept(phase: Phase) -> bool {
    match phase {
        Phase::PublishingSchemaErrors
        | Phase::MeasuringTables
        | Phase::ReadingTable(_)
        | Phase::EmittingRewinds => true,
        _ => false,
    }
}

/// How the state of worker `w` at moment `m` relates to what the workers have been told.
pub open spec fn state_fits<E>(
    world: World,
    info: Option<InfoView>,
    failed: bool,
    w: int,
    m: Moment<E>,
) -> bool {
    let worker = m.worker;
    let phase = worker.phase;
    &&& is_early(phase) || is_setup(phase) || phase == Phase::BroadcastingInfo || phase
        == Phase::BroadcastingFailure || phase == Phase::AwaitingInfo || phase
        == Phase::ParsingGtidSet ==> task_views(worker.tasks@) == world.tasks
    &&& holds_bounds(phase) ==> bounds_ok(world, bounds_views(worker.bounds@))
    &&& phase == Phase::ReleasingProbes ==> (worker.info matches Some(i) && bounds_ok(
        world,
        bounds_views(i.pk_bounds@),
    ))
    &&& phase == Phase::BroadcastingInfo ==> info is Some
    &&& phase == Phase::BroadcastingFailure ==> failed
    &&& phase == Phase::ParsingGtidSet ==> {
        &&& info matches Some(i) && i.bounds == bounds_views(worker.bounds@)
        &&& m.action matches Action::ParseGtidSet(g) && g@ == info->0.gtid_set
    }
    &&& has_plans(phase) || has_kept(phase) ==> {
        &&& info is Some
        &&& worker.snapshot_upper@ == (world.frontier)(info->0.gtid_set)
        &&& task_views(worker.tasks@) == if has_plans(phase) {
            plans(world, info->0, w)
        } else {
            kept(world, info->0, w)
        }
    }
    &&& info matches Some(i) ==> bounds_ok(world, i.bounds)
}

/// Sampled bounds partition the keys of each table.
proof fn lemma_sampled_bounds(
    world: World,
    results: Seq<SampledTable>,
    bounds: Seq<TableBounds>,
)
    requires
        world.well_formed(),
        bounds_views(bounds) == bounds_from(world.tasks, results),
        forall|i: int|
            #![trigger world.tasks[i]]
            0 <= i < world.tasks.len() ==> was_sampled(
                outcome_for(results, i),
                world.worker_count,
                (world.order)(world.tasks[i].name),
            ),
    ensures
        bounds_ok(world, bounds_views(bounds)),
{
    let views = bounds_views(bounds);
    assert forall|i: int| #![trigger views[i]] 0 <= i < views.len() implies {
        &&& views[i].table == world.tasks[i].name
        &&& views[i].splits matches Some(s) ==> {
            &&& non_decreasing(s.boundaries, (world.order)(world.tasks[i].name))
            &&& s.boundaries.len() < world.worker_count
        }
    } by {
        let le = (world.order)(world.tasks[i].name);
        let splits = outcome_for(results, i);
        assert(views[i] == bounds_from(world.tasks, results)[i]);
        if splits is Some {
            assert(was_sampled(splits, world.worker_count, le));
            let (start, replies) = choose|start: SamplerView, replies: Seq<ReplyView>|
                {
                    &&& start.well_formed()
                    &&& start.boundaries.len() == 0
                    &&& start.partitions == world.worker_count
                    &&& #[trigger] sampled(start, replies) == Some(splits)
                    &&& replies_ascend(start, replies, le)
                };
            assert(increasing(start.boundaries, le));
            law_sampled_boundaries_increase(start, replies, le);
        }
    }
}

/// Planning by what was broadcast gives the plans.
proof fn lemma_planned_is_plans(world: World, bounds: Seq<TableBounds>, info: InfoView, w: int)
    requires
        world.well_formed(),
        info.bounds == bounds_views(bounds),
        bounds_ok(world, info.bounds),
    ensures
        planned(world.tasks, bounds, w, world.worker_count) == plans(world, info, w),
{
    assert forall|j: int| 0 <= j < bounds.len() implies (#[trigger] bounds[j]).table@
        == world.tasks[j].name by {
        assert(info.bounds[j] == bounds[j]@);
    }
    assert(info.bounds.len() == bounds.len());
    let left = planned(world.tasks, bounds, w, world.worker_count);
    let right = plans(world, info, w);
    assert forall|i: int| 0 <= i < left.len() implies #[trigger] left[i] == right[i] by {
        lemma_lookup(world.tasks, bounds, i);
        assert(info.bounds[i] == bounds[i]@);
    }
    assert(left =~= right);
}

/// What is reported as failed are the broken outputs of the tables that are read.
pub proof fn lemma_failed_is_failing(
    tasks: Seq<TaskView>,
    broken: Map<usize, DefiniteError>,
    failures: Seq<SchemaFailure>,
)
    requires
        failures_fit(tasks, broken, failures),
    ensures
        failed_outputs(failures) == failing(tasks, broken),
{
    let indexes = failures.map_values(|f: SchemaFailure| f.output_index);
    assert forall|o: usize| failed_outputs(failures).contains(o) implies #[trigger] failing(
        tasks,
        broken,
    ).contains(o) by {
        let f = choose|f: int| 0 <= f < indexes.len() && indexes[f] == o;
        assert(failures[f].output_index == o);
        let t = failures[f].table as int;
        assert(tasks[t].plan is Some);
        assert(is_read_output(tasks, o));
    }
    assert(failed_outputs(failures) =~= failing(tasks, broken));
}

proof fn lemma_step_state<E>(
    world: World,
    h: Seq<Entry<E>>,
    failed: bool,
    w: int,
    a: Moment<E>,
    event: Event<E>,
    b: Moment<E>,
)
    requires
        world.well_formed(),
        leads(world, h, a, event, b),
        a.worker.well_formed(),
        fits(a),
        a.worker.settings.worker_id == w,
        a.worker.settings.worker_count == world.worker_count,
        state_fits(world, told(h), failed, w, a),
        b.worker.phase == Phase::BroadcastingFailure ==> failed,
        b.worker.phase != Phase::BroadcastingInfo,
    ensures
        state_fits(world, told(h), failed, w, b),
{
    match event {
        Event::Sampled(results) => {
            lemma_sampled_bounds(world, results@, b.worker.bounds@);
        },
        Event::GtidSetParsed(upper) => {
            lemma_planned_is_plans(world, a.worker.bounds@, told(h)->0, w);
        },
        Event::SchemasVerified(failures) => {
            lemma_failed_is_failing(task_views(a.worker.tasks@), world.broken, failures@);
        },
        Event::Done => {
            if a.worker.phase == Phase::OpeningLock && b.worker.phase
                != Phase::SamplingBoundaries {
                let none = Seq::<SampledTable>::empty();
                assert forall|i: int|
                    #![trigger world.tasks[i]]
                    0 <= i < world.tasks.len() implies was_sampled(
                    outcome_for(none, i),
                    world.worker_count,
                    (world.order)(world.tasks[i].name),
                ) by {}
                lemma_sampled_bounds(world, none, b.worker.bounds@);
            }
        },
        _ => {},
    }
}

/// A notice that the setup failed stays, and the leader has given it if that is the last thing
/// that it did.
pub proof fn lemma_notice_stays<E>(world: World, h: Seq<Entry<E>>)
    requires
        h.len() > 0,
    ensures
        setup_failed(world, h.drop_last()) ==> setup_failed(world, h),
        h.last().worker == world.leader && is_failure_notice()(h.last().moment.action)
            ==> setup_failed(world, h),
{
    let c = course_of(h, world.leader);
    if h.last().worker == world.leader {
        assert(c.drop_last() =~= course_of(h.drop_last(), world.leader));
        lemma_has_been_last(c, is_failure_notice::<E>());
    }
}

/// At every moment the state of every worker fits what the workers have been told.
pub proof fn lemma_state<E>(world: World, h: Seq<Entry<E>>, w: int)
    requires
        world.well_formed(),
        is_history(world, h),
        course_of(h, w).len() > 0,
    ensures
        state_fits(world, told(h), setup_failed(world, h), w, course_of(h, w).last()),
    decreases h.len(),
{
    let before = h.drop_last();
    let e = h.last();
    let mine = course_of(before, e.worker);
    let b = e.moment;
    let info = told(h);
    let failed = setup_failed(world, h);
    if told(before) is Some {
        lemma_told_once(world, h);
    }
    lemma_notice_stays(world, h);
    // What is new on the worker to which something happened.
    lemma_courses(world, h, e.worker);
    lemma_settings(world, h, e.worker);
    lemma_course_basics(course_of(h, e.worker));
    law_leader_broadcasts_once(course_of(h, e.worker));
    assert(course_of(h, e.worker).last() == b);
    assert(course_of(h, e.worker).drop_last() =~= mine);
    if mine.len() > 0 {
        let a = mine.last();
        lemma_state(world, before, e.worker);
        lemma_courses(world, before, e.worker);
        lemma_settings(world, before, e.worker);
        lemma_course_basics(mine);
        let event = choose|event: Event<E>| #[trigger] leads(world, before, a, event, b);
        if b.worker.phase == Phase::BroadcastingInfo {
            assert(bounds_ok(world, info->0.bounds));
            assert(state_fits(world, info, failed, e.worker, b));
        } else {
            assert(said(b.action) is None);
            lemma_step_state(world, before, failed, e.worker, a, event, b);
        }
    } else {
        if told(before) is Some {
            lemma_told(world, before);
            lemma_state(world, before, world.leader);
        }
    }
    if e.worker != w {
        lemma_state(world, before, w);
    }
}

/// A worker that has let go of the channel does not take hold of it again.
proof fn lemma_let_go_stays<E>(world: World, h: Seq<Entry<E>>, w: int)
    requires
        is_history(world, h),
        h.len() > 0,
        let_go(course_of(h.drop_last(), w)),
    ensures
        let_go(course_of(h, w)),
{
    let before = h.drop_last();
    let c = course_of(before, w);
    let d = course_of(h, w);
    if h.last().worker == w {
        assert(d.drop_last() =~= c);
        lemma_has_been_last(d, is_release_broadcast::<E>());
        if c.len() > 0 {
            lemma_courses(world, before, w);
            let event = choose|event: Event<E>| #[trigger]
                leads(world, before, c.last(), event, h.last().moment);
            if c.last().action is Finish {
                law_nothing_follows_the_end(c, h.last().moment);
                assert(c.last().worker.accepts(event));
                assert(follows(c.last(), h.last().moment));
            }
        }
    }
}

/// Once the tables are unlocked, no worker holds on to the channel.
proof fn lemma_unlocked<E>(world: World, h: Seq<Entry<E>>)
    requires
        is_history(world, h),
        has_been(course_of(h, world.leader), is_unlock()),
    ensures
        all_let_go(world, h),
    decreases h.len(),
{
    if h.len() > 0 {
        let before = h.drop_last();
        let e = h.last();
        let c = course_of(before, world.leader);
        let d = course_of(h, world.leader);
        if e.worker == world.leader {
            assert(d.drop_last() =~= c);
            lemma_has_been_last(d, is_unlock::<E>());
        }
        if has_been(c, is_unlock()) {
            lemma_unlocked(world, before);
        } else {
            lemma_courses(world, h, world.leader);
            lemma_course_basics(d);
            if c.len() > 0 {
                lemma_courses(world, before, world.leader);
                let event = choose|event: Event<E>| #[trigger]
                    leads(world, before, c.last(), event, e.moment);
                law_tables_are_unlocked_last(c, event, e.moment);
            }
        }
        assert(all_let_go(world, before));
        assert forall|w: int| 0 <= w < world.worker_count implies let_go(
            #[trigger] course_of(h, w),
        ) by {
            assert(let_go(course_of(before, w)));
            lemma_let_go_stays(world, h, w);
        }
    }
}

/// Reads which transactions the server has executed.
pub open spec fn is_read_gtid_set<E>() -> spec_fn(Action<E>) -> bool {
    |a: Action<E>| a is ReadGtidSet
}

/// What the workers are told was read right after the tables had been locked. The sampling
/// connections were closed in between.
pub proof fn law_told_was_read_under_lock<E>(world: World, h: Seq<Entry<E>>)
    requires
        is_history(world, h),
        told(h) is Some,
    ensures
        exists|k: int|
            #![trigger course_of(h, world.leader)[k]]
            {
                &&& 3 <= k < course_of(h, world.leader).len()
                &&& said(course_of(h, world.leader)[k].action) == told(h)
                &&& course_of(h, world.leader)[k - 1].action is ReleaseProbes
                &&& course_of(h, world.leader)[k - 2].action is ReadGtidSet
                &&& course_of(h, world.leader)[k - 3].action == Action::<E>::LockStatement(
                    Statement::LockTables,
                )
            },
{
    lemma_told(world, h);
    let d = course_of(h, world.leader);
    let k = choose|k: int| 0 <= k < d.len() && said((#[trigger] d[k]).action) == told(h);
    lemma_courses(world, h, world.leader);
    law_gtid_set_is_read_under_lock(d, k);
    law_gtid_set_is_read_under_lock(d, k - 1);
    law_gtid_set_is_read_under_lock(d, k - 2);
    assert(said(d[k].action) == told(h));
}

/// Every worker reads the tables as of one point: while a worker's transaction starts, which is
/// read-only, repeatable and consistent, the leader has locked all tables and has read which
/// transactions they contain, that worker has been told so, and the tables have not been unlocked.
pub proof fn law_transactions_start_under_lock<E>(world: World, h: Seq<Entry<E>>, w: int)
    requires
        world.well_formed(),
        is_history(world, h),
        course_of(h, w).len() > 0,
        course_of(h, w).last().action is StartTransaction,
    ensures
        course_of(h, w).last().action == Action::<E>::StartTransaction(reading_transaction()),
        told(h) is Some,
        has_been(course_of(h, world.leader), is_lock()),
        has_been(course_of(h, world.leader), is_read_gtid_set()),
        !has_been(course_of(h, world.leader), is_unlock()),
{
    let c = course_of(h, w);
    lemma_courses(world, h, w);
    lemma_course_basics(c);
    lemma_state(world, h, w);
    law_told_was_read_under_lock(world, h);
    let d = course_of(h, world.leader);
    let k = choose|k: int|
        #![trigger d[k]]
        {
            &&& 3 <= k < d.len()
            &&& said(d[k].action) == told(h)
            &&& d[k - 1].action is ReleaseProbes
            &&& d[k - 2].action is ReadGtidSet
            &&& d[k - 3].action == Action::<E>::LockStatement(Statement::LockTables)
        };
    assert(is_read_gtid_set::<E>()(d[k - 2].action));
    assert(is_lock::<E>()(d[k - 3].action));
    if has_been(d, is_unlock()) {
        lemma_unlocked(world, h);
        law_channel_is_held_until_transaction(c);
        assert(let_go(c));
    }
}

/// The tables are unlocked only after all transactions have started: when the leader unlocks
/// them, every worker has let go of the channel or has returned, and whoever let go of it with a
/// part in the reading had started its transaction by then.
pub proof fn law_unlock_follows_all_transactions<E>(world: World, h: Seq<Entry<E>>, w: int)
    requires
        world.well_formed(),
        is_history(world, h),
        h.len() > 0,
        h.last().moment.action == Action::<E>::LockStatement(Statement::UnlockTables),
        0 <= w < world.worker_count,
    ensures
        h.last().worker == world.leader,
        let_go(course_of(h.drop_last(), w)),
        forall|k: int|
            #![trigger course_of(h.drop_last(), w)[k]]
            0 <= k < course_of(h.drop_last(), w).len() && course_of(
                h.drop_last(),
                w,
            )[k].action is ReleaseBroadcast && course_of(
                h.drop_last(),
                w,
            )[k].worker.takes_part() ==> has_been(
                course_of(h.drop_last(), w).take(k + 1),
                is_start_transaction(),
            ),
{
    let before = h.drop_last();
    let e = h.last();
    let mine = course_of(before, e.worker);
    let now = course_of(h, e.worker);
    lemma_courses(world, h, e.worker);
    lemma_settings(world, h, e.worker);
    lemma_course_basics(now);
    assert(now.drop_last() =~= mine);
    if mine.len() == 0 {
        assert(opens(world, e.worker, e.moment));
    } else {
        lemma_courses(world, before, e.worker);
        let event = choose|event: Event<E>| #[trigger]
            leads(world, before, mine.last(), event, e.moment);
        law_tables_are_unlocked_last(mine, event, e.moment);
        lemma_settings(world, before, e.worker);
        assert(all_let_go(world, before));
    }
    let c = course_of(before, w);
    assert(let_go(c));
    assert forall|k: int|
        #![trigger c[k]]
        0 <= k < c.len() && c[k].action is ReleaseBroadcast
            && c[k].worker.takes_part() implies has_been(
        c.take(k + 1),
        is_start_transaction(),
    ) by {
        lemma_courses(world, before, w);
        lemma_course_prefix(c, k + 1);
        law_channel_is_held_until_transaction(c.take(k + 1));
        assert(c.take(k + 1).last() == c[k]);
    }
}

/// A worker that has opened its connection has been told what to read.
proof fn lemma_connected_is_told<E>(world: World, h: Seq<Entry<E>>, w: int)
    requires
        world.well_formed(),
        is_history(world, h),
        has_been(course_of(h, w), is_connect()),
    ensures
        told(h) is Some,
    decreases h.len(),
{
    let before = h.drop_last();
    let c = course_of(before, w);
    let d = course_of(h, w);
    lemma_courses(world, h, w);
    if h.last().worker == w {
        assert(d.drop_last() =~= c);
        lemma_has_been_last(d, is_connect::<E>());
        lemma_course_basics(d);
        lemma_state(world, h, w);
    }
    if has_been(c, is_connect()) {
        lemma_connected_is_told(world, before, w);
        lemma_told_once(world, h);
    }
}

/// The connections that worker `w` has opened to read from and to hold locks.
pub open spec fn connections<E>(h: Seq<Entry<E>>, w: int) -> nat {
    count(course_of(h, w), is_connect()) + count(course_of(h, w), is_open_lock())
}

/// The connections that the leader may hold to sample boundaries: one per worker, from when it
/// opens them until it closes them.
pub open spec fn sampling_connections<E>(world: World, h: Seq<Entry<E>>) -> nat {
    let c = course_of(h, world.leader);
    if has_been(c, is_sample()) && !has_been(c, is_release_probes()) {
        world.worker_count as nat
    } else {
        0
    }
}

/// No connection to read from is opened before the leader has closed its sampling connections.
proof fn lemma_probes_are_closed_first<E>(world: World, h: Seq<Entry<E>>, w: int)
    requires
        world.well_formed(),
        is_history(world, h),
        has_been(course_of(h, w), is_connect()),
    ensures
        has_been(course_of(h, world.leader), is_release_probes()),
{
    lemma_connected_is_told(world, h, w);
    law_told_was_read_under_lock(world, h);
    let d = course_of(h, world.leader);
    let k = choose|k: int|
        #![trigger d[k]]
        {
            &&& 3 <= k < d.len()
            &&& said(d[k].action) == told(h)
            &&& d[k - 1].action is ReleaseProbes
            &&& d[k - 2].action is ReadGtidSet
            &&& d[k - 3].action == Action::<E>::LockStatement(Statement::LockTables)
        };
    assert(is_release_probes::<E>()(d[k - 1].action));
}

/// At no time does a source hold more than one connection per worker and one more: those that the
/// workers open to read from, the leader's lock connection, and the sampling connections, which
/// are closed before any connection to read from is opened.
pub proof fn law_source_connections_are_bounded<E>(world: World, h: Seq<Entry<E>>)
    requires
        world.well_formed(),
        is_history(world, h),
    ensures
        total(world.worker_count as nat, |w: int| connections(h, w)) + sampling_connections(
            world,
            h,
        ) <= world.worker_count + 1,
{
    let n = world.worker_count as nat;
    let sampling = sampling_connections(world, h) > 0;
    let f = |w: int| connections(h, w);
    let reading = |w: int|
        if sampling {
            0nat
        } else {
            1nat
        };
    let lock = |w: int|
        if w == world.leader {
            1nat
        } else {
            0nat
        };
    let bound = |w: int| reading(w) + lock(w);
    assert forall|w: int| 0 <= w < n implies #[trigger] f(w) <= bound(w) by {
        let c = course_of(h, w);
        if has_been(c, is_connect()) {
            lemma_probes_are_closed_first(world, h, w);
        } else {
            lemma_count_none(c, is_connect::<E>());
        }
        if c.len() > 0 {
            lemma_courses(world, h, w);
            lemma_settings(world, h, w);
            law_connections_are_bounded(c);
        }
    }
    lemma_total_le(n, f, bound);
    lemma_total_add(n, reading, lock, bound);
    if sampling {
        lemma_total_zero(n, reading);
    } else {
        lemma_total_ones(n, reading);
    }
    lemma_total_single(n, lock, world.leader);
}

} // verus!
