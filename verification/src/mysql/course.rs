//! What holds of every snapshot from its start on, whatever happens.

use vstd::prelude::*;

use crate::mysql::worker::{
    lemma_next_planned, lemma_steps_keep_well_formed, next_planned, reading_transaction, steps,
    Action, Event, Phase, SnapshotWorker, Statement,
};

verus! {

/// A worker and the action that it waits for.
pub struct Moment<E> {
    pub worker: SnapshotWorker<E>,
    pub action: Action<E>,
}

/// `m` can be how a snapshot begins.
pub open spec fn begins<E>(m: Moment<E>) -> bool {
    exists|start: SnapshotWorker<E>|
        #![trigger start.well_formed()]
        {
            &&& start.well_formed()
            &&& start.phase == Phase::Start
            &&& steps(start, Event::Done, m.worker, m.action)
        }
}

/// Some event leads from `a` to `b`.
pub open spec fn follows<E>(a: Moment<E>, b: Moment<E>) -> bool {
    exists|event: Event<E>| #[trigger]
        a.worker.accepts(event) && steps(a.worker, event, b.worker, b.action)
}

/// The course of a snapshot on one worker, up to some moment.
pub open spec fn is_course<E>(c: Seq<Moment<E>>) -> bool
    decreases c.len(),
{
    if c.len() == 0 {
        false
    } else if c.len() == 1 {
        begins(c[0])
    } else {
        is_course(c.drop_last()) && follows(c[c.len() - 2], c.last())
    }
}

/// An action that satisfies `p` has been taken or is due.
pub open spec fn has_been<E>(c: Seq<Moment<E>>, p: spec_fn(Action<E>) -> bool) -> bool {
    exists|i: int| 0 <= i < c.len() && p((#[trigger] c[i]).action)
}

/// The number of actions that satisfy `p`.
pub open spec fn count<E>(c: Seq<Moment<E>>, p: spec_fn(Action<E>) -> bool) -> nat
    decreases c.len(),
{
    if c.len() == 0 {
        0
    } else {
        count(c.drop_last(), p) + if p(c.last().action) {
            1nat
        } else {
            0nat
        }
    }
}

/// Broadcasts, whether of success or of failure.
pub open spec fn is_broadcast<E>() -> spec_fn(Action<E>) -> bool {
    |a: Action<E>| a is Broadcast
}

/// Starts the leader's part.
pub open spec fn is_open_lock<E>() -> spec_fn(Action<E>) -> bool {
    |a: Action<E>| a is OpenLockConnection
}

/// Opens the connection to read from.
pub open spec fn is_connect<E>() -> spec_fn(Action<E>) -> bool {
    |a: Action<E>| a is Connect
}

/// Starts the transaction to read in.
pub open spec fn is_start_transaction<E>() -> spec_fn(Action<E>) -> bool {
    |a: Action<E>| a is StartTransaction
}

/// Lets go of the broadcast channel.
pub open spec fn is_release_broadcast<E>() -> spec_fn(Action<E>) -> bool {
    |a: Action<E>| a is ReleaseBroadcast
}

/// Opens connections that sample boundaries.
pub open spec fn is_sample<E>() -> spec_fn(Action<E>) -> bool {
    |a: Action<E>| a is SampleBoundaries
}

/// Closes the connections that sampled boundaries.
pub open spec fn is_release_probes<E>() -> spec_fn(Action<E>) -> bool {
    |a: Action<E>| a is ReleaseProbes
}

/// Locks the tables.
pub open spec fn is_lock<E>() -> spec_fn(Action<E>) -> bool {
    |a: Action<E>| a == Action::<E>::LockStatement(Statement::LockTables)
}

/// Unlocks the tables.
pub open spec fn is_unlock<E>() -> spec_fn(Action<E>) -> bool {
    |a: Action<E>| a == Action::<E>::LockStatement(Statement::UnlockTables)
}

/// Counts the rows of all tables.
pub open spec fn is_measure<E>() -> spec_fn(Action<E>) -> bool {
    |a: Action<E>| a is MeasureTables
}

/// Reads the table at position `i`.
pub open spec fn is_read<E>(i: int) -> spec_fn(Action<E>) -> bool {
    |a: Action<E>| a matches Action::ReadTable(k) && k == i
}

/// The action that a worker waits for fits its phase.
pub open spec fn fits<E>(m: Moment<E>) -> bool {
    match m.worker.phase {
        Phase::Start => false,
        Phase::ResettingStatistics => m.action is ResetStatistics,
        Phase::ResolvingConnection => m.action is ResolveConnection,
        Phase::OpeningLock => m.action is OpenLockConnection,
        Phase::SamplingBoundaries => m.action is SampleBoundaries,
        Phase::SettingLockTimeout => m.action matches Action::LockStatement(
            Statement::SetLockWaitTimeout(_),
        ),
        Phase::LockingTables => m.action == Action::<E>::LockStatement(Statement::LockTables),
        Phase::ReadingGtidSet => m.action is ReadGtidSet,
        Phase::ReleasingProbes => m.action is ReleaseProbes,
        Phase::BroadcastingInfo => m.action matches Action::Broadcast(Some(_)),
        Phase::BroadcastingFailure => m.action matches Action::Broadcast(None),
        Phase::AwaitingInfo | Phase::DrainingFeedback => m.action is AwaitFeedback,
        Phase::ParsingGtidSet => m.action is ParseGtidSet,
        Phase::Connecting => m.action is Connect,
        Phase::CheckingSettings => m.action is CheckSettings,
        Phase::StartingTransaction => m.action == Action::<E>::StartTransaction(
            reading_transaction(),
        ),
        Phase::SettingTimeZone => m.action == Action::<E>::ReadStatement(Statement::SetTimeZone),
        Phase::SettingMaxExecutionTime => m.action matches Action::ReadStatement(
            Statement::SetMaxExecutionTime(_),
        ),
        Phase::ReleasingBroadcast => m.action is ReleaseBroadcast,
        Phase::UnlockingTables => m.action == Action::<E>::LockStatement(Statement::UnlockTables),
        Phase::ClosingLock => m.action is CloseLockConnection,
        Phase::VerifyingSchemas => m.action is VerifySchemas,
        Phase::PublishingSchemaErrors => m.action is PublishSchemaErrors,
        Phase::MeasuringTables => m.action is MeasureTables,
        Phase::ReadingTable(i) => m.action == Action::<E>::ReadTable(i),
        Phase::EmittingRewinds => m.action is EmitRewinds,
        Phase::ReportingDefiniteError => m.action is ReportDefiniteError,
        Phase::Finished => m.action is Finish,
    }
}

/// The phases before a leader's part differs from that of the other workers.
pub open spec fn is_early(phase: Phase) -> bool {
    match phase {
        Phase::Start | Phase::ResettingStatistics | Phase::ResolvingConnection => true,
        _ => false,
    }
}

/// The phases in which the leader sets up the snapshot.
pub open spec fn is_setup(phase: Phase) -> bool {
    match phase {
        Phase::OpeningLock
        | Phase::SamplingBoundaries
        | Phase::SettingLockTimeout
        | Phase::LockingTables
        | Phase::ReadingGtidSet
        | Phase::ReleasingProbes => true,
        _ => false,
    }
}

/// At every moment the worker is in a state that its phase allows, and waits for an action that
/// fits the phase.
pub proof fn lemma_course_basics<E>(c: Seq<Moment<E>>)
    requires
        is_course(c),
    ensures
        c.last().worker.well_formed(),
        fits(c.last()),
    decreases c.len(),
{
    if c.len() == 1 {
        let m = c[0];
        let start = choose|start: SnapshotWorker<E>|
            #![trigger start.well_formed()]
            {
                &&& start.well_formed()
                &&& start.phase == Phase::Start
                &&& steps(start, Event::Done, m.worker, m.action)
            };
        lemma_steps_keep_well_formed(start, Event::Done, m.worker, m.action);
    } else {
        lemma_course_basics(c.drop_last());
        let a = c[c.len() - 2];
        let b = c.last();
        assert(c.drop_last().last() == a);
        let event = choose|event: Event<E>| #[trigger]
            a.worker.accepts(event) && steps(a.worker, event, b.worker, b.action);
        lemma_steps_keep_well_formed(a.worker, event, b.worker, b.action);
        if let Phase::ReadingTable(i) = a.worker.phase {
            lemma_next_planned(a.worker.tasks@, i + 1);
        } else {
            lemma_next_planned(a.worker.tasks@, 0);
        }
        assert(a.worker.tasks@.len() == a.worker.tasks.len());
    }
}

/// An action has been taken if it was taken before the last moment or is the last.
pub proof fn lemma_has_been_last<E>(c: Seq<Moment<E>>, p: spec_fn(Action<E>) -> bool)
    requires
        c.len() > 0,
    ensures
        has_been(c, p) <==> has_been(c.drop_last(), p) || p(c.last().action),
{
    let before = c.drop_last();
    if has_been(c, p) {
        let i = choose|i: int| 0 <= i < c.len() && p((#[trigger] c[i]).action);
        if i < c.len() - 1 {
            assert(p(before[i].action));
        }
    }
    if has_been(before, p) {
        let i = choose|i: int| 0 <= i < before.len() && p((#[trigger] before[i]).action);
        assert(p(c[i].action));
    }
    if p(c.last().action) {
        assert(p(c[c.len() - 1].action));
    }
}

/// An action that has not been taken counts nothing.
pub proof fn lemma_count_none<E>(c: Seq<Moment<E>>, p: spec_fn(Action<E>) -> bool)
    requires
        !has_been(c, p),
    ensures
        count(c, p) == 0,
    decreases c.len(),
{
    if c.len() > 0 {
        lemma_has_been_last(c, p);
        lemma_count_none(c.drop_last(), p);
    }
}

/// A course up to an earlier moment is a course.
pub proof fn lemma_course_prefix<E>(c: Seq<Moment<E>>, n: int)
    requires
        is_course(c),
        0 < n <= c.len(),
    ensures
        is_course(c.take(n)),
    decreases c.len(),
{
    if n == c.len() {
        assert(c.take(n) =~= c);
    } else {
        lemma_course_prefix(c.drop_last(), n);
        assert(c.drop_last().take(n) =~= c.take(n));
    }
}

/// How broadcasts relate to the phase.
spec fn broadcasts_fit<E>(c: Seq<Moment<E>>) -> bool {
    let worker = c.last().worker;
    let opened = has_been(c, is_open_lock());
    let broadcasts = count(c, is_broadcast());
    &&& opened ==> worker.settings.is_leader
    &&& is_early(worker.phase) ==> !opened && broadcasts == 0
    &&& is_setup(worker.phase) ==> opened && broadcasts == 0
    &&& !is_early(worker.phase) && !is_setup(worker.phase) ==> {
        &&& broadcasts == (if opened {
            1nat
        } else {
            0nat
        })
        &&& worker.phase != Phase::Finished && worker.settings.is_leader ==> opened
    }
}

proof fn lemma_broadcasts_fit<E>(c: Seq<Moment<E>>)
    requires
        is_course(c),
    ensures
        broadcasts_fit(c),
    decreases c.len(),
{
    lemma_course_basics(c);
    lemma_has_been_last(c, is_open_lock::<E>());
    if c.len() == 1 {
        assert(c.drop_last() =~= Seq::<Moment<E>>::empty());
        assert(!has_been(c.drop_last(), is_open_lock::<E>()));
        assert(count(c.drop_last(), is_broadcast::<E>()) == 0);
    } else {
        let before = c.drop_last();
        lemma_broadcasts_fit(before);
        lemma_course_basics(before);
        assert(before.last() == c[c.len() - 2]);
    }
}

/// The leader always tells the other workers how its setup ended, so none of them waits in vain:
/// once it has begun its part, it has broadcast exactly once by the time it waits for the
/// broadcast itself or returns. Nobody else broadcasts, and nobody does so twice.
pub proof fn law_leader_broadcasts_once<E>(c: Seq<Moment<E>>)
    requires
        is_course(c),
    ensures
        count(c, is_broadcast()) <= 1,
        !c.last().worker.settings.is_leader ==> count(c, is_broadcast()) == 0,
        c.last().worker.settings.is_leader && c.last().action is AwaitFeedback ==> count(
            c,
            is_broadcast(),
        ) == 1,
        has_been(c, is_open_lock()) && c.last().action is Finish ==> count(c, is_broadcast()) == 1,
{
    lemma_course_basics(c);
    lemma_broadcasts_fit(c);
}

/// The set of executed transactions is read right after the tables have been locked. Sampling
/// connections, whose transactions keep tables from being altered, are only closed after that,
/// and what is broadcast was read while the tables were locked.
pub proof fn law_gtid_set_is_read_under_lock<E>(c: Seq<Moment<E>>, k: int)
    requires
        is_course(c),
        0 <= k < c.len(),
    ensures
        c[k].action is ReadGtidSet ==> k > 0 && c[k - 1].action == Action::<E>::LockStatement(
            Statement::LockTables,
        ),
        c[k].action is ReleaseProbes ==> k > 0 && c[k - 1].action is ReadGtidSet,
        c[k].action matches Action::Broadcast(Some(_)) ==> k > 0 && c[k
            - 1].action is ReleaseProbes,
{
    let d = c.take(k + 1);
    lemma_course_prefix(c, k + 1);
    lemma_course_basics(d);
    assert(d.last() == c[k]);
    if k > 0 {
        lemma_course_basics(d.drop_last());
        assert(d.drop_last().last() == c[k - 1]);
        assert(d[d.len() - 2] == c[k - 1]);
    }
}

/// The phases between the start of the transaction and the release of the broadcast channel.
spec fn is_in_transaction(phase: Phase) -> bool {
    match phase {
        Phase::StartingTransaction
        | Phase::SettingTimeZone
        | Phase::SettingMaxExecutionTime => true,
        _ => false,
    }
}

/// The phases after the release of the broadcast channel, up to reading.
spec fn is_after_release(phase: Phase) -> bool {
    match phase {
        Phase::ReleasingBroadcast
        | Phase::DrainingFeedback
        | Phase::UnlockingTables
        | Phase::ClosingLock => true,
        _ => false,
    }
}

/// The phases in which the worker reads, or gets ready to.
spec fn is_reading(phase: Phase) -> bool {
    match phase {
        Phase::VerifyingSchemas
        | Phase::PublishingSchemaErrors
        | Phase::MeasuringTables
        | Phase::ReadingTable(_)
        | Phase::EmittingRewinds => true,
        _ => false,
    }
}

/// The phases in which the worker gets its connection ready.
spec fn is_connecting(phase: Phase) -> bool {
    match phase {
        Phase::Connecting | Phase::CheckingSettings => true,
        _ => false,
    }
}

/// How transactions relate to the phase.
spec fn transactions_fit<E>(c: Seq<Moment<E>>) -> bool {
    let worker = c.last().worker;
    let started = has_been(c, is_start_transaction());
    let released = has_been(c, is_release_broadcast());
    &&& is_connecting(worker.phase) ==> worker.takes_part() && !released
    &&& is_in_transaction(worker.phase) ==> started && worker.takes_part() && !released
    &&& is_after_release(worker.phase) ==> released && (worker.takes_part() ==> started)
    &&& is_reading(worker.phase) ==> released && started
    &&& worker.phase == Phase::DrainingFeedback || worker.phase == Phase::UnlockingTables
        || worker.phase == Phase::ClosingLock ==> worker.settings.is_leader
    &&& !is_after_release(worker.phase) && !is_reading(worker.phase) && worker.phase
        != Phase::Finished ==> !released
}

proof fn lemma_transactions_fit<E>(c: Seq<Moment<E>>)
    requires
        is_course(c),
    ensures
        transactions_fit(c),
    decreases c.len(),
{
    lemma_course_basics(c);
    lemma_has_been_last(c, is_start_transaction::<E>());
    lemma_has_been_last(c, is_release_broadcast::<E>());
    if c.len() == 1 {
        assert(c.drop_last() =~= Seq::<Moment<E>>::empty());
        assert(!has_been(c.drop_last(), is_start_transaction::<E>()));
        assert(!has_been(c.drop_last(), is_release_broadcast::<E>()));
    } else {
        let before = c.drop_last();
        lemma_transactions_fit(before);
        lemma_course_basics(before);
        assert(before.last() == c[c.len() - 2]);
    }
}

/// A worker that waits for the leader's word holds on to the broadcast channel.
pub proof fn lemma_not_released<E>(c: Seq<Moment<E>>)
    requires
        is_course(c),
        c.last().worker.phase == Phase::AwaitingInfo,
    ensures
        !has_been(c, is_release_broadcast()),
{
    lemma_transactions_fit(c);
}

/// A worker holds on to the broadcast channel until its transaction has started, and a worker
/// that reads anything does so in a transaction, which is read-only, repeatable and consistent.
/// Without a part in the reading a worker opens no
/// connection.
pub proof fn law_channel_is_held_until_transaction<E>(c: Seq<Moment<E>>)
    requires
        is_course(c),
    ensures
        c.last().action is ReleaseBroadcast && c.last().worker.takes_part() ==> has_been(
            c,
            is_start_transaction(),
        ),
        c.last().action matches Action::StartTransaction(options) ==> options
            == reading_transaction() && !has_been(c, is_release_broadcast()),
        c.last().action is ReadTable || c.last().action is EmitRewinds ==> has_been(
            c,
            is_start_transaction(),
        ),
        c.last().action is Connect ==> c.last().worker.takes_part(),
{
    lemma_course_basics(c);
    lemma_transactions_fit(c);
    lemma_has_been_last(c, is_release_broadcast::<E>());
}

/// The leader alone unlocks the tables. It has then let go of the broadcast channel itself, and
/// what made it go on is that the channel is closed: all workers have let go of it.
pub proof fn law_tables_are_unlocked_last<E>(c: Seq<Moment<E>>, event: Event<E>, next: Moment<E>)
    requires
        is_course(c),
        c.last().worker.accepts(event),
        steps(c.last().worker, event, next.worker, next.action),
        next.action == Action::<E>::LockStatement(Statement::UnlockTables),
    ensures
        c.last().worker.settings.is_leader,
        has_been(c, is_release_broadcast()),
        c.last().worker.phase == Phase::DrainingFeedback,
        event is FeedbackClosed,
{
    lemma_course_basics(c);
    lemma_transactions_fit(c);
}

/// The tables with something to read before position `n` have been read.
spec fn all_read<E>(c: Seq<Moment<E>>, n: int) -> bool {
    let tasks = c.last().worker.tasks@;
    forall|j: int|
        0 <= j < n && j < tasks.len() && (#[trigger] tasks[j]).plan is Some ==> has_been(
            c,
            is_read(j),
        )
}

/// How reads relate to the phase.
spec fn reads_fit<E>(c: Seq<Moment<E>>) -> bool {
    match c.last().worker.phase {
        Phase::ReadingTable(i) => all_read(c, i + 1),
        Phase::EmittingRewinds => all_read(c, c.last().worker.tasks@.len() as int),
        _ => true,
    }
}

proof fn lemma_reads_fit<E>(c: Seq<Moment<E>>)
    requires
        is_course(c),
    ensures
        reads_fit(c),
    decreases c.len(),
{
    lemma_course_basics(c);
    let last = c.last();
    if c.len() > 1 {
        let before = c.drop_last();
        let a = before.last();
        lemma_reads_fit(before);
        lemma_course_basics(before);
        assert(a == c[c.len() - 2]);
        let tasks = a.worker.tasks@;
        let from = match a.worker.phase {
            Phase::ReadingTable(i) => i + 1,
            _ => 0,
        };
        if last.worker.phase is ReadingTable || last.worker.phase == Phase::EmittingRewinds {
            lemma_next_planned(tasks, from);
            let next = next_planned(tasks, from);
            let end = if next < tasks.len() {
                next + 1
            } else {
                next
            };
            assert(tasks.len() == a.worker.tasks.len());
            assert(last.worker.tasks@ == tasks);
            assert forall|j: int|
                0 <= j < end && j < tasks.len() && (
                #[trigger] tasks[j]).plan is Some implies has_been(c, is_read(j)) by {
                lemma_has_been_last(c, is_read::<E>(j));
                if j < from {
                    assert(has_been(before, is_read::<E>(j)));
                } else {
                    assert(j == next);
                    assert(is_read::<E>(j)(last.action));
                }
            }
        }
    }
}

/// Rewinds are requested after the snapshot has been read: by then every table that the worker
/// reads something of has been read. Nothing but the end follows.
pub proof fn law_rewinds_follow_all_reads<E>(c: Seq<Moment<E>>)
    requires
        is_course(c),
        c.last().action is EmitRewinds,
    ensures
        forall|j: int|
            0 <= j < c.last().worker.tasks@.len() && (
            #[trigger] c.last().worker.tasks@[j]).plan is Some ==> has_been(c, is_read(j)),
        forall|next: Moment<E>| #[trigger]
            follows(c.last(), next) ==> next.action == Action::<E>::Finish(Ok(())),
{
    lemma_course_basics(c);
    lemma_reads_fit(c);
}

/// Nothing follows the end.
pub proof fn law_nothing_follows_the_end<E>(c: Seq<Moment<E>>, next: Moment<E>)
    requires
        is_course(c),
        c.last().action is Finish,
    ensures
        !follows(c.last(), next),
{
    lemma_course_basics(c);
}

/// How connections relate to the phase.
spec fn connections_fit<E>(c: Seq<Moment<E>>) -> bool {
    let worker = c.last().worker;
    let locks = count(c, is_open_lock());
    let connects = count(c, is_connect());
    &&& locks <= (if worker.settings.is_leader {
        1nat
    } else {
        0nat
    })
    &&& connects <= 1
    &&& is_early(worker.phase) ==> locks == 0
    &&& is_early(worker.phase) || is_setup(worker.phase) || worker.phase == Phase::BroadcastingInfo
        || worker.phase == Phase::BroadcastingFailure || worker.phase == Phase::AwaitingInfo
        || worker.phase == Phase::ParsingGtidSet ==> connects == 0
    &&& (worker.phase == Phase::BroadcastingInfo || worker.phase == Phase::AwaitingInfo
        || worker.phase == Phase::ParsingGtidSet || worker.phase == Phase::Connecting)
        && worker.settings.is_leader ==> has_been(c, is_release_probes())
}

proof fn lemma_connections_fit<E>(c: Seq<Moment<E>>)
    requires
        is_course(c),
    ensures
        connections_fit(c),
    decreases c.len(),
{
    lemma_course_basics(c);
    lemma_has_been_last(c, is_release_probes::<E>());
    if c.len() == 1 {
        assert(c.drop_last() =~= Seq::<Moment<E>>::empty());
        assert(count(c.drop_last(), is_open_lock::<E>()) == 0);
        assert(count(c.drop_last(), is_connect::<E>()) == 0);
    } else {
        let before = c.drop_last();
        lemma_connections_fit(before);
        lemma_course_basics(before);
        assert(before.last() == c[c.len() - 2]);
        if before.last().worker.phase == Phase::ReleasingProbes {
            lemma_has_been_last(before, is_release_probes::<E>());
        }
    }
}

/// A worker opens at most one connection to read from, and only the leader opens one to hold
/// locks. The leader has closed its sampling connections before it opens the one to read from.
pub proof fn law_connections_are_bounded<E>(c: Seq<Moment<E>>)
    requires
        is_course(c),
    ensures
        count(c, is_connect()) <= 1,
        count(c, is_open_lock()) <= (if c.last().worker.settings.is_leader {
            1nat
        } else {
            0nat
        }),
        c.last().action is Connect && c.last().worker.settings.is_leader ==> has_been(
            c,
            is_release_probes(),
        ),
{
    lemma_course_basics(c);
    lemma_connections_fit(c);
}

/// A leader whose setup failed answers for it once it has told the others: it records the error
/// in all outputs, or returns it.
pub proof fn law_failed_leader_answers<E>(c: Seq<Moment<E>>, next: Moment<E>)
    requires
        is_course(c),
        c.last().action == Action::<E>::Broadcast(None),
        follows(c.last(), next),
    ensures
        next.action is ReportDefiniteError || next.action matches Action::Finish(Err(_)),
{
    lemma_course_basics(c);
}

/// A worker that waits for the leader's word returns without an error of its own when it hears
/// that the leader failed, or hears nothing more.
pub proof fn law_failure_is_left_to_leader<E>(c: Seq<Moment<E>>, event: Event<E>, next: Moment<E>)
    requires
        is_course(c),
        c.last().worker.phase == Phase::AwaitingInfo,
        match event {
            Event::FeedbackClosed => true,
            Event::FeedbackData(batch) => batch@.len() > 0 && batch@.last() is None,
            _ => false,
        },
        steps(c.last().worker, event, next.worker, next.action),
    ensures
        next.action == Action::<E>::Finish(Ok(())),
{
}

/// How locking relates to the phase.
spec fn locks_fit<E>(c: Seq<Moment<E>>) -> bool {
    let worker = c.last().worker;
    &&& is_early(worker.phase) || worker.phase == Phase::OpeningLock || worker.phase
        == Phase::SamplingBoundaries || worker.phase == Phase::SettingLockTimeout ==> !has_been(
        c,
        is_lock(),
    )
    &&& worker.phase == Phase::ClosingLock || (is_reading(worker.phase)
        && worker.settings.is_leader) ==> has_been(c, is_unlock())
}

proof fn lemma_locks_fit<E>(c: Seq<Moment<E>>)
    requires
        is_course(c),
    ensures
        locks_fit(c),
    decreases c.len(),
{
    lemma_course_basics(c);
    lemma_has_been_last(c, is_lock::<E>());
    lemma_has_been_last(c, is_unlock::<E>());
    if c.len() == 1 {
        assert(c.drop_last() =~= Seq::<Moment<E>>::empty());
        assert(!has_been(c.drop_last(), is_lock::<E>()));
    } else {
        let before = c.drop_last();
        lemma_locks_fit(before);
        lemma_course_basics(before);
        assert(before.last() == c[c.len() - 2]);
        lemma_has_been_last(before, is_unlock::<E>());
    }
}

/// The tables are locked for no work that grows with their size: boundaries are sampled before
/// the leader locks the tables, and it has unlocked them before it counts or reads rows.
pub proof fn law_lock_window_is_short<E>(c: Seq<Moment<E>>)
    requires
        is_course(c),
    ensures
        c.last().action is SampleBoundaries ==> !has_been(c, is_lock()),
        (c.last().action is VerifySchemas || c.last().action is MeasureTables
            || c.last().action is ReadTable) && c.last().worker.settings.is_leader ==> has_been(
            c,
            is_unlock(),
        ),
{
    lemma_course_basics(c);
    lemma_locks_fit(c);
}

/// How counting relates to the phase.
spec fn measures_fit<E>(c: Seq<Moment<E>>) -> bool {
    let worker = c.last().worker;
    let measures = count(c, is_measure());
    &&& measures <= (if worker.settings.is_leader {
        1nat
    } else {
        0nat
    })
    &&& match worker.phase {
        Phase::MeasuringTables => measures == 1,
        Phase::ReadingTable(_) | Phase::EmittingRewinds => worker.settings.is_leader ==> measures
            == 1,
        Phase::Finished => true,
        _ => measures == 0,
    }
}

proof fn lemma_measures_fit<E>(c: Seq<Moment<E>>)
    requires
        is_course(c),
    ensures
        measures_fit(c),
    decreases c.len(),
{
    lemma_course_basics(c);
    if c.len() == 1 {
        assert(c.drop_last() =~= Seq::<Moment<E>>::empty());
        assert(count(c.drop_last(), is_measure::<E>()) == 0);
    } else {
        let before = c.drop_last();
        lemma_measures_fit(before);
        lemma_course_basics(before);
        assert(before.last() == c[c.len() - 2]);
    }
}

/// The size of the snapshot is published once: only the leader counts rows, it does so at most
/// once, and it has done so before it reads any table.
pub proof fn law_size_is_published_once<E>(c: Seq<Moment<E>>)
    requires
        is_course(c),
    ensures
        count(c, is_measure()) <= 1,
        !c.last().worker.settings.is_leader ==> count(c, is_measure()) == 0,
        c.last().action is ReadTable && c.last().worker.settings.is_leader ==> count(
            c,
            is_measure(),
        ) == 1,
{
    lemma_course_basics(c);
    lemma_measures_fit(c);
}

} // verus!
