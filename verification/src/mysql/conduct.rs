//! What each worker does at each turn, told from its actions alone.

use vstd::prelude::*;

use crate::mysql::assignment::{
    bounds_from, bounds_views, failed_outputs, has_job, job_views,
    law_tables_that_can_be_split_are_sampled, outcome_for, published, rewind_views, rewinds_of,
    sampling_jobs, splits_for, surviving, task_views, SampledTable, SamplingJob, SnapshotInfo,
};
use crate::mysql::course::{
    begins, fits, follows, has_been, is_course, is_release_broadcast, lemma_course_basics,
    lemma_course_prefix, Moment,
};
use crate::mysql::desc::GtidPartition;
use crate::mysql::error::{DefiniteError, MySqlError, QueryError, SnapshotSetupError};
use crate::mysql::splits::{plan_of, splittable_pk};
use crate::mysql::worker::{
    lemma_next_planned, steps, Action, Event, IsolationLevel, Phase, SnapshotWorker, Statement,
    Timeout,
};

verus! {

/// `n` is the whole number of units of `unit` nanoseconds in the time limit.
pub open spec fn is_whole(n: u128, limit: Timeout, unit: int) -> bool {
    n * unit <= limit.nanos < (n + 1) * unit
}

/// The whole seconds and milliseconds of a time limit leave a rest of less than one.
pub proof fn law_timeouts_are_cut(limit: Timeout)
    ensures
        is_whole(limit.secs() as u128, limit, 1_000_000_000),
        is_whole(limit.millis() as u128, limit, 1_000_000),
{
}

/// Sets the time limit for table locks that is configured, if one is.
pub open spec fn sets_lock_limit<E>(a: Action<E>, limit: Option<Timeout>) -> bool {
    a matches Action::LockStatement(Statement::SetLockWaitTimeout(n)) && (limit matches Some(t)
        && is_whole(n, t, 1_000_000_000))
}

/// Sets the time limit for reads that is configured, if one is.
pub open spec fn sets_read_limit<E>(a: Action<E>, limit: Option<Timeout>) -> bool {
    a matches Action::ReadStatement(Statement::SetMaxExecutionTime(n)) && (limit matches Some(t)
        && is_whole(n, t, 1_000_000))
}

/// Sets the time zone of the session.
pub open spec fn sets_time_zone<E>(a: Action<E>) -> bool {
    a == Action::<E>::ReadStatement(Statement::SetTimeZone)
}

/// Takes the table locks.
pub open spec fn takes_locks<E>(a: Action<E>) -> bool {
    a == Action::<E>::LockStatement(Statement::LockTables)
}

/// Gives the table locks back.
pub open spec fn gives_locks_back<E>(a: Action<E>) -> bool {
    a == Action::<E>::LockStatement(Statement::UnlockTables)
}

/// The leader is about to lock the tables.
pub open spec fn is_before_locks<E>(a: Action<E>) -> bool {
    a is OpenLockConnection || a is SampleBoundaries
}

/// An action of the leader's setup that can fail.
pub open spec fn is_setup_step<E>(a: Action<E>) -> bool {
    ||| is_before_locks(a)
    ||| a matches Action::LockStatement(Statement::SetLockWaitTimeout(_))
    ||| takes_locks(a)
    ||| a is ReadGtidSet
}

/// Any other action that can fail.
pub open spec fn is_risky<E>(a: Action<E>) -> bool {
    match a {
        Action::ResolveConnection
        | Action::Connect
        | Action::CheckSettings
        | Action::StartTransaction(_)
        | Action::ReadStatement(_)
        | Action::CloseLockConnection
        | Action::VerifySchemas
        | Action::MeasureTables
        | Action::ReadTable(_) => true,
        Action::LockStatement(statement) => statement == Statement::UnlockTables,
        _ => false,
    }
}

/// `now` can come right after `before` on `worker`.
pub open spec fn comes_after<E>(
    before: Action<E>,
    now: Action<E>,
    worker: SnapshotWorker<E>,
) -> bool {
    let leads = worker.settings.is_leader;
    let lock_limit = worker.settings.lock_wait_timeout;
    let read_limit = worker.settings.max_execution_time;
    match now {
        Action::ResetStatistics => false,
        Action::ResolveConnection => before is ResetStatistics && worker.tasks@.len() > 0,
        Action::OpenLockConnection => leads && before is ResolveConnection,
        Action::SampleBoundaries(_) => before is OpenLockConnection,
        Action::LockStatement(statement) => match statement {
            Statement::SetLockWaitTimeout(_) => sets_lock_limit(now, lock_limit)
                && is_before_locks(before),
            Statement::LockTables => if lock_limit is Some {
                sets_lock_limit(before, lock_limit)
            } else {
                is_before_locks(before)
            },
            Statement::UnlockTables => leads && before is AwaitFeedback,
            _ => false,
        },
        Action::ReadGtidSet => takes_locks(before),
        Action::ReleaseProbes => before is ReadGtidSet,
        Action::Broadcast(Some(_)) => before is ReleaseProbes,
        Action::Broadcast(None) => is_setup_step(before),
        Action::AwaitFeedback => {
            ||| before is AwaitFeedback
            ||| !leads && before is ResolveConnection
            ||| leads && before matches Action::Broadcast(Some(_))
            ||| leads && before is ReleaseBroadcast
        },
        Action::ParseGtidSet(_) => before is AwaitFeedback,
        Action::Connect => worker.takes_part() && before is ParseGtidSet,
        Action::CheckSettings => before is Connect,
        Action::StartTransaction(options) => {
            &&& before is CheckSettings
            &&& options.isolation_level == IsolationLevel::RepeatableRead
            &&& options.consistent_snapshot
            &&& options.read_only
        },
        Action::ReadStatement(statement) => match statement {
            Statement::SetTimeZone => before is StartTransaction,
            Statement::SetMaxExecutionTime(_) => sets_read_limit(now, read_limit)
                && sets_time_zone(before),
            _ => false,
        },
        Action::ReleaseBroadcast => if !worker.takes_part() {
            before is ParseGtidSet
        } else if read_limit is Some {
            sets_read_limit(before, read_limit)
        } else {
            sets_time_zone(before)
        },
        Action::CloseLockConnection => gives_locks_back(before),
        Action::VerifySchemas => worker.takes_part() && if leads {
            before is CloseLockConnection
        } else {
            before is ReleaseBroadcast
        },
        Action::PublishSchemaErrors(_) => before is VerifySchemas,
        Action::MeasureTables => leads && before is PublishSchemaErrors,
        Action::ReadTable(i) => {
            &&& i < worker.tasks@.len()
            &&& worker.tasks@[i as int].plan is Some
            &&& match before {
                Action::ReadTable(j) => j < i,
                Action::MeasureTables => leads,
                Action::PublishSchemaErrors(_) => !leads,
                _ => false,
            }
        },
        Action::EmitRewinds(_) => worker.tasks@.len() > 0 && match before {
            Action::ReadTable(_) => true,
            Action::MeasureTables => leads,
            Action::PublishSchemaErrors(_) => !leads,
            _ => false,
        },
        Action::ReportDefiniteError(_) => before == Action::<E>::Broadcast(None)
            || before is ParseGtidSet || before is CheckSettings,
        Action::Finish(Ok(_)) => match before {
            Action::EmitRewinds(_) | Action::ReportDefiniteError(_) | Action::AwaitFeedback => true,
            Action::ReleaseBroadcast => !worker.takes_part(),
            Action::ResetStatistics => worker.tasks@.len() == 0,
            Action::MeasureTables => leads && worker.tasks@.len() == 0,
            Action::PublishSchemaErrors(_) => !leads && worker.tasks@.len() == 0,
            _ => false,
        },
        Action::Finish(Err(_)) => is_risky(before) || before == Action::<E>::Broadcast(None),
    }
}

/// Every action has its turn. This says what comes right before each: none is skipped, none comes
/// twice in a row but waiting and reading, and none comes on a worker that it is not for.
pub proof fn law_each_action_has_its_turn<E>(c: Seq<Moment<E>>, k: int)
    requires
        is_course(c),
        0 < k < c.len(),
    ensures
        comes_after(c[k - 1].action, c[k].action, c[k].worker),
{
    let d = c.take(k + 1);
    lemma_course_prefix(c, k + 1);
    lemma_course_basics(d);
    assert(d.last() == c[k]);
    let before = d.drop_last();
    lemma_course_basics(before);
    assert(before.last() == c[k - 1]);
    assert(d[d.len() - 2] == c[k - 1]);
    let a = c[k - 1];
    let b = c[k];
    let event = choose|event: Event<E>| #[trigger]
        a.worker.accepts(event) && steps(a.worker, event, b.worker, b.action);
    lemma_conduct(before);
    lemma_turn(a, event, b);
}

/// What a worker's phase says about its limits and its part.
spec fn conduct_fits<E>(m: Moment<E>) -> bool {
    let settings = m.worker.settings;
    match m.worker.phase {
        Phase::SettingLockTimeout => settings.is_leader && sets_lock_limit(
            m.action,
            settings.lock_wait_timeout,
        ),
        Phase::OpeningLock
        | Phase::SamplingBoundaries
        | Phase::LockingTables
        | Phase::ReadingGtidSet
        | Phase::ReleasingProbes
        | Phase::BroadcastingInfo => settings.is_leader,
        Phase::SettingMaxExecutionTime => m.worker.takes_part() && sets_read_limit(
            m.action,
            settings.max_execution_time,
        ),
        Phase::Connecting
        | Phase::CheckingSettings
        | Phase::StartingTransaction
        | Phase::SettingTimeZone => m.worker.takes_part(),
        Phase::DrainingFeedback
        | Phase::UnlockingTables
        | Phase::ClosingLock
        | Phase::MeasuringTables => settings.is_leader,
        _ => true,
    }
}

proof fn lemma_conduct<E>(c: Seq<Moment<E>>)
    requires
        is_course(c),
    ensures
        conduct_fits(c.last()),
    decreases c.len(),
{
    lemma_course_basics(c);
    if c.len() > 1 {
        let before = c.drop_last();
        lemma_conduct(before);
        lemma_course_basics(before);
        assert(before.last() == c[c.len() - 2]);
    }
}

proof fn lemma_turn<E>(a: Moment<E>, event: Event<E>, b: Moment<E>)
    requires
        a.worker.well_formed(),
        fits(a),
        conduct_fits(a),
        a.worker.accepts(event),
        steps(a.worker, event, b.worker, b.action),
    ensures
        comes_after(a.action, b.action, b.worker),
{
    if let Phase::ReadingTable(i) = a.worker.phase {
        lemma_next_planned(a.worker.tasks@, i + 1);
    } else {
        lemma_next_planned(a.worker.tasks@, 0);
    }
    assert(a.worker.tasks@.len() == a.worker.tasks.len());
}

/// The first thing that a worker does: it sets the statistics to zero if there is anything to
/// snapshot, and it returns if there is no table.
pub proof fn law_first_turn<E>(c: Seq<Moment<E>>)
    requires
        is_course(c),
    ensures
        c[0].worker.all_outputs@.len() > 0 ==> c[0].action is ResetStatistics,
        c[0].worker.all_outputs@.len() == 0 && c[0].worker.tasks@.len() == 0 ==> c[0].action
            == Action::<E>::Finish(Ok(())),
        c[0].worker.all_outputs@.len() == 0 && c[0].worker.tasks@.len() > 0
            ==> c[0].action is ResolveConnection,
{
    lemma_course_prefix(c, 1);
    assert(c.take(1)[0] == c[0]);
    assert(begins(c[0]));
}

/// A worker keeps its settings and the outputs that it is there for.
pub proof fn law_identity_stays<E>(c: Seq<Moment<E>>, j: int, k: int)
    requires
        is_course(c),
        0 <= j <= k < c.len(),
    ensures
        c[k].worker.settings == c[j].worker.settings,
        c[k].worker.all_outputs == c[j].worker.all_outputs,
    decreases k - j,
{
    if j < k {
        law_identity_stays(c, j, k - 1);
        let d = c.take(k + 1);
        lemma_course_prefix(c, k + 1);
        assert(d.last() == c[k]);
        assert(d[d.len() - 2] == c[k - 1]);
        assert(follows(c[k - 1], c[k]));
    }
}

/// Position `i` of the course starts a transaction for reading that is set up at once: the time
/// zone first, and the time limit for reads right after that, if one is configured.
pub open spec fn is_session_start<E>(c: Seq<Moment<E>>, i: int) -> bool {
    let limit = c.last().worker.settings.max_execution_time;
    &&& 0 <= i
    &&& i + 1 < c.len()
    &&& c[i].action is StartTransaction
    &&& sets_time_zone(c[i + 1].action)
    &&& limit is Some ==> i + 2 < c.len() && sets_read_limit(c[i + 2].action, limit)
}

/// Whatever a worker does with the tables, on every worker and for all settings, it does in a
/// transaction whose session has the time zone set, and the time limit for reads if one is
/// configured.
pub proof fn law_session_is_set_before_reads<E>(c: Seq<Moment<E>>)
    requires
        is_course(c),
        c.last().action is VerifySchemas || c.last().action is MeasureTables
            || c.last().action is ReadTable || c.last().action is EmitRewinds || (
        c.last().action is ReleaseBroadcast && c.last().worker.takes_part()),
    ensures
        exists|i: int| #[trigger] is_session_start(c, i),
{
    lemma_session(c);
    lemma_course_basics(c);
}

/// The worker has let go of the channel, and has a part in the reading.
spec fn is_in_session<E>(m: Moment<E>) -> bool {
    match m.worker.phase {
        Phase::ReleasingBroadcast
        | Phase::DrainingFeedback
        | Phase::UnlockingTables
        | Phase::ClosingLock => m.worker.takes_part(),
        Phase::VerifyingSchemas
        | Phase::PublishingSchemaErrors
        | Phase::MeasuringTables
        | Phase::ReadingTable(_)
        | Phase::EmittingRewinds => true,
        _ => false,
    }
}

proof fn lemma_session<E>(c: Seq<Moment<E>>)
    requires
        is_course(c),
    ensures
        is_in_session(c.last()) ==> exists|i: int| #[trigger] is_session_start(c, i),
    decreases c.len(),
{
    lemma_course_basics(c);
    let n = c.len() - 1;
    if n > 0 && is_in_session(c.last()) {
        let before = c.drop_last();
        lemma_course_basics(before);
        lemma_session(before);
        assert(before.last() == c[n - 1]);
        law_identity_stays(c, n - 1, n);
        if is_in_session(before.last()) {
            let i = choose|i: int| #[trigger] is_session_start(before, i);
            assert(before[i] == c[i] && before[i + 1] == c[i + 1]);
            if c.last().worker.settings.max_execution_time is Some {
                assert(before[i + 2] == c[i + 2]);
            }
            assert(is_session_start(c, i));
        } else {
            law_each_action_has_its_turn(c, n);
            assert(c.last().action is ReleaseBroadcast);
            lemma_session_is_not_first(c, n - 1);
            law_each_action_has_its_turn(c, n - 1);
            if c.last().worker.settings.max_execution_time is Some {
                lemma_session_is_not_first(c, n - 2);
                law_each_action_has_its_turn(c, n - 2);
                assert(is_session_start(c, n - 3));
            } else {
                assert(is_session_start(c, n - 2));
            }
        }
    }
}

/// A statement in the transaction is not the first thing that a worker does.
proof fn lemma_session_is_not_first<E>(c: Seq<Moment<E>>, k: int)
    requires
        is_course(c),
        0 <= k < c.len(),
        c[k].action is ReadStatement,
    ensures
        k > 0,
{
    law_first_turn(c);
}

/// `event` is an answer to `action`, where there are `tables` tables.
pub open spec fn answers<E>(action: Action<E>, tables: int, event: Event<E>) -> bool {
    match action {
        Action::SampleBoundaries(_) => event is Sampled || event is SamplingFailed,
        Action::ReadGtidSet => event is GtidSetRead || event is Failed,
        Action::AwaitFeedback => event is FeedbackData || event is FeedbackProgress
            || event is FeedbackClosed,
        Action::ParseGtidSet(_) => event is GtidSetParsed || event is GtidSetRejected,
        Action::CheckSettings => event is Done || event is SettingsRejected,
        Action::VerifySchemas => match event {
            Event::Failed(_) => true,
            Event::SchemasVerified(failures) => forall|f: int|
                0 <= f < failures@.len() ==> (#[trigger] failures@[f]).table < tables,
            _ => false,
        },
        Action::ResetStatistics
        | Action::ReleaseProbes
        | Action::Broadcast(_)
        | Action::ReleaseBroadcast
        | Action::PublishSchemaErrors(_)
        | Action::EmitRewinds(_)
        | Action::ReportDefiniteError(_) => event is Done,
        Action::Finish(_) => false,
        _ => event is Done || event is Failed,
    }
}

/// A worker takes exactly the answers to what it asked for.
pub proof fn law_answers_are_taken<E>(c: Seq<Moment<E>>, event: Event<E>)
    requires
        is_course(c),
    ensures
        c.last().worker.accepts(event) <==> answers(
            c.last().action,
            c.last().worker.tasks@.len() as int,
            event,
        ),
{
    lemma_course_basics(c);
}

/// What the database client reported with a failed statement.
pub open spec fn reported<E>(e: QueryError<E>) -> E {
    match e {
        QueryError::Server { code: _, message: _, source } => source,
        QueryError::Other(source) => source,
    }
}

/// No failure is lost, and none is made up.
///
/// A failure of the leader's setup is kept and told to all workers. It is definite if a table to
/// lock does not exist, and transient otherwise. Once it has been told, a definite failure is
/// recorded and a transient one is returned. A set of transactions that cannot be parsed and a
/// setting that rules out replication are recorded. Any other failure is returned as the client
/// reported it. Without a failure nothing is recorded or returned as one.
pub proof fn law_failures_are_answered<E>(c: Seq<Moment<E>>, event: Event<E>, next: Moment<E>)
    requires
        is_course(c),
        c.last().worker.accepts(event),
        steps(c.last().worker, event, next.worker, next.action),
    ensures
        match event {
            Event::Failed(e) => if is_setup_step(c.last().action) {
                &&& next.action == Action::<E>::Broadcast(None)
                &&& match e {
                    QueryError::Server { code, message, source } => if code == 1146 && takes_locks(
                        c.last().action,
                    ) {
                        next.worker.failure == Some(
                            SnapshotSetupError::<E>::Definite(DefiniteError::TableDropped(message)),
                        )
                    } else {
                        next.worker.failure == Some(SnapshotSetupError::Transient(source))
                    },
                    QueryError::Other(source) => next.worker.failure == Some(
                        SnapshotSetupError::Transient(source),
                    ),
                }
            } else {
                next.action == Action::Finish(Err(reported(e)))
            },
            Event::SamplingFailed(e) => {
                &&& next.action == Action::<E>::Broadcast(None)
                &&& next.worker.failure == Some(e)
            },
            Event::GtidSetRejected(reason) => next.action == Action::<E>::ReportDefiniteError(
                DefiniteError::UnsupportedGtidState(reason),
            ),
            Event::SettingsRejected(e) => match e {
                MySqlError::InvalidSystemSetting { message, source } => next.action
                    == Action::<E>::ReportDefiniteError(
                    DefiniteError::ServerConfigurationError(message),
                ),
                MySqlError::ValueDecodeError { message, source } => next.action == Action::Finish(
                    Err(source),
                ),
                MySqlError::Other(source) => next.action == Action::Finish(Err(source)),
            },
            _ => if c.last().action == Action::<E>::Broadcast(None) {
                match c.last().worker.failure {
                    Some(SnapshotSetupError::Definite(e)) => next.action
                        == Action::<E>::ReportDefiniteError(e),
                    Some(SnapshotSetupError::Transient(e)) => next.action == Action::Finish(Err(e)),
                    None => false,
                }
            } else {
                &&& next.action !is ReportDefiniteError
                &&& !(next.action matches Action::Finish(Err(_)))
                &&& next.action != Action::<E>::Broadcast(None)
            },
        },
{
    lemma_course_basics(c);
}

/// What a worker is given it passes on unchanged: the leader broadcasts the set of transactions
/// that it read together with the bounds that it collected, a worker takes the bounds out of what
/// it hears last and has the set of transactions parsed, and keeps the frontier that comes of it.
pub proof fn law_what_is_heard_is_passed_on<E>(c: Seq<Moment<E>>, event: Event<E>, next: Moment<E>)
    requires
        is_course(c),
        c.last().worker.accepts(event),
        steps(c.last().worker, event, next.worker, next.action),
    ensures
        event matches Event::GtidSetRead(gtid_set) ==> next.worker.info == Some(
            SnapshotInfo { gtid_set, pk_bounds: c.last().worker.bounds },
        ),
        c.last().action is ReleaseProbes ==> (c.last().worker.info matches Some(info)
            && next.action == Action::<E>::Broadcast(Some(info))),
        event matches Event::FeedbackData(batch) ==> c.last().worker.phase == Phase::AwaitingInfo
            ==> (if batch@.len() == 0 {
            next.action is AwaitFeedback && next.worker.bounds == c.last().worker.bounds
        } else {
            match batch@[batch@.len() - 1] {
                Some(info) => next.action == Action::<E>::ParseGtidSet(info.gtid_set)
                    && next.worker.bounds == info.pk_bounds,
                None => next.action == Action::<E>::Finish(Ok(())),
            }
        }),
        event matches Event::GtidSetParsed(upper) ==> next.worker.snapshot_upper == upper,
        event is FeedbackProgress ==> next.action is AwaitFeedback && next.worker.phase
            == c.last().worker.phase,
{
    lemma_course_basics(c);
}

/// What a worker knows changes only where there is something new to know. The tables change with
/// the plans and with the failures of schemas, the frontier with the set of transactions, and the
/// bounds with what is sampled, broadcast or heard.
pub proof fn law_nothing_else_changes<E>(c: Seq<Moment<E>>, event: Event<E>, next: Moment<E>)
    requires
        is_course(c),
        c.last().worker.accepts(event),
        steps(c.last().worker, event, next.worker, next.action),
    ensures
        next.worker.settings == c.last().worker.settings,
        next.worker.all_outputs == c.last().worker.all_outputs,
        event !is GtidSetParsed && event !is SchemasVerified ==> next.worker.tasks
            == c.last().worker.tasks,
        event !is GtidSetParsed ==> next.worker.snapshot_upper == c.last().worker.snapshot_upper,
        c.last().action !is OpenLockConnection && event !is Sampled && event !is GtidSetRead
            && event !is FeedbackData ==> next.worker.bounds == c.last().worker.bounds,
{
    lemma_course_basics(c);
}

/// Table `i` can be split and there are workers to share it.
pub open spec fn can_be_sampled<E>(worker: SnapshotWorker<E>, i: int) -> bool {
    &&& worker.settings.worker_count >= 2
    &&& 0 <= i < worker.tasks@.len()
    &&& splittable_pk(worker.tasks@[i].outputs@[0].desc) is Some
}

/// There is a job for table `i`.
pub open spec fn is_sampled(jobs: Seq<SamplingJob>, i: int) -> bool {
    exists|j: int| 0 <= j < jobs.len() && (#[trigger] jobs[j]).table == i
}

/// The job is to sample a table that can be split, by its own key.
pub open spec fn is_due<E>(worker: SnapshotWorker<E>, job: SamplingJob) -> bool {
    let task = worker.tasks@[job.table as int];
    &&& can_be_sampled(worker, job.table as int)
    &&& job.name@ == task.name@
    &&& splittable_pk(task.outputs@[0].desc) == Some((job.pk_col@, job.kind))
}

/// Once the lock connection is open the leader has exactly those tables sampled that can be split,
/// by their own keys, each once and in order. If there is none it goes on without, and no table is
/// split.
pub proof fn law_sampling_is_asked_for<E>(c: Seq<Moment<E>>, next: Moment<E>)
    requires
        is_course(c),
        c.last().action is OpenLockConnection,
        steps(c.last().worker, Event::Done, next.worker, next.action),
    ensures
        match next.action {
            Action::SampleBoundaries(jobs) => {
                &&& jobs@.len() > 0
                &&& forall|i: int| #[trigger]
                    can_be_sampled(c.last().worker, i) ==> is_sampled(jobs@, i)
                &&& forall|j: int|
                    0 <= j < jobs@.len() ==> is_due(c.last().worker, #[trigger] jobs@[j])
                &&& forall|j: int, k: int|
                    0 <= j < k < jobs@.len() ==> (#[trigger] jobs@[j]).table < (
                    #[trigger] jobs@[k]).table
            },
            _ => {
                &&& forall|i: int| !#[trigger] can_be_sampled(c.last().worker, i)
                &&& next.worker.bounds@.len() == c.last().worker.tasks@.len()
                &&& forall|i: int|
                    0 <= i < next.worker.bounds@.len() ==> (
                    #[trigger] next.worker.bounds@[i]).splits is None
            },
        },
{
    lemma_course_basics(c);
    let worker = c.last().worker;
    let tasks = task_views(worker.tasks@);
    let expected = sampling_jobs(tasks, worker.settings.worker_count as int);
    law_tables_that_can_be_split_are_sampled(tasks, worker.settings.worker_count as int);
    match next.action {
        Action::SampleBoundaries(jobs) => {
            assert(job_views(jobs@).len() == jobs@.len());
            assert forall|j: int| 0 <= j < jobs@.len() implies #[trigger] jobs@[j]@
                == expected[j] by {
                assert(job_views(jobs@)[j] == jobs@[j]@);
            }
            assert forall|i: int| #[trigger] can_be_sampled(worker, i) implies is_sampled(
                jobs@,
                i,
            ) by {
                assert(tasks[i].outputs == worker.tasks@[i].outputs@);
                assert(has_job(expected, i));
                let j = choose|j: int| 0 <= j < expected.len() && (#[trigger] expected[j]).table
                    == i;
                assert(jobs@[j]@ == expected[j]);
            }
            assert forall|j: int| 0 <= j < jobs@.len() implies is_due(
                worker,
                #[trigger] jobs@[j],
            ) by {
                assert(jobs@[j]@ == expected[j]);
                assert(tasks[expected[j].table] == worker.tasks@[expected[j].table]@);
            }
            assert forall|j: int, k: int| 0 <= j < k < jobs@.len() implies (
            #[trigger] jobs@[j]).table < (#[trigger] jobs@[k]).table by {
                assert(jobs@[j]@ == expected[j]);
                assert(jobs@[k]@ == expected[k]);
            }
        },
        _ => {
            assert(expected.len() == 0);
            assert forall|i: int| !#[trigger] can_be_sampled(worker, i) by {
                if can_be_sampled(worker, i) {
                    assert(tasks[i].outputs == worker.tasks@[i].outputs@);
                    assert(has_job(expected, i));
                }
            }
            let none = Seq::<SampledTable>::empty();
            let views = bounds_views(next.worker.bounds@);
            assert(views == bounds_from(tasks, none));
            assert(views.len() == next.worker.bounds@.len());
            assert forall|i: int| 0 <= i < next.worker.bounds@.len() implies (
            #[trigger] next.worker.bounds@[i]).splits is None by {
                assert(outcome_for(none, i) is None);
                assert(views[i].splits == outcome_for(none, i));
                assert(views[i] == next.worker.bounds@[i]@);
            }
        },
    }
}

/// What sampling found is kept for each table under its name, in order.
pub proof fn law_sampled_bounds_are_kept<E>(
    c: Seq<Moment<E>>,
    results: Vec<SampledTable>,
    next: Moment<E>,
    i: int,
)
    requires
        is_course(c),
        c.last().action is SampleBoundaries,
        steps(c.last().worker, Event::Sampled(results), next.worker, next.action),
        0 <= i < c.last().worker.tasks@.len(),
    ensures
        next.worker.bounds@.len() == c.last().worker.tasks@.len(),
        next.worker.bounds@[i].table@ == c.last().worker.tasks@[i].name@,
        match next.worker.bounds@[i].splits {
            Some(splits) => outcome_for(results@, i) == Some(splits@),
            None => outcome_for(results@, i) is None,
        },
{
    lemma_course_basics(c);
    let views = bounds_views(next.worker.bounds@);
    assert(views.len() == next.worker.bounds@.len());
    assert(views[i] == next.worker.bounds@[i]@);
    assert(task_views(c.last().worker.tasks@)[i] == c.last().worker.tasks@[i]@);
}

/// With the bounds that it heard, a worker plans for each table what its own share of the table
/// is. The table stays what it was.
pub proof fn law_plans_are_made_from_bounds<E>(
    c: Seq<Moment<E>>,
    upper: Vec<GtidPartition>,
    next: Moment<E>,
    i: int,
)
    requires
        is_course(c),
        c.last().action is ParseGtidSet,
        steps(c.last().worker, Event::GtidSetParsed(upper), next.worker, next.action),
        0 <= i < c.last().worker.tasks@.len(),
    ensures
        next.worker.tasks@.len() == c.last().worker.tasks@.len(),
        next.worker.tasks@[i].name@ == c.last().worker.tasks@[i].name@,
        next.worker.tasks@[i].owner == c.last().worker.tasks@[i].owner,
        next.worker.tasks@[i].exports@ == c.last().worker.tasks@[i].exports@,
        next.worker.tasks@[i].outputs@ == c.last().worker.tasks@[i].outputs@,
        ({
            let settings = c.last().worker.settings;
            let task = c.last().worker.tasks@[i];
            let due = plan_of(
                splits_for(c.last().worker.bounds@, task.name@),
                settings.worker_id as int,
                task.owner as int,
                settings.worker_count as int,
            );
            match next.worker.tasks@[i].plan {
                Some(plan) => due == Some(plan@),
                None => due is None,
            }
        }),
{
    lemma_course_basics(c);
    let before = task_views(c.last().worker.tasks@);
    let views = task_views(next.worker.tasks@);
    assert(views.len() == next.worker.tasks@.len());
    assert(views[i] == next.worker.tasks@[i]@);
    assert(before[i] == c.last().worker.tasks@[i]@);
}

/// The rewinds that a worker requests are those of the tables that it owns, up to the frontier
/// that it was told. The errors that it publishes are those of the tables that it owns.
pub proof fn law_owners_speak_for_their_tables<E>(
    c: Seq<Moment<E>>,
    event: Event<E>,
    next: Moment<E>,
)
    requires
        is_course(c),
        c.last().worker.accepts(event),
        steps(c.last().worker, event, next.worker, next.action),
    ensures
        next.action matches Action::EmitRewinds(requests) ==> rewind_views(requests@)
            == rewinds_of(
            task_views(next.worker.tasks@),
            next.worker.settings.worker_id as int,
            next.worker.snapshot_upper@,
        ),
        event matches Event::SchemasVerified(failures) ==> (
        next.action matches Action::PublishSchemaErrors(errors) && errors@ == published(
            failures@,
            task_views(c.last().worker.tasks@),
            next.worker.settings.worker_id as int,
        ) && task_views(next.worker.tasks@) == surviving(
            task_views(c.last().worker.tasks@),
            failed_outputs(failures@),
        )),
{
    lemma_course_basics(c);
}

/// The leader takes part in the reading, and so does every worker that has something to read of
/// any table. No other worker does.
pub proof fn law_who_takes_part<E>(worker: SnapshotWorker<E>)
    ensures
        worker.settings.is_leader ==> worker.takes_part(),
        forall|i: int|
            0 <= i < worker.tasks@.len() && (#[trigger] worker.tasks@[i]).plan is Some
                ==> worker.takes_part(),
        !worker.settings.is_leader && (forall|i: int|
            0 <= i < worker.tasks@.len() ==> (#[trigger] worker.tasks@[i]).plan is None)
            ==> !worker.takes_part(),
{
    let views = task_views(worker.tasks@);
    assert forall|i: int|
        0 <= i < worker.tasks@.len() && (
        #[trigger] worker.tasks@[i]).plan is Some implies worker.takes_part() by {
        assert(views[i].plan is Some);
    }
    if worker.takes_part() && !worker.settings.is_leader {
        let i = choose|i: int| 0 <= i < views.len() && (#[trigger] views[i]).plan is Some;
        assert(worker.tasks@[i].plan is Some);
    }
}

/// A worker that has let go of the channel only waits for it to close: whatever comes in is passed
/// over. Once the channel is closed a worker does not wait any longer. If it has let go of it, the
/// tables are unlocked, and otherwise the leader has failed and the worker returns.
pub proof fn law_closed_channel_ends_the_wait<E>(
    c: Seq<Moment<E>>,
    event: Event<E>,
    next: Moment<E>,
)
    requires
        is_course(c),
        c.last().action is AwaitFeedback,
        c.last().worker.accepts(event),
        steps(c.last().worker, event, next.worker, next.action),
    ensures
        has_been(c, is_release_broadcast()) ==> (next.action is AwaitFeedback <==> event
            !is FeedbackClosed) && (event is FeedbackClosed ==> gives_locks_back(next.action)),
        !has_been(c, is_release_broadcast()) && event is FeedbackClosed ==> next.action
            == Action::<E>::Finish(Ok(())),
        !has_been(c, is_release_broadcast()) ==> (next.action is ParseGtidSet <==> (
        event matches Event::FeedbackData(batch) && batch@.len() > 0 && batch@[batch@.len()
            - 1] is Some)),
{
    lemma_course_basics(c);
    lemma_released(c);
}

/// The worker has not come to let go of the channel.
spec fn is_before_release(phase: Phase) -> bool {
    match phase {
        Phase::Start
        | Phase::ResettingStatistics
        | Phase::ResolvingConnection
        | Phase::OpeningLock
        | Phase::SamplingBoundaries
        | Phase::SettingLockTimeout
        | Phase::LockingTables
        | Phase::ReadingGtidSet
        | Phase::ReleasingProbes
        | Phase::BroadcastingInfo
        | Phase::BroadcastingFailure
        | Phase::AwaitingInfo => true,
        _ => false,
    }
}

proof fn lemma_released<E>(c: Seq<Moment<E>>)
    requires
        is_course(c),
    ensures
        is_before_release(c.last().worker.phase) ==> !has_been(c, is_release_broadcast()),
        c.last().worker.phase == Phase::DrainingFeedback ==> has_been(c, is_release_broadcast()),
        c.last().worker.phase == Phase::ReleasingBroadcast ==> has_been(c, is_release_broadcast()),
    decreases c.len(),
{
    lemma_course_basics(c);
    let p = is_release_broadcast::<E>();
    let n = c.len() - 1;
    if n > 0 {
        let before = c.drop_last();
        lemma_released(before);
        lemma_course_basics(before);
        assert(before.last() == c[n - 1]);
        if has_been(before, p) {
            let i = choose|i: int| 0 <= i < before.len() && p((#[trigger] before[i]).action);
            assert(c[i] == before[i]);
        }
        if has_been(c, p) && !p(c[n].action) {
            let i = choose|i: int| 0 <= i < c.len() && p((#[trigger] c[i]).action);
            assert(before[i] == c[i]);
        }
    }
    assert(p(c[n].action) ==> has_been(c, p));
}

} // verus!
