//! The course of a snapshot on one worker.
//!
//! [`SnapshotWorker`] decides what the worker does next. Its user performs each [`Action`] and
//! hands back the [`Event`] that came of it, until the action is [`Action::Finish`].
//!
//! One worker is the leader. It locks all tables, reads which transactions they contain, and
//! broadcasts that together with the key ranges that the tables are split into. Every worker with
//! something to read then opens a transaction. The leader unlocks the tables once all workers
//! have let go of the broadcast, which each does after its transaction has started. All workers
//! then read their share of the tables. In the end each table's owner asks for the rewind of its
//! outputs.

use vstd::prelude::*;
use vstd::string::*;

use crate::mysql::assignment::{
    all_have_outputs, any_planned, assign_plans, bounds_from, bounds_views, collect_bounds,
    failed_outputs, failures_in_range, fresh_tasks, has_work, job_views, make_tasks, planned,
    published, retain_outputs, rewind_requests, rewind_views, rewinds_of, sampling_jobs,
    split_failures, surviving, tables_to_sample, task_views, without, OutputError,
    RewindRequest, SampledTable, SamplingJob, SchemaFailure, SnapshotInfo, TableBounds, TableTask,
    TaskView,
};
use crate::mysql::desc::{GtidPartition, MySqlTableName};
use crate::mysql::error::{
    classify_query_error, classify_settings_error, query_failure, settings_failure, DefiniteError,
    MySqlError, QueryError, SnapshotSetupError,
};
use crate::mysql::query::{
    build_snapshot_query, lock_clauses, lock_clauses_text, lock_statement,
    lock_wait_timeout_statement, max_execution_time_statement, same_columns, snapshot_text,
    table_names,
};
use crate::mysql::splits::{PkRange, PlanView, RangeView, ReadPlan};
use crate::mysql::tables::SnapshotTable;
use crate::text::decimal;

verus! {

/// How long something may take.
#[derive(Debug, Clone, Copy, PartialEq, Eq, Structural)]
pub struct Timeout {
    pub nanos: u128,
}

impl Timeout {
    /// The whole seconds of it.
    pub open spec fn secs(self) -> nat {
        self.nanos as nat / 1_000_000_000
    }

    /// The whole milliseconds of it.
    pub open spec fn millis(self) -> nat {
        self.nanos as nat / 1_000_000
    }

    /// The whole seconds of it. A rest is cut off.
    pub fn as_secs(&self) -> (r: u128)
        ensures
            r == self.secs(),
    {
        self.nanos / 1_000_000_000
    }

    /// The whole milliseconds of it. A rest is cut off.
    pub fn as_millis(&self) -> (r: u128)
        ensures
            r == self.millis(),
    {
        self.nanos / 1_000_000
    }
}

/// How the snapshot is run, and this worker's place in it.
#[derive(Debug, Clone, Copy)]
pub struct Settings {
    pub worker_id: usize,
    pub worker_count: usize,
    /// Whether this worker is the leader.
    pub is_leader: bool,
    /// How long to wait for table locks. The server counts it in seconds.
    pub lock_wait_timeout: Option<Timeout>,
    /// How long a read may take. The server counts it in milliseconds.
    pub max_execution_time: Option<Timeout>,
}

impl Settings {
    /// There are workers, and not absurdly many.
    pub open spec fn well_formed(self) -> bool {
        &&& self.worker_count > 0
        &&& self.worker_id + self.worker_count <= usize::MAX
    }
}

/// A statement whose text depends on nothing but the tables and its arguments.
#[derive(Debug, Clone, Copy, PartialEq, Eq, Structural)]
pub enum Statement {
    SetLockWaitTimeout(u128),
    LockTables,
    UnlockTables,
    SetTimeZone,
    SetMaxExecutionTime(u128),
}

/// How far a transaction is kept apart from others.
#[derive(Debug, Clone, Copy, PartialEq, Eq, Structural)]
pub enum IsolationLevel {
    ReadUncommitted,
    ReadCommitted,
    RepeatableRead,
    Serializable,
}

/// How a transaction is started.
#[derive(Debug, Clone, Copy, PartialEq, Eq, Structural)]
pub struct TransactionOptions {
    pub isolation_level: IsolationLevel,
    /// Whether the transaction sees the database as of its start.
    pub consistent_snapshot: bool,
    pub read_only: bool,
}

/// The transaction that a worker reads in: it only reads, and always sees the database as of its
/// start.
pub open spec fn reading_transaction() -> TransactionOptions {
    TransactionOptions {
        isolation_level: IsolationLevel::RepeatableRead,
        consistent_snapshot: true,
        read_only: true,
    }
}

/// The options of the transaction that a worker reads in.
pub fn transaction_options() -> (r: TransactionOptions)
    ensures
        r == reading_transaction(),
{
    TransactionOptions {
        isolation_level: IsolationLevel::RepeatableRead,
        consistent_snapshot: true,
        read_only: true,
    }
}

/// What the worker is waiting for.
#[derive(Debug, Clone, Copy, PartialEq, Eq, Structural)]
pub enum Phase {
    Start,
    ResettingStatistics,
    ResolvingConnection,
    OpeningLock,
    SamplingBoundaries,
    SettingLockTimeout,
    LockingTables,
    ReadingGtidSet,
    ReleasingProbes,
    BroadcastingInfo,
    BroadcastingFailure,
    AwaitingInfo,
    ParsingGtidSet,
    Connecting,
    CheckingSettings,
    StartingTransaction,
    SettingTimeZone,
    SettingMaxExecutionTime,
    ReleasingBroadcast,
    DrainingFeedback,
    UnlockingTables,
    ClosingLock,
    VerifyingSchemas,
    PublishingSchemaErrors,
    MeasuringTables,
    /// Reading the table at the given position.
    ReadingTable(usize),
    EmittingRewinds,
    ReportingDefiniteError,
    Finished,
}

/// What the worker has to do next.
#[derive(Debug)]
pub enum Action<E> {
    /// Set all snapshot statistics of the source to zero.
    ResetStatistics,
    /// Find out how to connect.
    ResolveConnection,
    /// Open the connection that holds the table locks.
    OpenLockConnection,
    /// Sample boundaries of the given tables, over at most as many connections as there are
    /// workers, in transactions that stay open.
    SampleBoundaries(Vec<SamplingJob>),
    /// Run a statement on the connection that holds the table locks.
    LockStatement(Statement),
    /// Read which transactions the server has executed, on the same connection.
    ReadGtidSet,
    /// Close the connections that sampled boundaries.
    ReleaseProbes,
    /// Send to all workers, this one included. `None` says that the leader failed.
    Broadcast(Option<SnapshotInfo>),
    /// Wait for something to come in over the broadcast channel.
    AwaitFeedback,
    /// Turn a set of transactions into a frontier.
    ParseGtidSet(String),
    /// Open the connection to read from.
    Connect,
    /// Check that the server is set up for replication.
    CheckSettings,
    /// Start the transaction to read in.
    StartTransaction(TransactionOptions),
    /// Run a statement in that transaction.
    ReadStatement(Statement),
    /// Let go of the broadcast channel.
    ReleaseBroadcast,
    /// Close the connection that held the table locks.
    CloseLockConnection,
    /// Check that the tables that this worker reads still have the columns described.
    VerifySchemas,
    /// Write errors to outputs.
    PublishSchemaErrors(Vec<OutputError>),
    /// Count the rows of all tables and report them as known.
    MeasureTables,
    /// Read this worker's share of the table at the given position.
    ReadTable(usize),
    /// Request rewinds, and none after these.
    EmitRewinds(Vec<RewindRequest>),
    /// Write an error to all outputs and to the source as a whole.
    ReportDefiniteError(DefiniteError),
    /// Return.
    Finish(Result<(), E>),
}

/// What came of an action.
#[derive(Debug)]
pub enum Event<E> {
    /// It is done.
    Done,
    /// It failed.
    Failed(QueryError<E>),
    /// Boundaries have been sampled.
    Sampled(Vec<SampledTable>),
    /// Boundaries could not be sampled.
    SamplingFailed(SnapshotSetupError<E>),
    /// The set of executed transactions.
    GtidSetRead(String),
    /// A batch came in.
    FeedbackData(Vec<Option<SnapshotInfo>>),
    /// The channel made progress without data.
    FeedbackProgress,
    /// The channel is closed: all workers have let go of it.
    FeedbackClosed,
    /// The frontier that a set of transactions stands for.
    GtidSetParsed(Vec<GtidPartition>),
    /// A set of transactions that stands for no frontier, and why.
    GtidSetRejected(String),
    /// The check of the server's settings failed.
    SettingsRejected(MySqlError<E>),
    /// Schemas have been checked, with these failures.
    SchemasVerified(Vec<SchemaFailure>),
}

/// A worker in the course of a snapshot.
#[derive(Debug)]
pub struct SnapshotWorker<E> {
    pub settings: Settings,
    /// The outputs to snapshot.
    pub all_outputs: Vec<usize>,
    /// The tables to snapshot.
    pub tasks: Vec<TableTask>,
    /// How the tables are split, as far as it is known.
    pub bounds: Vec<TableBounds>,
    /// What the leader is about to broadcast.
    pub info: Option<SnapshotInfo>,
    /// The frontier up to which the locked tables contain all transactions.
    pub snapshot_upper: Vec<GtidPartition>,
    /// Why the leader's setup failed.
    pub failure: Option<SnapshotSetupError<E>>,
    pub phase: Phase,
}

/// The phases in which an action is awaited that may fail as statements do.
pub open spec fn can_fail(phase: Phase) -> bool {
    match phase {
        Phase::ResolvingConnection
        | Phase::OpeningLock
        | Phase::SettingLockTimeout
        | Phase::LockingTables
        | Phase::ReadingGtidSet
        | Phase::Connecting
        | Phase::StartingTransaction
        | Phase::SettingTimeZone
        | Phase::SettingMaxExecutionTime
        | Phase::UnlockingTables
        | Phase::ClosingLock
        | Phase::VerifyingSchemas
        | Phase::MeasuringTables
        | Phase::ReadingTable(_) => true,
        _ => false,
    }
}

/// The phases in which an action is awaited that may simply be done.
pub open spec fn can_be_done(phase: Phase) -> bool {
    match phase {
        Phase::SamplingBoundaries
        | Phase::ReadingGtidSet
        | Phase::AwaitingInfo
        | Phase::ParsingGtidSet
        | Phase::DrainingFeedback
        | Phase::VerifyingSchemas
        | Phase::Finished => false,
        _ => true,
    }
}

impl<E> SnapshotWorker<E> {
    /// The worker is in a state that its phase allows.
    pub open spec fn well_formed(self) -> bool {
        &&& self.settings.well_formed()
        &&& all_have_outputs(task_views(self.tasks@))
        &&& self.phase == Phase::ReleasingProbes ==> self.info is Some
        &&& self.phase == Phase::BroadcastingFailure ==> self.failure is Some
        &&& self.phase matches Phase::ReadingTable(i) ==> i < self.tasks@.len()
    }

    /// `event` can come of the action that the worker is waiting for.
    pub open spec fn accepts(self, event: Event<E>) -> bool {
        match event {
            Event::Done => can_be_done(self.phase),
            Event::Failed(_) => can_fail(self.phase),
            Event::Sampled(_) | Event::SamplingFailed(_) => self.phase == Phase::SamplingBoundaries,
            Event::GtidSetRead(_) => self.phase == Phase::ReadingGtidSet,
            Event::FeedbackData(_)
            | Event::FeedbackProgress
            | Event::FeedbackClosed => self.phase == Phase::AwaitingInfo || self.phase
                == Phase::DrainingFeedback,
            Event::GtidSetParsed(_) | Event::GtidSetRejected(_) => self.phase
                == Phase::ParsingGtidSet,
            Event::SettingsRejected(_) => self.phase == Phase::CheckingSettings,
            Event::SchemasVerified(failures) => self.phase == Phase::VerifyingSchemas
                && failures_in_range(failures@, self.tasks@.len() as int),
        }
    }

    /// The worker takes part in the reading: it has a transaction. The leader always does.
    pub open spec fn takes_part(self) -> bool {
        self.settings.is_leader || any_planned(task_views(self.tasks@))
    }
}

/// `new` is `old` in phase `phase`, and `action` is `expected`.
pub open spec fn goes<E>(
    old: SnapshotWorker<E>,
    new: SnapshotWorker<E>,
    action: Action<E>,
    phase: Phase,
    expected: Action<E>,
) -> bool {
    &&& new == SnapshotWorker { phase, ..old }
    &&& action == expected
}

/// The worker returns.
pub open spec fn returns_with<E>(
    old: SnapshotWorker<E>,
    new: SnapshotWorker<E>,
    action: Action<E>,
    result: Result<(), E>,
) -> bool {
    goes(old, new, action, Phase::Finished, Action::Finish(result))
}

/// The worker records an error in all outputs, to return after that.
pub open spec fn reports<E>(
    old: SnapshotWorker<E>,
    new: SnapshotWorker<E>,
    action: Action<E>,
    error: DefiniteError,
) -> bool {
    goes(old, new, action, Phase::ReportingDefiniteError, Action::ReportDefiniteError(error))
}

/// The leader tells all workers that its setup failed.
pub open spec fn gives_up<E>(
    old: SnapshotWorker<E>,
    new: SnapshotWorker<E>,
    action: Action<E>,
    error: SnapshotSetupError<E>,
) -> bool {
    goes(
        SnapshotWorker { failure: Some(error), ..old },
        new,
        action,
        Phase::BroadcastingFailure,
        Action::Broadcast(None),
    )
}

/// What follows once statistics need no reset: nothing more if there is no table.
pub open spec fn sets_out<E>(
    old: SnapshotWorker<E>,
    new: SnapshotWorker<E>,
    action: Action<E>,
) -> bool {
    if old.tasks@.len() == 0 {
        returns_with(old, new, action, Ok(()))
    } else {
        goes(old, new, action, Phase::ResolvingConnection, Action::ResolveConnection)
    }
}

/// The leader starts to lock the tables: first the time limit, if there is one.
pub open spec fn starts_locking<E>(
    old: SnapshotWorker<E>,
    new: SnapshotWorker<E>,
    action: Action<E>,
) -> bool {
    match old.settings.lock_wait_timeout {
        Some(timeout) => goes(
            old,
            new,
            action,
            Phase::SettingLockTimeout,
            Action::LockStatement(Statement::SetLockWaitTimeout(timeout.secs() as u128)),
        ),
        None => goes(
            old,
            new,
            action,
            Phase::LockingTables,
            Action::LockStatement(Statement::LockTables),
        ),
    }
}

/// The leader takes in what sampling found and starts to lock the tables.
pub open spec fn takes_bounds<E>(
    old: SnapshotWorker<E>,
    new: SnapshotWorker<E>,
    action: Action<E>,
    results: Seq<SampledTable>,
) -> bool {
    &&& bounds_views(new.bounds@) == bounds_from(task_views(old.tasks@), results)
    &&& starts_locking(SnapshotWorker { bounds: new.bounds, ..old }, new, action)
}

/// What follows once the lock connection is open: sampling, if there is anything to sample.
pub open spec fn starts_sampling<E>(
    old: SnapshotWorker<E>,
    new: SnapshotWorker<E>,
    action: Action<E>,
) -> bool {
    let jobs = sampling_jobs(task_views(old.tasks@), old.settings.worker_count as int);
    if jobs.len() == 0 {
        takes_bounds(old, new, action, Seq::empty())
    } else {
        &&& new == SnapshotWorker { phase: Phase::SamplingBoundaries, ..old }
        &&& action matches Action::SampleBoundaries(requested) && job_views(requested@) == jobs
    }
}

/// What follows once the leader has broadcast that its setup failed.
pub open spec fn fails<E>(
    old: SnapshotWorker<E>,
    new: SnapshotWorker<E>,
    action: Action<E>,
) -> bool {
    &&& new == SnapshotWorker { failure: None::<SnapshotSetupError<E>>, phase: new.phase, ..old }
    &&& match old.failure {
        Some(SnapshotSetupError::Definite(error)) => {
            &&& new.phase == Phase::ReportingDefiniteError
            &&& action == Action::<E>::ReportDefiniteError(error)
        },
        Some(SnapshotSetupError::Transient(error)) => {
            &&& new.phase == Phase::Finished
            &&& action == Action::<E>::Finish(Err(error))
        },
        None => false,
    }
}

/// What follows a batch while the worker waits for the leader's word. The last entry counts.
pub open spec fn hears<E>(
    old: SnapshotWorker<E>,
    new: SnapshotWorker<E>,
    action: Action<E>,
    batch: Seq<Option<SnapshotInfo>>,
) -> bool {
    if batch.len() == 0 {
        goes(old, new, action, Phase::AwaitingInfo, Action::AwaitFeedback)
    } else {
        match batch.last() {
            Some(info) => goes(
                SnapshotWorker { bounds: info.pk_bounds, ..old },
                new,
                action,
                Phase::ParsingGtidSet,
                Action::ParseGtidSet(info.gtid_set),
            ),
            // The leader failed, and takes care of that itself.
            None => returns_with(old, new, action, Ok(())),
        }
    }
}

/// What follows once the frontier is known: the worker connects if it takes part in the reading.
pub open spec fn makes_plans<E>(
    old: SnapshotWorker<E>,
    new: SnapshotWorker<E>,
    action: Action<E>,
    upper: Vec<GtidPartition>,
) -> bool {
    &&& task_views(new.tasks@) == planned(
        task_views(old.tasks@),
        old.bounds@,
        old.settings.worker_id as int,
        old.settings.worker_count as int,
    )
    &&& new == SnapshotWorker {
        tasks: new.tasks,
        snapshot_upper: upper,
        phase: new.phase,
        ..old
    }
    &&& if new.takes_part() {
        &&& new.phase == Phase::Connecting
        &&& action == Action::<E>::Connect
    } else {
        &&& new.phase == Phase::ReleasingBroadcast
        &&& action == Action::<E>::ReleaseBroadcast
    }
}

/// What follows once the tables may be unlocked: a worker without a transaction is done.
pub open spec fn starts_verifying<E>(
    old: SnapshotWorker<E>,
    new: SnapshotWorker<E>,
    action: Action<E>,
) -> bool {
    if old.takes_part() {
        goes(old, new, action, Phase::VerifyingSchemas, Action::VerifySchemas)
    } else {
        returns_with(old, new, action, Ok(()))
    }
}

/// What follows the check of schemas: failed outputs are dropped, and the errors published by
/// the owners of their tables.
pub open spec fn drops_outputs<E>(
    old: SnapshotWorker<E>,
    new: SnapshotWorker<E>,
    action: Action<E>,
    failures: Seq<SchemaFailure>,
) -> bool {
    &&& task_views(new.tasks@) == surviving(task_views(old.tasks@), failed_outputs(failures))
    &&& new == SnapshotWorker { tasks: new.tasks, phase: Phase::PublishingSchemaErrors, ..old }
    &&& action matches Action::PublishSchemaErrors(errors) && errors@ == published(
        failures,
        task_views(old.tasks@),
        old.settings.worker_id as int,
    )
}

/// The position of the first table from `i` on that the worker reads something of, or the number
/// of tables if there is none.
pub open spec fn next_planned(tasks: Seq<TableTask>, i: int) -> int
    decreases tasks.len() - i,
{
    if i >= tasks.len() || tasks[i].plan is Some {
        i
    } else {
        next_planned(tasks, i + 1)
    }
}

/// What follows once the tables before position `i` have been read: the next table, or rewind
/// requests if there is none.
pub open spec fn reads_on<E>(
    old: SnapshotWorker<E>,
    new: SnapshotWorker<E>,
    action: Action<E>,
    i: int,
) -> bool {
    let next = next_planned(old.tasks@, i);
    if next < old.tasks@.len() {
        goes(
            old,
            new,
            action,
            Phase::ReadingTable(next as usize),
            Action::ReadTable(next as usize),
        )
    } else {
        &&& new == SnapshotWorker { phase: Phase::EmittingRewinds, ..old }
        &&& action matches Action::EmitRewinds(requests) && rewind_views(requests@) == rewinds_of(
            task_views(old.tasks@),
            old.settings.worker_id as int,
            old.snapshot_upper@,
        )
    }
}

/// What follows once everything is ready for reading.
pub open spec fn starts_reading<E>(
    old: SnapshotWorker<E>,
    new: SnapshotWorker<E>,
    action: Action<E>,
) -> bool {
    if old.tasks@.len() == 0 {
        returns_with(old, new, action, Ok(()))
    } else {
        reads_on(old, new, action, 0)
    }
}

/// What follows when the action that the worker waits for is done.
pub open spec fn step_done<E>(
    old: SnapshotWorker<E>,
    new: SnapshotWorker<E>,
    action: Action<E>,
) -> bool {
    match old.phase {
        Phase::Start => if old.all_outputs@.len() > 0 {
            goes(old, new, action, Phase::ResettingStatistics, Action::ResetStatistics)
        } else {
            sets_out(old, new, action)
        },
        Phase::ResettingStatistics => sets_out(old, new, action),
        Phase::ResolvingConnection => if old.settings.is_leader {
            goes(old, new, action, Phase::OpeningLock, Action::OpenLockConnection)
        } else {
            goes(old, new, action, Phase::AwaitingInfo, Action::AwaitFeedback)
        },
        Phase::OpeningLock => starts_sampling(old, new, action),
        Phase::SettingLockTimeout => goes(
            old,
            new,
            action,
            Phase::LockingTables,
            Action::LockStatement(Statement::LockTables),
        ),
        Phase::LockingTables => goes(
            old,
            new,
            action,
            Phase::ReadingGtidSet,
            Action::ReadGtidSet,
        ),
        Phase::ReleasingProbes => goes(
            SnapshotWorker { info: None, ..old },
            new,
            action,
            Phase::BroadcastingInfo,
            Action::Broadcast(old.info),
        ),
        Phase::BroadcastingInfo => goes(
            old,
            new,
            action,
            Phase::AwaitingInfo,
            Action::AwaitFeedback,
        ),
        Phase::BroadcastingFailure => fails(old, new, action),
        Phase::Connecting => goes(
            old,
            new,
            action,
            Phase::CheckingSettings,
            Action::CheckSettings,
        ),
        Phase::CheckingSettings => goes(
            old,
            new,
            action,
            Phase::StartingTransaction,
            Action::StartTransaction(reading_transaction()),
        ),
        Phase::StartingTransaction => goes(
            old,
            new,
            action,
            Phase::SettingTimeZone,
            Action::ReadStatement(Statement::SetTimeZone),
        ),
        Phase::SettingTimeZone => match old.settings.max_execution_time {
            Some(timeout) => goes(
                old,
                new,
                action,
                Phase::SettingMaxExecutionTime,
                Action::ReadStatement(Statement::SetMaxExecutionTime(timeout.millis() as u128)),
            ),
            None => goes(old, new, action, Phase::ReleasingBroadcast, Action::ReleaseBroadcast),
        },
        Phase::SettingMaxExecutionTime => goes(
            old,
            new,
            action,
            Phase::ReleasingBroadcast,
            Action::ReleaseBroadcast,
        ),
        Phase::ReleasingBroadcast => if old.settings.is_leader {
            goes(old, new, action, Phase::DrainingFeedback, Action::AwaitFeedback)
        } else {
            starts_verifying(old, new, action)
        },
        Phase::UnlockingTables => goes(
            old,
            new,
            action,
            Phase::ClosingLock,
            Action::CloseLockConnection,
        ),
        Phase::ClosingLock => starts_verifying(old, new, action),
        Phase::PublishingSchemaErrors => if old.settings.is_leader {
            goes(old, new, action, Phase::MeasuringTables, Action::MeasureTables)
        } else {
            starts_reading(old, new, action)
        },
        Phase::MeasuringTables => starts_reading(old, new, action),
        Phase::ReadingTable(i) => reads_on(old, new, action, i + 1),
        Phase::EmittingRewinds | Phase::ReportingDefiniteError => returns_with(
            old,
            new,
            action,
            Ok(()),
        ),
        _ => false,
    }
}

/// What follows when the action that the worker waits for failed. While the leader sets up the
/// snapshot the other workers have to be told. Later a failure just ends the snapshot.
pub open spec fn step_failed<E>(
    old: SnapshotWorker<E>,
    new: SnapshotWorker<E>,
    action: Action<E>,
    error: QueryError<E>,
) -> bool {
    match old.phase {
        Phase::OpeningLock | Phase::SettingLockTimeout | Phase::ReadingGtidSet => gives_up(
            old,
            new,
            action,
            SnapshotSetupError::Transient(error.cause()),
        ),
        Phase::LockingTables => gives_up(old, new, action, query_failure(error)),
        _ => returns_with(old, new, action, Err(error.cause())),
    }
}

/// How `event` moves the worker on: from `old` to `new`, which waits for `action`.
pub open spec fn steps<E>(
    old: SnapshotWorker<E>,
    event: Event<E>,
    new: SnapshotWorker<E>,
    action: Action<E>,
) -> bool {
    match event {
        Event::Done => step_done(old, new, action),
        Event::Failed(error) => step_failed(old, new, action, error),
        Event::Sampled(results) => takes_bounds(old, new, action, results@),
        Event::SamplingFailed(error) => gives_up(old, new, action, error),
        Event::GtidSetRead(gtid_set) => {
            let info = SnapshotInfo { gtid_set, pk_bounds: old.bounds };
            &&& new.bounds@.len() == 0
            &&& goes(
                SnapshotWorker { info: Some(info), bounds: new.bounds, ..old },
                new,
                action,
                Phase::ReleasingProbes,
                Action::ReleaseProbes,
            )
        },
        Event::FeedbackData(batch) => if old.phase == Phase::AwaitingInfo {
            hears(old, new, action, batch@)
        } else {
            goes(old, new, action, Phase::DrainingFeedback, Action::AwaitFeedback)
        },
        Event::FeedbackProgress => goes(old, new, action, old.phase, Action::AwaitFeedback),
        Event::FeedbackClosed => if old.phase == Phase::AwaitingInfo {
            // The leader must have failed, and takes care of that itself.
            returns_with(old, new, action, Ok(()))
        } else {
            goes(
                old,
                new,
                action,
                Phase::UnlockingTables,
                Action::LockStatement(Statement::UnlockTables),
            )
        },
        Event::GtidSetParsed(upper) => makes_plans(old, new, action, upper),
        Event::GtidSetRejected(reason) => reports(
            old,
            new,
            action,
            DefiniteError::UnsupportedGtidState(reason),
        ),
        Event::SettingsRejected(error) => match settings_failure(error) {
            SnapshotSetupError::Definite(error) => reports(old, new, action, error),
            SnapshotSetupError::Transient(error) => returns_with(old, new, action, Err(error)),
        },
        Event::SchemasVerified(failures) => drops_outputs(old, new, action, failures@),
    }
}

/// The next table to read is not before `i`, and is one to read something of.
pub proof fn lemma_next_planned(tasks: Seq<TableTask>, i: int)
    requires
        0 <= i <= tasks.len(),
    ensures
        i <= next_planned(tasks, i) <= tasks.len(),
        next_planned(tasks, i) < tasks.len() ==> tasks[next_planned(tasks, i)].plan is Some,
        forall|j: int| i <= j < next_planned(tasks, i) ==> (#[trigger] tasks[j]).plan is None,
    decreases tasks.len() - i,
{
    if i < tasks.len() && tasks[i].plan is None {
        lemma_next_planned(tasks, i + 1);
    }
}

/// Tables that survive have outputs.
proof fn lemma_surviving_have_outputs(tasks: Seq<TaskView>, removed: Set<usize>)
    ensures
        all_have_outputs(surviving(tasks, removed)),
{
    broadcast use Seq::lemma_filter_pred;

    let stripped = tasks.map_values(
        |t: TaskView| TaskView { outputs: without(t.outputs, removed), ..t },
    );
    let p = |t: TaskView| t.outputs.len() > 0;
    assert forall|i: int| 0 <= i < surviving(tasks, removed).len() implies (
    #[trigger] surviving(tasks, removed)[i]).outputs.len() > 0 by {
        assert(p(stripped.filter(p)[i]));
    }
}

/// Every step leaves the worker in a state that its phase allows.
pub proof fn lemma_steps_keep_well_formed<E>(
    old: SnapshotWorker<E>,
    event: Event<E>,
    new: SnapshotWorker<E>,
    action: Action<E>,
)
    requires
        old.well_formed(),
        old.accepts(event),
        steps(old, event, new, action),
    ensures
        new.well_formed(),
{
    match event {
        Event::Done => {
            if let Phase::ReadingTable(i) = old.phase {
                lemma_next_planned(old.tasks@, i + 1);
            } else if old.phase == Phase::MeasuringTables || old.phase
                == Phase::PublishingSchemaErrors {
                lemma_next_planned(old.tasks@, 0);
            }
            assert(old.tasks@.len() == old.tasks.len());
        },
        Event::GtidSetParsed(upper) => {
            let views = task_views(old.tasks@);
            assert forall|i: int| 0 <= i < task_views(new.tasks@).len() implies (
            #[trigger] task_views(new.tasks@)[i]).outputs.len() > 0 by {
                assert(views[i].outputs.len() > 0);
            }
        },
        Event::SchemasVerified(failures) => {
            lemma_surviving_have_outputs(task_views(old.tasks@), failed_outputs(failures@));
        },
        _ => {},
    }
}

impl<E> SnapshotWorker<E> {
    /// A worker that snapshots `tables` for the outputs `all_outputs`. Table `i` is owned by
    /// worker `owners[i]`.
    pub fn new(
        settings: Settings,
        all_outputs: Vec<usize>,
        tables: Vec<SnapshotTable>,
        owners: &Vec<usize>,
    ) -> (r: SnapshotWorker<E>)
        requires
            settings.well_formed(),
            owners@.len() == tables@.len(),
            forall|i: int| 0 <= i < tables@.len() ==> (#[trigger] tables@[i]).outputs@.len() > 0,
        ensures
            r.well_formed(),
            r.settings == settings,
            r.all_outputs == all_outputs,
            task_views(r.tasks@) == fresh_tasks(tables@, owners@),
            r.bounds@.len() == 0,
            r.info is None,
            r.snapshot_upper@.len() == 0,
            r.failure is None,
            r.phase == Phase::Start,
    {
        let tasks = make_tasks(tables, owners);
        SnapshotWorker {
            settings,
            all_outputs,
            tasks,
            bounds: Vec::new(),
            info: None,
            snapshot_upper: Vec::new(),
            failure: None,
            phase: Phase::Start,
        }
    }

    fn go(self, phase: Phase, action: Action<E>) -> (r: (SnapshotWorker<E>, Action<E>))
        ensures
            goes(self, r.0, r.1, phase, action),
    {
        let mut worker = self;
        worker.phase = phase;
        (worker, action)
    }

    fn return_with(self, result: Result<(), E>) -> (r: (SnapshotWorker<E>, Action<E>))
        ensures
            returns_with(self, r.0, r.1, result),
    {
        self.go(Phase::Finished, Action::Finish(result))
    }

    fn report(self, error: DefiniteError) -> (r: (SnapshotWorker<E>, Action<E>))
        ensures
            reports(self, r.0, r.1, error),
    {
        self.go(Phase::ReportingDefiniteError, Action::ReportDefiniteError(error))
    }

    fn give_up(self, error: SnapshotSetupError<E>) -> (r: (SnapshotWorker<E>, Action<E>))
        ensures
            gives_up(self, r.0, r.1, error),
    {
        let mut worker = self;
        worker.failure = Some(error);
        worker.go(Phase::BroadcastingFailure, Action::Broadcast(None))
    }

    fn set_out(self) -> (r: (SnapshotWorker<E>, Action<E>))
        ensures
            sets_out(self, r.0, r.1),
    {
        if self.tasks.len() == 0 {
            self.return_with(Ok(()))
        } else {
            self.go(Phase::ResolvingConnection, Action::ResolveConnection)
        }
    }

    fn start_locking(self) -> (r: (SnapshotWorker<E>, Action<E>))
        ensures
            starts_locking(self, r.0, r.1),
    {
        match self.settings.lock_wait_timeout {
            Some(timeout) => self.go(
                Phase::SettingLockTimeout,
                Action::LockStatement(Statement::SetLockWaitTimeout(timeout.as_secs())),
            ),
            None => self.go(Phase::LockingTables, Action::LockStatement(Statement::LockTables)),
        }
    }

    fn take_bounds(self, results: &Vec<SampledTable>) -> (r: (SnapshotWorker<E>, Action<E>))
        ensures
            takes_bounds(self, r.0, r.1, results@),
    {
        let mut worker = self;
        worker.bounds = collect_bounds(&worker.tasks, results);
        worker.start_locking()
    }

    fn start_sampling(self) -> (r: (SnapshotWorker<E>, Action<E>))
        requires
            self.well_formed(),
        ensures
            starts_sampling(self, r.0, r.1),
    {
        let jobs = tables_to_sample(&self.tasks, self.settings.worker_count);
        assert(job_views(jobs@).len() == jobs@.len());
        if jobs.len() == 0 {
            let none: Vec<SampledTable> = Vec::new();
            assert(none@ =~= Seq::<SampledTable>::empty());
            self.take_bounds(&none)
        } else {
            self.go(Phase::SamplingBoundaries, Action::SampleBoundaries(jobs))
        }
    }

    fn fail(self) -> (r: (SnapshotWorker<E>, Action<E>))
        requires
            self.failure is Some,
        ensures
            fails(self, r.0, r.1),
    {
        let mut worker = self;
        match worker.failure.take() {
            Some(SnapshotSetupError::Definite(error)) => worker.report(error),
            Some(SnapshotSetupError::Transient(error)) => worker.return_with(Err(error)),
            None => worker.return_with(Ok(())),
        }
    }

    fn hear(self, batch: Vec<Option<SnapshotInfo>>) -> (r: (SnapshotWorker<E>, Action<E>))
        ensures
            hears(self, r.0, r.1, batch@),
    {
        let mut worker = self;
        let mut batch = batch;
        match batch.pop() {
            Some(Some(info)) => {
                worker.bounds = info.pk_bounds;
                worker.go(Phase::ParsingGtidSet, Action::ParseGtidSet(info.gtid_set))
            },
            Some(None) => worker.return_with(Ok(())),
            None => worker.go(Phase::AwaitingInfo, Action::AwaitFeedback),
        }
    }

    fn take_part(&self) -> (r: bool)
        ensures
            r == self.takes_part(),
    {
        self.settings.is_leader || has_work(&self.tasks)
    }

    fn make_plans(self, upper: Vec<GtidPartition>) -> (r: (SnapshotWorker<E>, Action<E>))
        requires
            self.well_formed(),
        ensures
            makes_plans(self, r.0, r.1, upper),
    {
        let SnapshotWorker {
            settings,
            all_outputs,
            tasks,
            bounds,
            info,
            snapshot_upper,
            failure,
            phase,
        } = self;
        let tasks = assign_plans(tasks, &bounds, settings.worker_id, settings.worker_count);
        let worker = SnapshotWorker {
            settings,
            all_outputs,
            tasks,
            bounds,
            info,
            snapshot_upper: upper,
            failure,
            phase,
        };
        if worker.take_part() {
            worker.go(Phase::Connecting, Action::Connect)
        } else {
            worker.go(Phase::ReleasingBroadcast, Action::ReleaseBroadcast)
        }
    }

    fn start_verifying(self) -> (r: (SnapshotWorker<E>, Action<E>))
        ensures
            starts_verifying(self, r.0, r.1),
    {
        if self.take_part() {
            self.go(Phase::VerifyingSchemas, Action::VerifySchemas)
        } else {
            self.return_with(Ok(()))
        }
    }

    fn drop_outputs(self, failures: Vec<SchemaFailure>) -> (r: (SnapshotWorker<E>, Action<E>))
        requires
            failures_in_range(failures@, self.tasks@.len() as int),
        ensures
            drops_outputs(self, r.0, r.1, failures@),
    {
        let SnapshotWorker {
            settings,
            all_outputs,
            tasks,
            bounds,
            info,
            snapshot_upper,
            failure,
            phase,
        } = self;
        let (errors, removed) = split_failures(failures, &tasks, settings.worker_id);
        let tasks = retain_outputs(tasks, &removed);
        let worker = SnapshotWorker {
            settings,
            all_outputs,
            tasks,
            bounds,
            info,
            snapshot_upper,
            failure,
            phase,
        };
        worker.go(Phase::PublishingSchemaErrors, Action::PublishSchemaErrors(errors))
    }

    fn read_on(self, i: usize) -> (r: (SnapshotWorker<E>, Action<E>))
        requires
            i <= self.tasks@.len(),
        ensures
            reads_on(self, r.0, r.1, i as int),
    {
        let mut next = i;
        while next < self.tasks.len() && self.tasks[next].plan.is_none()
            invariant
                next <= self.tasks@.len(),
                next_planned(self.tasks@, next as int) == next_planned(self.tasks@, i as int),
            decreases self.tasks@.len() - next,
        {
            next += 1;
        }
        if next < self.tasks.len() {
            self.go(Phase::ReadingTable(next), Action::ReadTable(next))
        } else {
            let requests = rewind_requests(
                &self.tasks,
                self.settings.worker_id,
                &self.snapshot_upper,
            );
            self.go(Phase::EmittingRewinds, Action::EmitRewinds(requests))
        }
    }

    fn start_reading(self) -> (r: (SnapshotWorker<E>, Action<E>))
        ensures
            starts_reading(self, r.0, r.1),
    {
        if self.tasks.len() == 0 {
            self.return_with(Ok(()))
        } else {
            self.read_on(0)
        }
    }

    fn on_done(self) -> (r: (SnapshotWorker<E>, Action<E>))
        requires
            self.well_formed(),
            can_be_done(self.phase),
        ensures
            step_done(self, r.0, r.1),
    {
        match self.phase {
            Phase::Start => {
                if self.all_outputs.len() > 0 {
                    self.go(Phase::ResettingStatistics, Action::ResetStatistics)
                } else {
                    self.set_out()
                }
            },
            Phase::ResettingStatistics => self.set_out(),
            Phase::ResolvingConnection => {
                if self.settings.is_leader {
                    self.go(Phase::OpeningLock, Action::OpenLockConnection)
                } else {
                    self.go(Phase::AwaitingInfo, Action::AwaitFeedback)
                }
            },
            Phase::OpeningLock => self.start_sampling(),
            Phase::SettingLockTimeout => self.go(
                Phase::LockingTables,
                Action::LockStatement(Statement::LockTables),
            ),
            Phase::LockingTables => self.go(Phase::ReadingGtidSet, Action::ReadGtidSet),
            Phase::ReleasingProbes => {
                let mut worker = self;
                let info = worker.info.take();
                worker.go(Phase::BroadcastingInfo, Action::Broadcast(info))
            },
            Phase::BroadcastingInfo => self.go(Phase::AwaitingInfo, Action::AwaitFeedback),
            Phase::BroadcastingFailure => self.fail(),
            Phase::Connecting => self.go(Phase::CheckingSettings, Action::CheckSettings),
            Phase::CheckingSettings => self.go(
                Phase::StartingTransaction,
                Action::StartTransaction(transaction_options()),
            ),
            Phase::StartingTransaction => self.go(
                Phase::SettingTimeZone,
                Action::ReadStatement(Statement::SetTimeZone),
            ),
            Phase::SettingTimeZone => match self.settings.max_execution_time {
                Some(timeout) => self.go(
                    Phase::SettingMaxExecutionTime,
                    Action::ReadStatement(Statement::SetMaxExecutionTime(timeout.as_millis())),
                ),
                None => self.go(Phase::ReleasingBroadcast, Action::ReleaseBroadcast),
            },
            Phase::SettingMaxExecutionTime => self.go(
                Phase::ReleasingBroadcast,
                Action::ReleaseBroadcast,
            ),
            Phase::ReleasingBroadcast => {
                if self.settings.is_leader {
                    self.go(Phase::DrainingFeedback, Action::AwaitFeedback)
                } else {
                    self.start_verifying()
                }
            },
            Phase::UnlockingTables => self.go(Phase::ClosingLock, Action::CloseLockConnection),
            Phase::ClosingLock => self.start_verifying(),
            Phase::PublishingSchemaErrors => {
                if self.settings.is_leader {
                    self.go(Phase::MeasuringTables, Action::MeasureTables)
                } else {
                    self.start_reading()
                }
            },
            Phase::MeasuringTables => self.start_reading(),
            Phase::ReadingTable(i) => {
                let count = self.tasks.len();
                assert(i < count);
                self.read_on(i + 1)
            },
            _ => self.return_with(Ok(())),
        }
    }

    fn on_failed(self, error: QueryError<E>) -> (r: (SnapshotWorker<E>, Action<E>))
        ensures
            step_failed(self, r.0, r.1, error),
    {
        match self.phase {
            Phase::OpeningLock | Phase::SettingLockTimeout | Phase::ReadingGtidSet => self.give_up(
                SnapshotSetupError::from(error),
            ),
            Phase::LockingTables => self.give_up(classify_query_error(error)),
            _ => self.return_with(Err(error.into_cause())),
        }
    }

    /// Takes in what came of the last action, and decides what to do next. The first event is
    /// [`Event::Done`].
    pub fn step(self, event: Event<E>) -> (r: (SnapshotWorker<E>, Action<E>))
        requires
            self.well_formed(),
            self.accepts(event),
        ensures
            steps(self, event, r.0, r.1),
            r.0.well_formed(),
    {
        let ghost old = self;
        let r = self.next(event);
        proof {
            lemma_steps_keep_well_formed(old, event, r.0, r.1);
        }
        r
    }

    fn next(self, event: Event<E>) -> (r: (SnapshotWorker<E>, Action<E>))
        requires
            self.well_formed(),
            self.accepts(event),
        ensures
            steps(self, event, r.0, r.1),
    {
        match event {
            Event::Done => self.on_done(),
            Event::Failed(error) => self.on_failed(error),
            Event::Sampled(results) => self.take_bounds(&results),
            Event::SamplingFailed(error) => self.give_up(error),
            Event::GtidSetRead(gtid_set) => {
                let SnapshotWorker {
                    settings,
                    all_outputs,
                    tasks,
                    bounds,
                    info,
                    snapshot_upper,
                    failure,
                    phase,
                } = self;
                let worker = SnapshotWorker {
                    settings,
                    all_outputs,
                    tasks,
                    bounds: Vec::new(),
                    info: Some(SnapshotInfo { gtid_set, pk_bounds: bounds }),
                    snapshot_upper,
                    failure,
                    phase,
                };
                worker.go(Phase::ReleasingProbes, Action::ReleaseProbes)
            },
            Event::FeedbackData(batch) => {
                if self.phase == Phase::AwaitingInfo {
                    self.hear(batch)
                } else {
                    self.go(Phase::DrainingFeedback, Action::AwaitFeedback)
                }
            },
            Event::FeedbackProgress => {
                let phase = self.phase;
                self.go(phase, Action::AwaitFeedback)
            },
            Event::FeedbackClosed => {
                if self.phase == Phase::AwaitingInfo {
                    self.return_with(Ok(()))
                } else {
                    self.go(
                        Phase::UnlockingTables,
                        Action::LockStatement(Statement::UnlockTables),
                    )
                }
            },
            Event::GtidSetParsed(upper) => self.make_plans(upper),
            Event::GtidSetRejected(reason) => self.report(
                DefiniteError::UnsupportedGtidState(reason),
            ),
            Event::SettingsRejected(error) => match classify_settings_error(error) {
                SnapshotSetupError::Definite(error) => self.report(error),
                SnapshotSetupError::Transient(error) => self.return_with(Err(error)),
            },
            Event::SchemasVerified(failures) => self.drop_outputs(failures),
        }
    }
}

/// The text of a statement about the given tables.
pub open spec fn statement_text(
    statement: Statement,
    tables: Seq<(Seq<char>, Seq<char>)>,
) -> Seq<char> {
    match statement {
        Statement::SetLockWaitTimeout(secs) => "SET @@session.lock_wait_timeout = "@ + decimal(
            secs as nat,
        ),
        Statement::LockTables => "LOCK TABLES "@ + lock_clauses_text(tables),
        Statement::UnlockTables => "UNLOCK TABLES"@,
        Statement::SetTimeZone => "set @@session.time_zone = '+00:00'"@,
        Statement::SetMaxExecutionTime(millis) => "SET @@session.max_execution_time = "@ + decimal(
            millis as nat,
        ),
    }
}

/// The names of the tables of tasks.
pub open spec fn task_names(tasks: Seq<TableTask>) -> Seq<(Seq<char>, Seq<char>)> {
    tasks.map_values(|t: TableTask| t.name@)
}

/// The key range of a plan, if it is restricted to one.
pub open spec fn planned_range(plan: PlanView) -> Option<RangeView> {
    match plan {
        PlanView::Range(range) => Some(range),
        PlanView::WholeTable => None,
    }
}

/// The system variable that holds the set of executed transactions.
pub fn gtid_set_variable() -> (r: &'static str)
    ensures
        r@ == "global.gtid_executed"@,
{
    "global.gtid_executed"
}

impl<E> SnapshotWorker<E> {
    /// Whether `event` can come of the action that the worker is waiting for.
    pub fn can_take(&self, event: &Event<E>) -> (r: bool)
        ensures
            r == self.accepts(*event),
    {
        match event {
            Event::Done => match self.phase {
                Phase::SamplingBoundaries
                | Phase::ReadingGtidSet
                | Phase::AwaitingInfo
                | Phase::ParsingGtidSet
                | Phase::DrainingFeedback
                | Phase::VerifyingSchemas
                | Phase::Finished => false,
                _ => true,
            },
            Event::Failed(_) => match self.phase {
                Phase::ResolvingConnection
                | Phase::OpeningLock
                | Phase::SettingLockTimeout
                | Phase::LockingTables
                | Phase::ReadingGtidSet
                | Phase::Connecting
                | Phase::StartingTransaction
                | Phase::SettingTimeZone
                | Phase::SettingMaxExecutionTime
                | Phase::UnlockingTables
                | Phase::ClosingLock
                | Phase::VerifyingSchemas
                | Phase::MeasuringTables
                | Phase::ReadingTable(_) => true,
                _ => false,
            },
            Event::Sampled(_) | Event::SamplingFailed(_) => self.phase == Phase::SamplingBoundaries,
            Event::GtidSetRead(_) => self.phase == Phase::ReadingGtidSet,
            Event::FeedbackData(_) | Event::FeedbackProgress | Event::FeedbackClosed => {
                self.phase == Phase::AwaitingInfo || self.phase == Phase::DrainingFeedback
            },
            Event::GtidSetParsed(_) | Event::GtidSetRejected(_) => self.phase
                == Phase::ParsingGtidSet,
            Event::SettingsRejected(_) => self.phase == Phase::CheckingSettings,
            Event::SchemasVerified(failures) => {
                if self.phase != Phase::VerifyingSchemas {
                    return false;
                }
                let mut i: usize = 0;
                while i < failures.len()
                    invariant
                        i <= failures@.len(),
                        *event == Event::<E>::SchemasVerified(*failures),
                        failures_in_range(failures@.take(i as int), self.tasks@.len() as int),
                    decreases failures@.len() - i,
                {
                    if failures[i].table >= self.tasks.len() {
                        assert(failures@[i as int].table >= self.tasks@.len());
                        assert(!failures_in_range(failures@, self.tasks@.len() as int));
                        return false;
                    }
                    assert(failures@.take(i + 1) =~= failures@.take(i as int).push(
                        failures@[i as int],
                    ));
                    i += 1;
                }
                assert(failures@.take(i as int) =~= failures@);
                true
            },
        }
    }

    /// The text of `statement`.
    pub fn sql(&self, statement: Statement) -> (r: String)
        ensures
            r@ == statement_text(statement, task_names(self.tasks@)),
    {
        match statement {
            Statement::SetLockWaitTimeout(secs) => lock_wait_timeout_statement(secs),
            Statement::LockTables => {
                let mut names: Vec<MySqlTableName> = Vec::new();
                let mut i: usize = 0;
                while i < self.tasks.len()
                    invariant
                        i <= self.tasks@.len(),
                        table_names(names@) == task_names(self.tasks@).take(i as int),
                    decreases self.tasks@.len() - i,
                {
                    let ghost done = names@;
                    names.push(self.tasks[i].name.clone());
                    assert(table_names(names@) =~= table_names(done).push(names@.last()@));
                    i += 1;
                }
                assert(table_names(names@) =~= task_names(self.tasks@));
                lock_statement(lock_clauses(names.as_slice()).as_str())
            },
            Statement::UnlockTables => "UNLOCK TABLES".to_string(),
            Statement::SetTimeZone => "set @@session.time_zone = '+00:00'".to_string(),
            Statement::SetMaxExecutionTime(millis) => max_execution_time_statement(millis),
        }
    }

    /// The positions of the tables that this worker reads something of, whose schemas it has to
    /// check.
    pub fn tables_to_verify(&self) -> (r: Vec<usize>)
        ensures
            forall|i: usize| #[trigger]
                r@.contains(i) <==> i < self.tasks@.len() && self.tasks@[i as int].plan is Some,
            forall|a: int, b: int| 0 <= a < b < r@.len() ==> r@[a] < r@[b],
    {
        let mut r: Vec<usize> = Vec::new();
        let mut i: usize = 0;
        while i < self.tasks.len()
            invariant
                i <= self.tasks@.len(),
                forall|k: usize| #[trigger]
                    r@.contains(k) <==> k < i && self.tasks@[k as int].plan is Some,
                forall|a: int, b: int| 0 <= a < b < r@.len() ==> r@[a] < r@[b],
            decreases self.tasks@.len() - i,
        {
            if self.tasks[i].plan.is_some() {
                let ghost before = r@;
                proof {
                    assert forall|a: int| 0 <= a < before.len() implies before[a] < i by {
                        assert(before.contains(before[a]));
                    }
                }
                r.push(i);
                proof {
                    assert forall|k: usize| #[trigger]
                        r@.contains(k) <==> k < i + 1 && self.tasks@[k as int].plan is Some by {
                        if before.contains(k) {
                            let a = choose|a: int| 0 <= a < before.len() && before[a] == k;
                            assert(r@[a] == k);
                        }
                        assert(r@[before.len() as int] == i);
                        if r@.contains(k) && k != i {
                            let a = choose|a: int| 0 <= a < r@.len() && r@[a] == k;
                            assert(before[a] == k);
                        }
                    }
                }
            }
            i += 1;
        }
        r
    }

    /// The query for this worker's share of the table at position `i`.
    pub fn table_query(&self, i: usize) -> (r: String)
        requires
            i < self.tasks@.len(),
            self.tasks@[i as int].plan is Some,
            self.tasks@[i as int].outputs@.len() > 0,
            same_columns(self.tasks@[i as int].outputs@),
        ensures
            r@ == snapshot_text(
                self.tasks@[i as int].outputs@[0].desc.columns@,
                self.tasks@[i as int].outputs@[0].table_name@,
                planned_range(self.tasks@[i as int].plan->0@),
            ),
    {
        let task = &self.tasks[i];
        let range: Option<&PkRange> = match &task.plan {
            Some(ReadPlan::Range(range)) => Some(range),
            _ => None,
        };
        build_snapshot_query(task.outputs.as_slice(), range)
    }
}

} // verus!
