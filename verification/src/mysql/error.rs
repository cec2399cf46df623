//! Which failures are final for a source and which are worth a restart.
//!
//! The type parameter `E` is the error that the database client reports. It is passed through
//! unread where the failure is transient.

use vstd::prelude::*;
use vstd::std_specs::convert::FromSpecImpl;

use crate::mysql::desc::{GtidPartition, GtidState};

verus! {

/// The server's code for a table that does not exist.
pub const ER_NO_SUCH_TABLE: u16 = 1146;

/// A failure that no restart will mend. It is recorded in the affected outputs.
#[derive(Debug, Clone)]
pub enum DefiniteError {
    ValueDecodeError(String),
    TableDropped(String),
    UnsupportedGtidState(String),
    ServerConfigurationError(String),
    IncompatibleSchema(String),
}

/// A failure of one statement.
#[derive(Debug)]
pub enum QueryError<E> {
    /// The server refused the statement.
    Server { code: u16, message: String, source: E },
    /// Anything else.
    Other(E),
}

/// A failure that the MySQL layer has looked at.
#[derive(Debug)]
pub enum MySqlError<E> {
    /// A server setting rules out replication.
    InvalidSystemSetting { message: String, source: E },
    /// A value of a row cannot be decoded.
    ValueDecodeError { message: String, source: E },
    /// Anything else.
    Other(E),
}

/// Why setting up a snapshot failed.
#[derive(Debug)]
pub enum SnapshotSetupError<E> {
    Definite(DefiniteError),
    Transient(E),
}

impl<E> QueryError<E> {
    /// What the client reported.
    pub open spec fn cause(self) -> E {
        match self {
            QueryError::Server { code, message, source } => source,
            QueryError::Other(source) => source,
        }
    }

    /// What the client reported.
    pub fn into_cause(self) -> (r: E)
        ensures
            r == self.cause(),
    {
        match self {
            QueryError::Server { code, message, source } => source,
            QueryError::Other(source) => source,
        }
    }
}

impl<E> MySqlError<E> {
    /// What the client reported.
    pub open spec fn cause(self) -> E {
        match self {
            MySqlError::InvalidSystemSetting { message, source } => source,
            MySqlError::ValueDecodeError { message, source } => source,
            MySqlError::Other(source) => source,
        }
    }

    /// What the client reported.
    pub fn into_cause(self) -> (r: E)
        ensures
            r == self.cause(),
    {
        match self {
            MySqlError::InvalidSystemSetting { message, source } => source,
            MySqlError::ValueDecodeError { message, source } => source,
            MySqlError::Other(source) => source,
        }
    }
}

impl<E> FromSpecImpl<QueryError<E>> for SnapshotSetupError<E> {
    open spec fn obeys_from_spec() -> bool {
        true
    }

    open spec fn from_spec(e: QueryError<E>) -> SnapshotSetupError<E> {
        SnapshotSetupError::Transient(e.cause())
    }
}

/// A failure is transient unless something says otherwise.
impl<E> From<QueryError<E>> for SnapshotSetupError<E> {
    fn from(e: QueryError<E>) -> (r: SnapshotSetupError<E>)
        ensures
            r == SnapshotSetupError::<E>::Transient(e.cause()),
    {
        SnapshotSetupError::Transient(e.into_cause())
    }
}

impl<E> FromSpecImpl<MySqlError<E>> for SnapshotSetupError<E> {
    open spec fn obeys_from_spec() -> bool {
        true
    }

    open spec fn from_spec(e: MySqlError<E>) -> SnapshotSetupError<E> {
        SnapshotSetupError::Transient(e.cause())
    }
}

/// A failure is transient unless something says otherwise.
impl<E> From<MySqlError<E>> for SnapshotSetupError<E> {
    fn from(e: MySqlError<E>) -> (r: SnapshotSetupError<E>)
        ensures
            r == SnapshotSetupError::<E>::Transient(e.cause()),
    {
        SnapshotSetupError::Transient(e.into_cause())
    }
}

/// The failure of a statement that reads or locks a table: definite if the table is gone.
pub open spec fn query_failure<E>(e: QueryError<E>) -> SnapshotSetupError<E> {
    match e {
        QueryError::Server { code, message, source } => if code == ER_NO_SUCH_TABLE {
            SnapshotSetupError::Definite(DefiniteError::TableDropped(message))
        } else {
            SnapshotSetupError::Transient(source)
        },
        QueryError::Other(source) => SnapshotSetupError::Transient(source),
    }
}

/// Classifies the failure of a statement that reads or locks a table.
pub fn classify_query_error<E>(e: QueryError<E>) -> (r: SnapshotSetupError<E>)
    ensures
        r == query_failure(e),
{
    match e {
        QueryError::Server { code, message, source } => {
            if code == ER_NO_SUCH_TABLE {
                SnapshotSetupError::Definite(DefiniteError::TableDropped(message))
            } else {
                SnapshotSetupError::Transient(source)
            }
        },
        QueryError::Other(source) => SnapshotSetupError::Transient(source),
    }
}

/// The failure of checking the server's settings: definite if a setting rules out replication.
pub open spec fn settings_failure<E>(e: MySqlError<E>) -> SnapshotSetupError<E> {
    match e {
        MySqlError::InvalidSystemSetting { message, source } => SnapshotSetupError::Definite(
            DefiniteError::ServerConfigurationError(message),
        ),
        _ => SnapshotSetupError::Transient(e.cause()),
    }
}

/// Classifies the failure of checking the server's settings.
pub fn classify_settings_error<E>(e: MySqlError<E>) -> (r: SnapshotSetupError<E>)
    ensures
        r == settings_failure(e),
{
    match e {
        MySqlError::InvalidSystemSetting { message, source } => SnapshotSetupError::Definite(
            DefiniteError::ServerConfigurationError(message),
        ),
        MySqlError::ValueDecodeError { message, source } => SnapshotSetupError::Transient(source),
        MySqlError::Other(source) => SnapshotSetupError::Transient(source),
    }
}

/// One change of an output's contents.
#[derive(Debug)]
pub struct Update<R> {
    pub output_index: usize,
    /// The row, or the error that stands in its place.
    pub event: Result<R, DefiniteError>,
    pub time: GtidPartition,
    pub diff: i64,
}

/// The addition of `event` to an output at the minimum time. Snapshots are written there so that
/// replication can take back what came after the point that the output starts from.
pub open spec fn addition<R>(output_index: usize, event: Result<R, DefiniteError>) -> Update<R> {
    Update { output_index, event, time: GtidPartition::spec_minimum(), diff: 1 }
}

/// Adds an error to an output.
pub fn error_update<R>(output_index: usize, error: DefiniteError) -> (r: Update<R>)
    ensures
        r == addition(output_index, Err::<R, DefiniteError>(error)),
{
    Update { output_index, event: Err(error), time: GtidPartition::minimum(), diff: 1 }
}

/// What becomes of one row of a snapshot for one output: the row is added as it was decoded. A
/// row that cannot be decoded is added as an error. Any other failure ends the snapshot.
pub fn row_update<R, E>(output_index: usize, row: Result<R, MySqlError<E>>) -> (r: Result<
    Update<R>,
    E,
>)
    ensures
        r == match row {
            Ok(row) => Ok(addition(output_index, Ok::<R, DefiniteError>(row))),
            Err(MySqlError::ValueDecodeError { message, source }) => Ok(
                addition(output_index, Err::<R, DefiniteError>(
                    DefiniteError::ValueDecodeError(message),
                )),
            ),
            Err(e) => Err(e.cause()),
        },
{
    match row {
        Ok(row) => Ok(
            Update { output_index, event: Ok(row), time: GtidPartition::minimum(), diff: 1 },
        ),
        Err(MySqlError::ValueDecodeError { message, source }) => Ok(
            error_update(output_index, DefiniteError::ValueDecodeError(message)),
        ),
        Err(e) => Err(e.into_cause()),
    }
}

/// What one output decoded a row to.
#[derive(Debug)]
pub struct Decoded<R, E> {
    pub output_index: usize,
    pub row: Result<R, MySqlError<E>>,
}

/// The output can go on with what it decoded: a row, or a row that cannot be decoded.
pub open spec fn is_event<R, E>(decoded: Decoded<R, E>) -> bool {
    match decoded.row {
        Ok(_) => true,
        Err(MySqlError::ValueDecodeError { message, source }) => true,
        Err(_) => false,
    }
}

/// The event that stands for what an output decoded.
pub open spec fn event_of<R, E>(decoded: Decoded<R, E>) -> Result<R, DefiniteError>
    recommends
        is_event(decoded),
{
    match decoded.row {
        Ok(row) => Ok(row),
        Err(MySqlError::ValueDecodeError { message, source }) => Err(
            DefiniteError::ValueDecodeError(message),
        ),
        Err(_) => arbitrary(),
    }
}

/// The additions for what the outputs decoded, one each.
pub open spec fn additions<R, E>(decoded: Seq<Decoded<R, E>>) -> Seq<Update<R>> {
    decoded.map_values(|d: Decoded<R, E>| addition(d.output_index, event_of(d)))
}

/// What becomes of one row of a snapshot for all outputs of its table: one addition per output,
/// in order, up to the first failure that ends the snapshot. Gives that failure too, if there is
/// one.
pub fn row_updates<R, E>(decoded: Vec<Decoded<R, E>>) -> (r: (Vec<Update<R>>, Option<E>))
    ensures
        r.0@.len() <= decoded@.len(),
        r.0@ == additions(decoded@.take(r.0@.len() as int)),
        forall|i: int| 0 <= i < r.0@.len() ==> is_event(#[trigger] decoded@[i]),
        match r.1 {
            None => r.0@.len() == decoded@.len(),
            Some(e) => {
                &&& r.0@.len() < decoded@.len()
                &&& !is_event(decoded@[r.0@.len() as int])
                &&& decoded@[r.0@.len() as int].row matches Err(failure) && e == failure.cause()
            },
        },
{
    let ghost all = decoded@;
    let mut updates: Vec<Update<R>> = Vec::new();
    assert(updates@ =~= additions(all.take(0)));
    for d in it: decoded
        invariant
            it.seq() == all,
            updates@.len() == it.index(),
            updates@ == additions(all.take(it.index())),
            forall|i: int| 0 <= i < it.index() ==> is_event(#[trigger] all[i]),
    {
        let ghost done = updates@;
        assert(d == all[it.index()]);
        match row_update(d.output_index, d.row) {
            Ok(update) => {
                updates.push(update);
                proof {
                    assert(all.take(it.index() + 1) =~= all.take(it.index()).push(d));
                    assert(additions(all.take(it.index() + 1)) =~= done.push(
                        addition(d.output_index, event_of(d)),
                    ));
                }
            },
            Err(e) => {
                return (updates, Some(e));
            },
        }
    }
    assert(all.take(all.len() as int) =~= all);
    (updates, None)
}

/// A failed statement that reads or locks a table is definite exactly if the server says that the
/// table does not exist, and then carries the server's words. Otherwise it is transient and
/// carries what the client reported.
pub proof fn law_only_missing_tables_are_definite<E>(e: QueryError<E>)
    ensures
        query_failure(e) is Definite <==> (e matches QueryError::Server { code, message, source }
            && code == 1146),
        e matches QueryError::Server { code, message, source } ==> {
            &&& e.cause() == source
            &&& query_failure(e) matches SnapshotSetupError::Definite(d) ==> d
                == DefiniteError::TableDropped(message)
            &&& query_failure(e) matches SnapshotSetupError::Transient(t) ==> t == source
        },
        e matches QueryError::Other(source) ==> e.cause() == source && query_failure(e)
            == SnapshotSetupError::<E>::Transient(source),
{
}

/// A failed check of the server's settings is definite exactly if a setting rules out replication,
/// and then carries the words for it. Otherwise it is transient and carries what was reported.
pub proof fn law_only_wrong_settings_are_definite<E>(e: MySqlError<E>)
    ensures
        match e {
            MySqlError::InvalidSystemSetting { message, source } => e.cause() == source
                && settings_failure(e) == SnapshotSetupError::<E>::Definite(
                DefiniteError::ServerConfigurationError(message),
            ),
            MySqlError::ValueDecodeError { message, source } => e.cause() == source
                && settings_failure(e) == SnapshotSetupError::<E>::Transient(source),
            MySqlError::Other(source) => e.cause() == source && settings_failure(e)
                == SnapshotSetupError::<E>::Transient(source),
        },
{
}

/// What is added to an output is added once, at the time before all others, as it is given.
pub proof fn law_additions_are_made_at_the_minimum<R>(
    output_index: usize,
    event: Result<R, DefiniteError>,
)
    ensures
        addition(output_index, event).output_index == output_index,
        addition(output_index, event).event == event,
        addition(output_index, event).diff == 1,
        addition(output_index, event).time.lower == 0,
        addition(output_index, event).time.upper == u128::MAX,
        addition(output_index, event).time.timestamp == GtidState::Absent,
{
}

/// Each output gets what it decoded: the row, or the error that says why it cannot be decoded.
/// Nothing else can go on.
pub proof fn law_rows_become_events<R, E>(decoded: Seq<Decoded<R, E>>, i: int)
    requires
        0 <= i < decoded.len(),
    ensures
        additions(decoded).len() == decoded.len(),
        additions(decoded)[i].output_index == decoded[i].output_index,
        additions(decoded)[i].diff == 1,
        match decoded[i].row {
            Ok(row) => is_event(decoded[i]) && additions(decoded)[i].event == Ok::<
                R,
                DefiniteError,
            >(row),
            Err(MySqlError::ValueDecodeError { message, source }) => is_event(decoded[i])
                && additions(decoded)[i].event == Err::<R, DefiniteError>(
                DefiniteError::ValueDecodeError(message),
            ),
            Err(_) => !is_event(decoded[i]),
        },
{
}

} // verus!
