//! Bookkeeping while rows are read.

use vstd::prelude::*;

verus! {

/// How many rows are staged between two times that a worker gives way to others. With more
/// workers it is fewer, which bounds the memory in flight. It is never zero.
pub open spec fn interval_for(worker_count: nat) -> nat {
    let workers: nat = if worker_count >= 1 {
        worker_count
    } else {
        1
    };
    if 10_000nat / workers >= 1 {
        10_000nat / workers
    } else {
        1
    }
}

/// How many rows are staged between two times that a worker gives way to others.
pub fn yield_interval(worker_count: usize) -> (r: u64)
    ensures
        r == interval_for(worker_count as nat),
        r >= 1,
{
    let workers: u64 = if worker_count >= 1 {
        worker_count as u64
    } else {
        1
    };
    let share: u64 = 10_000 / workers;
    if share >= 1 {
        share
    } else {
        1
    }
}

/// What to do once a row has been staged.
#[derive(Debug, Clone, Copy, PartialEq, Eq, Structural)]
pub struct RowOutcome {
    /// Let other tasks run.
    pub yield_now: bool,
    /// Report this number of the table's rows as staged.
    pub publish: Option<u64>,
}

/// How far a worker's reading has got.
#[derive(Debug, Clone, Copy, PartialEq, Eq, Structural)]
pub struct ReadProgress {
    /// The rows staged between two yields.
    pub interval: u64,
    /// The rows read of the current table.
    pub staged: u64,
    /// The rows staged of all tables, a row once for each output that it goes to.
    pub total: u64,
}

/// What [`ReadProgress::on_row`] does for a row that goes to `outputs` outputs.
pub open spec fn counts_row(
    before: ReadProgress,
    outputs: int,
    after: ReadProgress,
    r: RowOutcome,
) -> bool {
    &&& after.interval == before.interval
    &&& after.staged == before.staged + 1
    &&& after.total == before.total + outputs
    &&& r.yield_now == (after.total % after.interval == 0)
    &&& r.publish == (if after.total % 1000 == 0 {
        Some(after.staged)
    } else {
        None
    })
}

impl ReadProgress {
    /// Nothing read yet.
    pub fn new(worker_count: usize) -> (r: ReadProgress)
        ensures
            r.interval == interval_for(worker_count as nat),
            r.interval >= 1,
            r.staged == 0,
            r.total == 0,
    {
        ReadProgress { interval: yield_interval(worker_count), staged: 0, total: 0 }
    }

    /// Goes on to the next table.
    pub fn start_table(&mut self)
        ensures
            *final(self) == (ReadProgress { staged: 0, ..*old(self) }),
    {
        self.staged = 0;
    }

    /// Counts a row of the current table, which goes to `outputs` outputs. Every 1000 staged rows
    /// the table's progress is reported.
    pub fn on_row(&mut self, outputs: usize) -> (r: RowOutcome)
        requires
            old(self).interval >= 1,
            old(self).staged < u64::MAX,
            old(self).total + outputs <= u64::MAX,
        ensures
            final(self).interval == old(self).interval,
            final(self).staged == old(self).staged + 1,
            final(self).total == old(self).total + outputs,
            r.yield_now == (final(self).total % final(self).interval == 0),
            r.publish == (if final(self).total % 1000 == 0 {
                Some(final(self).staged)
            } else {
                None
            }),
            counts_row(*old(self), outputs as int, *final(self), r),
    {
        self.staged = self.staged + 1;
        self.total = self.total + outputs as u64;
        RowOutcome {
            yield_now: self.total % self.interval == 0,
            publish: if self.total % 1000 == 0 {
                Some(self.staged)
            } else {
                None
            },
        }
    }
}

/// The size of a snapshot with one more table: its rows count once for each of its outputs.
pub fn add_table_size(total: u64, count: u64, num_outputs: usize) -> (r: u64)
    requires
        total + count * num_outputs <= u64::MAX,
    ensures
        r == total + count * num_outputs,
{
    let outputs: u64 = num_outputs as u64;
    assert(count * outputs >= 0) by (nonlinear_arith);
    total + count * outputs
}

/// All workers together stage no more than 10,000 rows between two yields, and could not do with
/// one yield less. With more workers than that each yields after every row.
pub proof fn law_interval_bounds_rows_in_flight(worker_count: nat)
    ensures
        interval_for(worker_count) >= 1,
        1 <= worker_count <= 10_000 ==> interval_for(worker_count) * worker_count <= 10_000 < (
        interval_for(worker_count) + 1) * worker_count,
        worker_count > 10_000 ==> interval_for(worker_count) == 1,
        worker_count == 0 ==> interval_for(worker_count) == 10_000,
{
    if worker_count >= 1 {
        let q = 10_000nat / worker_count;
        assert(q * worker_count <= 10_000 < (q + 1) * worker_count) by (nonlinear_arith)
            requires
                q == 10_000nat / worker_count,
                worker_count >= 1,
        ;
        if worker_count <= 10_000 {
            assert(q >= 1) by (nonlinear_arith)
                requires
                    10_000 < (q + 1) * worker_count,
                    worker_count <= 10_000,
            ;
        } else {
            assert(q == 0) by (nonlinear_arith)
                requires
                    q * worker_count <= 10_000,
                    worker_count > 10_000,
            ;
        }
    }
}

/// A whole number of times `unit`.
pub open spec fn is_multiple(n: int, unit: int) -> bool {
    exists|m: int| n == #[trigger] (m * unit)
}

proof fn lemma_is_multiple(n: int, unit: int)
    requires
        unit >= 1,
    ensures
        is_multiple(n, unit) <==> n % unit == 0,
{
    if n % unit == 0 {
        let m = n / unit;
        assert(n == m * unit) by (nonlinear_arith)
            requires
                n % unit == 0,
                m == n / unit,
                unit >= 1,
        ;
    }
    if is_multiple(n, unit) {
        let m = choose|m: int| n == #[trigger] (m * unit);
        assert(n % unit == 0) by (nonlinear_arith)
            requires
                n == m * unit,
                unit >= 1,
        ;
    }
}

/// Each row counts once for its table and once for each of its outputs in all. The worker gives
/// way exactly when it has staged a whole number of intervals, and reports the rows of the table
/// exactly when it has staged a whole number of thousands.
pub proof fn law_rows_are_counted(
    before: ReadProgress,
    outputs: int,
    after: ReadProgress,
    r: RowOutcome,
)
    requires
        before.interval >= 1,
        counts_row(before, outputs, after, r),
    ensures
        after.staged - before.staged == 1,
        after.total - before.total == outputs,
        after.interval == before.interval,
        r.yield_now <==> is_multiple(before.total + outputs, before.interval as int),
        r.publish is Some <==> is_multiple(before.total + outputs, 1000),
        r.publish matches Some(rows) ==> rows == before.staged + 1,
{
    lemma_is_multiple(before.total + outputs, before.interval as int);
    lemma_is_multiple(before.total + outputs, 1000);
}

} // verus!
