//! Finding out how large a snapshot is.
//!
//! The leader counts the rows of all tables, one table after the other. [`SizeSurvey`] decides
//! what is reported of each count and where the counting ends. Its user runs the queries.

use vstd::prelude::*;

use crate::mysql::assignment::{TableTask, TaskView};
use crate::mysql::desc::{table_text, GlobalId};
use crate::mysql::progress::add_table_size;
use crate::mysql::query::table_count;

verus! {

/// What is reported for an export: how many records are known, and how many are staged.
pub type CountReport = (GlobalId, u64, u64);

/// The reports for a counted table: each of its exports knows of all rows, and none is staged.
pub open spec fn reports_of(exports: Seq<GlobalId>, count: u64) -> Seq<CountReport> {
    exports.map_values(|export: GlobalId| (export, count, 0u64))
}

/// Makes the reports for a counted table.
pub fn count_reports(exports: &Vec<GlobalId>, count: u64) -> (r: Vec<(GlobalId, u64, u64)>)
    ensures
        r@ == reports_of(exports@, count),
{
    let mut r: Vec<(GlobalId, u64, u64)> = Vec::new();
    let mut i: usize = 0;
    while i < exports.len()
        invariant
            i <= exports@.len(),
            r@ == reports_of(exports@, count).take(i as int),
        decreases exports@.len() - i,
    {
        let ghost done = r@;
        r.push((exports[i], count, 0));
        assert(r@ =~= done.push(reports_of(exports@, count)[i as int]));
        i += 1;
    }
    assert(r@ =~= reports_of(exports@, count));
    r
}

/// Why a table could not be counted.
#[derive(Debug)]
pub enum CountError<E> {
    /// The query failed.
    Query(E),
    /// The query gave no row.
    NoRow(String),
}

/// A survey that has come to a table.
#[derive(Debug, Clone, Copy, PartialEq, Eq, Structural)]
pub struct SizeSurvey {
    /// The position of the table to count next.
    pub table: usize,
    /// The size of the tables before it.
    pub total: u64,
}

/// What a survey does next.
#[derive(Debug)]
pub enum SurveyStep<E> {
    /// Count the survey's table.
    Count(SizeSurvey),
    /// Done, with the size of the snapshot or the failure that ended the counting.
    Finished(Result<u64, CountError<E>>),
}

/// The survey goes on at position `table`, or is done if there are only `tables` tables.
pub open spec fn goes_on<E>(table: int, total: int, tables: int, step: SurveyStep<E>) -> bool {
    if table < tables {
        step matches SurveyStep::Count(next) && next.table == table && next.total == total
    } else {
        step matches SurveyStep::Finished(Ok(size)) && size == total
    }
}

impl SizeSurvey {
    /// Starts to count `tables` tables.
    pub fn start<E>(tables: usize) -> (r: SurveyStep<E>)
        ensures
            goes_on(0, 0, tables as int, r),
    {
        if tables > 0 {
            SurveyStep::Count(SizeSurvey { table: 0, total: 0 })
        } else {
            SurveyStep::Finished(Ok(0))
        }
    }

    /// Takes in what came of counting the survey's table. Gives what is to be reported, and what
    /// to do next. A table whose rows could not be counted ends the survey, with nothing reported
    /// for it.
    pub fn advance<E>(self, tasks: &Vec<TableTask>, reply: Result<Option<u64>, E>) -> (r: (
        Vec<(GlobalId, u64, u64)>,
        SurveyStep<E>,
    ))
        requires
            self.table < tasks@.len(),
            reply matches Ok(Some(count)) ==> self.total + count
                * tasks@[self.table as int].outputs@.len() <= u64::MAX,
        ensures
            match reply {
                Ok(Some(count)) => {
                    &&& r.0@ == reports_of(tasks@[self.table as int].exports@, count)
                    &&& goes_on(
                        self.table + 1,
                        self.total + count * tasks@[self.table as int].outputs@.len(),
                        tasks@.len() as int,
                        r.1,
                    )
                },
                Ok(None) => {
                    &&& r.0@.len() == 0
                    &&& r.1 matches SurveyStep::Finished(Err(CountError::NoRow(message)))
                        && message@ == "failed to COUNT(*) "@ + table_text(
                        tasks@[self.table as int].name@,
                    )
                },
                Err(e) => {
                    &&& r.0@.len() == 0
                    &&& r.1 == SurveyStep::<E>::Finished(Err(CountError::Query(e)))
                },
            },
    {
        let tables = tasks.len();
        let task = &tasks[self.table];
        match reply {
            Err(e) => (Vec::new(), SurveyStep::Finished(Err(CountError::Query(e)))),
            Ok(found) => match table_count(&task.name, found) {
                Err(message) => (Vec::new(), SurveyStep::Finished(Err(CountError::NoRow(message)))),
                Ok(count) => {
                    let total = add_table_size(self.total, count, task.outputs.len());
                    let next = self.table + 1;
                    let step = if next < tables {
                        SurveyStep::Count(SizeSurvey { table: next, total })
                    } else {
                        SurveyStep::Finished(Ok(total))
                    };
                    (count_reports(&task.exports, count), step)
                },
            },
        }
    }
}

/// The size of the first `n` tables: the rows of each count once for each of its outputs.
pub open spec fn size_of(tasks: Seq<TaskView>, counts: Seq<u64>, n: nat) -> nat
    decreases n,
{
    if n == 0 {
        0
    } else {
        let i = n - 1;
        size_of(tasks, counts, i as nat) + counts[i] as nat * tasks[i].outputs.len()
    }
}

/// What [`SizeSurvey::advance`] does when table `i` has been counted.
pub open spec fn counted<E>(
    tasks: Seq<TaskView>,
    counts: Seq<u64>,
    before: SurveyStep<E>,
    after: SurveyStep<E>,
) -> bool {
    before matches SurveyStep::Count(survey) && goes_on(
        survey.table + 1,
        survey.total + counts[survey.table as int] * tasks[survey.table as int].outputs.len(),
        tasks.len() as int,
        after,
    )
}

/// A survey that counts every table comes to each of them in turn and ends with the size of all.
pub proof fn law_survey_adds_up<E>(
    tasks: Seq<TaskView>,
    counts: Seq<u64>,
    course: Seq<SurveyStep<E>>,
    n: nat,
)
    requires
        counts.len() == tasks.len(),
        course.len() == tasks.len() + 1,
        goes_on(0, 0, tasks.len() as int, course[0]),
        forall|i: int|
            #![trigger course[i]]
            0 <= i < tasks.len() && course[i] is Count ==> counted(
                tasks,
                counts,
                course[i],
                course[i + 1],
            ),
        n <= tasks.len(),
    ensures
        goes_on(n as int, size_of(tasks, counts, n) as int, tasks.len() as int, course[n as int]),
    decreases n,
{
    if n > 0 {
        let i = n - 1;
        law_survey_adds_up(tasks, counts, course, i as nat);
        assert(course[i] is Count);
        assert(counted(tasks, counts, course[i], course[i + 1]));
    }
}

/// Each export of a table is told of all its rows, and that none is staged.
pub proof fn law_every_export_knows_of_all_rows(exports: Seq<GlobalId>, count: u64, i: int)
    requires
        0 <= i < exports.len(),
    ensures
        reports_of(exports, count).len() == exports.len(),
        reports_of(exports, count)[i].0 == exports[i],
        reports_of(exports, count)[i].1 == count,
        reports_of(exports, count)[i].2 == 0,
{
}

/// A survey that counts every table comes to each of them once, in order, and is done after the
/// last. What it has found so far is nothing at first, and grows with each table by its rows, once
/// for each of its outputs.
pub proof fn law_survey_comes_to_every_table<E>(
    tasks: Seq<TaskView>,
    counts: Seq<u64>,
    course: Seq<SurveyStep<E>>,
    i: int,
)
    requires
        counts.len() == tasks.len(),
        course.len() == tasks.len() + 1,
        goes_on(0, 0, tasks.len() as int, course[0]),
        forall|k: int|
            #![trigger course[k]]
            0 <= k < tasks.len() && course[k] is Count ==> counted(
                tasks,
                counts,
                course[k],
                course[k + 1],
            ),
        0 <= i < tasks.len(),
    ensures
        course[i] matches SurveyStep::Count(survey) && survey.table == i && (i == 0 ==> survey.total
            == 0) && match course[i + 1] {
            SurveyStep::Count(next) => i + 1 < tasks.len() && next.total == survey.total + counts[i]
                * tasks[i].outputs.len(),
            SurveyStep::Finished(Ok(size)) => i + 1 == tasks.len() && size == survey.total
                + counts[i] * tasks[i].outputs.len(),
            SurveyStep::Finished(Err(_)) => false,
        },
{
    law_survey_adds_up(tasks, counts, course, i as nat);
    law_survey_adds_up(tasks, counts, course, (i + 1) as nat);
}

/// There is nothing to count without tables.
pub proof fn law_survey_of_nothing<E>(step: SurveyStep<E>)
    requires
        goes_on(0, 0, 0, step),
    ensures
        step == SurveyStep::<E>::Finished(Ok(0)),
{
}

/// The size of a snapshot grows with each table by its rows, once for each of its outputs.
pub proof fn law_size_grows_by_table(tasks: Seq<TaskView>, counts: Seq<u64>, i: int)
    requires
        0 <= i < tasks.len(),
    ensures
        size_of(tasks, counts, 0) == 0,
        size_of(tasks, counts, (i + 1) as nat) - size_of(tasks, counts, i as nat) == counts[i]
            * tasks[i].outputs.len(),
{
}

} // verus!
