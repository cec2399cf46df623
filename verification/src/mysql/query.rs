//! The SQL that a snapshot runs.

use vstd::prelude::*;
use vstd::string::*;

use crate::mysql::desc::{table_text, MySqlColumnDesc, MySqlTableName, SourceOutputInfo};
use crate::mysql::splits::{PkRange, RangeView};
use crate::mysql::sql::{law_count_query_counts_the_table, read_count};
use crate::text::{decimal, decimal_text, enclosed, join, joined, quote_identifier, texts};

verus! {

/// The quoted names of columns.
pub open spec fn column_texts(columns: Seq<MySqlColumnDesc>) -> Seq<Seq<char>> {
    columns.map_values(|c: MySqlColumnDesc| enclosed(c.name@, '`'))
}

/// The predicate that restricts a query to a half-open key range. An open bound is left out.
pub open spec fn range_text(range: RangeView) -> Seq<char> {
    let at_least = " WHERE "@ + range.pk_col + " >= "@;
    match (range.lower, range.upper) {
        (Some(lower), Some(upper)) => at_least + lower + " AND "@ + range.pk_col + " < "@ + upper,
        (Some(lower), None) => at_least + lower,
        (None, Some(upper)) => " WHERE "@ + range.pk_col + " < "@ + upper,
        (None, None) => Seq::empty(),
    }
}

/// The query that reads all described columns of a table, restricted to `range` if there is one.
pub open spec fn snapshot_text(
    columns: Seq<MySqlColumnDesc>,
    table: (Seq<char>, Seq<char>),
    range: Option<RangeView>,
) -> Seq<char> {
    let whole = "SELECT "@ + joined(column_texts(columns), ", "@) + " FROM "@ + table_text(table);
    match range {
        Some(range) => whole + range_text(range),
        None => whole,
    }
}

/// The contents of an optional range.
pub open spec fn range_of(range: Option<&PkRange>) -> Option<RangeView> {
    match range {
        Some(range) => Some(range@),
        None => None,
    }
}

/// All outputs describe the same number of columns. Columns may be decoded by position, and
/// different outputs may ingest different columns, so each has to account for all of them.
pub open spec fn same_columns(outputs: Seq<SourceOutputInfo>) -> bool {
    forall|i: int|
        #![trigger outputs[i]]
        0 <= i < outputs.len() ==> outputs[i].desc.columns@.len() == outputs[0].desc.columns@.len()
}

/// Whether all of `outputs` describe the same number of columns.
pub fn has_same_columns(outputs: &[SourceOutputInfo]) -> (r: bool)
    ensures
        r == same_columns(outputs@),
{
    let mut i: usize = 0;
    while i < outputs.len()
        invariant
            i <= outputs@.len(),
            forall|j: int|
                #![trigger outputs@[j]]
                0 <= j < i ==> outputs@[j].desc.columns@.len() == outputs@[0].desc.columns@.len(),
        decreases outputs@.len() - i,
    {
        if outputs[i].desc.columns.len() != outputs[0].desc.columns.len() {
            return false;
        }
        i += 1;
    }
    true
}

/// Builds the SQL query for the snapshot of a table from the first entry in `outputs`.
///
/// `outputs` are entries for a single table, at least one, and each describes all columns of the
/// table. When `pk_range` is given, only the rows in that key range are read.
#[must_use]
pub fn build_snapshot_query(outputs: &[SourceOutputInfo], pk_range: Option<&PkRange>) -> (r: String)
    requires
        outputs@.len() > 0,
        same_columns(outputs@),
    ensures
        r@ == snapshot_text(
            outputs@[0].desc.columns@,
            outputs@[0].table_name@,
            range_of(pk_range),
        ),
{
    let info = &outputs[0];
    let mut names: Vec<String> = Vec::new();
    let mut i: usize = 0;
    while i < info.desc.columns.len()
        invariant
            i <= info.desc.columns@.len(),
            texts(names@) == column_texts(info.desc.columns@).take(i as int),
        decreases info.desc.columns@.len() - i,
    {
        let ghost done = names@;
        names.push(quote_identifier(info.desc.columns[i].name.as_str()));
        assert(texts(names@) =~= texts(done).push(names@.last()@));
        i += 1;
    }
    assert(texts(names@) =~= column_texts(info.desc.columns@));
    let mut query = "SELECT ".to_string();
    query.append(join(names.as_slice(), ", ").as_str());
    query.append(" FROM ");
    query.append(info.table_name.to_string().as_str());
    if let Some(range) = pk_range {
        let ghost whole = query@;
        if let Some(lower) = &range.lower {
            query.append(" WHERE ");
            query.append(range.pk_col.as_str());
            query.append(" >= ");
            query.append(lower.as_str());
        }
        if let Some(upper) = &range.upper {
            let keyword = if range.lower.is_some() {
                " AND "
            } else {
                " WHERE "
            };
            query.append(keyword);
            query.append(range.pk_col.as_str());
            query.append(" < ");
            query.append(upper.as_str());
        }
        assert(query@ =~= whole + range_text(range@));
    }
    query
}

/// How each of `tables` is locked, separated by commas.
pub open spec fn lock_clauses_text(tables: Seq<(Seq<char>, Seq<char>)>) -> Seq<char> {
    joined(tables.map_values(|t: (Seq<char>, Seq<char>)| table_text(t) + " READ"@), ", "@)
}

/// The names of tables.
pub open spec fn table_names(tables: Seq<MySqlTableName>) -> Seq<(Seq<char>, Seq<char>)> {
    tables.map_values(|t: MySqlTableName| t@)
}

/// Builds the clauses that lock each of `tables` for reading.
pub fn lock_clauses(tables: &[MySqlTableName]) -> (r: String)
    ensures
        r@ == lock_clauses_text(table_names(tables@)),
{
    let ghost clauses = table_names(tables@).map_values(
        |t: (Seq<char>, Seq<char>)| table_text(t) + " READ"@,
    );
    let mut parts: Vec<String> = Vec::new();
    let mut i: usize = 0;
    while i < tables.len()
        invariant
            i <= tables@.len(),
            clauses == table_names(tables@).map_values(
                |t: (Seq<char>, Seq<char>)| table_text(t) + " READ"@,
            ),
            texts(parts@) == clauses.take(i as int),
        decreases tables@.len() - i,
    {
        let ghost done = parts@;
        let mut clause = tables[i].to_string();
        clause.append(" READ");
        parts.push(clause);
        assert(texts(parts@) =~= texts(done).push(parts@.last()@));
        i += 1;
    }
    assert(texts(parts@) =~= clauses);
    join(parts.as_slice(), ", ")
}

/// Builds the statement that takes the given locks.
pub fn lock_statement(lock_clauses: &str) -> (r: String)
    ensures
        r@ == "LOCK TABLES "@ + lock_clauses@,
{
    let mut r = "LOCK TABLES ".to_string();
    r.append(lock_clauses);
    r
}

/// Builds the statement that bounds the wait for a lock.
pub fn lock_wait_timeout_statement(secs: u128) -> (r: String)
    ensures
        r@ == "SET @@session.lock_wait_timeout = "@ + decimal(secs as nat),
{
    let mut r = "SET @@session.lock_wait_timeout = ".to_string();
    r.append(decimal_text(secs).as_str());
    r
}

/// Builds the statement that bounds the run time of queries.
pub fn max_execution_time_statement(millis: u128) -> (r: String)
    ensures
        r@ == "SET @@session.max_execution_time = "@ + decimal(millis as nat),
{
    let mut r = "SET @@session.max_execution_time = ".to_string();
    r.append(decimal_text(millis).as_str());
    r
}

/// Builds the query for the number of rows of a table.
pub fn count_query(table: &MySqlTableName) -> (r: String)
    ensures
        r@ == "SELECT COUNT(*) FROM "@ + table_text(table@),
        read_count(r@) == Some(table@),
{
    proof {
        law_count_query_counts_the_table(table@);
    }
    let mut r = "SELECT COUNT(*) FROM ".to_string();
    r.append(table.to_string().as_str());
    r
}

/// The row count out of the reply to [`count_query`]. It is an error if the reply has no row.
pub fn table_count(table: &MySqlTableName, reply: Option<u64>) -> (r: Result<u64, String>)
    ensures
        match reply {
            Some(count) => r == Ok::<u64, String>(count),
            None => r matches Err(message) && message@ == "failed to COUNT(*) "@ + table_text(
                table@,
            ),
        },
{
    match reply {
        Some(count) => Ok(count),
        None => {
            let mut message = "failed to COUNT(*) ".to_string();
            message.append(table.to_string().as_str());
            Err(message)
        },
    }
}

/// Outputs describe the same number of columns if any two of them do.
pub proof fn law_same_columns_holds_pairwise(outputs: Seq<SourceOutputInfo>)
    ensures
        same_columns(outputs) <==> forall|i: int, j: int|
            #![trigger outputs[i], outputs[j]]
            0 <= i < outputs.len() && 0 <= j < outputs.len() ==> outputs[i].desc.columns@.len()
                == outputs[j].desc.columns@.len(),
{
}

/// The names of tables are theirs, in order.
pub proof fn law_table_names_go_by_position(tables: Seq<MySqlTableName>, i: int)
    requires
        0 <= i < tables.len(),
    ensures
        table_names(tables).len() == tables.len(),
        table_names(tables)[i] == (tables[i].0@, tables[i].1@),
{
}

/// A range that is given is the one that a query is restricted to.
pub proof fn law_given_ranges_are_kept(range: &PkRange)
    ensures
        range_of(None) is None,
        range_of(Some(range)) matches Some(v) && v.pk_col == range.pk_col@ && (v.lower is Some
            <==> range.lower is Some) && (v.upper is Some <==> range.upper is Some) && (
        range.lower matches Some(lower) ==> v.lower == Some(lower@)) && (
        range.upper matches Some(upper) ==> v.upper == Some(upper@)),
{
}

} // verus!
