//! Reading SQL text back: what the statements of a snapshot ask the server for.

use vstd::arithmetic::div_mod::lemma_mod_bound;
use vstd::prelude::*;

use crate::mysql::assignment::TableTask;
use crate::mysql::desc::{law_table_text_reads_back, table_text, MySqlColumnDesc};
use crate::mysql::query::{column_texts, lock_clauses_text, range_text, snapshot_text};
use crate::mysql::sampling::{
    advanced, increasing, literal_text, probe_text, replies_ascend, sampled, ReplyView, SamplerView,
    StepView,
};
use crate::mysql::splits::{
    in_range, law_every_row_is_read_once, non_decreasing, partition_of, plan_of, range_at,
    reads_key, total_preorder, PkColKind, PlanView, RangeView, SplitsView,
};
use crate::mysql::worker::{planned_range, statement_text, task_names, Statement};
use crate::text::{
    after, decimal, doubled, enclosed, joined, law_decimal_reads_back, law_enclosed_reads_back,
    law_joining_goes_by_parts, lemma_after, lemma_joined_first, lemma_three_parts, number_of,
    reads_as, scan_quoted,
};

verus! {

/// Reads the rest of a string literal whose opening quote has been consumed, up to the quote that
/// ends it. A backslash takes the meaning off the character after it.
pub open spec fn scan_string(t: Seq<char>) -> Option<(Seq<char>, Seq<char>)>
    decreases t.len(),
{
    if t.len() == 0 {
        None
    } else if t[0] == '\'' {
        Some((t.take(1), t.skip(1)))
    } else {
        let step: int = if t[0] == '\\' {
            2
        } else {
            1
        };
        if step > t.len() {
            None
        } else {
            match scan_string(t.skip(step)) {
                Some((body, rest)) => Some((t.take(step) + body, rest)),
                None => None,
            }
        }
    }
}

/// Reads a bare word, up to a space or the end.
pub open spec fn scan_bare(t: Seq<char>) -> (Seq<char>, Seq<char>)
    decreases t.len(),
{
    if t.len() == 0 || t[0] == ' ' {
        (Seq::empty(), t)
    } else {
        let (body, rest) = scan_bare(t.skip(1));
        (seq![t[0]] + body, rest)
    }
}

/// Reads a literal off the front of `t`: a string in single quotes, or a bare word.
pub open spec fn scan_value(t: Seq<char>) -> Option<(Seq<char>, Seq<char>)> {
    if t.len() > 0 && t[0] == '\'' {
        match scan_string(t.skip(1)) {
            Some((body, rest)) => Some((seq!['\''] + body, rest)),
            None => None,
        }
    } else if t.len() > 0 && t[0] != ' ' {
        Some(scan_bare(t))
    } else {
        None
    }
}

/// `s` is one literal, as the server renders a key.
pub open spec fn is_literal(s: Seq<char>) -> bool {
    scan_value(s) == Some((s, Seq::<char>::empty()))
}

/// How a key is compared with a literal.
pub enum Comparison {
    AtLeast,
    Below,
    Above,
}

/// A predicate on a column.
pub struct Condition {
    pub column: Seq<char>,
    pub comparison: Comparison,
    pub literal: Seq<char>,
}

/// The key satisfies the predicate.
pub open spec fn holds(
    c: Condition,
    key: Seq<char>,
    le: spec_fn(Seq<char>, Seq<char>) -> bool,
) -> bool {
    match c.comparison {
        Comparison::AtLeast => le(c.literal, key),
        Comparison::Below => !le(c.literal, key),
        Comparison::Above => !le(key, c.literal),
    }
}

/// The key satisfies all predicates.
pub open spec fn admits(
    conditions: Seq<Condition>,
    key: Seq<char>,
    le: spec_fn(Seq<char>, Seq<char>) -> bool,
) -> bool {
    forall|i: int| 0 <= i < conditions.len() ==> holds(#[trigger] conditions[i], key, le)
}

/// All predicates are about the given column.
pub open spec fn all_about(conditions: Seq<Condition>, column: Seq<char>) -> bool {
    forall|i: int| 0 <= i < conditions.len() ==> (#[trigger] conditions[i]).column == column
}

/// Reads a comparison off the front of `t`.
pub open spec fn scan_comparison(t: Seq<char>) -> Option<(Comparison, Seq<char>)> {
    match (after(t, " >= "@), after(t, " < "@), after(t, " > "@)) {
        (Some(rest), _, _) => Some((Comparison::AtLeast, rest)),
        (None, Some(rest), _) => Some((Comparison::Below, rest)),
        (None, None, Some(rest)) => Some((Comparison::Above, rest)),
        _ => None,
    }
}

/// Reads a predicate off the front of `t`.
pub open spec fn scan_condition(t: Seq<char>) -> Option<(Condition, Seq<char>)> {
    match scan_quoted(t, '`') {
        Some((column, rest)) => match scan_comparison(rest) {
            Some((comparison, rest)) => match scan_value(rest) {
                Some((literal, rest)) => Some((Condition { column, comparison, literal }, rest)),
                None => None,
            },
            None => None,
        },
        None => None,
    }
}

/// Reads the predicates that are joined to the ones before them.
pub open spec fn scan_more(t: Seq<char>) -> Option<(Seq<Condition>, Seq<char>)>
    decreases t.len(),
{
    match after(t, " AND "@) {
        None => Some((Seq::empty(), t)),
        Some(next) => match scan_condition(next) {
            Some((c, rest)) => if rest.len() < t.len() {
                match scan_more(rest) {
                    Some((more, rest)) => Some((seq![c] + more, rest)),
                    None => None,
                }
            } else {
                None
            },
            None => None,
        },
    }
}

/// Reads the predicates of a query, of which there may be none.
pub open spec fn scan_where(t: Seq<char>) -> Option<(Seq<Condition>, Seq<char>)> {
    match after(t, " WHERE "@) {
        None => Some((Seq::empty(), t)),
        Some(next) => match scan_condition(next) {
            Some((c, rest)) => match scan_more(rest) {
                Some((more, rest)) => Some((seq![c] + more, rest)),
                None => None,
            },
            None => None,
        },
    }
}

/// Reads quoted names with commas between them, of which there may be none.
pub open spec fn scan_names(t: Seq<char>) -> (Seq<Seq<char>>, Seq<char>)
    decreases t.len(),
{
    match scan_quoted(t, '`') {
        None => (Seq::empty(), t),
        Some((name, rest)) => match after(rest, ", "@) {
            Some(next) => if next.len() < t.len() {
                let (names, rest) = scan_names(next);
                (seq![name] + names, rest)
            } else {
                (seq![name], rest)
            },
            None => (seq![name], rest),
        },
    }
}

/// Reads the name of a table off the front of `t`.
pub open spec fn scan_table(t: Seq<char>) -> Option<((Seq<char>, Seq<char>), Seq<char>)> {
    match scan_quoted(t, '`') {
        Some((schema, rest)) => match after(rest, "."@) {
            Some(rest) => match scan_quoted(rest, '`') {
                Some((name, rest)) => Some(((schema, name), rest)),
                None => None,
            },
            None => None,
        },
        None => None,
    }
}

/// What a query of rows asks for.
pub struct SelectView {
    pub columns: Seq<Seq<char>>,
    pub table: (Seq<char>, Seq<char>),
    pub conditions: Seq<Condition>,
}

/// Reads a query of rows.
pub open spec fn read_select(t: Seq<char>) -> Option<SelectView> {
    match after(t, "SELECT "@) {
        None => None,
        Some(t) => {
            let (columns, t) = scan_names(t);
            match after(t, " FROM "@) {
                None => None,
                Some(t) => match scan_table(t) {
                    None => None,
                    Some((table, t)) => match scan_where(t) {
                        Some((conditions, t)) => if t.len() == 0 {
                            Some(SelectView { columns, table, conditions })
                        } else {
                            None
                        },
                        None => None,
                    },
                },
            }
        },
    }
}

/// Nothing that goes on with a space is taken for a part of a string before it.
#[verifier::spinoff_prover]
proof fn lemma_scan_string(s: Seq<char>, rest: Seq<char>)
    requires
        scan_string(s) == Some((s, Seq::<char>::empty())),
    ensures
        scan_string(s + rest) == Some((s, rest)),
    decreases s.len(),
{
    let t = s + rest;
    assert(t[0] == s[0]);
    if s[0] == '\'' {
        assert(s.skip(1) =~= Seq::<char>::empty());
        assert(t.take(1) =~= s);
        assert(t.skip(1) =~= rest);
    } else {
        let step: int = if s[0] == '\\' {
            2
        } else {
            1
        };
        let (body, end) = scan_string(s.skip(step))->0;
        assert(s.take(step) + body == s);
        assert(body =~= s.skip(step));
        lemma_scan_string(s.skip(step), rest);
        assert(t.skip(step) =~= s.skip(step) + rest);
        assert(t.take(step) =~= s.take(step));
    }
}

proof fn lemma_scan_bare(s: Seq<char>, rest: Seq<char>)
    requires
        scan_bare(s) == (s, Seq::<char>::empty()),
        rest.len() == 0 || rest[0] == ' ',
    ensures
        scan_bare(s + rest) == (s, rest),
    decreases s.len(),
{
    let t = s + rest;
    if s.len() == 0 {
        assert(t =~= rest);
        assert(s =~= Seq::<char>::empty());
    } else {
        assert(t[0] == s[0]);
        let (body, end) = scan_bare(s.skip(1));
        assert(body =~= s.skip(1));
        lemma_scan_bare(s.skip(1), rest);
        assert(t.skip(1) =~= s.skip(1) + rest);
        assert(seq![t[0]] + s.skip(1) =~= s);
    }
}

/// A literal reads back, as long as a space or nothing follows it.
#[verifier::spinoff_prover]
proof fn lemma_scan_value(s: Seq<char>, rest: Seq<char>)
    requires
        is_literal(s),
        rest.len() == 0 || rest[0] == ' ',
    ensures
        scan_value(s + rest) == Some((s, rest)),
{
    let t = s + rest;
    assert(s.len() > 0);
    assert(t[0] == s[0]);
    if s[0] == '\'' {
        let (body, end) = scan_string(s.skip(1))->0;
        assert(seq!['\''] + body == s);
        assert(body =~= s.skip(1));
        lemma_scan_string(s.skip(1), rest);
        assert(t.skip(1) =~= s.skip(1) + rest);
    } else {
        lemma_scan_bare(s, rest);
    }
}

/// The text of a comparison.
spec fn comparison_text(c: Comparison) -> Seq<char> {
    match c {
        Comparison::AtLeast => " >= "@,
        Comparison::Below => " < "@,
        Comparison::Above => " > "@,
    }
}

/// A predicate reads back.
#[verifier::spinoff_prover]
proof fn lemma_scan_condition(c: Condition, rest: Seq<char>)
    requires
        is_literal(c.literal),
        rest.len() == 0 || rest[0] == ' ',
    ensures
        scan_condition(
            enclosed(c.column, '`') + comparison_text(c.comparison) + c.literal + rest,
        ) == Some((c, rest)),
{
    reveal_strlit(" >= ");
    reveal_strlit(" < ");
    reveal_strlit(" > ");
    let word = comparison_text(c.comparison);
    let tail = word + (c.literal + rest);
    let t = enclosed(c.column, '`') + word + c.literal + rest;
    assert(t =~= enclosed(c.column, '`') + tail);
    law_enclosed_reads_back(c.column, '`', tail);
    lemma_after(word, c.literal + rest);
    assert(tail[0] == ' ' && tail[1] == word[1]);
    match c.comparison {
        Comparison::AtLeast => {},
        Comparison::Below => {
            assert(tail.take(4)[1] == '<');
            assert(" >= "@[1] == '>');
        },
        Comparison::Above => {
            assert(tail.take(4)[2] == ' ');
            assert(" >= "@[2] == '=');
            assert(tail.take(3)[1] == '>');
            assert(" < "@[1] == '<');
        },
    }
    lemma_scan_value(c.literal, rest);
}

/// A list of quoted names reads back.
#[verifier::spinoff_prover]
proof fn lemma_scan_names(names: Seq<Seq<char>>, rest: Seq<char>)
    requires
        rest.len() == 0 || (rest[0] != '`' && rest[0] != ','),
    ensures
        scan_names(
            joined(names.map_values(|n: Seq<char>| enclosed(n, '`')), ", "@) + rest,
        ) == (names, rest),
    decreases names.len(),
{
    reveal_strlit(", ");
    let g = |n: Seq<char>| enclosed(n, '`');
    let parts = names.map_values(g);
    let t = joined(parts, ", "@) + rest;
    if names.len() == 0 {
        assert(t =~= rest);
        assert(names =~= Seq::<Seq<char>>::empty());
    } else if names.len() == 1 {
        assert(parts =~= seq![enclosed(names[0], '`')]);
        law_joining_goes_by_parts(parts, parts[0], ", "@);
        law_enclosed_reads_back(names[0], '`', rest);
        if rest.len() >= 2 {
            assert(rest.take(2)[0] == rest[0]);
            assert(", "@[0] == ',');
        }
        assert(names =~= seq![names[0]]);
    } else {
        let more = names.skip(1);
        lemma_joined_first(parts, ", "@);
        assert(parts.skip(1) =~= more.map_values(g));
        let next = joined(more.map_values(g), ", "@) + rest;
        let tail = ", "@ + next;
        assert(t =~= enclosed(names[0], '`') + tail);
        law_enclosed_reads_back(names[0], '`', tail);
        lemma_after(", "@, next);
        lemma_scan_names(more, rest);
        assert(seq![names[0]] + more =~= names);
    }
}

/// The name of a table reads back.
proof fn lemma_scan_table(table: (Seq<char>, Seq<char>), rest: Seq<char>)
    requires
        rest.len() == 0 || rest[0] != '`',
    ensures
        scan_table(table_text(table) + rest) == Some((table, rest)),
{
    law_table_text_reads_back(table, rest);
    let tail = enclosed(table.1, '`') + rest;
    assert("."@ + enclosed(table.1, '`') + rest =~= "."@ + tail);
    lemma_after("."@, tail);
}

/// The bounds of the range are literals, and its column is the quoted form of `pk`.
pub open spec fn is_range_of(range: RangeView, pk: Seq<char>) -> bool {
    &&& range.pk_col == enclosed(pk, '`')
    &&& range.lower matches Some(lower) ==> is_literal(lower)
    &&& range.upper matches Some(upper) ==> is_literal(upper)
}

/// The predicates of a range read back as its bounds.
#[verifier::spinoff_prover]
proof fn lemma_scan_range(range: RangeView, pk: Seq<char>) -> (conditions: Seq<Condition>)
    requires
        is_range_of(range, pk),
    ensures
        scan_where(range_text(range)) == Some((conditions, Seq::<char>::empty())),
        all_about(conditions, pk),
        forall|key: Seq<char>, le: spec_fn(Seq<char>, Seq<char>) -> bool| #[trigger]
            admits(conditions, key, le) <==> {
                &&& range.lower matches Some(lower) ==> le(lower, key)
                &&& range.upper matches Some(upper) ==> !le(upper, key)
            },
{
    reveal_strlit(" WHERE ");
    reveal_strlit(" AND ");
    let none = Seq::<char>::empty();
    let col = enclosed(pk, '`');
    match (range.lower, range.upper) {
        (Some(lower), Some(upper)) => {
            let c = Condition { column: pk, comparison: Comparison::AtLeast, literal: lower };
            let d = Condition { column: pk, comparison: Comparison::Below, literal: upper };
            let second = col + " < "@ + upper + none;
            let more = " AND "@ + second;
            let first = col + " >= "@ + lower + more;
            assert(range_text(range) =~= " WHERE "@ + first);
            lemma_after(" WHERE "@, first);
            lemma_scan_condition(c, more);
            lemma_after(" AND "@, second);
            lemma_scan_condition(d, none);
            assert(scan_more(none) == Some((Seq::<Condition>::empty(), none)));
            let tail = seq![d] + Seq::<Condition>::empty();
            assert(scan_more(more) == Some((tail, none)));
            let all = seq![c] + tail;
            assert forall|key: Seq<char>, le: spec_fn(Seq<char>, Seq<char>) -> bool| #[trigger]
                admits(all, key, le) <==> le(lower, key) && !le(upper, key) by {
                assert(all[0] == c && all[1] == d && all.len() == 2);
                if admits(all, key, le) {
                    assert(holds(all[0], key, le) && holds(all[1], key, le));
                }
            }
            all
        },
        (Some(lower), None) => {
            let c = Condition { column: pk, comparison: Comparison::AtLeast, literal: lower };
            let first = col + " >= "@ + lower + none;
            assert(range_text(range) =~= " WHERE "@ + first);
            lemma_after(" WHERE "@, first);
            lemma_scan_condition(c, none);
            let all = seq![c] + Seq::<Condition>::empty();
            assert forall|key: Seq<char>, le: spec_fn(Seq<char>, Seq<char>) -> bool| #[trigger]
                admits(all, key, le) <==> le(lower, key) by {
                assert(all[0] == c && all.len() == 1);
                if admits(all, key, le) {
                    assert(holds(all[0], key, le));
                }
            }
            all
        },
        (None, Some(upper)) => {
            let d = Condition { column: pk, comparison: Comparison::Below, literal: upper };
            let first = col + " < "@ + upper + none;
            assert(range_text(range) =~= " WHERE "@ + first);
            lemma_after(" WHERE "@, first);
            lemma_scan_condition(d, none);
            let all = seq![d] + Seq::<Condition>::empty();
            assert forall|key: Seq<char>, le: spec_fn(Seq<char>, Seq<char>) -> bool| #[trigger]
                admits(all, key, le) <==> !le(upper, key) by {
                assert(all[0] == d && all.len() == 1);
                if admits(all, key, le) {
                    assert(holds(all[0], key, le));
                }
            }
            all
        },
        (None, None) => Seq::empty(),
    }
}

/// The query that a worker runs for its share of a table asks for exactly that share. It names
/// every described column once, in order and whatever its type. It names the table. Its
/// predicates are about the key column, and a row satisfies them if and only if the worker's plan
/// covers the row's key: each bound of a range restricts the query, and nothing else does.
pub proof fn law_query_asks_for_the_share(
    columns: Seq<MySqlColumnDesc>,
    table: (Seq<char>, Seq<char>),
    plan: PlanView,
    pk: Seq<char>,
)
    requires
        plan matches PlanView::Range(range) ==> is_range_of(range, pk),
    ensures
        ({
            let query = read_select(snapshot_text(columns, table, planned_range(plan)));
            &&& query is Some
            &&& query->0.columns.len() == columns.len()
            &&& forall|i: int|
                0 <= i < columns.len() ==> (#[trigger] query->0.columns[i]) == columns[i].name@
            &&& query->0.table == table
            &&& all_about(query->0.conditions, pk)
            &&& forall|key: Seq<char>, le: spec_fn(Seq<char>, Seq<char>) -> bool| #[trigger]
                admits(query->0.conditions, key, le) <==> reads_key(Some(plan), key, le)
        }),
{
    let text = snapshot_text(columns, table, planned_range(plan));
    match plan {
        PlanView::WholeTable => {
            reveal_strlit(" WHERE ");
            lemma_read_select(columns, table, Seq::empty(), text, Seq::empty());
        },
        PlanView::Range(range) => {
            let conditions = lemma_scan_range(range, pk);
            reveal_strlit(" WHERE ");
            lemma_read_select(columns, table, range_text(range), text, conditions);
            assert forall|key: Seq<char>, le: spec_fn(Seq<char>, Seq<char>) -> bool| #[trigger]
                admits(conditions, key, le) <==> reads_key(Some(plan), key, le) by {
                assert(reads_key(Some(plan), key, le) == in_range(range, key, le));
            }
        },
    }
}

/// The predicate for the lower bound of a range, if it has one.
pub open spec fn lower_words(range: RangeView) -> Seq<char> {
    if range.lower is Some {
        " WHERE "@ + range.pk_col + " >= "@ + range.lower->0
    } else {
        Seq::empty()
    }
}

/// The predicate for the upper bound of a range, if it has one.
pub open spec fn upper_words(range: RangeView) -> Seq<char> {
    if range.upper is None {
        Seq::empty()
    } else if range.lower is Some {
        " AND "@ + range.pk_col + " < "@ + range.upper->0
    } else {
        " WHERE "@ + range.pk_col + " < "@ + range.upper->0
    }
}

/// A range restricts a query by its bounds, each as it is given, whatever the bounds are. The rest
/// of the query is that for the whole table. A plan for a range is restricted to that range.
pub proof fn law_bounds_are_written_as_given(
    columns: Seq<MySqlColumnDesc>,
    table: (Seq<char>, Seq<char>),
    range: RangeView,
)
    ensures
        planned_range(PlanView::Range(range)) == Some(range),
        planned_range(PlanView::WholeTable) is None,
        reads_as(
            snapshot_text(columns, table, Some(range)),
            seq![snapshot_text(columns, table, None), lower_words(range), upper_words(range)],
        ),
{
    let whole = snapshot_text(columns, table, None);
    lemma_three_parts(whole, lower_words(range), upper_words(range));
    assert(snapshot_text(columns, table, Some(range)) =~= whole + lower_words(range) + upper_words(
        range,
    ));
}

/// Reads a query off its parts.
#[verifier::spinoff_prover]
proof fn lemma_read_select(
    columns: Seq<MySqlColumnDesc>,
    table: (Seq<char>, Seq<char>),
    tail: Seq<char>,
    text: Seq<char>,
    conditions: Seq<Condition>,
)
    requires
        text == "SELECT "@ + joined(column_texts(columns), ", "@) + " FROM "@ + table_text(table)
            + tail,
        tail.len() == 0 || tail[0] == ' ',
        scan_where(tail) == Some((conditions, Seq::<char>::empty())),
    ensures
        read_select(text) == Some(
            SelectView {
                columns: columns.map_values(|c: MySqlColumnDesc| c.name@),
                table,
                conditions,
            },
        ),
{
    reveal_strlit(" FROM ");
    let names = columns.map_values(|c: MySqlColumnDesc| c.name@);
    assert(column_texts(columns) =~= names.map_values(|n: Seq<char>| enclosed(n, '`')));
    let from = table_text(table) + tail;
    let list = joined(column_texts(columns), ", "@) + (" FROM "@ + from);
    assert(text =~= "SELECT "@ + list);
    lemma_after("SELECT "@, list);
    lemma_scan_names(names, " FROM "@ + from);
    lemma_after(" FROM "@, from);
    lemma_scan_table(table, tail);
}

/// What a probe asks for: the keys of a column, rendered as literals of the given kind, in the
/// order of a column, one of them after skipping the given number.
pub struct ProbeView {
    pub column: Seq<char>,
    pub kind: PkColKind,
    pub table: (Seq<char>, Seq<char>),
    pub conditions: Seq<Condition>,
    pub order: Seq<char>,
    pub offset: nat,
}

/// Reads how a column is rendered as a literal.
pub open spec fn scan_rendering(t: Seq<char>) -> Option<((Seq<char>, PkColKind), Seq<char>)> {
    match (after(t, "CAST("@), after(t, "QUOTE("@)) {
        (Some(t), _) => match scan_quoted(t, '`') {
            Some((column, t)) => match after(t, " AS CHAR)"@) {
                Some(t) => Some(((column, PkColKind::Numeric), t)),
                None => None,
            },
            None => None,
        },
        (None, Some(t)) => match scan_quoted(t, '`') {
            Some((column, t)) => match after(t, ")"@) {
                Some(t) => Some(((column, PkColKind::Text), t)),
                None => None,
            },
            None => None,
        },
        _ => None,
    }
}

/// Reads the order and the position of the key that a probe asks for.
pub open spec fn scan_position(t: Seq<char>) -> Option<(Seq<char>, nat)> {
    match after(t, " ORDER BY "@) {
        Some(t) => match scan_quoted(t, '`') {
            Some((order, t)) => match after(t, " LIMIT 1 OFFSET "@) {
                Some(t) => match number_of(t) {
                    Some(offset) => Some((order, offset)),
                    None => None,
                },
                None => None,
            },
            None => None,
        },
        None => None,
    }
}

/// Reads a probe.
pub open spec fn read_probe(t: Seq<char>) -> Option<ProbeView> {
    match after(t, "SELECT "@) {
        None => None,
        Some(t) => match scan_rendering(t) {
            None => None,
            Some(((column, kind), t)) => match after(t, " FROM "@) {
                None => None,
                Some(t) => match scan_table(t) {
                    None => None,
                    Some((table, t)) => match scan_where(t) {
                        None => None,
                        Some((conditions, t)) => match scan_position(t) {
                            Some((order, offset)) => Some(
                                ProbeView { column, kind, table, conditions, order, offset },
                            ),
                            None => None,
                        },
                    },
                },
            },
        },
    }
}

/// The sampler works on the column `pk`, and what it found so far are literals.
pub open spec fn samples_column(v: SamplerView, pk: Seq<char>) -> bool {
    &&& v.pk_col == enclosed(pk, '`')
    &&& forall|j: int| 0 <= j < v.boundaries.len() ==> is_literal(#[trigger] v.boundaries[j])
}

/// The rendering of a column reads back.
#[verifier::spinoff_prover]
proof fn lemma_scan_rendering(pk: Seq<char>, kind: PkColKind, rest: Seq<char>)
    ensures
        scan_rendering(literal_text(enclosed(pk, '`'), kind) + rest) == Some(((pk, kind), rest)),
{
    reveal_strlit("CAST(");
    reveal_strlit("QUOTE(");
    reveal_strlit(" AS CHAR)");
    reveal_strlit(")");
    let col = enclosed(pk, '`');
    let t = literal_text(col, kind) + rest;
    match kind {
        PkColKind::Numeric => {
            let end = " AS CHAR)"@ + rest;
            lemma_after(" AS CHAR)"@, rest);
            law_enclosed_reads_back(pk, '`', end);
            lemma_after("CAST("@, col + end);
            assert(t =~= "CAST("@ + (col + end));
        },
        PkColKind::Text => {
            let end = ")"@ + rest;
            lemma_after(")"@, rest);
            law_enclosed_reads_back(pk, '`', end);
            lemma_after("QUOTE("@, col + end);
            assert(t =~= "QUOTE("@ + (col + end));
            assert(t.take(5)[0] == 'Q');
            assert("CAST("@[0] == 'C');
        },
    }
}

/// The text of an order and a position.
spec fn position_text(pk: Seq<char>, offset: nat) -> Seq<char> {
    " ORDER BY "@ + enclosed(pk, '`') + " LIMIT 1 OFFSET "@ + decimal(offset)
}

/// The order and the position of a key read back, and do not read as a predicate.
#[verifier::spinoff_prover]
proof fn lemma_scan_position(pk: Seq<char>, offset: nat)
    ensures
        scan_position(position_text(pk, offset)) == Some((pk, offset)),
        position_text(pk, offset)[0] == ' ',
        after(position_text(pk, offset), " AND "@) is None,
        after(position_text(pk, offset), " WHERE "@) is None,
{
    reveal_strlit(" AND ");
    reveal_strlit(" WHERE ");
    reveal_strlit(" ORDER BY ");
    reveal_strlit(" LIMIT 1 OFFSET ");
    let col = enclosed(pk, '`');
    let number = decimal(offset);
    law_decimal_reads_back(offset);
    let limit = " LIMIT 1 OFFSET "@ + number;
    lemma_after(" LIMIT 1 OFFSET "@, number);
    law_enclosed_reads_back(pk, '`', limit);
    let order = " ORDER BY "@ + (col + limit);
    lemma_after(" ORDER BY "@, col + limit);
    assert(position_text(pk, offset) =~= order);
    assert(order.take(5)[1] == 'O');
    assert(" AND "@[1] == 'A');
    assert(order.take(7)[1] == 'O');
    assert(" WHERE "@[1] == 'W');
}

/// The predicates of a probe.
spec fn probe_conditions(v: SamplerView, pk: Seq<char>) -> Seq<Condition> {
    if v.boundaries.len() > 0 {
        seq![
            Condition {
                column: pk,
                comparison: Comparison::Above,
                literal: v.boundaries.last(),
            },
        ]
    } else {
        Seq::empty()
    }
}

/// The predicates of a probe read back.
#[verifier::spinoff_prover]
proof fn lemma_scan_probe_conditions(v: SamplerView, pk: Seq<char>, rest: Seq<char>)
    requires
        samples_column(v, pk),
        rest.len() > 0 && rest[0] == ' ',
        after(rest, " AND "@) is None,
        after(rest, " WHERE "@) is None,
    ensures
        ({
            let t = if v.boundaries.len() > 0 {
                " WHERE "@ + enclosed(pk, '`') + " > "@ + v.boundaries.last() + rest
            } else {
                rest
            };
            &&& scan_where(t) == Some((probe_conditions(v, pk), rest))
            &&& t[0] == ' '
        }),
{
    reveal_strlit(" WHERE ");
    if v.boundaries.len() > 0 {
        let c = Condition {
            column: pk,
            comparison: Comparison::Above,
            literal: v.boundaries.last(),
        };
        let first = enclosed(pk, '`') + " > "@ + v.boundaries.last() + rest;
        assert(is_literal(v.boundaries[v.boundaries.len() - 1]));
        assert(" WHERE "@ + enclosed(pk, '`') + " > "@ + v.boundaries.last() + rest =~= " WHERE "@
            + first);
        lemma_after(" WHERE "@, first);
        lemma_scan_condition(c, rest);
        assert(scan_more(rest) == Some((Seq::<Condition>::empty(), rest)));
        assert(seq![c] + Seq::<Condition>::empty() =~= seq![c]);
    }
}

/// A probe is made up of its parts.
#[verifier::spinoff_prover]
#[verifier::rlimit(50)]
proof fn lemma_probe_text(v: SamplerView, pk: Seq<char>, offset: nat, tail: Seq<char>)
    requires
        v.pk_col == enclosed(pk, '`'),
        offset == (if v.boundaries.len() > 0 {
            (v.chunk - 1) as nat
        } else {
            v.chunk
        }),
        tail == (if v.boundaries.len() > 0 {
            " WHERE "@ + enclosed(pk, '`') + " > "@ + v.boundaries.last() + position_text(
                pk,
                offset,
            )
        } else {
            position_text(pk, offset)
        }),
    ensures
        probe_text(v) == "SELECT "@ + (literal_text(v.pk_col, v.kind) + (" FROM "@ + (table_text(
            v.table,
        ) + tail))),
{
    let start = "SELECT "@ + literal_text(v.pk_col, v.kind) + " FROM "@ + table_text(v.table);
    let position = position_text(pk, offset);
    assert("SELECT "@ + (literal_text(v.pk_col, v.kind) + (" FROM "@ + (table_text(v.table)
        + tail))) =~= start + tail);
    if v.boundaries.len() > 0 {
        let bounded = start + " WHERE "@ + v.pk_col + " > "@ + v.boundaries.last();
        assert(start + tail =~= bounded + position);
        assert(probe_text(v) =~= bounded + position);
    } else {
        assert(probe_text(v) =~= start + position);
    }
}

/// A probe reads back as its parts.
#[verifier::spinoff_prover]
proof fn lemma_read_probe(v: SamplerView, pk: Seq<char>) -> (p: ProbeView)
    requires
        v.well_formed(),
        samples_column(v, pk),
    ensures
        read_probe(probe_text(v)) == Some(p),
        p.column == pk,
        p.kind == v.kind,
        p.table == v.table,
        p.order == pk,
        all_about(p.conditions, pk),
        forall|key: Seq<char>, le: spec_fn(Seq<char>, Seq<char>) -> bool| #[trigger]
            admits(p.conditions, key, le) <==> (v.boundaries.len() > 0 ==> !le(
                key,
                v.boundaries.last(),
            )),
        p.offset == (if v.boundaries.len() > 0 {
            v.chunk - 1
        } else {
            v.chunk as int
        }),
{
    let bounded = v.boundaries.len() > 0;
    let offset: nat = if bounded {
        (v.chunk - 1) as nat
    } else {
        v.chunk
    };
    let position = position_text(pk, offset);
    lemma_scan_position(pk, offset);
    let conditions = probe_conditions(v, pk);
    lemma_scan_probe_conditions(v, pk, position);
    let tail = if bounded {
        " WHERE "@ + enclosed(pk, '`') + " > "@ + v.boundaries.last() + position
    } else {
        position
    };
    lemma_scan_table(v.table, tail);
    let table = table_text(v.table) + tail;
    lemma_after(" FROM "@, table);
    let from = " FROM "@ + table;
    lemma_scan_rendering(pk, v.kind, from);
    let start = literal_text(v.pk_col, v.kind) + from;
    lemma_after("SELECT "@, start);
    lemma_probe_text(v, pk, offset, tail);
    assert forall|key: Seq<char>, le: spec_fn(Seq<char>, Seq<char>) -> bool| #[trigger]
        admits(conditions, key, le) <==> (bounded ==> !le(key, v.boundaries.last())) by {
        if bounded && admits(conditions, key, le) {
            assert(holds(conditions[0], key, le));
        }
    }
    ProbeView { column: pk, kind: v.kind, table: v.table, conditions, order: pk, offset }
}

/// A probe asks for keys of the table beyond everything that was found before: the rows that it
/// admits are exactly those whose key is greater than all boundaries found so far. It asks for
/// them in the order of the key column, rendered as the column's kind needs it.
pub proof fn law_probe_asks_beyond_all_boundaries(
    v: SamplerView,
    pk: Seq<char>,
    le: spec_fn(Seq<char>, Seq<char>) -> bool,
)
    requires
        v.well_formed(),
        samples_column(v, pk),
        total_preorder(le),
        increasing(v.boundaries, le),
    ensures
        ({
            let probe = read_probe(probe_text(v));
            &&& probe is Some
            &&& probe->0.column == pk
            &&& probe->0.kind == v.kind
            &&& probe->0.table == v.table
            &&& probe->0.order == pk
            &&& all_about(probe->0.conditions, pk)
            &&& forall|key: Seq<char>| #[trigger]
                admits(probe->0.conditions, key, le) <==> forall|j: int|
                    0 <= j < v.boundaries.len() ==> !le(key, #[trigger] v.boundaries[j])
        }),
{
    let p = lemma_read_probe(v, pk);
    assert forall|key: Seq<char>| #[trigger]
        admits(p.conditions, key, le) <==> forall|j: int|
            0 <= j < v.boundaries.len() ==> !le(key, #[trigger] v.boundaries[j]) by {
        let n = v.boundaries.len() - 1;
        if n >= 0 {
            if admits(p.conditions, key, le) {
                assert forall|j: int| 0 <= j < v.boundaries.len() implies !le(
                    key,
                    #[trigger] v.boundaries[j],
                ) by {
                    if le(key, v.boundaries[j]) {
                        assert(le(v.boundaries[j], v.boundaries[n]) || le(
                            v.boundaries[n],
                            v.boundaries[j],
                        ));
                        assert(le(v.boundaries[j], v.boundaries[n])) by {
                            if j < n {
                                assert(!le(v.boundaries[n], v.boundaries[j]));
                            }
                        }
                    }
                }
            } else {
                assert(le(key, v.boundaries[n]));
            }
        }
    }
}

/// A probe goes on from the boundary found last, as it was given, whatever it is, and from the
/// start of the table if there is none. It takes the row one chunk further on.
pub proof fn law_probe_goes_on_from_the_last_boundary(v: SamplerView, offset: nat)
    requires
        v.well_formed(),
        offset == (if v.boundaries.len() == 0 {
            v.chunk as int
        } else {
            v.chunk - 1
        }),
    ensures
        reads_as(
            probe_text(v),
            seq![
                "SELECT "@ + literal_text(v.pk_col, v.kind) + " FROM "@ + table_text(v.table),
                if v.boundaries.len() == 0 {
                    Seq::empty()
                } else {
                    " WHERE "@ + v.pk_col + " > "@ + v.boundaries[v.boundaries.len() - 1]
                },
                " ORDER BY "@ + v.pk_col + " LIMIT 1 OFFSET "@ + decimal(offset),
            ],
        ),
{
    let start = "SELECT "@ + literal_text(v.pk_col, v.kind) + " FROM "@ + table_text(v.table);
    let bound = if v.boundaries.len() == 0 {
        Seq::empty()
    } else {
        " WHERE "@ + v.pk_col + " > "@ + v.boundaries[v.boundaries.len() - 1]
    };
    let position = " ORDER BY "@ + v.pk_col + " LIMIT 1 OFFSET "@ + decimal(offset);
    lemma_three_parts(start, bound, position);
    assert(probe_text(v) =~= start + bound + position);
}

/// Satisfies all predicates.
pub open spec fn admitted_by(
    conditions: Seq<Condition>,
    le: spec_fn(Seq<char>, Seq<char>) -> bool,
) -> spec_fn(Seq<char>) -> bool {
    |key: Seq<char>| admits(conditions, key, le)
}

/// What the server answers to a probe of a table with the given keys, in the order of the key
/// column: the key at the position asked for among those that the probe admits.
pub open spec fn answer(
    probe: ProbeView,
    keys: Seq<Seq<char>>,
    le: spec_fn(Seq<char>, Seq<char>) -> bool,
) -> Option<Seq<char>> {
    let left = keys.filter(admitted_by(probe.conditions, le));
    if probe.offset < left.len() {
        Some(left[probe.offset as int])
    } else {
        None
    }
}

/// What satisfies a predicate from position `m` on, and not before, is what is left from there.
#[verifier::spinoff_prover]
proof fn lemma_filter_suffix<T>(s: Seq<T>, p: spec_fn(T) -> bool, m: int)
    requires
        0 <= m <= s.len(),
        forall|i: int| 0 <= i < s.len() ==> (p(#[trigger] s[i]) <==> i >= m),
    ensures
        s.filter(p) == s.skip(m),
    decreases s.len(),
{
    if s.len() == 0 {
        reveal(Seq::filter);
        assert(s.filter(p) =~= s.skip(m));
    } else {
        let rest = s.drop_last();
        assert(s =~= rest.push(s.last()));
        rest.lemma_filter_push(s.last(), p);
        assert(s[s.len() - 1] == s.last());
        assert forall|i: int| 0 <= i < rest.len() implies (p(#[trigger] rest[i]) <==> i >= m) by {
            assert(rest[i] == s[i]);
        }
        if m == s.len() {
            lemma_filter_suffix(rest, p, m - 1);
            assert(s.filter(p) =~= s.skip(m));
        } else {
            lemma_filter_suffix(rest, p, m);
            assert(s.filter(p) =~= s.skip(m));
        }
    }
}

/// Probes find keys at even distances: where the boundaries so far are the keys one chunk, two
/// chunks and so on into the table, the answer to the next probe is the key one chunk further on,
/// or nothing if the table ends before it.
pub proof fn law_probes_find_every_chunk(
    v: SamplerView,
    pk: Seq<char>,
    keys: Seq<Seq<char>>,
    le: spec_fn(Seq<char>, Seq<char>) -> bool,
)
    requires
        v.well_formed(),
        samples_column(v, pk),
        total_preorder(le),
        increasing(keys, le),
        forall|j: int|
            0 <= j < v.boundaries.len() ==> (j + 1) * v.chunk < keys.len()
                && #[trigger] v.boundaries[j] == keys[(j + 1) * v.chunk],
    ensures
        ({
            let next = (v.boundaries.len() + 1) * v.chunk;
            answer(read_probe(probe_text(v))->0, keys, le) == (if next < keys.len() {
                Some(keys[next as int])
            } else {
                None
            })
        }),
{
    let p = lemma_read_probe(v, pk);
    let n = v.boundaries.len() as int;
    let chunk = v.chunk as int;
    let m: int = if n > 0 {
        n * chunk + 1
    } else {
        0
    };
    let f = admitted_by(p.conditions, le);
    assert((n + 1) * chunk == n * chunk + chunk) by (nonlinear_arith);
    assert(n * chunk >= 0 && (n == 0 ==> n * chunk == 0)) by (nonlinear_arith)
        requires
            n >= 0,
            chunk >= 0,
    ;
    assert((v.boundaries.len() + 1) * v.chunk == n * chunk + chunk);
    if n > 0 {
        assert(v.boundaries[n - 1] == keys[(n - 1 + 1) * v.chunk]);
        assert(v.boundaries.last() == keys[n * chunk]);
    }
    assert forall|i: int| 0 <= i < keys.len() implies (f(#[trigger] keys[i]) <==> i >= m) by {
        if n > 0 {
            let at = n * chunk;
            if i > at {
                assert(!le(keys[i], keys[at]));
            } else if i < at {
                assert(!le(keys[at], keys[i]));
                assert(le(keys[i], keys[at]) || le(keys[at], keys[i]));
            } else {
                assert(le(keys[i], keys[at]));
            }
        }
    }
    lemma_filter_suffix(keys, f, m);
    assert(keys.filter(f) == keys.skip(m));
}

/// Every literal among the replies is a key that the probe it answers admits.
pub open spec fn replies_admitted(
    v: SamplerView,
    replies: Seq<ReplyView>,
    le: spec_fn(Seq<char>, Seq<char>) -> bool,
) -> bool
    decreases replies.len(),
{
    if replies.len() == 0 {
        true
    } else {
        &&& replies[0] matches ReplyView::Literal(literal) ==> is_literal(literal) && (read_probe(
            probe_text(v),
        ) matches Some(probe) ==> admits(probe.conditions, literal, le))
        &&& advanced(v, replies[0]) matches StepView::Probe(next) ==> replies_admitted(
            next,
            replies.skip(1),
            le,
        )
    }
}

/// A server that answers probes with keys that they admit answers with ever greater keys.
pub proof fn law_admitted_replies_ascend(
    v: SamplerView,
    pk: Seq<char>,
    replies: Seq<ReplyView>,
    le: spec_fn(Seq<char>, Seq<char>) -> bool,
)
    requires
        v.well_formed(),
        samples_column(v, pk),
        replies_admitted(v, replies, le),
    ensures
        replies_ascend(v, replies, le),
    decreases replies.len(),
{
    if replies.len() > 0 {
        let p = lemma_read_probe(v, pk);
        if let ReplyView::Literal(literal) = replies[0] {
            assert(admits(p.conditions, literal, le));
        }
        if let StepView::Probe(next) = advanced(v, replies[0]) {
            law_admitted_replies_ascend(next, pk, replies.skip(1), le);
        }
    }
}

/// Reads tables to be locked for reading, with commas between them.
pub open spec fn scan_locks(t: Seq<char>) -> Option<Seq<(Seq<char>, Seq<char>)>>
    decreases t.len(),
{
    if t.len() == 0 {
        Some(Seq::empty())
    } else {
        match scan_table(t) {
            None => None,
            Some((table, rest)) => match after(rest, " READ"@) {
                None => None,
                Some(rest) => if rest.len() == 0 {
                    Some(seq![table])
                } else {
                    match after(rest, ", "@) {
                        Some(next) => if 0 < next.len() < t.len() {
                            match scan_locks(next) {
                                Some(tables) => Some(seq![table] + tables),
                                None => None,
                            }
                        } else {
                            None
                        },
                        None => None,
                    }
                },
            },
        }
    }
}

/// One more table in front of tables to be locked is read first.
#[verifier::spinoff_prover]
proof fn lemma_scan_lock(
    table: (Seq<char>, Seq<char>),
    next: Seq<char>,
    tables: Seq<(Seq<char>, Seq<char>)>,
)
    requires
        next.len() > 0,
        scan_locks(next) == Some(tables),
    ensures
        scan_locks(table_text(table) + (" READ"@ + (", "@ + next))) == Some(seq![table] + tables),
{
    reveal_strlit(", ");
    reveal_strlit(" READ");
    let tail = ", "@ + next;
    let rest = " READ"@ + tail;
    lemma_scan_table(table, rest);
    lemma_after(" READ"@, tail);
    lemma_after(", "@, next);
    assert(tail.len() > 0);
}

/// A table alone is read as the only one to be locked.
#[verifier::spinoff_prover]
proof fn lemma_scan_last_lock(table: (Seq<char>, Seq<char>))
    ensures
        scan_locks(table_text(table) + " READ"@) == Some(seq![table]),
{
    reveal_strlit(" READ");
    let none = Seq::<char>::empty();
    lemma_scan_table(table, " READ"@);
    lemma_after(" READ"@, none);
    assert(" READ"@ + none =~= " READ"@);
}

#[verifier::spinoff_prover]
proof fn lemma_scan_locks(tables: Seq<(Seq<char>, Seq<char>)>)
    ensures
        scan_locks(lock_clauses_text(tables)) == Some(tables),
        tables.len() > 0 ==> lock_clauses_text(tables).len() > 0,
    decreases tables.len(),
{
    reveal_strlit(", ");
    reveal_strlit(" READ");
    let g = |t: (Seq<char>, Seq<char>)| table_text(t) + " READ"@;
    let parts = tables.map_values(g);
    if tables.len() == 0 {
        assert(tables =~= Seq::<(Seq<char>, Seq<char>)>::empty());
    } else if tables.len() == 1 {
        assert(parts =~= seq![g(tables[0])]);
        law_joining_goes_by_parts(parts, parts[0], ", "@);
        lemma_scan_last_lock(tables[0]);
        assert(tables =~= seq![tables[0]]);
    } else {
        let more = tables.skip(1);
        lemma_joined_first(parts, ", "@);
        assert(parts.skip(1) =~= more.map_values(g));
        lemma_scan_locks(more);
        let next = lock_clauses_text(more);
        lemma_scan_lock(tables[0], next, more);
        assert(lock_clauses_text(tables) =~= table_text(tables[0]) + (" READ"@ + (", "@ + next)));
        assert(seq![tables[0]] + more =~= tables);
    }
}

/// The statement that locks tables names each of them once, in order, to be locked for reading.
pub proof fn law_lock_statement_locks_every_table(tables: Seq<(Seq<char>, Seq<char>)>)
    ensures
        after(statement_text(Statement::LockTables, tables), "LOCK TABLES "@) matches Some(list)
            && scan_locks(list) == Some(tables),
{
    lemma_scan_locks(tables);
    lemma_after("LOCK TABLES "@, lock_clauses_text(tables));
}

/// The statements that set limits set them to the numbers given.
pub proof fn law_limits_are_set_as_given(n: u128, tables: Seq<(Seq<char>, Seq<char>)>)
    ensures
        after(
            statement_text(Statement::SetLockWaitTimeout(n), tables),
            "SET @@session.lock_wait_timeout = "@,
        ) matches Some(number) && number_of(number) == Some(n as nat),
        after(
            statement_text(Statement::SetMaxExecutionTime(n), tables),
            "SET @@session.max_execution_time = "@,
        ) matches Some(number) && number_of(number) == Some(n as nat),
{
    law_decimal_reads_back(n as nat);
    lemma_after("SET @@session.lock_wait_timeout = "@, decimal(n as nat));
    lemma_after("SET @@session.max_execution_time = "@, decimal(n as nat));
}

/// The session's time zone is set to UTC, and tables are unlocked all at once, whatever the tables.
pub proof fn law_sessions_run_in_utc(tables: Seq<(Seq<char>, Seq<char>)>)
    ensures
        after(
            statement_text(Statement::SetTimeZone, tables),
            "set @@session.time_zone = "@,
        ) matches Some(value) && scan_quoted(value, '\'') == Some(
            (seq!['+', '0', '0', ':', '0', '0'], Seq::<char>::empty()),
        ),
        after(statement_text(Statement::UnlockTables, tables), "UNLOCK TABLES"@) == Some(
            Seq::<char>::empty(),
        ),
{
    reveal_strlit("set @@session.time_zone = '+00:00'");
    reveal_strlit("set @@session.time_zone = ");
    let none = Seq::<char>::empty();
    let offset = seq!['+', '0', '0', ':', '0', '0'];
    law_enclosed_reads_back(offset, '\'', none);
    reveal_with_fuel(doubled, 7);
    let marks = set!['\''];
    assert(offset.drop_last() =~= seq!['+', '0', '0', ':', '0']);
    assert(offset.drop_last().drop_last() =~= seq!['+', '0', '0', ':']);
    assert(offset.drop_last().drop_last().drop_last() =~= seq!['+', '0', '0']);
    assert(offset.drop_last().drop_last().drop_last().drop_last() =~= seq!['+', '0']);
    assert(doubled(offset, marks) =~= offset);
    let value = enclosed(offset, '\'') + none;
    lemma_after("set @@session.time_zone = "@, value);
    assert("set @@session.time_zone = '+00:00'"@ =~= "set @@session.time_zone = "@ + value);
    lemma_after("UNLOCK TABLES"@, none);
    assert("UNLOCK TABLES"@ + none =~= "UNLOCK TABLES"@);
}

/// Reads a query for the number of rows of a table.
pub open spec fn read_count(t: Seq<char>) -> Option<(Seq<char>, Seq<char>)> {
    match after(t, "SELECT COUNT(*) FROM "@) {
        None => None,
        Some(t) => match scan_table(t) {
            Some((table, rest)) => if rest.len() == 0 {
                Some(table)
            } else {
                None
            },
            None => None,
        },
    }
}

/// The query for the number of rows counts all rows of the table that it is about.
pub proof fn law_count_query_counts_the_table(table: (Seq<char>, Seq<char>))
    ensures
        read_count("SELECT COUNT(*) FROM "@ + table_text(table)) == Some(table),
{
    let none = Seq::<char>::empty();
    lemma_scan_table(table, none);
    assert(table_text(table) + none =~= table_text(table));
    lemma_after("SELECT COUNT(*) FROM "@, table_text(table));
}

/// The tables to lock are those of the tasks, in order.
pub proof fn law_task_names_go_by_position(tasks: Seq<TableTask>, i: int)
    requires
        0 <= i < tasks.len(),
    ensures
        task_names(tasks).len() == tasks.len(),
        task_names(tasks)[i] == (tasks[i].name.0@, tasks[i].name.1@),
{
}

/// What sampling finds are literals for the column that was sampled, so the ranges between them
/// can be written as predicates.
pub proof fn law_sampled_boundaries_are_literals(
    v: SamplerView,
    pk: Seq<char>,
    replies: Seq<ReplyView>,
    le: spec_fn(Seq<char>, Seq<char>) -> bool,
)
    requires
        samples_column(v, pk),
        replies_admitted(v, replies, le),
    ensures
        sampled(v, replies) matches Some(Some(splits)) ==> splits.pk_col == enclosed(pk, '`')
            && forall|j: int|
            0 <= j < splits.boundaries.len() ==> is_literal(#[trigger] splits.boundaries[j]),
    decreases replies.len(),
{
    if replies.len() > 0 {
        if let ReplyView::Literal(literal) = replies[0] {
            let next = SamplerView { boundaries: v.boundaries.push(literal), ..v };
            assert forall|j: int| 0 <= j < next.boundaries.len() implies is_literal(
                #[trigger] next.boundaries[j],
            ) by {
                if j < v.boundaries.len() {
                    assert(next.boundaries[j] == v.boundaries[j]);
                }
            }
        }
        if let StepView::Probe(next) = advanced(v, replies[0]) {
            law_sampled_boundaries_are_literals(next, pk, replies.skip(1), le);
        }
    }
}

/// A worker with the given plan runs a query on the table that admits the key.
pub open spec fn asks_for(
    plan: Option<PlanView>,
    columns: Seq<MySqlColumnDesc>,
    table: (Seq<char>, Seq<char>),
    key: Seq<char>,
    le: spec_fn(Seq<char>, Seq<char>) -> bool,
) -> bool {
    &&& plan is Some
    &&& read_select(snapshot_text(columns, table, planned_range(plan->0))) matches Some(query)
        && query.table == table && admits(query.conditions, key, le)
}

/// The queries of all workers together ask for every row of a table exactly once: for each key
/// there is one worker whose query admits it, and no other worker's query does.
pub proof fn law_queries_ask_for_every_row_once(
    splits: Option<SplitsView>,
    pk: Seq<char>,
    owner: int,
    worker_count: int,
    columns: Seq<MySqlColumnDesc>,
    table: (Seq<char>, Seq<char>),
    key: Seq<char>,
    le: spec_fn(Seq<char>, Seq<char>) -> bool,
)
    requires
        0 <= owner < worker_count,
        total_preorder(le),
        splits matches Some(s) ==> {
            &&& non_decreasing(s.boundaries, le)
            &&& s.boundaries.len() < worker_count
            &&& s.pk_col == enclosed(pk, '`')
            &&& forall|j: int|
                0 <= j < s.boundaries.len() ==> is_literal(#[trigger] s.boundaries[j])
        },
    ensures
        exists|w: int|
            #![trigger plan_of(splits, w, owner, worker_count)]
            {
                &&& 0 <= w < worker_count
                &&& asks_for(plan_of(splits, w, owner, worker_count), columns, table, key, le)
                &&& forall|v: int|
                    #![trigger plan_of(splits, v, owner, worker_count)]
                    0 <= v < worker_count && v != w ==> !asks_for(
                        plan_of(splits, v, owner, worker_count),
                        columns,
                        table,
                        key,
                        le,
                    )
            },
{
    let n = worker_count;
    law_every_row_is_read_once(splits, owner, n, key, le);
    let w = choose|w: int|
        #![trigger plan_of(splits, w, owner, n)]
        {
            &&& 0 <= w < n
            &&& reads_key(plan_of(splits, w, owner, n), key, le)
            &&& forall|v: int|
                #![trigger plan_of(splits, v, owner, n)]
                0 <= v < n && v != w ==> !reads_key(plan_of(splits, v, owner, n), key, le)
        };
    assert forall|v: int|
        #![trigger plan_of(splits, v, owner, n)]
        0 <= v < n implies asks_for(plan_of(splits, v, owner, n), columns, table, key, le)
        == reads_key(plan_of(splits, v, owner, n), key, le) by {
        let plan = plan_of(splits, v, owner, n);
        if plan is Some {
            if let PlanView::Range(range) = plan->0 {
                let s = splits->0;
                let q = partition_of(v, owner, n);
                assert(0 <= q) by {
                    lemma_mod_bound(v - owner, n);
                }
                assert(range == range_at(s, q)->0);
                if q > 0 {
                    assert(is_literal(s.boundaries[q - 1]));
                }
                if q < s.boundaries.len() {
                    assert(is_literal(s.boundaries[q]));
                }
            }
            law_query_asks_for_the_share(columns, table, plan->0, pk);
            let query = read_select(snapshot_text(columns, table, planned_range(plan->0)))->0;
            assert(admits(query.conditions, key, le) <==> reads_key(plan, key, le));
        }
    }
    assert(asks_for(plan_of(splits, w, owner, n), columns, table, key, le));
}

} // verus!
