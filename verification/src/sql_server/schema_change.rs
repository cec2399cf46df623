//! Upstream schema changes that ingestion cannot follow.

use vstd::prelude::*;
use vstd::std_specs::convert::FromSpecImpl;
use vstd::string::*;

use crate::text::{
    after, doubled, enclosed, join, joined, law_enclosed_reads_back, lemma_after, lemma_scan_body,
    lemma_three_parts, quoted, quoted_text, reads_as, scan_body, scan_quoted, texts,
};

verus! {

/// `postgres_protocol::escape::escape_identifier` surrounds its input with double quotes and
/// writes every double quote inside it twice.
pub assume_specification[ postgres_protocol::escape::escape_identifier ](
    input: &str,
) -> (r: std::string::String)
    ensures
        r@ == enclosed(input@, '"'),
;

/// `postgres_protocol::escape::escape_literal` surrounds its input with single quotes and writes
/// every single quote inside it twice. If there is a backslash in the input, backslashes are
/// written twice too and the result starts with a space and an `E`.
pub assume_specification[ postgres_protocol::escape::escape_literal ](
    input: &str,
) -> (r: std::string::String)
    ensures
        r@ == literal_text(input@),
;

/// `s` as an SQL string literal.
pub open spec fn literal_text(s: Seq<char>) -> Seq<char> {
    if s.contains('\\') {
        " E"@ + seq!['\''] + doubled(s, set!['\'', '\\']) + seq!['\'']
    } else {
        enclosed(s, '\'')
    }
}

/// Reads one string literal off the front of `t`. With a leading ` E` the backslash is an escape
/// character, otherwise it stands for itself.
pub open spec fn scan_literal(t: Seq<char>) -> Option<(Seq<char>, Seq<char>)> {
    if t.len() >= 3 && t[0] == ' ' && t[1] == 'E' && t[2] == '\'' {
        scan_body(t.skip(3), '\'', set!['\'', '\\'])
    } else {
        scan_quoted(t, '\'')
    }
}

/// A string literal reads back as exactly the string, wherever it is spliced into SQL text, as
/// long as the text after it does not go on with a single quote.
pub proof fn law_literal_reads_back(s: Seq<char>, rest: Seq<char>)
    requires
        rest.len() == 0 || rest[0] != '\'',
    ensures
        scan_literal(literal_text(s) + rest) == Some((s, rest)),
{
    let t = literal_text(s) + rest;
    if s.contains('\\') {
        reveal_strlit(" E");
        let marks = set!['\'', '\\'];
        lemma_scan_body(s, '\'', marks, rest);
        assert(t.skip(3) =~= doubled(s, marks) + seq!['\''] + rest);
    } else {
        law_enclosed_reads_back(s, '\'', rest);
    }
}

/// The kinds of constraint that back a key.
#[derive(Debug, Clone, Copy, PartialEq, Eq, Structural)]
pub enum SqlServerTableConstraintType {
    PrimaryKey,
    Unique,
}

/// A constraint of an upstream table.
#[derive(Debug, Clone)]
pub struct SqlServerTableConstraint {
    pub constraint_name: String,
    pub constraint_type: SqlServerTableConstraintType,
    pub column_names: Vec<String>,
}

/// An upstream schema change that ingestion cannot follow.
///
/// [`SchemaChangeError::to_string`] renders the diagnosis. [`SchemaChangeError::hint`] renders
/// the recovery steps, which are surfaced separately.
#[derive(Debug, Clone, PartialEq, Eq)]
pub struct SchemaChangeError {
    pub schema_name: String,
    pub name: String,
    pub change: SchemaChange,
}

/// The upstream change behind a [`SchemaChangeError`].
#[derive(Debug, Clone, PartialEq, Eq)]
pub enum SchemaChange {
    ColumnDropped { column: String },
    ColumnTypeChanged { column: String },
    NotNullDropped { column: String },
    KeyDropped { key: KeyRef },
    KeyAltered { key: KeyRef },
}

/// The constraint a [`SchemaChange`] is about, as it was recorded when the export was created.
#[derive(Debug, Clone, PartialEq, Eq)]
pub struct KeyRef {
    pub name: String,
    pub is_primary: bool,
    pub columns: Vec<String>,
}

/// How a key is described to a reader.
pub open spec fn key_text(key: KeyRef) -> Seq<char> {
    let kind = if key.is_primary {
        "PRIMARY KEY"@
    } else {
        "UNIQUE"@
    };
    kind + " constraint "@ + quoted_text(key.name@) + " ("@ + joined(
        texts(key.columns@),
        ", "@,
    ) + ")"@
}

/// How a change is described to a reader.
pub open spec fn change_text(change: SchemaChange) -> Seq<char> {
    match change {
        SchemaChange::ColumnDropped { column } => "column "@ + quoted_text(column@)
            + " was dropped, renamed, or recreated upstream"@,
        SchemaChange::ColumnTypeChanged { column } => "the type of column "@ + quoted_text(column@)
            + " changed upstream"@,
        SchemaChange::NotNullDropped { column } => "the NOT NULL constraint on column "@
            + quoted_text(column@) + " was dropped upstream"@,
        SchemaChange::KeyDropped { key } => key_text(key) + " was dropped upstream"@,
        SchemaChange::KeyAltered { key } => key_text(key) + " was altered upstream"@,
    }
}

/// The diagnosis of an error.
pub open spec fn error_text(error: SchemaChangeError) -> Seq<char> {
    "incompatible schema change on "@ + error.schema_name@ + "."@ + error.name@ + ": "@
        + change_text(error.change)
}

/// The statements that recreate a table in a new schema, without the closing semicolon.
pub open spec fn recreate_text(schema_name: Seq<char>, name: Seq<char>) -> Seq<char> {
    "To keep ingesting without this constraint, recreate the table in a new versioned schema, then swap your views to the new table:\n  CREATE SCHEMA v2;\n  CREATE TABLE v2."@
        + enclosed(name, '"') + "\n  FROM SOURCE <source> (REFERENCE "@ + enclosed(
        schema_name,
        '"',
    ) + "."@ + enclosed(name, '"') + ")"@
}

/// The recovery steps for an error: where a constraint was dropped, how to go on without it.
pub open spec fn hint_text(error: SchemaChangeError) -> Option<Seq<char>> {
    let recreate = recreate_text(error.schema_name@, error.name@);
    match error.change {
        SchemaChange::KeyDropped { key } => Some(
            recreate + ";"@
                + "\nTo make a planned constraint drop a non-event, create the table with WITH (EXCLUDE CONSTRAINTS ("@
                + literal_text(key.name@) + ")) before the upstream drop."@,
        ),
        SchemaChange::NotNullDropped { .. } => Some(
            recreate + "\n  WITH (EXCLUDE ALL CONSTRAINTS)"@ + ";"@,
        ),
        SchemaChange::KeyAltered { .. }
        | SchemaChange::ColumnDropped { .. }
        | SchemaChange::ColumnTypeChanged { .. } => None,
    }
}

/// Strings are compared by their contents, so what holds of a conversion is stated by the
/// `ensures` of `from`.
impl<'a> FromSpecImpl<&'a SqlServerTableConstraint> for KeyRef {
    open spec fn obeys_from_spec() -> bool {
        false
    }

    open spec fn from_spec(constraint: &'a SqlServerTableConstraint) -> KeyRef {
        KeyRef {
            name: constraint.constraint_name,
            is_primary: constraint.constraint_type == SqlServerTableConstraintType::PrimaryKey,
            columns: constraint.column_names,
        }
    }
}

impl<'a> From<&'a SqlServerTableConstraint> for KeyRef {
    /// Records `constraint`.
    fn from(constraint: &'a SqlServerTableConstraint) -> (r: KeyRef)
        ensures
            r.name@ == constraint.constraint_name@,
            r.is_primary == (constraint.constraint_type
                == SqlServerTableConstraintType::PrimaryKey),
            texts(r.columns@) == texts(constraint.column_names@),
    {
        let columns = constraint.column_names.clone();
        assert(columns@ =~= constraint.column_names@);
        KeyRef {
            name: constraint.constraint_name.clone(),
            is_primary: matches!(
                constraint.constraint_type,
                SqlServerTableConstraintType::PrimaryKey
            ),
            columns,
        }
    }
}

impl KeyRef {
    /// Describes the key.
    pub fn to_string(&self) -> (r: String)
        ensures
            r@ == key_text(*self),
    {
        let kind = if self.is_primary {
            "PRIMARY KEY"
        } else {
            "UNIQUE"
        };
        let mut r = kind.to_string();
        r.append(" constraint ");
        r.append(quoted(self.name.as_str()).as_str());
        r.append(" (");
        r.append(join(self.columns.as_slice(), ", ").as_str());
        r.append(")");
        r
    }
}

impl SchemaChange {
    /// Describes the change.
    pub fn to_string(&self) -> (r: String)
        ensures
            r@ == change_text(*self),
    {
        match self {
            SchemaChange::ColumnDropped { column } => {
                let mut r = "column ".to_string();
                r.append(quoted(column.as_str()).as_str());
                r.append(" was dropped, renamed, or recreated upstream");
                r
            },
            SchemaChange::ColumnTypeChanged { column } => {
                let mut r = "the type of column ".to_string();
                r.append(quoted(column.as_str()).as_str());
                r.append(" changed upstream");
                r
            },
            SchemaChange::NotNullDropped { column } => {
                let mut r = "the NOT NULL constraint on column ".to_string();
                r.append(quoted(column.as_str()).as_str());
                r.append(" was dropped upstream");
                r
            },
            SchemaChange::KeyDropped { key } => {
                let mut r = key.to_string();
                r.append(" was dropped upstream");
                r
            },
            SchemaChange::KeyAltered { key } => {
                let mut r = key.to_string();
                r.append(" was altered upstream");
                r
            },
        }
    }
}

impl SchemaChangeError {
    /// Describes the error.
    pub fn to_string(&self) -> (r: String)
        ensures
            r@ == error_text(*self),
    {
        let mut r = "incompatible schema change on ".to_string();
        r.append(self.schema_name.as_str());
        r.append(".");
        r.append(self.name.as_str());
        r.append(": ");
        r.append(self.change.to_string().as_str());
        r
    }

    /// The statements that recreate the table in a new schema, without the closing semicolon.
    fn recreate(&self) -> (r: String)
        ensures
            r@ == recreate_text(self.schema_name@, self.name@),
    {
        let name = postgres_protocol::escape::escape_identifier(self.name.as_str());
        let schema_name = postgres_protocol::escape::escape_identifier(self.schema_name.as_str());
        let mut r =
            "To keep ingesting without this constraint, recreate the table in a new versioned schema, then swap your views to the new table:\n  CREATE SCHEMA v2;\n  CREATE TABLE v2.".to_string();
        r.append(name.as_str());
        r.append("\n  FROM SOURCE <source> (REFERENCE ");
        r.append(schema_name.as_str());
        r.append(".");
        r.append(name.as_str());
        r.append(")");
        r
    }

    /// The recovery steps for a dropped constraint, including the statements to run. Other
    /// changes carry no hint.
    pub fn hint(&self) -> (r: Option<String>)
        ensures
            match r {
                Some(hint) => hint_text(*self) == Some(hint@),
                None => hint_text(*self) is None,
            },
    {
        match &self.change {
            SchemaChange::KeyDropped { key } => {
                let mut hint = self.recreate();
                hint.append(";");
                hint.append(
                    "\nTo make a planned constraint drop a non-event, create the table with WITH (EXCLUDE CONSTRAINTS (",
                );
                hint.append(
                    postgres_protocol::escape::escape_literal(key.name.as_str()).as_str(),
                );
                hint.append(")) before the upstream drop.");
                Some(hint)
            },
            SchemaChange::NotNullDropped { .. } => {
                let mut hint = self.recreate();
                hint.append("\n  WITH (EXCLUDE ALL CONSTRAINTS)");
                hint.append(";");
                Some(hint)
            },
            SchemaChange::KeyAltered { .. }
            | SchemaChange::ColumnDropped { .. }
            | SchemaChange::ColumnTypeChanged { .. } => None,
        }
    }
}

/// The words before and after the name of the column, where a change is about a column.
pub open spec fn column_words(change: SchemaChange) -> (Seq<char>, Seq<char>) {
    match change {
        SchemaChange::ColumnDropped { .. } => (
            "column "@,
            " was dropped, renamed, or recreated upstream"@,
        ),
        SchemaChange::ColumnTypeChanged { .. } => ("the type of column "@, " changed upstream"@),
        _ => ("the NOT NULL constraint on column "@, " was dropped upstream"@),
    }
}

/// A change of a column is described by the name of the column, between the words for the change.
/// A change of a key is described by the key, before the words for the change.
pub proof fn law_changes_are_described(change: SchemaChange)
    ensures
        match change {
            SchemaChange::ColumnDropped { column }
            | SchemaChange::ColumnTypeChanged { column }
            | SchemaChange::NotNullDropped { column } => reads_as(
                change_text(change),
                seq![column_words(change).0, quoted_text(column@), column_words(change).1],
            ),
            SchemaChange::KeyDropped { key } => after(change_text(change), key_text(key)) == Some(
                " was dropped upstream"@,
            ),
            SchemaChange::KeyAltered { key } => after(change_text(change), key_text(key)) == Some(
                " was altered upstream"@,
            ),
        },
{
    match change {
        SchemaChange::ColumnDropped { column }
        | SchemaChange::ColumnTypeChanged { column }
        | SchemaChange::NotNullDropped { column } => {
            let words = column_words(change);
            lemma_three_parts(words.0, quoted_text(column@), words.1);
        },
        SchemaChange::KeyDropped { key } => {
            lemma_after(key_text(key), " was dropped upstream"@);
        },
        SchemaChange::KeyAltered { key } => {
            lemma_after(key_text(key), " was altered upstream"@);
        },
    }
}

/// A key is described by its kind, its name and its columns in order.
pub proof fn law_keys_are_described(key: KeyRef)
    ensures
        reads_as(
            key_text(key),
            seq![
                if key.is_primary { "PRIMARY KEY constraint "@ } else { "UNIQUE constraint "@ },
                quoted_text(key.name@),
                " ("@ + joined(texts(key.columns@), ", "@) + ")"@,
            ],
        ),
{
    reveal_strlit("PRIMARY KEY");
    reveal_strlit("UNIQUE");
    reveal_strlit(" constraint ");
    reveal_strlit("PRIMARY KEY constraint ");
    reveal_strlit("UNIQUE constraint ");
    let lead = if key.is_primary { "PRIMARY KEY constraint "@ } else { "UNIQUE constraint "@ };
    let columns = " ("@ + joined(texts(key.columns@), ", "@) + ")"@;
    assert("PRIMARY KEY"@ + " constraint "@ =~= "PRIMARY KEY constraint "@);
    assert("UNIQUE"@ + " constraint "@ =~= "UNIQUE constraint "@);
    lemma_three_parts(lead, quoted_text(key.name@), columns);
    assert(key_text(key) =~= lead + quoted_text(key.name@) + columns);
}

/// An error names the schema and the table, and describes the change.
pub proof fn law_errors_are_described(error: SchemaChangeError)
    ensures
        reads_as(
            error_text(error),
            seq![
                "incompatible schema change on "@ + error.schema_name@,
                "."@ + error.name@,
                ": "@ + change_text(error.change),
            ],
        ),
{
    let a = "incompatible schema change on "@ + error.schema_name@;
    let b = "."@ + error.name@;
    let c = ": "@ + change_text(error.change);
    lemma_three_parts(a, b, c);
    assert(error_text(error) =~= a + b + c);
}

/// What a hint asks the reader to do.
pub struct HintView {
    /// The table to create.
    pub created: Seq<char>,
    /// The upstream table that it refers to, by schema and name.
    pub reference: (Seq<char>, Seq<char>),
    /// What comes after the reference.
    pub ending: Seq<char>,
}

/// Reads a hint.
pub open spec fn read_hint(t: Seq<char>) -> Option<HintView> {
    match after(t, "To keep ingesting without this constraint, recreate the table in a new versioned schema, then swap your views to the new table:\n  CREATE SCHEMA v2;\n  CREATE TABLE v2."@) {
        None => None,
        Some(t) => match scan_quoted(t, '"') {
            None => None,
            Some((created, t)) => match after(t, "\n  FROM SOURCE <source> (REFERENCE "@) {
                None => None,
                Some(t) => match scan_quoted(t, '"') {
                    None => None,
                    Some((schema_name, t)) => match after(t, "."@) {
                        None => None,
                        Some(t) => match scan_quoted(t, '"') {
                            None => None,
                            Some((name, t)) => match after(t, ")"@) {
                                None => None,
                                Some(ending) => Some(
                                    HintView { created, reference: (schema_name, name), ending },
                                ),
                            },
                        },
                    },
                },
            },
        },
    }
}

proof fn lemma_read_hint(schema_name: Seq<char>, name: Seq<char>, ending: Seq<char>)
    ensures
        read_hint(recreate_text(schema_name, name) + ending) == Some(
            HintView { created: name, reference: (schema_name, name), ending },
        ),
{
    reveal_strlit("\n  FROM SOURCE <source> (REFERENCE ");
    reveal_strlit(".");
    reveal_strlit(")");
    let lead = "To keep ingesting without this constraint, recreate the table in a new versioned schema, then swap your views to the new table:\n  CREATE SCHEMA v2;\n  CREATE TABLE v2."@;
    let source = "\n  FROM SOURCE <source> (REFERENCE "@;
    let t1 = ")"@ + ending;
    let t2 = enclosed(name, '"') + t1;
    let t3 = "."@ + t2;
    let t4 = enclosed(schema_name, '"') + t3;
    let t5 = source + t4;
    let t6 = enclosed(name, '"') + t5;
    lemma_after(")"@, ending);
    law_enclosed_reads_back(name, '"', t1);
    lemma_after("."@, t2);
    law_enclosed_reads_back(schema_name, '"', t3);
    lemma_after(source, t4);
    law_enclosed_reads_back(name, '"', t5);
    lemma_after(lead, t6);
    assert(recreate_text(schema_name, name) + ending =~= lead + t6);
}

/// There is a hint exactly if a constraint was dropped. It says to create the table anew under its
/// own name, referring to the upstream table by its schema and name, and either to leave out all
/// constraints or, where a key was dropped, how to leave out that key beforehand, by its name.
/// All names read back, whatever is in them.
pub proof fn law_hints_name_the_table(error: SchemaChangeError)
    ensures
        hint_text(error) is Some <==> error.change is KeyDropped || error.change is NotNullDropped,
        hint_text(error) matches Some(hint) ==> (read_hint(hint) matches Some(view) && {
            &&& view.created == error.name@
            &&& view.reference == (error.schema_name@, error.name@)
            &&& error.change is NotNullDropped ==> view.ending
                == "\n  WITH (EXCLUDE ALL CONSTRAINTS);"@
            &&& error.change matches SchemaChange::KeyDropped { key } ==> (after(
                view.ending,
                ";\nTo make a planned constraint drop a non-event, create the table with WITH (EXCLUDE CONSTRAINTS ("@,
            ) matches Some(rest) && scan_literal(rest) == Some(
                (key.name@, ")) before the upstream drop."@),
            ))
        }),
{
    let schema_name = error.schema_name@;
    let name = error.name@;
    let recreate = recreate_text(schema_name, name);
    match error.change {
        SchemaChange::KeyDropped { key } => {
            let words =
                "\nTo make a planned constraint drop a non-event, create the table with WITH (EXCLUDE CONSTRAINTS ("@;
            let lead =
                ";\nTo make a planned constraint drop a non-event, create the table with WITH (EXCLUDE CONSTRAINTS ("@;
            reveal_strlit(";");
            reveal_strlit(
                "\nTo make a planned constraint drop a non-event, create the table with WITH (EXCLUDE CONSTRAINTS (",
            );
            reveal_strlit(
                ";\nTo make a planned constraint drop a non-event, create the table with WITH (EXCLUDE CONSTRAINTS (",
            );
            reveal_strlit(")) before the upstream drop.");
            let tail = ")) before the upstream drop."@;
            assert(";"@ + words =~= lead);
            law_literal_reads_back(key.name@, tail);
            let rest = literal_text(key.name@) + tail;
            lemma_after(lead, rest);
            lemma_read_hint(schema_name, name, lead + rest);
            assert(hint_text(error)->0 =~= recreate + (lead + rest));
        },
        SchemaChange::NotNullDropped { .. } => {
            reveal_strlit(";");
            reveal_strlit("\n  WITH (EXCLUDE ALL CONSTRAINTS)");
            reveal_strlit("\n  WITH (EXCLUDE ALL CONSTRAINTS);");
            let ending = "\n  WITH (EXCLUDE ALL CONSTRAINTS);"@;
            assert("\n  WITH (EXCLUDE ALL CONSTRAINTS)"@ + ";"@ =~= ending);
            lemma_read_hint(schema_name, name, ending);
            assert(hint_text(error)->0 =~= recreate + ending);
        },
        _ => {},
    }
}

} // verus!
