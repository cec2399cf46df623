use upstream_ingest::sql_server::schema_change::{
    KeyRef, SchemaChange, SchemaChangeError, SqlServerTableConstraint, SqlServerTableConstraintType,
};

fn error(change: SchemaChange) -> SchemaChangeError {
    SchemaChangeError {
        schema_name: "dbo".to_string(),
        name: "it\"em".to_string(),
        change,
    }
}

fn key(name: &str, is_primary: bool) -> KeyRef {
    KeyRef {
        name: name.to_string(),
        is_primary,
        columns: vec!["a".to_string(), "b".to_string()],
    }
}

const RECREATE: &str = "To keep ingesting without this constraint, recreate the table in a new \
    versioned schema, then swap your views to the new table:\n  CREATE SCHEMA v2;\n  \
    CREATE TABLE v2.\"it\"\"em\"\n  FROM SOURCE <source> (REFERENCE \"dbo\".\"it\"\"em\")";

#[test]
fn diagnoses() {
    assert_eq!(
        error(SchemaChange::ColumnDropped { column: "c\"1".to_string() }).to_string(),
        "incompatible schema change on dbo.it\"em: column \"c\\\"1\" was dropped, renamed, or \
         recreated upstream"
    );
    assert_eq!(
        SchemaChange::ColumnTypeChanged { column: "c".to_string() }.to_string(),
        "the type of column \"c\" changed upstream"
    );
    assert_eq!(
        SchemaChange::NotNullDropped { column: "c".to_string() }.to_string(),
        "the NOT NULL constraint on column \"c\" was dropped upstream"
    );
    assert_eq!(
        SchemaChange::KeyDropped { key: key("pk", true) }.to_string(),
        "PRIMARY KEY constraint \"pk\" (a, b) was dropped upstream"
    );
    assert_eq!(
        SchemaChange::KeyAltered { key: key("uq", false) }.to_string(),
        "UNIQUE constraint \"uq\" (a, b) was altered upstream"
    );
}

#[test]
fn dropped_keys_carry_a_hint() {
    let expected = format!(
        "{RECREATE};\nTo make a planned constraint drop a non-event, create the table with \
         WITH (EXCLUDE CONSTRAINTS ('p''k')) before the upstream drop."
    );
    let dropped = error(SchemaChange::KeyDropped { key: key("p'k", true) });
    assert_eq!(dropped.hint(), Some(expected));
}

#[test]
fn backslashes_make_an_escape_string() {
    let dropped = error(SchemaChange::KeyDropped { key: key("p\\k'", true) });
    assert_eq!(
        dropped.hint(),
        Some(format!(
            "{RECREATE};\nTo make a planned constraint drop a non-event, create the table with \
             WITH (EXCLUDE CONSTRAINTS ( E'p\\\\k''')) before the upstream drop."
        ))
    );
}

#[test]
fn dropped_not_null_carries_a_hint() {
    let dropped = error(SchemaChange::NotNullDropped { column: "c".to_string() });
    assert_eq!(
        dropped.hint(),
        Some(format!("{RECREATE}\n  WITH (EXCLUDE ALL CONSTRAINTS);"))
    );
}

#[test]
fn other_changes_carry_no_hint() {
    assert_eq!(error(SchemaChange::KeyAltered { key: key("p'k", true) }).hint(), None);
    assert_eq!(error(SchemaChange::ColumnDropped { column: "c".to_string() }).hint(), None);
    assert_eq!(error(SchemaChange::ColumnTypeChanged { column: "c".to_string() }).hint(), None);
}

#[test]
fn keys_are_recorded_from_constraints() {
    let constraint = |constraint_type| SqlServerTableConstraint {
        constraint_name: "k".to_string(),
        constraint_type,
        column_names: vec!["a".to_string()],
    };
    let primary = constraint(SqlServerTableConstraintType::PrimaryKey);
    assert_eq!(
        KeyRef::from(&primary),
        KeyRef { name: "k".to_string(), is_primary: true, columns: vec!["a".to_string()] }
    );
    let unique = constraint(SqlServerTableConstraintType::Unique);
    assert!(!KeyRef::from(&unique).is_primary);
}
