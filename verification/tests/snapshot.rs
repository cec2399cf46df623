use upstream_ingest::mysql::desc::{
    GlobalId, KeySet, MySqlColumnDesc, MySqlKeyDesc, MySqlTableDesc, MySqlTableName,
    SourceOutputInfo, SqlColumnType, SqlScalarType,
};
use upstream_ingest::mysql::query::build_snapshot_query;
use upstream_ingest::mysql::splits::{
    formattable_pk, partition_for_worker, worker_pk_range, PkColKind, PkRange, PkSplits,
};

#[test]
fn snapshot_query_duplicate_table() {
    let schema_name = "myschema".to_string();
    let table_name = "mytable".to_string();
    let table = MySqlTableName(schema_name.clone(), table_name.clone());
    let columns = ["c1", "c2", "c3"]
        .iter()
        .map(|col| MySqlColumnDesc {
            name: col.to_string(),
            column_type: None,
        })
        .collect::<Vec<_>>();
    let desc = MySqlTableDesc {
        schema_name: schema_name.clone(),
        name: table_name.clone(),
        columns,
        keys: KeySet::new(),
    };
    let info = SourceOutputInfo {
        output_index: 1, // ignored
        table_name: table.clone(),
        desc,
        text_columns: vec![],
        exclude_columns: vec![],
        initial_gtid_set: vec![],
        resume_upper: vec![],
        export_id: GlobalId::User(1),
        binlog_full_metadata: false,
    };
    let query = build_snapshot_query(&[info.clone(), info], None);
    assert_eq!(
        format!(
            "SELECT `c1`, `c2`, `c3` FROM `{}`.`{}`",
            &schema_name, &table_name
        ),
        query
    );
}

#[test]
fn snapshot_query_with_pk_range() {
    let schema_name = "myschema".to_string();
    let table_name = "mytable".to_string();
    let table = MySqlTableName(schema_name.clone(), table_name.clone());
    let columns = ["id", "name"]
        .iter()
        .map(|col| MySqlColumnDesc {
            name: col.to_string(),
            column_type: None,
        })
        .collect::<Vec<_>>();
    let desc = MySqlTableDesc {
        schema_name: schema_name.clone(),
        name: table_name.clone(),
        columns,
        keys: KeySet::new(),
    };
    let info = SourceOutputInfo {
        output_index: 1,
        table_name: table.clone(),
        desc,
        text_columns: vec![],
        exclude_columns: vec![],
        initial_gtid_set: vec![],
        resume_upper: vec![],
        export_id: GlobalId::User(1),
        binlog_full_metadata: false,
    };

    // Middle worker: both bounds.
    let range = PkRange {
        pk_col: "`id`".to_string(),
        lower: Some("100".to_string()),
        upper: Some("200".to_string()),
    };
    let query = build_snapshot_query(std::slice::from_ref(&info), Some(&range));
    assert_eq!(
        format!(
            "SELECT `id`, `name` FROM `{}`.`{}` WHERE `id` >= 100 AND `id` < 200",
            &schema_name, &table_name
        ),
        query
    );

    // First worker: open start.
    let range = PkRange {
        pk_col: "`id`".to_string(),
        lower: None,
        upper: Some("200".to_string()),
    };
    let query = build_snapshot_query(std::slice::from_ref(&info), Some(&range));
    assert_eq!(
        format!(
            "SELECT `id`, `name` FROM `{}`.`{}` WHERE `id` < 200",
            &schema_name, &table_name
        ),
        query
    );

    // Last worker: open end.
    let range = PkRange {
        pk_col: "`id`".to_string(),
        lower: Some("200".to_string()),
        upper: None,
    };
    let query = build_snapshot_query(std::slice::from_ref(&info), Some(&range));
    assert_eq!(
        format!(
            "SELECT `id`, `name` FROM `{}`.`{}` WHERE `id` >= 200",
            &schema_name, &table_name
        ),
        query
    );
}

#[test]
fn test_worker_pk_range() {
    // Two partitions, boundary at 51.
    let splits = PkSplits {
        pk_col: "`id`".to_string(),
        boundaries: vec!["51".to_string()],
    };
    let r0 = worker_pk_range(&splits, 0).expect("worker 0");
    assert_eq!(r0.pk_col, "`id`");
    assert_eq!(r0.lower, None); // open start
    assert_eq!(r0.upper.as_deref(), Some("51"));
    let r1 = worker_pk_range(&splits, 1).expect("worker 1");
    assert_eq!(r1.lower.as_deref(), Some("51"));
    assert_eq!(r1.upper, None); // open end
    // Beyond the partition count → no work.
    assert!(worker_pk_range(&splits, 2).is_none());

    // Three partitions: the middle worker has both bounds.
    let splits = PkSplits {
        pk_col: "`id`".to_string(),
        boundaries: vec!["34".to_string(), "67".to_string()],
    };
    let r1 = worker_pk_range(&splits, 1).expect("worker 1");
    assert_eq!(r1.lower.as_deref(), Some("34"));
    assert_eq!(r1.upper.as_deref(), Some("67"));
}

#[test]
fn test_partition_for_worker() {
    // The owner takes partition 0; the remaining workers follow round-robin.
    assert_eq!(partition_for_worker(2, 2, 4), 0);
    assert_eq!(partition_for_worker(3, 2, 4), 1);
    assert_eq!(partition_for_worker(0, 2, 4), 2);
    assert_eq!(partition_for_worker(1, 2, 4), 3);
    // Owner 0 is the identity mapping (worker id == partition).
    assert_eq!(partition_for_worker(0, 0, 4), 0);
    assert_eq!(partition_for_worker(3, 0, 4), 3);
    // Every worker maps to a distinct partition, so ranges never overlap.
    let owner = 3;
    let mut seen: Vec<_> = (0..5).map(|w| partition_for_worker(w, owner, 5)).collect();
    seen.sort();
    assert_eq!(seen, vec![0, 1, 2, 3, 4]);
}

#[test]
fn test_formattable_pk() {
    let col = |name: &str, ty: SqlScalarType| MySqlColumnDesc {
        name: name.to_string(),
        column_type: Some(SqlColumnType {
            scalar_type: ty,
            nullable: false,
        }),
    };
    let pk = |cols: &[&str]| {
        let mut keys = KeySet::new();
        keys.insert(MySqlKeyDesc {
            name: "PRIMARY".to_string(),
            is_primary: true,
            columns: cols.iter().map(|c| c.to_string()).collect(),
        });
        keys
    };
    let desc = |columns, keys| MySqlTableDesc {
        schema_name: "s".to_string(),
        name: "t".to_string(),
        columns,
        keys,
    };

    // Single char PK.
    let (name, kind) = formattable_pk(&desc(
        vec![col("id", SqlScalarType::Char { length: None })],
        pk(&["id"]),
    ))
    .expect("char pk supported");
    assert_eq!(name, "`id`");
    assert!(matches!(kind, PkColKind::Text));

    // Composite PK → not supported, fall back.
    assert!(formattable_pk(&desc(
        vec![
            col("a", SqlScalarType::Char { length: None }),
            col("b", SqlScalarType::Int64),
        ],
        pk(&["a", "b"]),
    ))
    .is_none());

    // Unsupported column type in the PK → fall back.
    assert!(formattable_pk(&desc(vec![col("id", SqlScalarType::Bytes)], pk(&["id"]))).is_none());

    // No primary key → fall back.
    assert!(formattable_pk(&desc(vec![col("id", SqlScalarType::Int64)], KeySet::new())).is_none());
}

#[test]
fn integer_keys_are_numeric() {
    for ty in [
        SqlScalarType::Int16,
        SqlScalarType::Int32,
        SqlScalarType::Int64,
        SqlScalarType::UInt16,
        SqlScalarType::UInt32,
        SqlScalarType::UInt64,
    ] {
        assert_eq!(upstream_ingest::mysql::splits::pk_col_kind(&ty), Some(PkColKind::Numeric));
    }
    for ty in [
        SqlScalarType::VarChar { max_length: Some(10) },
        SqlScalarType::String,
    ] {
        assert_eq!(upstream_ingest::mysql::splits::pk_col_kind(&ty), Some(PkColKind::Text));
    }
    assert_eq!(upstream_ingest::mysql::splits::pk_col_kind(&SqlScalarType::Other), None);
}

#[test]
fn key_column_must_exist_and_have_a_type() {
    let mut keys = KeySet::new();
    // A secondary key that sorts before the primary one is passed over.
    assert!(keys.insert(MySqlKeyDesc {
        name: "A".to_string(),
        is_primary: false,
        columns: vec!["other".to_string()],
    }));
    let primary = MySqlKeyDesc {
        name: "PRIMARY".to_string(),
        is_primary: true,
        columns: vec!["i`d".to_string()],
    };
    assert!(keys.insert(primary.clone()));
    assert!(!keys.insert(primary));
    let mut desc = MySqlTableDesc {
        schema_name: "s".to_string(),
        name: "t".to_string(),
        columns: vec![MySqlColumnDesc {
            name: "other".to_string(),
            column_type: None,
        }],
        keys,
    };
    assert!(formattable_pk(&desc).is_none());
    desc.columns.push(MySqlColumnDesc {
        name: "i`d".to_string(),
        column_type: None,
    });
    assert!(formattable_pk(&desc).is_none());
    desc.columns[1].column_type = Some(SqlColumnType {
        scalar_type: SqlScalarType::Int64,
        nullable: false,
    });
    assert_eq!(
        formattable_pk(&desc),
        Some(("`i``d`".to_string(), PkColKind::Numeric))
    );
}

#[test]
fn least_primary_key_counts() {
    let key = |name: &str, columns: &[&str]| MySqlKeyDesc {
        name: name.to_string(),
        is_primary: true,
        columns: columns.iter().map(|c| c.to_string()).collect(),
    };
    let mut keys = KeySet::new();
    keys.insert(key("B", &["b"]));
    keys.insert(key("A", &["a", "b"]));
    keys.insert(key("A", &["a"]));
    assert_eq!(keys.primary().unwrap().name, "A");
    assert_eq!(keys.primary().unwrap().columns, vec!["a".to_string()]);
    assert_eq!(keys.clone().primary().unwrap().columns, vec!["a".to_string()]);
}
