use upstream_ingest::mysql::desc::MySqlTableName;
use upstream_ingest::order::str_before;
use upstream_ingest::text::{decimal_text, join, quote_identifier, quoted};

fn strings(list: &[&str]) -> Vec<String> {
    list.iter().map(|s| s.to_string()).collect()
}

fn table(schema: &str, name: &str) -> MySqlTableName {
    MySqlTableName(schema.to_string(), name.to_string())
}

#[test]
fn numbers_are_decimal() {
    assert_eq!(decimal_text(0), "0");
    assert_eq!(decimal_text(9), "9");
    assert_eq!(decimal_text(10), "10");
    assert_eq!(decimal_text(120_305), "120305");
    assert_eq!(decimal_text(u128::MAX), u128::MAX.to_string());
}

#[test]
fn identifiers_are_quoted() {
    assert_eq!(quote_identifier(""), "``");
    assert_eq!(quote_identifier("id"), "`id`");
    assert_eq!(quote_identifier("a`b``"), "`a``b`````");
    assert_eq!(quote_identifier("näme\""), "`näme\"`");
}

#[test]
fn quoting_keeps_identifiers_apart() {
    let names = ["", "`", "``", "a", "a`", "`a", "a``b", "a`b"];
    for a in names {
        for b in names {
            assert_eq!(quote_identifier(a) == quote_identifier(b), a == b);
        }
    }
}

#[test]
fn names_are_quoted_for_readers() {
    assert_eq!(quoted(""), "\"\"");
    assert_eq!(quoted("say \"hi\""), "\"say \\\"hi\\\"\"");
    assert_eq!(quoted("back\\slash"), "\"back\\slash\"");
}

#[test]
fn parts_are_joined() {
    assert_eq!(join(&[], ", "), "");
    assert_eq!(join(&strings(&["a"]), ", "), "a");
    assert_eq!(join(&strings(&["a", "", "c"]), ", "), "a, , c");
}

#[test]
fn tables_are_named_by_schema_and_name() {
    assert_eq!(table("my`schema", "t").to_string(), "`my``schema`.`t`");
    // The dot stays inside the quotes.
    assert_ne!(table("a.b", "c").to_string(), table("a", "b.c").to_string());
    assert_ne!(table("a`.`b", "c").to_string(), table("a", "b`.`c").to_string());
}

#[test]
fn tables_are_ordered_by_schema_and_name() {
    assert!(table("a", "z").before(&table("b", "a")));
    assert!(table("a", "y").before(&table("a", "z")));
    assert!(!table("a", "z").before(&table("a", "z")));
    assert!(!table("b", "a").before(&table("a", "z")));
    assert!(table("a", "z").same(&table("a", "z").clone()));
    assert!(!table("a", "z").same(&table("z", "a")));
}

#[test]
fn strings_are_ordered_as_usual() {
    let list = ["", "A", "Z", "a", "aa", "ab", "b", "é", "ü", "\u{1F600}", "\u{FFFD}"];
    for a in list {
        for b in list {
            assert_eq!(str_before(a, b), a < b, "{a} {b}");
        }
    }
}
