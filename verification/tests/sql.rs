use hydra::sql::{
    escape_quotes_mysql, is_string_numeric, remove_escaped_chars, schema_statements,
    str_select_statement, NULLSTR,
};
use hydra::text::join;

#[test]
fn null_is_written_in_capitals() {
    assert_eq!(NULLSTR, "NULL");
}

#[test]
fn select_statement_reads_from_the_table_itself_by_default() {
    assert_eq!(
        str_select_statement("users", "", "id = 3"),
        "SELECT users.* FROM users WHERE id = 3"
    );
}

#[test]
fn select_statement_reads_from_what_it_is_given() {
    assert_eq!(
        str_select_statement("users", "users JOIN posts ON users.id = posts.uid", "posts.id = 3"),
        "SELECT users.* FROM users JOIN posts ON users.id = posts.uid WHERE posts.id = 3"
    );
}

#[test]
fn quotes_are_doubled() {
    assert_eq!(escape_quotes_mysql("it's"), "it''s");
    assert_eq!(escape_quotes_mysql("say \"hi\""), "say \"\"hi\"\"");
    assert_eq!(escape_quotes_mysql("plain"), "plain");
    assert_eq!(escape_quotes_mysql("'\"'"), "''\"\"''");
}

#[test]
fn doubled_quotes_are_made_single() {
    assert_eq!(remove_escaped_chars("it''s"), "it's");
    assert_eq!(remove_escaped_chars("say \"\"hi\"\""), "say \"hi\"");
    assert_eq!(remove_escaped_chars(&escape_quotes_mysql("it's \"so\"")), "it's \"so\"");
}

#[test]
fn empty_strings_in_serialised_values_stay() {
    // an empty string at the end of an object is no escaped quote
    assert_eq!(remove_escaped_chars("{\"a\":\"\"}"), "{\"a\":\"\"}");
    // nor is a lone pair of single quotes between double quotes
    assert_eq!(remove_escaped_chars("\"''\""), "\"''\"");
}

#[test]
fn numeric_strings() {
    assert!(is_string_numeric("0123456789"));
    assert!(is_string_numeric(""));
    assert!(!is_string_numeric("12a"));
    assert!(!is_string_numeric("-1"));
    assert!(!is_string_numeric("1.5"));
    // numeric by Unicode, not by ASCII alone
    assert!(is_string_numeric("\u{0663}\u{00bd}"));
}

#[test]
fn schema_statements_keep_what_creates() {
    let schema = "-- users\nCREATE TABLE users (\nid int,\nname text);\n\nSELECT 1;\ncreate index i on users (id);\nDROP TABLE x;\n";
    assert_eq!(
        schema_statements(schema),
        vec![
            "CREATE TABLE users (id int,name text);".to_string(),
            "create index i on users (id);".to_string(),
        ]
    );
}

#[test]
fn schema_statements_need_a_semicolon_at_a_line_end() {
    assert_eq!(schema_statements("CREATE TABLE t (a int)"), Vec::<String>::new());
    assert_eq!(schema_statements("CREATE TABLE t (a int); -- done"), Vec::<String>::new());
    assert_eq!(schema_statements(""), Vec::<String>::new());
    // a statement that was passed over does not run into the next
    assert_eq!(
        schema_statements("SELECT 1;\nCREATE VIEW v AS SELECT 1;"),
        vec!["CREATE VIEW v AS SELECT 1;".to_string()]
    );
    // an unfinished statement runs into the next line
    assert_eq!(
        schema_statements("SELECT 1\nCREATE VIEW v AS SELECT 2;"),
        vec!["SELECT 1CREATE VIEW v AS SELECT 2;".to_string()]
    );
}

#[test]
fn join_puts_the_separator_between() {
    let parts = vec!["a".to_string(), "b".to_string(), "c".to_string()];
    assert_eq!(join(&parts, ","), "a,b,c");
    assert_eq!(join(&parts, " AND "), "a AND b AND c");
    assert_eq!(join(&vec!["x".to_string()], ","), "x");
    assert_eq!(join(&vec![], ","), "");
    assert_eq!(join(&vec![String::new(), String::new()], "-"), "-");
}
