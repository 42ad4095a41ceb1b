use hydra::tables::{valuespec2value, Filter, Link, ObjectSpec, Spec, TableSpec, ValueSpec};
use hydra::values::SqlValue;

fn link(src: &str, dest: &str, src_fk: &str, dest_fk: &str) -> Link {
    Link {
        src: src.to_string(),
        dest: dest.to_string(),
        src_fk: src_fk.to_string(),
        dest_fk: dest_fk.to_string(),
    }
}

fn no_users() -> ObjectSpec {
    ObjectSpec { tables: vec![], id: ("target".to_string(), "target_fk".to_string()) }
}

fn chain() -> Spec {
    Spec::new(
        &vec!["target".to_string(), "intermediate".to_string(), "start".to_string()],
        &vec![
            link("intermediate", "target", "int_fk", "target_fk"),
            link("start", "intermediate", "start_fk", "int_fk"),
        ],
        no_users(),
    )
    .unwrap()
}

fn filter(table: &str, col: &str, val: SqlValue) -> Filter {
    Filter { table: table.to_string(), col: col.to_string(), val }
}

#[test]
fn test_query_joined() {
    let spec = Spec::new(
        &vec![
            "target".to_string(),
            "intermediate".to_string(),
            "start".to_string(),
        ],
        &vec![
            Link {
                src: "intermediate".to_string(),
                dest: "target".to_string(),
                src_fk: "int_fk".to_string(),
                dest_fk: "target_fk".to_string(),
            },
            Link {
                src: "start".to_string(),
                dest: "intermediate".to_string(),
                src_fk: "start_fk".to_string(),
                dest_fk: "int_fk".to_string(),
            },
        ],
        ObjectSpec {
            tables: vec![],
            id: ("target".to_string(), "target_fk".to_string()),
        },
    )
    .unwrap();
    assert_eq!(
        spec.select_with_filters(
            &"target".to_string(),
            &vec![Filter {
                table: "start".to_string(),
                col: "col".to_string(),
                val: SqlValue::Int(1),
            }],
        ),
        Some("SELECT * FROM target JOIN intermediate ON intermediate.int_fk = target.target_fk JOIN start ON start.start_fk = intermediate.int_fk WHERE start.col = 1".to_string())
    );
}

#[test]
fn a_filter_on_the_target_needs_no_join() {
    let spec = chain();
    assert_eq!(
        spec.select_with_filters(&"target".to_string(), &vec![filter("target", "id", SqlValue::UInt(7))]),
        Some("SELECT * FROM target  WHERE target.id = 7".to_string())
    );
}

#[test]
fn no_filters_select_everything() {
    let spec = chain();
    assert_eq!(
        spec.select_with_filters(&"target".to_string(), &vec![]),
        Some("SELECT * FROM target  ".to_string())
    );
}

#[test]
fn a_table_is_joined_once() {
    let spec = chain();
    let filters = vec![
        filter("intermediate", "a", SqlValue::Int(1)),
        filter("start", "b", SqlValue::Null),
        filter("intermediate", "c", SqlValue::Int(-3)),
    ];
    assert_eq!(
        spec.select_with_filters(&"target".to_string(), &filters),
        Some("SELECT * FROM target JOIN intermediate ON intermediate.int_fk = target.target_fk JOIN start ON start.start_fk = intermediate.int_fk WHERE intermediate.a = 1 AND start.b = NULL AND intermediate.c = -3".to_string())
    );
}

#[test]
fn a_later_link_for_the_same_tables_replaces_an_earlier_one() {
    let spec = Spec::new(
        &vec!["t".to_string(), "s".to_string()],
        &vec![link("s", "t", "old_fk", "id"), link("s", "t", "new_fk", "id")],
        no_users(),
    )
    .unwrap();
    assert_eq!(
        spec.select_with_filters(&"t".to_string(), &vec![filter("s", "x", SqlValue::Int(0))]),
        Some("SELECT * FROM t JOIN s ON s.new_fk = t.id WHERE s.x = 0".to_string())
    );
}

#[test]
fn an_unknown_table_gives_no_query() {
    let spec = chain();
    let target = "target".to_string();
    assert_eq!(spec.select_with_filters(&target, &vec![filter("nowhere", "a", SqlValue::Int(1))]), None);
    assert_eq!(
        spec.select_with_filters(&"nowhere".to_string(), &vec![filter("start", "a", SqlValue::Int(1))]),
        None
    );
}

#[test]
fn no_path_gives_no_query() {
    // links lead from start to target, not back
    let spec = chain();
    assert_eq!(
        spec.select_with_filters(&"start".to_string(), &vec![filter("target", "a", SqlValue::Int(1))]),
        None
    );
}

#[test]
fn a_table_without_links_gives_no_query() {
    let spec = Spec::new(
        &vec!["a".to_string(), "b".to_string(), "lonely".to_string()],
        &vec![link("b", "a", "a_id", "id")],
        no_users(),
    )
    .unwrap();
    assert_eq!(
        spec.select_with_filters(&"a".to_string(), &vec![filter("lonely", "x", SqlValue::Int(1))]),
        None
    );
    assert!(spec.select_with_filters(&"a".to_string(), &vec![filter("b", "x", SqlValue::Int(1))]).is_some());
}

#[test]
fn a_value_that_cannot_be_written_gives_no_query() {
    let spec = chain();
    let too_long = SqlValue::Time(false, u32::MAX, 23, 0, 0, 0);
    assert_eq!(spec.select_with_filters(&"target".to_string(), &vec![filter("target", "t", too_long)]), None);
}

#[test]
fn spec_wants_the_tables_of_its_links() {
    let tables = vec!["a".to_string()];
    assert!(Spec::new(&tables, &vec![link("a", "b", "x", "y")], no_users()).is_none());
    assert!(Spec::new(&tables, &vec![link("b", "a", "x", "y")], no_users()).is_none());
    assert!(Spec::new(&tables, &vec![], no_users()).is_some());
    assert!(Spec::new(&vec![], &vec![], no_users()).is_some());
}

#[test]
fn find_table_gives_the_last_index() {
    let spec = Spec::new(
        &vec!["a".to_string(), "b".to_string(), "a".to_string()],
        &vec![link("a", "b", "x", "y")],
        no_users(),
    )
    .unwrap();
    assert_eq!(spec.find_table(&"a".to_string()), Some(2));
    assert_eq!(spec.find_table(&"b".to_string()), Some(1));
    assert_eq!(spec.find_table(&"c".to_string()), None);
    assert_eq!(spec.find_link(&"a".to_string(), &"b".to_string()), Some(0));
    assert_eq!(spec.find_link(&"b".to_string(), &"a".to_string()), None);
}

#[test]
fn values_are_written_as_the_client_library_writes_them() {
    let cases = vec![
        (SqlValue::Null, mysql::Value::NULL),
        (SqlValue::Int(-5), mysql::Value::Int(-5)),
        (SqlValue::UInt(u64::MAX), mysql::Value::UInt(u64::MAX)),
        (SqlValue::Bytes(b"it's".to_vec()), mysql::Value::Bytes(b"it's".to_vec())),
        (SqlValue::Bytes(vec![0xff, 0x00]), mysql::Value::Bytes(vec![0xff, 0x00])),
        (SqlValue::Date(2020, 1, 2, 0, 0, 0, 0), mysql::Value::Date(2020, 1, 2, 0, 0, 0, 0)),
        (SqlValue::Date(2020, 1, 2, 3, 4, 5, 6), mysql::Value::Date(2020, 1, 2, 3, 4, 5, 6)),
        (SqlValue::Time(true, 2, 3, 4, 5, 0), mysql::Value::Time(true, 2, 3, 4, 5, 0)),
    ];
    for (ours, theirs) in cases {
        assert_eq!(ours.as_sql(), Some(theirs.as_sql(false)));
    }
    assert_eq!(SqlValue::Int(1).as_sql(), Some("1".to_string()));
    assert_eq!(SqlValue::Null.as_sql(), Some("NULL".to_string()));
    assert_eq!(SqlValue::Date(2020, 1, 2, 0, 0, 0, 0).as_sql(), Some("'2020-01-02'".to_string()));
    assert_eq!(SqlValue::Time(false, 1, 1, 0, 0, 0).as_sql(), Some("'025:00:00'".to_string()));
}

#[test]
fn a_time_beyond_32_bits_of_hours_is_not_written() {
    assert_eq!(SqlValue::Time(false, u32::MAX / 24 + 1, 0, 0, 0, 0).as_sql(), None);
    assert_eq!(SqlValue::Time(false, u32::MAX / 24, 16, 0, 0, 0).as_sql(), None);
    assert!(SqlValue::Time(false, u32::MAX / 24, 15, 0, 0, 0).as_sql().is_some());
}

#[test]
fn constant_value_specs_give_their_value() {
    assert_eq!(valuespec2value(&ValueSpec::ConstNum(7)), SqlValue::UInt(7));
    assert_eq!(
        valuespec2value(&ValueSpec::ConstStr("héllo".to_string())),
        SqlValue::Bytes("héllo".as_bytes().to_vec())
    );
    assert_eq!(valuespec2value(&ValueSpec::Bool(true)), SqlValue::Int(1));
    assert_eq!(valuespec2value(&ValueSpec::Bool(false)), SqlValue::Int(0));
    assert_eq!(
        valuespec2value(&ValueSpec::ConstDate { year: 1999, month: 12, day: 31 }),
        SqlValue::Date(1999, 12, 31, 0, 0, 0, 0)
    );
    assert_eq!(valuespec2value(&ValueSpec::Null), SqlValue::Null);
}

#[test]
fn random_value_specs_stay_in_their_bounds() {
    for _ in 0..50 {
        match valuespec2value(&ValueSpec::RandNum { lb: 10, ub: 13 }) {
            SqlValue::UInt(n) => assert!((10..13).contains(&n)),
            other => panic!("{:?}", other),
        }
        match valuespec2value(&ValueSpec::RandStr { len: 12 }) {
            SqlValue::Bytes(b) => {
                assert_eq!(b.len(), 12);
                assert!(b.iter().all(|c| c.is_ascii_alphanumeric()));
            }
            other => panic!("{:?}", other),
        }
        match valuespec2value(&ValueSpec::RandEmail) {
            SqlValue::Bytes(b) => {
                assert_eq!(b.len(), 29);
                assert!(b[..20].iter().all(|c| c.is_ascii_alphanumeric()));
                assert_eq!(&b[20..], b"@anon.com");
            }
            other => panic!("{:?}", other),
        }
        match valuespec2value(&ValueSpec::RandPhone) {
            SqlValue::Bytes(b) => {
                assert_eq!(b.len(), 9);
                assert!(b.iter().all(|c| c.is_ascii_digit()));
            }
            other => panic!("{:?}", other),
        }
    }
    assert_eq!(valuespec2value(&ValueSpec::RandNum { lb: 4, ub: 5 }), SqlValue::UInt(4));
    assert_eq!(valuespec2value(&ValueSpec::RandStr { len: 0 }), SqlValue::Bytes(vec![]));
}

fn users_table() -> TableSpec {
    TableSpec {
        table: "users".to_string(),
        columns: vec!["id".to_string(), "name".to_string(), "admin".to_string()],
        values: vec![
            ValueSpec::ConstNum(7),
            ValueSpec::ConstStr("bob".to_string()),
            ValueSpec::Bool(false),
        ],
    }
}

#[test]
fn insert_statement_lists_columns_and_values() {
    let ts = users_table();
    let values = vec!["7".to_string(), "'bob'".to_string(), "0".to_string()];
    let id = ("users".to_string(), "name".to_string());
    assert_eq!(
        ts.insert_statement(&values, Some(&id)),
        ("INSERT INTO users (id,name,admin) VALUES (7,'bob',0)".to_string(), Some("'bob'".to_string()))
    );
    let other_table = ("posts".to_string(), "name".to_string());
    assert_eq!(ts.insert_statement(&values, Some(&other_table)).1, None);
    let other_column = ("users".to_string(), "email".to_string());
    assert_eq!(ts.insert_statement(&values, Some(&other_column)).1, None);
    assert_eq!(ts.insert_statement(&values, None).1, None);
}

#[test]
fn insert_statement_returns_the_first_column_of_that_name() {
    let ts = TableSpec {
        table: "t".to_string(),
        columns: vec!["a".to_string(), "b".to_string(), "b".to_string()],
        values: vec![],
    };
    let values = vec!["1".to_string(), "2".to_string(), "3".to_string()];
    let id = ("t".to_string(), "b".to_string());
    assert_eq!(
        ts.insert_statement(&values, Some(&id)),
        ("INSERT INTO t (a,b,b) VALUES (1,2,3)".to_string(), Some("2".to_string()))
    );
}

#[test]
fn insert_row_writes_the_values_it_makes() {
    let ts = users_table();
    let id = ("users".to_string(), "id".to_string());
    assert_eq!(
        ts.insert_row(Some(&id)),
        ("INSERT INTO users (id,name,admin) VALUES (7,'bob',0)".to_string(), Some("7".to_string()))
    );
}

#[test]
fn insert_row_draws_anew_each_time() {
    let ts = TableSpec {
        table: "users".to_string(),
        columns: vec!["email".to_string()],
        values: vec![ValueSpec::RandEmail],
    };
    let id = ("users".to_string(), "email".to_string());
    let (statement, email) = ts.insert_row(Some(&id));
    let email = email.unwrap();
    assert_eq!(statement, format!("INSERT INTO users (email) VALUES ({})", email));
    assert!(email.ends_with("@anon.com'"));
    assert_eq!(email.len(), 31);
    assert_ne!(ts.insert_row(Some(&id)).1, Some(email));
}

#[test]
fn create_user_inserts_into_every_table() {
    let user_spec = ObjectSpec {
        id: ("users".to_string(), "id".to_string()),
        tables: vec![
            users_table(),
            TableSpec {
                table: "profiles".to_string(),
                columns: vec!["id".to_string()],
                values: vec![ValueSpec::ConstNum(9)],
            },
        ],
    };
    assert_eq!(
        user_spec.insert_rows(),
        (
            vec![
                "INSERT INTO users (id,name,admin) VALUES (7,'bob',0)".to_string(),
                "INSERT INTO profiles (id) VALUES (9)".to_string(),
            ],
            "7".to_string()
        )
    );
    let spec = Spec::new(&vec![], &vec![], user_spec).unwrap();
    let (statements, uid) = spec.create_user();
    assert_eq!(statements.len(), 2);
    assert_eq!(uid, "7");
}

#[test]
fn a_user_without_an_identifying_column_has_an_empty_identifier() {
    let user_spec = ObjectSpec {
        id: ("accounts".to_string(), "id".to_string()),
        tables: vec![users_table()],
    };
    let (statements, uid) = user_spec.insert_rows();
    assert_eq!(statements.len(), 1);
    assert_eq!(uid, "");
    assert_eq!(no_users().insert_rows(), (vec![], String::new()));
}

#[test]
fn a_table_spec_is_usable_with_a_value_in_the_identifying_column() {
    let id = ("t".to_string(), "b".to_string());
    assert!(users_table().is_usable(None));
    let short = TableSpec {
        table: "t".to_string(),
        columns: vec!["a".to_string(), "b".to_string()],
        values: vec![ValueSpec::Null],
    };
    // no value in the column "b"
    assert!(!short.is_usable(Some(&id)));
    // but one in "a", and none is needed where no identifier is asked for
    assert!(short.is_usable(Some(&("t".to_string(), "a".to_string()))));
    assert!(short.is_usable(Some(&("t".to_string(), "c".to_string()))));
    assert!(short.is_usable(Some(&("u".to_string(), "b".to_string()))));
    assert!(short.is_usable(None));
    assert_eq!(
        short.insert_row(None),
        ("INSERT INTO t (a,b) VALUES (NULL)".to_string(), None)
    );
    let empty_range = TableSpec {
        table: "t".to_string(),
        columns: vec!["a".to_string()],
        values: vec![ValueSpec::RandNum { lb: 5, ub: 5 }],
    };
    assert!(!empty_range.is_usable(None));
    let users = ObjectSpec {
        id: ("t".to_string(), "a".to_string()),
        tables: vec![users_table(), empty_range],
    };
    assert!(!users.is_usable());
    let short_users = ObjectSpec { id, tables: vec![short] };
    assert!(!short_users.is_usable());
    assert!(no_users().is_usable());
}
