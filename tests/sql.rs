use relational_db::errors::DBError;
use relational_db::sql::{filter_of, parse, Statement};

fn owned(v: &[&str]) -> Vec<String> {
    v.iter().map(|s| s.to_string()).collect()
}

#[test]
fn create_table_statement() {
    match parse("create table test (id int, name text, height double, is_fox bool)").unwrap() {
        Statement::CreateTable { table, columns } => {
            assert_eq!(table, "test");
            assert_eq!(
                columns,
                vec![
                    ("id".to_string(), "int".to_string()),
                    ("name".to_string(), "text".to_string()),
                    ("height".to_string(), "double".to_string()),
                    ("is_fox".to_string(), "bool".to_string()),
                ]
            );
        }
        _ => panic!("expected create table"),
    }
}

#[test]
fn insert_statement() {
    match parse("insert into test values (1, 'vanutp', 1.0, true)").unwrap() {
        Statement::Insert { table, values } => {
            assert_eq!(table, "test");
            assert_eq!(values, owned(&["1", "'vanutp'", "1.0", "true"]));
        }
        _ => panic!("expected insert"),
    }
}

#[test]
fn select_statements() {
    match parse("select * from test").unwrap() {
        Statement::Select { table, columns, filter } => {
            assert_eq!(table, "test");
            assert!(columns.is_none());
            assert!(filter.is_none());
        }
        _ => panic!("expected select"),
    }
    match parse("select id, name from test where id >= 2").unwrap() {
        Statement::Select { table, columns, filter } => {
            assert_eq!(table, "test");
            assert_eq!(columns.unwrap(), owned(&["id", "name"]));
            let f = filter.unwrap();
            assert_eq!((f.column.as_str(), f.op.as_str(), f.value.as_str()), ("id", ">", "= 2"));
        }
        _ => panic!("expected select"),
    }
}

#[test]
fn update_and_delete_statements() {
    match parse("update test set name = 'smol', height=2.5 where id = 1").unwrap() {
        Statement::Update { table, assignments, filter } => {
            assert_eq!(table, "test");
            assert_eq!(
                assignments,
                vec![
                    ("name".to_string(), "'smol'".to_string()),
                    ("height".to_string(), "2.5".to_string()),
                ]
            );
            let f = filter.unwrap();
            assert_eq!((f.column.as_str(), f.op.as_str(), f.value.as_str()), ("id", "=", "1"));
        }
        _ => panic!("expected update"),
    }
    match parse("delete from test").unwrap() {
        Statement::Delete { table, filter } => {
            assert_eq!(table, "test");
            assert!(filter.is_none());
        }
        _ => panic!("expected delete"),
    }
    match parse("drop table test").unwrap() {
        Statement::DropTable { table } => assert_eq!(table, "test"),
        _ => panic!("expected drop"),
    }
}

#[test]
fn malformed_statements_are_parse_errors() {
    assert!(matches!(parse("explain select"), Err(DBError::Parse(_))));
    assert!(matches!(parse("select from"), Err(DBError::Parse(_))));
    assert!(matches!(parse("create table t ()"), Err(DBError::Parse(_))));
    assert!(matches!(filter_of("id"), Err(DBError::Parse(_))));
    let f = filter_of("name != 'x'").unwrap();
    assert_eq!((f.column.as_str(), f.op.as_str(), f.value.as_str()), ("name", "!=", "'x'"));
}

#[test]
fn whitespace_matches_std() {
    for u in 0..=0x10FFFFu32 {
        if let Some(c) = char::from_u32(u) {
            assert_eq!(relational_db::sql::is_whitespace(c), c.is_whitespace(), "{:x}", u);
        }
    }
}
