use juicydb::db::DBType;
use juicydb::db::DBValue;
use juicydb::db::Database;
use juicydb::db::Schema;
use juicydb::db::Table;
use juicydb::parser::Command;
use juicydb::parser::ParseError;
use juicydb::parser::Parser;
use juicydb::parser::Statement;
use juicydb::storage_manager::StorageError;
use juicydb::storage_manager::StorageManager;

fn people() -> Schema {
    Schema::from(vec![
        (String::from("id"), DBType::Integer),
        (String::from("name"), DBType::Text),
        (String::from("town"), DBType::Text),
    ])
}

fn select(columns: &[&str], table: &str) -> Statement {
    Statement::Select {
        columns: columns.iter().map(|c| String::from(*c)).collect(),
        table: String::from(table),
        condition: None,
    }
}

#[test]
fn schema_finds_columns() {
    let schema = people();
    assert_eq!(schema.len(), 3);
    assert_eq!(schema.get_field_type("name"), Some(DBType::Text));
    assert_eq!(schema.get_field_type("id"), Some(DBType::Integer));
    assert_eq!(schema.get_field_type("age"), None);
    assert_eq!(schema.position("town"), Some(2));
    assert_eq!(
        schema.get_column_indices(vec![String::from("town"), String::from("id")]),
        Some(vec![2, 0])
    );
    assert_eq!(
        schema.get_column_indices(vec![String::from("town"), String::from("x")]),
        None
    );
    assert_eq!(schema.get_column_indices(Vec::new()), Some(Vec::new()));
    assert_eq!(
        schema.type_check(vec![DBType::Integer, DBType::Text, DBType::Text]),
        Some(())
    );
    assert_eq!(schema.type_check(vec![DBType::Integer, DBType::Text]), None);
    assert_eq!(
        schema.type_check(vec![DBType::Text, DBType::Text, DBType::Text]),
        None
    );
    assert_eq!(Schema::new().len(), 0);
    assert_eq!(Schema::new().type_check(Vec::new()), Some(()));
}

#[test]
fn first_column_of_a_name_wins() {
    let schema = Schema::from(vec![
        (String::from("a"), DBType::Integer),
        (String::from("a"), DBType::Text),
    ]);
    assert_eq!(schema.get_field_type("a"), Some(DBType::Integer));
    assert_eq!(schema.position("a"), Some(0));
}

#[test]
fn table_holds_rows_in_order() {
    let mut table = Table::new(people());
    assert_eq!(table.rows().len(), 0);
    table.push(vec![DBValue::Integer(1)]);
    table.rows_mut().push(vec![DBValue::Integer(2)]);
    assert_eq!(
        table.rows(),
        &vec![vec![DBValue::Integer(1)], vec![DBValue::Integer(2)]]
    );
    assert_eq!(table.schema().len(), 3);
    assert_eq!(DBValue::Integer(3).val_to_type(), DBType::Integer);
    assert_eq!(DBValue::Text(String::new()).val_to_type(), DBType::Text);
}

#[test]
fn database_hands_out_its_tables() {
    let mut database = Database::new(
        String::from("main"),
        vec![
            (String::from("a"), Table::new(people())),
            (String::from("b"), Table::new(Schema::new())),
        ],
    );
    assert!(database.get_table("c").is_none());
    database.get_table("b").unwrap().push(vec![DBValue::Integer(5)]);
    assert_eq!(database.get_table("b").unwrap().rows().len(), 1);
    assert_eq!(database.get_table("a").unwrap().rows().len(), 0);
}

#[test]
fn registry_checks_names_and_types() {
    let mut storage = StorageManager::new();
    assert_eq!(storage.create_table(String::from("people"), people()), Ok(()));
    assert_eq!(
        storage.create_table(String::from("people"), Schema::new()),
        Err(StorageError::TableNameAlreadyInUse)
    );
    assert_eq!(
        storage.insert_into(String::from("nobody"), vec![DBValue::Integer(1)]),
        Err(StorageError::TableNotFound)
    );
    assert_eq!(
        storage.insert_into(String::from("people"), vec![DBValue::Integer(1)]),
        Err(StorageError::TypeError)
    );
    assert_eq!(
        storage.insert_into(
            String::from("people"),
            vec![
                DBValue::Integer(1),
                DBValue::Text(String::from("Ada")),
                DBValue::Text(String::from("London")),
            ]
        ),
        Ok(())
    );
    assert_eq!(
        storage.insert_into(
            String::from("people"),
            vec![
                DBValue::Integer(2),
                DBValue::Text(String::from("Kurt")),
                DBValue::Text(String::from("Wien")),
            ]
        ),
        Ok(())
    );
    assert_eq!(
        storage.query(select(&["town", "id"], "people")),
        Ok(vec![
            vec![DBValue::Text(String::from("London")), DBValue::Integer(1)],
            vec![DBValue::Text(String::from("Wien")), DBValue::Integer(2)],
        ])
    );
    assert_eq!(
        storage.query(select(&["town", "age"], "people")),
        Err(StorageError::SchemaMismatch)
    );
    assert_eq!(
        storage.query(select(&["town"], "towns")),
        Err(StorageError::TableNotFound)
    );
    assert_eq!(
        storage.query(Statement::InsertInto {
            table: String::from("people"),
            values: Vec::new()
        }),
        Ok(Vec::new())
    );
}

#[test]
fn statements_run_from_text() {
    let mut storage = StorageManager::new();
    for line in [
        "create table t (a integer, b text);",
        "insert into t values (-12, 'x y');",
        "  insert   into t values(9223372036854775807,'');",
        "insert into t values (-9223372036854775808, 'low');",
    ] {
        match Parser::new(line).parse_command() {
            Ok(Command::Statement(Statement::CreateTable { table, columns })) => {
                assert_eq!(storage.create_table(table, Schema::from(columns)), Ok(()));
            }
            Ok(Command::Statement(Statement::InsertInto { table, values })) => {
                assert_eq!(storage.insert_into(table, values), Ok(()));
            }
            other => panic!("{:?}", other),
        }
    }
    let query = match Parser::new("select (b, a) from t;").parse_command() {
        Ok(Command::Statement(stmt)) => stmt,
        other => panic!("{:?}", other),
    };
    assert_eq!(
        storage.query(query),
        Ok(vec![
            vec![DBValue::Text(String::from("x y")), DBValue::Integer(-12)],
            vec![DBValue::Text(String::new()), DBValue::Integer(i64::MAX)],
            vec![DBValue::Text(String::from("low")), DBValue::Integer(i64::MIN)],
        ])
    );
}

#[test]
fn each_parse_error_has_its_input() {
    let parse = |input: &str| Parser::new(input).parse_command();
    assert_eq!(parse(""), Err(ParseError::EndOfInput));
    assert_eq!(parse("   "), Err(ParseError::EndOfInput));
    assert_eq!(parse("."), Err(ParseError::UnrecognizedMetaCommand));
    assert_eq!(parse(".quit"), Err(ParseError::UnrecognizedMetaCommand));
    assert_eq!(parse("drop table t;"), Err(ParseError::UnrecognizedStatement));
    assert_eq!(parse("select col from t;"), Err(ParseError::MissingLParen));
    assert_eq!(parse("select (a b) from t;"), Err(ParseError::MissingComma));
    assert_eq!(parse("select (a; from t;"), Err(ParseError::MissingRParen));
    assert_eq!(parse("select (a) t;"), Err(ParseError::MissingFrom));
    assert_eq!(parse("create table t (a);"), Err(ParseError::UnrecognizedType));
    assert_eq!(parse("create table t (a"), Err(ParseError::MissingType));
    assert_eq!(parse("create table t (a real);"), Err(ParseError::UnrecognizedType));
    assert_eq!(parse("insert into t values ('abc);"), Err(ParseError::RunawayText));
    assert_eq!(parse("insert into t values (1"), Err(ParseError::MissingRParen));
    assert_eq!(
        parse("insert into t values (9223372036854775808);"),
        Err(ParseError::InvalidValue)
    );
    assert_eq!(
        parse("insert into t values (-9223372036854775809);"),
        Err(ParseError::InvalidValue)
    );
    assert_eq!(parse("insert into t values (1, );"), Err(ParseError::InvalidValue));
    assert_eq!(parse("select (a) from"), Err(ParseError::EndOfInput));
    assert_eq!(parse("select (a) from 9;"), Err(ParseError::InvalidIdentifier));
}

#[test]
fn parser_leaves_what_it_does_not_take() {
    let parse = |input: &str| Parser::new(input).parse_command();
    assert_eq!(
        parse("\t.exit and more"),
        Ok(Command::MetaCommand(juicydb::parser::MetaCommand::Exit))
    );
    assert_eq!(
        parse("\u{a0}select\u{2003}(a)\u{3000}from t ;"),
        Ok(Command::Statement(select(&["a"], "t")))
    );
    assert_eq!(
        parse("insert into t values ('héllo wörld', 007);"),
        Ok(Command::Statement(Statement::InsertInto {
            table: String::from("t"),
            values: vec![
                DBValue::Text(String::from("héllo wörld")),
                DBValue::Integer(7)
            ],
        }))
    );
    assert_eq!(
        parse("select (a) from t where a = b;"),
        Err(ParseError::UnrecognizedStatement)
    );
    assert_eq!(parse("select (a) from t where"), Err(ParseError::EndOfInput));
}
