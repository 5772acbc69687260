use simple_db::{
    Column, ColumnName, ColumnType, Command, DbError, InsertStatement, MetaCommand,
    SelectStatement, StatementCommand, TableDefinition, TableName, Value,
};

#[test]
fn test_write() -> simple_db::BEResult<()> {
    Ok(())
}

#[test]
fn test_valid_select_with_single_column() -> simple_db::SError<()> {
    let statement = "select name from student;";
    let parse_statement = SelectStatement::from_str(statement)?;

    assert_eq!(parse_statement.0 .0.as_str(), "student");
    let expected_columns: Vec<ColumnName> = vec![ColumnName::from("name")];
    assert_eq!(expected_columns, parse_statement.1);

    Ok(())
}

#[test]
fn test_invalid_comma() -> simple_db::SError<()> {
    let statement = "select name, from student;";
    let Err(err) = SelectStatement::from_str(statement) else {
        panic!("Error expected");
    };

    let is_statement_error = match err {
        DbError::StatementError(_) => true,
        _ => false,
    };
    assert_eq!(true, is_statement_error);

    Ok(())
}

#[test]
fn parse_test_with_value() -> Result<(), String> {
    let command = "insert into test VALUEs (one, two, 1234, five);";
    let insert_command = InsertStatement::parse_prefix(command)
        .map_err(|err| format!("Failed with error {:?}", err))?;

    assert_eq!(
        insert_command.1,
        InsertStatement(
            TableName(String::from("test")),
            vec![
                Value::new_unnamed_value("one"),
                Value::new_unnamed_value("two"),
                Value::new_unnamed_value("1234"),
                Value::new_unnamed_value("five")
            ]
        )
    );
    Ok(())
}

#[test]
fn parse_test_with_name_value() -> Result<(), String> {
    let command = "insert into test (col1, col2, col4, col3) VALUEs (one, two, 1234, five);";
    let insert_command = InsertStatement::parse_prefix(command)
        .map_err(|err| format!("Failed with error {:?}", err))?;

    assert_eq!(
        insert_command.1,
        InsertStatement(
            TableName(String::from("test")),
            vec![
                Value::new_named_value("col1", "one"),
                Value::new_named_value("col2", "two"),
                Value::new_named_value("col4", "1234"),
                Value::new_named_value("col3", "five")
            ]
        )
    );
    Ok(())
}

#[test]
fn test_successful() -> Result<(), String> {
    let create_command = "create table    test ( col1 int, col2 text, col3 int);";

    let result =
        TableDefinition::parse_prefix(create_command).map_err(|err| format!("{:?}", err))?;

    assert_eq!(
        TableDefinition {
            name: TableName(String::from("test")),
            columns: vec![
                Column::new("col1", ColumnType::Int),
                Column::new("col2", ColumnType::Text),
                Column::new("col3", ColumnType::Int)
            ]
        },
        result.1
    );

    Ok(())
}

#[test]
fn select_with_multiple_columns_and_spacing() {
    for statement in [
        "select name,age from student;",
        "select name, age from student;",
        "select name ,age from student;",
        "select name ,  age from student;",
    ] {
        let parsed = SelectStatement::from_str(statement).expect("should parse");
        assert_eq!(parsed.0 .0.as_str(), "student");
        let expected: Vec<ColumnName> = vec![ColumnName::from("name"), ColumnName::from("age")];
        assert_eq!(expected, parsed.1);
    }
}

#[test]
fn statement_command_dispatch() {
    let select = StatementCommand::from_str("select name from student;").expect("select");
    assert!(matches!(select, StatementCommand::Select(_)));
    let insert =
        StatementCommand::from_str("insert into student (name) values (bob);").expect("insert");
    assert!(matches!(insert, StatementCommand::Insert(_)));
    let create = StatementCommand::from_str("create table pet(name text);").expect("create");
    assert!(matches!(create, StatementCommand::Create(_)));
    assert!(StatementCommand::from_str("drop table student;").is_err());
}

#[test]
fn meta_and_command_parsing() {
    let exit = Command::from_str("  .exit ").expect("exit parses");
    assert!(matches!(exit, Command::Meta(MetaCommand::Exit)));
    let unknown = Command::from_str(".quit");
    assert!(matches!(unknown, Err(DbError::UnrecognizedCommand(_))));
    let stmt = Command::from_str("select name from student;").expect("statement parses");
    assert!(matches!(stmt, Command::Statement(StatementCommand::Select(_))));
}

#[test]
fn column_type_from_str() {
    assert_eq!(ColumnType::from_str("int").unwrap(), ColumnType::Int);
    assert_eq!(ColumnType::from_str("TEXT").unwrap(), ColumnType::Text);
    let err = ColumnType::from_str("blob");
    assert!(matches!(err, Err(DbError::UnrecognizedColumnType(_))));
}
