use simple_db::{
    execute, student_table_fixture, BEErrors, Column, ColumnName, ColumnType, Database,
    ExecutionResult, InsertStatement, SelectStatement, StatementCommand, TableDefinition,
    TableName, Value,
};

fn name(s: &str) -> TableName {
    TableName(String::from(s))
}

fn cols(names: &[&str]) -> Vec<ColumnName> {
    names.iter().map(|n| ColumnName(String::from(*n))).collect()
}

fn named(n: &str, v: &str) -> Value {
    Value::NamedValue(String::from(n), String::from(v))
}

fn student_db() -> Database {
    let mut db = Database::default();
    db.add_table_definitions(student_table_fixture())
        .expect("fresh registration succeeds");
    db
}

fn row_texts(row: &[Value]) -> Vec<String> {
    row.iter().map(|v| v.clone().value()).collect()
}

#[test]
fn insert_then_select_round_trip() {
    let mut db = student_db();
    db.insert_record(InsertStatement(
        name("student"),
        vec![named("name", "student1"), named("age", "22")],
    ))
    .expect("insert succeeds");

    let rows = db
        .select_records(SelectStatement(name("student"), cols(&["name", "age"])))
        .expect("select succeeds");
    assert_eq!(rows.len(), 1);
    assert_eq!(row_texts(&rows[0]), vec!["student1".to_string(), "22".to_string()]);
}

#[test]
fn select_reorders_columns_on_request() {
    let mut db = student_db();
    db.insert_record(InsertStatement(
        name("student"),
        vec![named("age", "31"), named("name", "ada")],
    ))
    .expect("insert succeeds");

    let rows = db
        .select_records(SelectStatement(name("student"), cols(&["age", "name"])))
        .expect("select succeeds");
    assert_eq!(row_texts(&rows[0]), vec!["31".to_string(), "ada".to_string()]);
}

#[test]
fn text_with_alignment_padding_round_trips() {
    let mut db = Database::default();
    db.add_table_definitions(TableDefinition {
        name: name("mix"),
        columns: vec![
            Column::new("a", ColumnType::Int),
            Column::new("b", ColumnType::Text),
            Column::new("c", ColumnType::Int),
        ],
    })
    .expect("registration succeeds");

    // A text of length 5 ends mid-word, so the value after it needs
    // alignment padding; the one before it exercises the padded start.
    db.insert_record(InsertStatement(
        name("mix"),
        vec![named("a", "-7"), named("b", "hello"), named("c", "9000000000")],
    ))
    .expect("insert succeeds");

    let rows = db
        .select_records(SelectStatement(name("mix"), cols(&["a", "b", "c"])))
        .expect("select succeeds");
    assert_eq!(
        row_texts(&rows[0]),
        vec!["-7".to_string(), "hello".to_string(), "9000000000".to_string()]
    );
}

#[test]
fn multi_byte_text_round_trips() {
    let mut db = student_db();
    db.insert_record(InsertStatement(
        name("student"),
        vec![named("name", "séléné 学生"), named("age", "3")],
    ))
    .expect("insert succeeds");

    let rows = db
        .select_records(SelectStatement(name("student"), cols(&["name"])))
        .expect("select succeeds");
    assert_eq!(row_texts(&rows[0]), vec!["séléné 学生".to_string()]);
}

#[test]
fn twenty_first_insert_allocates_a_new_page() {
    let mut db = student_db();
    for i in 0..21i64 {
        db.insert_record(InsertStatement(
            name("student"),
            vec![named("name", &format!("s{i}")), named("age", &i.to_string())],
        ))
        .expect("insert succeeds");
    }

    let rows = db
        .select_records(SelectStatement(name("student"), cols(&["name", "age"])))
        .expect("select succeeds");
    assert_eq!(rows.len(), 21);
    for (i, row) in rows.iter().enumerate() {
        assert_eq!(row_texts(row), vec![format!("s{i}"), i.to_string()]);
    }
}

#[test]
fn duplicate_definition_keeps_first_table() {
    let mut db = student_db();
    db.insert_record(InsertStatement(
        name("student"),
        vec![named("name", "kept"), named("age", "1")],
    ))
    .expect("insert succeeds");

    let second = TableDefinition {
        name: name("student"),
        columns: vec![Column::new("other", ColumnType::Text)],
    };
    let err = db.add_table_definitions(second);
    assert!(matches!(err, Err(BEErrors::DuplicateDefinition(_))));

    let rows = db
        .select_records(SelectStatement(name("student"), cols(&["name"])))
        .expect("select still succeeds");
    assert_eq!(rows.len(), 1);
    assert_eq!(row_texts(&rows[0]), vec!["kept".to_string()]);
}

#[test]
fn selecting_missing_column_fails_and_keeps_rows() {
    let mut db = student_db();
    db.insert_record(InsertStatement(
        name("student"),
        vec![named("name", "a"), named("age", "2")],
    ))
    .expect("insert succeeds");

    let err = db.select_records(SelectStatement(name("student"), cols(&["height"])));
    assert!(matches!(err, Err(BEErrors::MissingColumn(_))));

    let rows = db
        .select_records(SelectStatement(name("student"), cols(&["name", "age"])))
        .expect("select succeeds");
    assert_eq!(rows.len(), 1);
    assert_eq!(row_texts(&rows[0]), vec!["a".to_string(), "2".to_string()]);
}

#[test]
fn selecting_missing_column_from_empty_table_returns_nothing() {
    let db = student_db();
    let rows = db
        .select_records(SelectStatement(name("student"), cols(&["height"])))
        .expect("a table without rows reads nothing from any page");
    assert_eq!(rows.len(), 0);
}

#[test]
fn mismatched_integer_text_is_rejected_without_partial_write() {
    let mut db = student_db();
    let err = db.insert_record(InsertStatement(
        name("student"),
        vec![named("name", "bob"), named("age", "twenty")],
    ));
    assert!(matches!(err, Err(BEErrors::MismatchedDataType(_, _, _))));

    let rows = db
        .select_records(SelectStatement(name("student"), cols(&["name", "age"])))
        .expect("select succeeds");
    assert_eq!(rows.len(), 0, "no partial row may remain");

    db.insert_record(InsertStatement(
        name("student"),
        vec![named("name", "bob"), named("age", "20")],
    ))
    .expect("a valid insert still lands in the untouched page");
    let rows = db
        .select_records(SelectStatement(name("student"), cols(&["name", "age"])))
        .expect("select succeeds");
    assert_eq!(rows.len(), 1);
    assert_eq!(row_texts(&rows[0]), vec!["bob".to_string(), "20".to_string()]);
}

#[test]
fn missing_table_is_reported() {
    let mut db = Database::default();
    let err = db.insert_record(InsertStatement(name("ghost"), vec![named("a", "1")]));
    assert!(matches!(err, Err(BEErrors::MissingTable(_))));
    let err = db.select_records(SelectStatement(name("ghost"), cols(&["a"])));
    assert!(matches!(err, Err(BEErrors::MissingTable(_))));
}

#[test]
fn missing_value_for_schema_column_is_rejected() {
    let mut db = student_db();
    let err = db.insert_record(InsertStatement(name("student"), vec![named("name", "solo")]));
    assert!(matches!(err, Err(BEErrors::MissingColumn(_))));
    let rows = db
        .select_records(SelectStatement(name("student"), cols(&["name", "age"])))
        .expect("select succeeds");
    assert_eq!(rows.len(), 0);
}

#[test]
fn unknown_value_name_is_rejected() {
    let mut db = student_db();
    let err = db.insert_record(InsertStatement(
        name("student"),
        vec![named("name", "x"), named("age", "1"), named("height", "2")],
    ));
    assert!(matches!(err, Err(BEErrors::MissingColumn(_))));
}

#[test]
fn positional_values_are_not_yet_supported() {
    let mut db = student_db();
    let err = db.insert_record(InsertStatement(
        name("student"),
        vec![Value::UnnamedValue(String::from("x"))],
    ));
    assert!(matches!(err, Err(BEErrors::InternalError(_))));
}

#[test]
fn oversized_text_is_a_capacity_error() {
    let mut db = student_db();
    let huge = "x".repeat(5000);
    let err = db.insert_record(InsertStatement(
        name("student"),
        vec![named("name", &huge), named("age", "1")],
    ));
    assert!(matches!(err, Err(BEErrors::InternalError(_))));
    let rows = db
        .select_records(SelectStatement(name("student"), cols(&["name", "age"])))
        .expect("select succeeds");
    assert_eq!(rows.len(), 0);
}

#[test]
fn integer_text_is_rendered_canonically() {
    let mut db = student_db();
    for (given, back) in [("007", "7"), ("+42", "42"), ("-0", "0"), ("-13", "-13")] {
        let mut db2 = student_db();
        db2.insert_record(InsertStatement(
            name("student"),
            vec![named("name", "n"), named("age", given)],
        ))
        .expect("insert succeeds");
        let rows = db2
            .select_records(SelectStatement(name("student"), cols(&["age"])))
            .expect("select succeeds");
        assert_eq!(row_texts(&rows[0]), vec![back.to_string()]);
    }
    let extremes = [
        ("9223372036854775807", "9223372036854775807"),
        ("-9223372036854775808", "-9223372036854775808"),
    ];
    for (given, back) in extremes {
        db.insert_record(InsertStatement(
            name("student"),
            vec![named("name", "n"), named("age", given)],
        ))
        .expect("insert succeeds");
        let rows = db
            .select_records(SelectStatement(name("student"), cols(&["age"])))
            .expect("select succeeds");
        assert_eq!(row_texts(rows.last().unwrap()), vec![back.to_string()]);
    }
    let err = db.insert_record(InsertStatement(
        name("student"),
        vec![named("name", "n"), named("age", "9223372036854775808")],
    ));
    assert!(matches!(err, Err(BEErrors::MismatchedDataType(_, _, _))));
}

#[test]
fn page_read_after_write() -> simple_db::BEResult<()> {
    let mut page = simple_db::Page::default();
    page.write(
        vec![named("name", "student1"), named("age", "22")],
        &student_table_fixture(),
    )?;

    // The first row of a page starts right after the 84-byte slot header.
    let columns = page.read(
        84,
        &[ColumnName(String::from("name")), ColumnName(String::from("age"))],
        &student_table_fixture(),
    )?;
    assert_eq!(
        columns,
        vec![named("name", "student1"), named("age", "22")]
    );
    assert_eq!(page.get_data().len(), 4096);
    assert_eq!(page.available_slot_pos(), Some(1));
    Ok(())
}

#[test]
fn page_refuses_twenty_first_row() -> simple_db::BEResult<()> {
    let mut page = simple_db::Page::default();
    for i in 0..20i64 {
        page.write(
            vec![named("name", "x"), named("age", &i.to_string())],
            &student_table_fixture(),
        )?;
    }
    assert_eq!(page.available_slot_pos(), None);
    let err = page.write(
        vec![named("name", "x"), named("age", "20")],
        &student_table_fixture(),
    );
    assert!(matches!(err, Err(BEErrors::InternalError(_))));
    Ok(())
}

#[test]
fn execute_routes_statements() {
    let mut db = Database::default();
    let create = StatementCommand::from_str("create table pet(name text, age int);").unwrap();
    assert!(matches!(
        execute(&mut db, create),
        Ok(ExecutionResult::CreateResult)
    ));
    let insert =
        StatementCommand::from_str("insert into pet (name, age) values (rex, 3);").unwrap();
    assert!(matches!(
        execute(&mut db, insert),
        Ok(ExecutionResult::InsertResult)
    ));
    let select = StatementCommand::from_str("select name, age from pet;").unwrap();
    match execute(&mut db, select) {
        Ok(ExecutionResult::SelectResult(rows)) => {
            assert_eq!(rows.len(), 1);
            assert_eq!(row_texts(&rows[0]), vec!["rex".to_string(), "3".to_string()]);
        }
        other => panic!("unexpected execution result {other:?}"),
    }
}
