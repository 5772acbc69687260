use simple_db::{
    encode_table_definition, parse_table_definition, student_table_fixture, ColumnName, Database,
    InsertStatement, SelectStatement, TableName, Value,
};

fn name(s: &str) -> TableName {
    TableName(String::from(s))
}

fn cols(names: &[&str]) -> Vec<ColumnName> {
    names.iter().map(|n| ColumnName(String::from(*n))).collect()
}

fn named(n: &str, v: &str) -> Value {
    Value::NamedValue(String::from(n), String::from(v))
}

#[test]
fn schema_text_has_the_expected_shape() {
    let def = student_table_fixture();
    let text = encode_table_definition(&def);
    assert_eq!(
        text,
        "{\"name\":\"student\",\"columns\":[[\"name\",\"Text\"],[\"age\",\"Int\"]]}"
    );
}

#[test]
fn schema_text_round_trips() {
    let def = student_table_fixture();
    let text = encode_table_definition(&def);
    let back = parse_table_definition(&text).expect("own text parses");
    assert_eq!(back, def);
}

#[test]
fn schema_text_round_trips_for_unusual_plain_names() {
    // Names need not come from the statement grammar: anything without a
    // double quote serializes and parses back exactly.
    let def = simple_db::TableDefinition {
        name: name("t a-b.c{}"),
        columns: vec![
            simple_db::Column::new("x y", simple_db::ColumnType::Int),
            simple_db::Column::new("", simple_db::ColumnType::Text),
        ],
    };
    let text = encode_table_definition(&def);
    let back = parse_table_definition(&text).expect("plain schema parses");
    assert_eq!(back, def);
}

#[test]
fn corrupt_schema_text_is_rejected() {
    assert!(parse_table_definition("{\"name\":\"x\"").is_none());
    assert!(parse_table_definition("").is_none());
    assert!(parse_table_definition("{\"name\":\"x\",\"columns\":[[\"a\",\"Blob\"]]}").is_none());
}

/// First-write-wins: the on-disk metadata content after a second write
/// equals the content after the first, whatever the second write carries.
#[test]
fn writing_a_table_definition_twice_is_idempotent() {
    let def = student_table_fixture();
    // Mirror the disk layer: a write serializes the schema only when no
    // file exists yet.
    let mut on_disk: Option<Vec<u8>> = None;
    let write = |on_disk: &mut Option<Vec<u8>>| {
        if on_disk.is_none() {
            *on_disk = Some(encode_table_definition(&def).into_bytes());
        }
    };
    write(&mut on_disk);
    let after_first = on_disk.clone().unwrap();
    write(&mut on_disk);
    let after_second = on_disk.clone().unwrap();
    assert_eq!(after_first, after_second);
}

#[test]
fn flush_then_restart_then_select_round_trips() {
    let mut db = Database::default();
    db.add_table_definitions(student_table_fixture())
        .expect("registration succeeds");
    db.insert_record(InsertStatement(
        name("student"),
        vec![named("name", "student1"), named("age", "22")],
    ))
    .expect("insert succeeds");

    // Flush: collect what the disk layer would write.
    let metas = db.schema_files();
    let datas = db.data_files();
    assert_eq!(metas.len(), 1);
    assert_eq!(datas.len(), 1);

    // Restart: a fresh in-memory state recovered from those payloads.
    let mut db2 = Database::default();
    for (_, meta_bytes) in &metas {
        db2.load_table_definition(meta_bytes).expect("schema recovers");
    }
    for (table_name, pages) in &datas {
        let mut file: Vec<u8> = Vec::new();
        for page in pages {
            assert_eq!(page.len(), 4096);
            file.extend_from_slice(page);
        }
        db2.load_table_data(table_name, &file).expect("data recovers");
    }

    let rows = db2
        .select_records(SelectStatement(name("student"), cols(&["name", "age"])))
        .expect("select succeeds after restart");
    assert_eq!(rows.len(), 1);
    let texts: Vec<String> = rows[0].iter().map(|v| v.clone().value()).collect();
    assert_eq!(texts, vec!["student1".to_string(), "22".to_string()]);
}

#[test]
fn recovered_state_flushes_identical_bytes() {
    let mut db = Database::default();
    db.add_table_definitions(student_table_fixture())
        .expect("registration succeeds");
    db.insert_record(InsertStatement(
        name("student"),
        vec![named("name", "ada"), named("age", "36")],
    ))
    .expect("insert succeeds");

    let datas = db.data_files();
    let mut db2 = Database::default();
    for (_, meta_bytes) in &db.schema_files() {
        db2.load_table_definition(meta_bytes).expect("schema recovers");
    }
    for (table_name, pages) in &datas {
        let mut file: Vec<u8> = Vec::new();
        for page in pages {
            file.extend_from_slice(page);
        }
        db2.load_table_data(table_name, &file).expect("data recovers");
    }
    assert_eq!(db.schema_files(), db2.schema_files());
    assert_eq!(datas, db2.data_files());
}

#[test]
fn corrupt_data_file_is_rejected() {
    let mut db = Database::default();
    db.add_table_definitions(student_table_fixture())
        .expect("registration succeeds");
    let err = db.load_table_data(&name("student"), &vec![1u8, 2, 3]);
    assert!(matches!(err, Err(simple_db::BEErrors::SerializationError(_))));
    let err = db.load_table_data(&name("ghost"), &vec![0u8; 4096]);
    assert!(matches!(err, Err(simple_db::BEErrors::MissingTable(_))));
}
