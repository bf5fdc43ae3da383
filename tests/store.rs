use dumbdb::{
    build_record, create_table, drop_table, encode_frame, filter_item, get_item, parse_frames,
    put_item, read_frame, Catalog, CatalogError, ColumnComparison, ColumnDefinition, ColumnName,
    ColumnType, ColumnValue, DropTableCommand, Expression, FilterItemCommand, GetItemCommand,
    Lookup, Operator, PutItemCommand, QueryError, Record, TableBuffer, TableBufferError,
    TableDefinition, TableName, Tuple,
};

/// A catalog together with the log of each of its tables, kept in memory:
/// the bytes of the frames, and the rows they hold in log order.
struct TestDb {
    catalog: Catalog,
    logs: Vec<(String, Vec<u8>, Vec<Tuple>)>,
}

fn authors_def() -> TableDefinition {
    TableDefinition {
        name: TableName::new("authors"),
        columns: vec![
            ColumnDefinition { name: ColumnName::new("id"), column_type: ColumnType::Integer },
            ColumnDefinition { name: ColumnName::new("name"), column_type: ColumnType::Text },
        ],
        primary_key: ColumnName::new("id"),
    }
}

fn setup() -> TestDb {
    let mut catalog = Catalog::new();
    create_table(authors_def(), &mut catalog).unwrap();
    TestDb { catalog, logs: vec![("authors".to_string(), Vec::new(), Vec::new())] }
}

/// A stand-in for the payload encoding: the row's values written out, so that
/// payloads differ in length from row to row.
fn encode_row(t: &Tuple) -> Vec<u8> {
    format!("{:?}", t).into_bytes()
}

fn decode_row(db: &TestDb, table: &str, payload: &[u8]) -> Tuple {
    let log = db.logs.iter().find(|l| l.0 == table).unwrap();
    log.2.iter().find(|t| encode_row(t) == payload).unwrap().clone()
}

fn author_name(id: u64) -> String {
    format!("author number {} ({})", id, "x".repeat((id % 7) as usize))
}

fn author_item(id: u64) -> PutItemCommand {
    PutItemCommand {
        table_name: TableName::new("authors"),
        item: vec![
            (ColumnName::new("id"), ColumnValue::Integer(id)),
            (ColumnName::new("name"), ColumnValue::Text(author_name(id))),
        ],
    }
}

fn put(db: &mut TestDb, command: PutItemCommand) -> Result<(), QueryError> {
    let table = command.table_name.as_str().to_string();
    let w = put_item(command, &db.catalog)?;
    let payload = encode_row(&w.tuple);
    let log = db.logs.iter_mut().find(|l| l.0 == table).unwrap();
    log.1.extend(encode_frame(&payload));
    log.2.push(w.tuple.clone());
    db.catalog.record_write(w.table, w.key, payload.len() as u64);
    Ok(())
}

fn get(db: &TestDb, table: &str, key: ColumnValue) -> Option<Record> {
    let command = GetItemCommand { table_name: TableName::new(table), key };
    let (t, lookup) = get_item(&command, &db.catalog, false).unwrap();
    match lookup {
        Lookup::Offset(offset) => {
            let log = db.logs.iter().find(|l| l.0 == table).unwrap();
            let payload = read_frame(&log.1, offset).unwrap();
            let row = decode_row(db, table, &payload);
            Some(build_record(&db.catalog.table_at(t).columns, row))
        }
        Lookup::Scan | Lookup::Absent => None,
    }
}

fn rows_of(db: &TestDb, table: &str) -> Vec<Tuple> {
    let log = db.logs.iter().find(|l| l.0 == table).unwrap();
    parse_frames(&log.1)
        .unwrap()
        .iter()
        .map(|f| decode_row(db, table, &f.payload))
        .collect()
}

fn compare(column: &str, operator: Operator, value: u64) -> Expression {
    Expression::ColumnComparison(ColumnComparison {
        column: ColumnName::new(column),
        operator,
        value: ColumnValue::Integer(value),
    })
}

fn filter(db: &TestDb, table: &str, expression: Expression) -> Result<Vec<Record>, QueryError> {
    let rows = if db.catalog.find_table(&TableName::new(table)).is_some() {
        rows_of(db, table)
    } else {
        Vec::new()
    };
    let command = FilterItemCommand { table_name: TableName::new(table), filter: expression };
    filter_item(&command, &db.catalog, &rows)
}

fn ids_of(records: &[Record]) -> Vec<u64> {
    records
        .iter()
        .map(|r| match r.get(&ColumnName::new("id")) {
            Some(Some(ColumnValue::Integer(n))) => *n,
            other => panic!("record without an integer id: {:?}", other),
        })
        .collect()
}

#[test]
fn lib_test_create_table() {
    let db = setup();
    assert!(db.catalog.get_table(&TableName::new("authors")).is_some());
}

#[test]
fn lib_test_write_data() {
    let mut db = setup();
    for i in 0..10 {
        put(&mut db, author_item(i)).unwrap();
    }
    let rows = rows_of(&db, "authors");
    let last_line = rows.into_iter().last().expect("There should be 10 rows written");
    let values: Vec<_> = last_line.into_iter().flatten().collect();
    assert_eq!(values[0], ColumnValue::Integer(9));
}

#[test]
fn lib_test_read_data() {
    let mut db = setup();
    for i in 0..10 {
        put(&mut db, author_item(i)).unwrap();
    }
    for i in 5..8 {
        let record = get(&db, "authors", ColumnValue::Integer(i)).unwrap();
        assert_eq!(record.get(&ColumnName::new("id")).unwrap(), &Some(ColumnValue::Integer(i)));
    }
}

#[test]
fn lib_test_writes_with_same_id() {
    let mut db = setup();
    let id = 42;
    let put_item_1 = author_item(id);
    let generated_name = put_item_1.item[1].1.clone();
    put(&mut db, put_item_1).unwrap();
    let record = get(&db, "authors", ColumnValue::Integer(id)).unwrap();
    assert_eq!(record.get(&ColumnName::new("id")).unwrap(), &Some(ColumnValue::Integer(id)));
    assert_eq!(record.get(&ColumnName::new("name")).unwrap(), &Some(generated_name));

    let res = put(&mut db, author_item(id)).map_err(|e| e.message());
    assert_eq!(res, Err("Record with primary key '42' already exists.".to_string()));
}

#[test]
fn lib_test_writing_data_updates_index() {
    let mut db = setup();
    for i in 0..20 {
        put(&mut db, author_item(i)).unwrap();
    }
    let table = db.catalog.get_table(&TableName::new("authors")).unwrap();
    let log = &db.logs[0].1;

    let byte_offset = table.table_buffer.index().get(&ColumnValue::Integer(0));
    assert!(byte_offset.is_some());
    assert_eq!(byte_offset.unwrap(), &0);

    for id in [6u64, 9] {
        let byte_offset = table.table_buffer.index().get(&ColumnValue::Integer(id));
        assert!(byte_offset.is_some());
        let payload = read_frame(log, *byte_offset.unwrap()).unwrap();
        let tuple = decode_row(&db, "authors", &payload);
        let primary_key = tuple[table.table_buffer.pk_position()].clone().unwrap();
        assert_eq!(primary_key, ColumnValue::Integer(id));
    }
}

#[test]
fn lib_test_write_lots_of_data() {
    let mut db = setup();
    for i in 0..1001 {
        put(&mut db, author_item(i)).unwrap();
    }
    let rows = rows_of(&db, "authors");
    assert_eq!(rows.len(), 1001);
    for tuple in rows {
        assert_eq!(tuple.len(), 2);
    }
}

#[test]
fn lib_test_filtering() {
    let mut db = setup();
    for i in 0..100 {
        put(&mut db, author_item(i)).unwrap();
    }
    let first = Expression::And(vec![compare("id", Operator::Gt, 9), compare("id", Operator::Lt, 90)]);
    let res = filter(&db, "authors", first).unwrap();
    assert_eq!(res.len(), 80);

    let second = Expression::Or(vec![
        compare("id", Operator::Eq, 42),
        Expression::And(vec![compare("id", Operator::Gt, 1), compare("id", Operator::Lte, 10)]),
    ]);
    let res = filter(&db, "authors", second).unwrap();
    assert_eq!(res.len(), 10);
}

#[test]
fn size_and_point_lookup_after_ten_puts() {
    let mut db = setup();
    for i in 0..10 {
        put(&mut db, author_item(i)).unwrap();
    }
    assert_eq!(db.catalog.get_table_size(&TableName::new("authors")), Some(10));
    let record = get(&db, "authors", ColumnValue::Integer(9)).unwrap();
    assert_eq!(record.get(&ColumnName::new("id")).unwrap(), &Some(ColumnValue::Integer(9)));
    assert_eq!(
        record.get(&ColumnName::new("name")).unwrap(),
        &Some(ColumnValue::Text(author_name(9)))
    );
    assert!(get(&db, "authors", ColumnValue::Integer(10)).is_none());
}

#[test]
fn index_offset_seeks_to_its_row() {
    let mut db = setup();
    for i in 0..20 {
        put(&mut db, author_item(i)).unwrap();
    }
    let table = db.catalog.get_table(&TableName::new("authors")).unwrap();
    let offset = *table.table_buffer.index().get(&ColumnValue::Integer(6)).unwrap();
    let frames = parse_frames(&db.logs[0].1).unwrap();
    assert_eq!(frames[6].offset, offset);
    let tuple = decode_row(&db, "authors", &read_frame(&db.logs[0].1, offset).unwrap());
    assert_eq!(tuple[0], Some(ColumnValue::Integer(6)));
    assert_eq!(table.table_buffer.index().next_offset(), db.logs[0].1.len() as u64);
}

#[test]
fn filter_returns_exact_rows() {
    let mut db = setup();
    for i in 0..100 {
        put(&mut db, author_item(i)).unwrap();
    }
    let first = Expression::And(vec![compare("id", Operator::Gt, 9), compare("id", Operator::Lt, 90)]);
    assert_eq!(ids_of(&filter(&db, "authors", first).unwrap()), (10..90).collect::<Vec<u64>>());

    let second = Expression::Or(vec![
        compare("id", Operator::Eq, 42),
        Expression::And(vec![compare("id", Operator::Gt, 1), compare("id", Operator::Lte, 10)]),
    ]);
    let mut expected: Vec<u64> = (2..=10).collect();
    expected.push(42);
    assert_eq!(ids_of(&filter(&db, "authors", second).unwrap()), expected);

    let third = Expression::Not(Box::new(compare("id", Operator::Gte, 3)));
    assert_eq!(ids_of(&filter(&db, "authors", third).unwrap()), vec![0, 1, 2]);
    let fourth = compare("id", Operator::Neq, 0);
    assert_eq!(filter(&db, "authors", fourth).unwrap().len(), 99);
}

#[test]
fn empty_and_keeps_all_and_empty_or_keeps_none() {
    let mut db = setup();
    for i in 0..7 {
        put(&mut db, author_item(i)).unwrap();
    }
    let all = filter(&db, "authors", Expression::And(vec![])).unwrap();
    assert_eq!(ids_of(&all), (0..7).collect::<Vec<u64>>());
    let none = filter(&db, "authors", Expression::Or(vec![])).unwrap();
    assert!(none.is_empty());
}

#[test]
fn second_put_with_same_key_is_refused() {
    let mut db = setup();
    put(&mut db, author_item(42)).unwrap();
    let other = PutItemCommand {
        table_name: TableName::new("authors"),
        item: vec![
            (ColumnName::new("name"), ColumnValue::Text("someone else".to_string())),
            (ColumnName::new("id"), ColumnValue::Integer(42)),
        ],
    };
    assert!(matches!(
        put(&mut db, other),
        Err(QueryError::PrimaryKeyAlreadyExists(ColumnValue::Integer(42)))
    ));
    assert_eq!(db.catalog.get_table_size(&TableName::new("authors")), Some(1));
    assert_eq!(rows_of(&db, "authors").len(), 1);
}

#[test]
fn reopening_replays_the_same_index() {
    let mut db = setup();
    for i in [5u64, 3, 8, 1, 13, 2] {
        put(&mut db, author_item(i)).unwrap();
    }
    let log = &db.logs[0].1;
    let frames: Vec<(Tuple, u64)> = parse_frames(log)
        .unwrap()
        .iter()
        .map(|f| (decode_row(&db, "authors", &f.payload), f.payload.len() as u64))
        .collect();
    let reopened = TableBuffer::new(&authors_def(), &frames).unwrap();
    let live = &db.catalog.get_table(&TableName::new("authors")).unwrap().table_buffer;
    for k in 0..20u64 {
        let key = ColumnValue::Integer(k);
        assert_eq!(reopened.index().get(&key), live.index().get(&key));
        assert_eq!(reopened.contains_key(&key), live.contains_key(&key));
    }
    assert_eq!(reopened.size(), live.size());
    assert_eq!(reopened.index().next_offset(), log.len() as u64);
}

#[test]
fn replay_keeps_the_last_frame_of_a_key() {
    let row = |id: u64, name: &str| -> Tuple {
        vec![Some(ColumnValue::Integer(id)), Some(ColumnValue::Text(name.to_string()))]
    };
    let frames = vec![(row(1, "a"), 4u64), (row(2, "b"), 6), (row(1, "c"), 2)];
    let tb = TableBuffer::new(&authors_def(), &frames).unwrap();
    assert_eq!(tb.index().get(&ColumnValue::Integer(1)), Some(&26));
    assert_eq!(tb.index().get(&ColumnValue::Integer(2)), Some(&12));
    assert_eq!(tb.size(), 2);
    assert_eq!(tb.index().next_offset(), 36);
}

#[test]
fn replay_refuses_a_row_without_key() {
    let frames = vec![(vec![None, Some(ColumnValue::Text("a".to_string()))], 3u64)];
    assert!(matches!(
        TableBuffer::new(&authors_def(), &frames),
        Err(TableBufferError::PrimaryKeyNotInTuple)
    ));
    let short = vec![(vec![], 3u64)];
    assert!(matches!(
        TableBuffer::new(&authors_def(), &short),
        Err(TableBufferError::PrimaryKeyNotInTuple)
    ));
}

#[test]
fn primary_key_outside_schema_is_refused() {
    let mut def = authors_def();
    def.primary_key = ColumnName::new("isbn");
    assert!(matches!(
        TableBuffer::new(&def, &[]),
        Err(TableBufferError::PrimaryKeyNotInDefn)
    ));
    let mut catalog = Catalog::new();
    assert!(matches!(
        create_table(def, &mut catalog),
        Err(QueryError::CatalogError(CatalogError::TableStorageError(
            TableBufferError::PrimaryKeyNotInDefn
        )))
    ));
    assert_eq!(catalog.len(), 0);
}

#[test]
fn create_existing_table_is_refused() {
    let mut db = setup();
    let res = create_table(authors_def(), &mut db.catalog);
    match res {
        Err(QueryError::TableAlreadyExists(name)) => assert_eq!(name.as_str(), "authors"),
        other => panic!("unexpected {:?}", other),
    }
    assert_eq!(db.catalog.len(), 1);
}

#[test]
fn unknown_table_is_reported() {
    let mut db = setup();
    let mut command = author_item(1);
    command.table_name = TableName::new("books");
    assert!(matches!(put(&mut db, command), Err(QueryError::TableNotFound(_))));
    let get_command = GetItemCommand { table_name: TableName::new("books"), key: ColumnValue::Integer(1) };
    assert!(matches!(get_item(&get_command, &db.catalog, true), Err(QueryError::TableNotFound(_))));
    assert!(matches!(
        filter(&db, "books", Expression::And(vec![])),
        Err(QueryError::TableNotFound(_))
    ));
    let drop = DropTableCommand { table_name: TableName::new("books") };
    assert!(matches!(drop_table(drop, &mut db.catalog), Err(QueryError::TableNotFound(_))));
}

#[test]
fn put_without_primary_key_is_refused() {
    let mut db = setup();
    let command = PutItemCommand {
        table_name: TableName::new("authors"),
        item: vec![(ColumnName::new("name"), ColumnValue::Text("anonymous".to_string()))],
    };
    match put(&mut db, command) {
        Err(QueryError::ItemMustContainPrimaryKey(c)) => assert_eq!(c.as_str(), "id"),
        other => panic!("unexpected {:?}", other),
    }
}

#[test]
fn put_with_unknown_column_is_refused() {
    let mut db = setup();
    let mut command = author_item(3);
    command.item.push((ColumnName::new("born"), ColumnValue::Integer(1900)));
    match put(&mut db, command) {
        Err(QueryError::UnknownColumnInItem(c)) => assert_eq!(c.as_str(), "born"),
        other => panic!("unexpected {:?}", other),
    }
    assert_eq!(db.catalog.get_table_size(&TableName::new("authors")), Some(0));
}

#[test]
fn put_with_wrong_type_is_refused() {
    let mut db = setup();
    let command = PutItemCommand {
        table_name: TableName::new("authors"),
        item: vec![
            (ColumnName::new("id"), ColumnValue::Integer(3)),
            (ColumnName::new("name"), ColumnValue::Boolean(true)),
        ],
    };
    assert!(matches!(
        put(&mut db, command),
        Err(QueryError::ColumnTypeMismatch { expected: ColumnType::Text, given: ColumnType::Boolean })
    ));
}

#[test]
fn missing_columns_become_null() {
    let mut db = setup();
    let command = PutItemCommand {
        table_name: TableName::new("authors"),
        item: vec![(ColumnName::new("id"), ColumnValue::Integer(7))],
    };
    put(&mut db, command).unwrap();
    let record = get(&db, "authors", ColumnValue::Integer(7)).unwrap();
    assert_eq!(record.len(), 2);
    assert_eq!(record.get(&ColumnName::new("name")).unwrap(), &None);
    assert_eq!(record.get(&ColumnName::new("born")), None);
}

#[test]
fn comparison_with_null_is_false() {
    let mut db = setup();
    put(
        &mut db,
        PutItemCommand {
            table_name: TableName::new("authors"),
            item: vec![(ColumnName::new("id"), ColumnValue::Integer(1))],
        },
    )
    .unwrap();
    put(&mut db, author_item(2)).unwrap();
    let text_cmp = |op: Operator| {
        Expression::ColumnComparison(ColumnComparison {
            column: ColumnName::new("name"),
            operator: op,
            value: ColumnValue::Text(String::new()),
        })
    };
    assert_eq!(ids_of(&filter(&db, "authors", text_cmp(Operator::Gte)).unwrap()), vec![2]);
    assert_eq!(ids_of(&filter(&db, "authors", text_cmp(Operator::Neq)).unwrap()), vec![2]);
    let not = Expression::Not(Box::new(text_cmp(Operator::Gte)));
    assert_eq!(ids_of(&filter(&db, "authors", not).unwrap()), vec![1]);
    assert!(filter(&db, "authors", compare("age", Operator::Gte, 0)).unwrap().is_empty());
}

#[test]
fn scan_finds_rows_the_index_misses() {
    let mut db = setup();
    for i in 0..5 {
        put(&mut db, author_item(i)).unwrap();
    }
    let command = GetItemCommand { table_name: TableName::new("authors"), key: ColumnValue::Integer(77) };
    assert!(matches!(get_item(&command, &db.catalog, true), Ok((0, Lookup::Scan))));
    assert!(matches!(get_item(&command, &db.catalog, false), Ok((0, Lookup::Absent))));

    let tb = &db.catalog.get_table(&TableName::new("authors")).unwrap().table_buffer;
    let found = tb.scan_block_get_item(rows_of(&db, "authors"), &ColumnValue::Integer(3)).unwrap();
    assert_eq!(found.unwrap()[0], Some(ColumnValue::Integer(3)));
    let missing = tb.scan_block_get_item(rows_of(&db, "authors"), &ColumnValue::Integer(77)).unwrap();
    assert!(missing.is_none());
    let broken = vec![vec![Some(ColumnValue::Integer(1))], vec![None]];
    assert!(matches!(
        tb.scan_block_get_item(broken, &ColumnValue::Integer(9)),
        Err(TableBufferError::PrimaryKeyNotInTuple)
    ));
}

#[test]
fn drop_table_removes_only_that_table() {
    let mut db = setup();
    let mut books = authors_def();
    books.name = TableName::new("books");
    create_table(books, &mut db.catalog).unwrap();
    let names: Vec<String> = db.catalog.list_tables().iter().map(|n| n.as_str().to_string()).collect();
    assert_eq!(names, vec!["authors".to_string(), "books".to_string()]);
    drop_table(DropTableCommand { table_name: TableName::new("authors") }, &mut db.catalog).unwrap();
    let names: Vec<String> = db.catalog.list_tables().iter().map(|n| n.as_str().to_string()).collect();
    assert_eq!(names, vec!["books".to_string()]);
    assert_eq!(db.catalog.get_table_size(&TableName::new("authors")), None);
    assert_eq!(db.catalog.get_table_size(&TableName::new("books")), Some(0));
}

#[test]
fn records_have_one_field_per_row_value() {
    let columns = authors_def().columns;
    let short = build_record(&columns, vec![Some(ColumnValue::Integer(1))]);
    assert_eq!(short.len(), 1);
    assert_eq!(short.get(&ColumnName::new("id")).unwrap(), &Some(ColumnValue::Integer(1)));
    assert_eq!(short.get(&ColumnName::new("name")), None);
    let long = build_record(
        &columns,
        vec![Some(ColumnValue::Integer(2)), None, Some(ColumnValue::Boolean(true))],
    );
    assert_eq!(long.len(), 2);
    assert_eq!(long.get(&ColumnName::new("name")).unwrap(), &None);
}

#[test]
fn table_size_grows_only_for_new_keys() {
    let mut tb = TableBuffer::new(&authors_def(), &[]).unwrap();
    assert_eq!(tb.size(), 0);
    tb.write(ColumnValue::Integer(4), 10);
    assert_eq!(tb.size(), 1);
    tb.write(ColumnValue::Integer(5), 3);
    assert_eq!(tb.size(), 2);
    tb.write(ColumnValue::Integer(4), 7);
    assert_eq!(tb.size(), 2);
    assert_eq!(tb.index().get(&ColumnValue::Integer(4)), Some(&29));
    assert_eq!(tb.index().next_offset(), 44);
}

#[test]
fn created_table_has_the_given_schema() {
    let db = setup();
    let table = db.catalog.get_table(&TableName::new("authors")).unwrap();
    assert_eq!(table.columns.len(), 2);
    assert_eq!(table.columns[1].name.as_str(), "name");
    assert_eq!(table.columns[1].column_type, ColumnType::Text);
    assert_eq!(table.primary_key.as_str(), "id");
    assert_eq!(table.table_buffer.pk_position(), 0);
}
