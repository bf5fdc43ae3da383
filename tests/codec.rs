use dumbdb::{
    calculate_new_offset, decode_length_prefix, encode_frame, encode_length_prefix,
    evaluate_binary_operator, parse_frames, read_frame, typecheck_column, ColumnDefinition,
    CatalogError, ColumnName, ColumnType, ColumnValue, InternalError, Operator, Output, QueryError,
    StorageError, TableBufferError, TableName, LENGTH_PREFIX_SIZE,
};

#[test]
fn length_prefix_is_little_endian() {
    assert_eq!(encode_length_prefix(0x0102030405060708), vec![8, 7, 6, 5, 4, 3, 2, 1]);
    assert_eq!(encode_length_prefix(300), vec![44, 1, 0, 0, 0, 0, 0, 0]);
    assert_eq!(encode_length_prefix(u64::MAX), vec![255; 8]);
    let bytes = [9u8, 0, 0, 0, 0, 0, 0, 0, 1, 0, 0, 0, 0, 0, 0, 0];
    assert_eq!(decode_length_prefix(&bytes, 0), 9);
    assert_eq!(decode_length_prefix(&bytes, 8), 1);
    assert_eq!(decode_length_prefix(&bytes, 1), 1u64 << 56);
    assert_eq!(decode_length_prefix(&encode_length_prefix(123456789), 0), 123456789);
}

#[test]
fn new_offset_skips_prefix_and_payload() {
    assert_eq!(LENGTH_PREFIX_SIZE, 8);
    assert_eq!(calculate_new_offset(10, 100), 118);
    assert_eq!(calculate_new_offset(0, 0), 8);
}

#[test]
fn frame_is_prefix_then_payload() {
    let frame = encode_frame(&[0xAA, 0xBB, 0xCC]);
    assert_eq!(frame, vec![3, 0, 0, 0, 0, 0, 0, 0, 0xAA, 0xBB, 0xCC]);
    assert_eq!(encode_frame(&[]), vec![0; 8]);
}

#[test]
fn written_frames_read_back_at_their_offsets() {
    let payloads: Vec<Vec<u8>> = vec![b"first".to_vec(), vec![], b"third payload".to_vec()];
    let mut log = Vec::new();
    let mut offsets = Vec::new();
    for p in &payloads {
        offsets.push(log.len() as u64);
        log.extend(encode_frame(p));
    }
    let frames = parse_frames(&log).unwrap();
    assert_eq!(frames.len(), 3);
    for i in 0..3 {
        assert_eq!(frames[i].payload, payloads[i]);
        assert_eq!(frames[i].offset, offsets[i]);
        assert_eq!(read_frame(&log, offsets[i]).unwrap(), payloads[i]);
    }
    assert_eq!(offsets, vec![0, 13, 21]);
    assert!(parse_frames(&[]).unwrap().is_empty());
}

#[test]
fn truncated_frames_are_reported() {
    let mut log = encode_frame(b"abc");
    log.extend(encode_frame(b"defgh"));
    let cut = &log[..log.len() - 1];
    assert_eq!(parse_frames(cut), Err(StorageError::TruncatedFrame));
    assert_eq!(parse_frames(&log[..5]), Err(StorageError::TruncatedFrame));
    assert_eq!(read_frame(cut, 11), Err(StorageError::TruncatedFrame));
    assert_eq!(read_frame(&log, 20), Err(StorageError::TruncatedFrame));
    assert_eq!(read_frame(&log, u64::MAX), Err(StorageError::TruncatedFrame));
    assert_eq!(read_frame(cut, 0).unwrap(), b"abc".to_vec());
}

#[test]
fn values_are_ordered_by_kind_then_value() {
    let int = |n: u64| ColumnValue::Integer(n);
    let text = |s: &str| ColumnValue::Text(s.to_string());
    assert_eq!(int(1).compare(&int(2)), -1);
    assert_eq!(int(2).compare(&int(2)), 0);
    assert_eq!(int(u64::MAX).compare(&ColumnValue::Boolean(false)), -1);
    assert_eq!(ColumnValue::Boolean(false).compare(&ColumnValue::Boolean(true)), -1);
    assert_eq!(ColumnValue::Boolean(true).compare(&text("")), -1);
    assert_eq!(text("ab").compare(&text("b")), -1);
    assert_eq!(text("ab").compare(&text("a")), 1);
    assert_eq!(text("é").compare(&text("z")), 1);
    assert_eq!(text("same").compare(&text("same")), 0);
}

#[test]
fn operators_follow_the_order() {
    let a = ColumnValue::Integer(3);
    let b = ColumnValue::Integer(5);
    assert!(evaluate_binary_operator(&Operator::Lt, &a, &b));
    assert!(evaluate_binary_operator(&Operator::Lte, &a, &a));
    assert!(!evaluate_binary_operator(&Operator::Gt, &a, &b));
    assert!(evaluate_binary_operator(&Operator::Gte, &b, &a));
    assert!(evaluate_binary_operator(&Operator::Neq, &a, &b));
    assert!(evaluate_binary_operator(&Operator::Eq, &b, &ColumnValue::Integer(5)));
    let t = ColumnValue::Text("5".to_string());
    assert!(!evaluate_binary_operator(&Operator::Eq, &b, &t));
    assert!(evaluate_binary_operator(&Operator::Lt, &b, &t));
}

#[test]
fn typecheck_matches_declared_type() {
    let column = |t: ColumnType| ColumnDefinition { name: ColumnName::new("c"), column_type: t };
    assert!(typecheck_column(&column(ColumnType::Integer), &ColumnValue::Integer(1)).is_ok());
    assert!(typecheck_column(&column(ColumnType::Boolean), &ColumnValue::Boolean(true)).is_ok());
    assert!(typecheck_column(&column(ColumnType::Text), &ColumnValue::Text("x".into())).is_ok());
    assert!(matches!(
        typecheck_column(&column(ColumnType::Float), &ColumnValue::Integer(1)),
        Err(QueryError::ColumnTypeMismatch { expected: ColumnType::Float, given: ColumnType::Integer })
    ));
    assert!(matches!(
        typecheck_column(&column(ColumnType::Integer), &ColumnValue::Text("1".into())),
        Err(QueryError::ColumnTypeMismatch { expected: ColumnType::Integer, given: ColumnType::Text })
    ));
}

#[test]
fn output_maps_each_row() {
    let done: Output<u64> = Output::Done;
    assert!(matches!(done.fmap(|x| x + 1), Output::Done));
    assert!(matches!(Output::ResultOne(Some(4u64)).fmap(|x| x * 2), Output::ResultOne(Some(8))));
    assert!(matches!(Output::<u64>::ResultOne(None).fmap(|x| x * 2), Output::ResultOne(None)));
    match Output::ResultMany(vec![1u64, 2, 3]).fmap(|x| x * 10) {
        Output::ResultMany(v) => assert_eq!(v, vec![10, 20, 30]),
        other => panic!("unexpected {:?}", other),
    }
}

#[test]
fn text_becomes_integer_boolean_or_text() {
    let v = |s: &str| ColumnValue::from_text(s.to_string());
    assert_eq!(v("42"), ColumnValue::Integer(42));
    assert_eq!(v("+7"), ColumnValue::Integer(7));
    assert_eq!(v("007"), ColumnValue::Integer(7));
    assert_eq!(v("18446744073709551615"), ColumnValue::Integer(u64::MAX));
    assert_eq!(v("18446744073709551616"), ColumnValue::Text("18446744073709551616".to_string()));
    assert_eq!(v("+"), ColumnValue::Text("+".to_string()));
    assert_eq!(v("-1"), ColumnValue::Text("-1".to_string()));
    assert_eq!(v("12a"), ColumnValue::Text("12a".to_string()));
    assert_eq!(v(""), ColumnValue::Text(String::new()));
    assert_eq!(v("true"), ColumnValue::Boolean(true));
    assert_eq!(v("false"), ColumnValue::Boolean(false));
    assert_eq!(v("True"), ColumnValue::Text("True".to_string()));
    let converted: ColumnValue = String::from("9").into();
    assert_eq!(converted, ColumnValue::Integer(9));
    let converted: ColumnValue = ColumnValue::from(String::from("fals"));
    assert_eq!(converted, ColumnValue::Text("fals".to_string()));
}

#[test]
fn error_messages() {
    let m = |e: QueryError| e.message();
    assert_eq!(m(QueryError::TableNotFound(TableName::new("books"))), "Table 'books' not found.");
    assert_eq!(
        m(QueryError::TableAlreadyExists(TableName::new("authors"))),
        "Table name 'authors' already exists."
    );
    assert_eq!(
        m(QueryError::ItemMustContainPrimaryKey(ColumnName::new("id"))),
        "Item object must contain primary key: id."
    );
    assert_eq!(
        m(QueryError::PrimaryKeyAlreadyExists(ColumnValue::Integer(1234567890))),
        "Record with primary key '1234567890' already exists."
    );
    assert_eq!(
        m(QueryError::PrimaryKeyAlreadyExists(ColumnValue::Integer(0))),
        "Record with primary key '0' already exists."
    );
    assert_eq!(
        m(QueryError::PrimaryKeyAlreadyExists(ColumnValue::Boolean(false))),
        "Record with primary key 'false' already exists."
    );
    assert_eq!(
        m(QueryError::PrimaryKeyAlreadyExists(ColumnValue::Text("ab".to_string()))),
        "Record with primary key 'ab' already exists."
    );
    assert_eq!(
        m(QueryError::UnknownColumnInItem(ColumnName::new("born"))),
        "Unknown column in item object: born."
    );
    assert_eq!(
        m(QueryError::ColumnTypeMismatch { expected: ColumnType::Integer, given: ColumnType::Text }),
        "Column type mismatch. Column defined as type: Integer, but provided value has type: Text."
    );
    assert_eq!(
        m(QueryError::InternalError(InternalError::FilepathNotFound("/d/a.dat".to_string()))),
        "Internal Error: Table filepath does not exist: /d/a.dat"
    );
    assert_eq!(
        m(QueryError::TableStorageError(TableBufferError::StorageError(StorageError::TruncatedFrame))),
        "Internal Error: Internal Storage Engine Error: The log ends in the middle of a frame."
    );
    assert_eq!(
        m(QueryError::CatalogError(CatalogError::DbDirNotExist("/nowhere".to_string()))),
        "Internal Error: Database directory '/nowhere' does not exist."
    );
}
