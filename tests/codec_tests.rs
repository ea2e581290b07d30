use stackdb::model::{try_parse_data_type, data_type_to_string, DataType, Database, Table, TableSchema, WordType};
use stackdb::rows::{encode_rows, read_rows, Endian, RowsError};
use stackdb::schema::{parse_table_schema, schema_to_text, SchemaError};
use stackdb::store::{is_well_formed, save_database_to};

fn clients() -> TableSchema {
    TableSchema {
        name: "clients".to_string(),
        cols: vec![("id".to_string(), DataType::Int), ("name".to_string(), DataType::Str)],
    }
}

#[test]
fn valid_table_schema() {
    let schema = parse_table_schema("TestTable\nid:Int\nname: Str\n age :Int\n");
    if let Err(ref err) = schema {
        assert!(false, "{:?}", err);
    }
    let schema = schema.unwrap();
    assert!(schema.name == "TestTable");
    assert!(schema.cols.len() == 3);
    assert!(schema.cols[0].0 == "id");
    assert!(schema.cols[0].1 == DataType::Int);
    assert!(schema.cols[1].0 == "name");
    assert!(schema.cols[1].1 == DataType::Str);
    assert!(schema.cols[2].0 == "age");
    assert!(schema.cols[2].1 == DataType::Int);
}

#[test]
fn schema_with_empty_table_name() {
    assert_eq!(parse_table_schema("   \nid:Int\n"), Err(SchemaError::EmptyTableName));
}

#[test]
fn double_column_declaration() {
    assert_eq!(parse_table_schema("T\nid:Int\nid:Str\n"), Err(SchemaError::DuplicateColumn("id".to_string())));
}

#[test]
fn invalid_column_type() {
    assert_eq!(parse_table_schema("T\nid:Float\n"), Err(SchemaError::UnknownColumnType(1)));
    assert_eq!(parse_table_schema("T\nid:Int\nk:Type\n"), Err(SchemaError::UnknownColumnType(2)));
}

#[test]
fn empty_table_schema() {
    assert_eq!(parse_table_schema(""), Err(SchemaError::TableNameMissing));
}

#[test]
fn invalid_column_format() {
    assert_eq!(parse_table_schema("T\nid Int\n"), Err(SchemaError::InvalidColumnFormat(1)));
}

#[test]
fn empty_column_name() {
    assert_eq!(parse_table_schema("T\n :Int\n"), Err(SchemaError::EmptyColumnName(1)));
}

#[test]
fn schema_text_round_trip() {
    let text = schema_to_text(&clients());
    assert_eq!(text, "clients\nid:Int\nname:Str\n");
    assert_eq!(parse_table_schema(&text), Ok(clients()));
    let loaded = parse_table_schema("  clients \r\nid : Int\nname:Str").unwrap();
    assert_eq!(schema_to_text(&loaded), text);
}

#[test]
fn data_type_keywords() {
    assert_eq!(try_parse_data_type("Str"), Some(DataType::Str));
    assert_eq!(try_parse_data_type("Type"), Some(DataType::Type));
    assert_eq!(try_parse_data_type("int"), None);
    assert_eq!(data_type_to_string(DataType::Int), "Int");
}

#[test]
fn rows_layout_and_round_trip() {
    let rows = vec![
        vec![WordType::Int(1), WordType::Str("ab".to_string())],
        vec![WordType::Int(-2), WordType::Str("é".to_string())],
    ];
    let enc = encode_rows(&rows, Endian::Little);
    assert!(!enc.cut_texts);
    assert_eq!(enc.bytes.len(), 108);
    assert_eq!(&enc.bytes[0..6], &[1, 0, 0, 0, b'a', b'b']);
    assert!(enc.bytes[6..54].iter().all(|b| *b == 0));
    assert_eq!(&enc.bytes[54..58], &[0xfe, 0xff, 0xff, 0xff]);
    assert_eq!(&enc.bytes[58..60], &[0xc3, 0xa9]);
    assert_eq!(read_rows(&clients(), &enc.bytes, Endian::Little), Ok(rows.clone()));
    let big = encode_rows(&rows, Endian::Big);
    assert_eq!(&big.bytes[0..4], &[0, 0, 0, 1]);
    assert_eq!(read_rows(&clients(), &big.bytes, Endian::Big), Ok(rows));
}

#[test]
fn long_texts_are_cut() {
    let long = "x".repeat(60);
    let rows = vec![vec![WordType::Int(7), WordType::Str(long)]];
    let enc = encode_rows(&rows, Endian::Little);
    assert!(enc.cut_texts);
    assert_eq!(enc.bytes.len(), 54);
    let back = read_rows(&clients(), &enc.bytes, Endian::Little).unwrap();
    assert_eq!(back[0][1], WordType::Str("x".repeat(50)));
}

#[test]
fn misaligned_row_file() {
    assert_eq!(read_rows(&clients(), &vec![0u8; 55], Endian::Little), Err(RowsError::Misaligned));
    assert_eq!(read_rows(&clients(), &vec![], Endian::Little), Ok(vec![]));
    let bare = TableSchema { name: "b".to_string(), cols: vec![] };
    assert_eq!(read_rows(&bare, &vec![1u8], Endian::Little), Err(RowsError::Misaligned));
}

#[test]
fn invalid_utf8_is_replaced() {
    let mut bytes = vec![5u8, 0, 0, 0, 0xff, b'a'];
    bytes.resize(54, 0);
    let back = read_rows(&clients(), &bytes, Endian::Little).unwrap();
    assert_eq!(back[0][1], WordType::Str("\u{fffd}a".to_string()));
}

#[test]
fn save_database_files() {
    let db = Database {
        name: "database".to_string(),
        tables: vec![Table { schema: clients(), rows: vec![vec![WordType::Int(3), WordType::Str("c".to_string())]] }],
    };
    assert!(is_well_formed(&db));
    let files = save_database_to(&db, Endian::Little);
    assert_eq!(files.len(), 1);
    assert_eq!(files[0].name, "clients");
    assert_eq!(files[0].schema, "clients\nid:Int\nname:Str\n");
    assert_eq!(files[0].rows.bytes.len(), 54);
    let bad = Database {
        name: "database".to_string(),
        tables: vec![Table { schema: clients(), rows: vec![vec![WordType::Int(3)]] }],
    };
    assert!(!is_well_formed(&bad));
}

#[test]
fn saved_row_file_reads_back_to_same_bytes() {
    let mut bytes = vec![7u8, 0, 0, 0];
    bytes.extend_from_slice("héllo".as_bytes());
    bytes.resize(54, 0);
    bytes.extend_from_slice(&[0xff, 0xff, 0xff, 0x7f]);
    bytes.extend_from_slice(&[b'z'; 50]);
    let rows = read_rows(&clients(), &bytes, Endian::Little).unwrap();
    assert_eq!(rows[1], vec![WordType::Int(0x7fffffff), WordType::Str("z".repeat(50))]);
    assert_eq!(encode_rows(&rows, Endian::Little).bytes, bytes);
}

#[test]
fn garbage_after_text_is_not_kept() {
    let mut bytes = vec![1u8, 0, 0, 0, b'a', 0, b'q'];
    bytes.resize(54, 0);
    let rows = read_rows(&clients(), &bytes, Endian::Little).unwrap();
    assert_eq!(rows[0][1], WordType::Str("a".to_string()));
    assert_ne!(encode_rows(&rows, Endian::Little).bytes, bytes);
}
