use stackdb::engine::{execute_query, logical_op_check, run_query, Condition, ExecError};
use stackdb::model::{DataType, Database, Table, TableSchema, WordType};
use stackdb::query::{parse_query, try_parse_op, LexError, OpType, Token};

fn s(x: &str) -> WordType {
    WordType::Str(x.to_string())
}

fn people() -> Database {
    Database {
        name: "database".to_string(),
        tables: vec![Table {
            schema: TableSchema {
                name: "t".to_string(),
                cols: vec![("id".to_string(), DataType::Int), ("name".to_string(), DataType::Str)],
            },
            rows: vec![
                vec![WordType::Int(1), s("a")],
                vec![WordType::Int(2), s("b")],
                vec![WordType::Int(3), s("c")],
            ],
        }],
    }
}

fn run(db: &mut Database, q: &str) -> Option<Table> {
    let tokens = parse_query(q).unwrap();
    execute_query(&tokens, db)
}

#[test]
fn valid_query() {
    let query = "id name select id 10 > filter-and";
    let expected = vec![
        Token::Word(WordType::Str(String::from("id"))),
        Token::Word(WordType::Str(String::from("name"))),
        Token::Op(OpType::Select),
        Token::Word(WordType::Str(String::from("id"))),
        Token::Word(WordType::Int(10)),
        Token::Op(OpType::More),
        Token::Op(OpType::FilterAnd),
    ];
    match parse_query(query) {
        Ok(tokens) => assert!(expected == tokens),
        Err(err) => assert!(false, "{}", err.message()),
    }

    let query = "id 5 != name \"John Watson\" == delete";
    let expected = vec![
        Token::Word(WordType::Str(String::from("id"))),
        Token::Word(WordType::Int(5)),
        Token::Op(OpType::NotEqual),
        Token::Word(WordType::Str(String::from("name"))),
        Token::Word(WordType::Str(String::from("John Watson"))),
        Token::Op(OpType::Equal),
        Token::Op(OpType::Delete),
    ];
    match parse_query(query) {
        Ok(tokens) => assert!(expected == tokens),
        Err(err) => assert!(false, "{}", err.message()),
    }
}

#[test]
fn unclosed_string() {
    let query = "3 \"John Watson 20 insert";
    let r = parse_query(query);
    assert_eq!(r, Err(LexError::UnclosedString));
    assert_eq!(LexError::UnclosedString.message(), "ERROR: unclosed string literal in a query");
}

#[test]
fn parse_select_round_trip() {
    let r = parse_query("id name select").unwrap();
    assert_eq!(r, vec![Token::Word(s("id")), Token::Word(s("name")), Token::Op(OpType::Select)]);
}

#[test]
fn parse_types_parens_and_numbers() {
    let r = parse_query("clients (id Int) (name Str) create").unwrap();
    assert_eq!(
        r,
        vec![
            Token::Word(s("clients")),
            Token::Word(s("id")),
            Token::Word(WordType::Type(DataType::Int)),
            Token::Word(s("name")),
            Token::Word(WordType::Type(DataType::Str)),
            Token::Op(OpType::Create),
        ]
    );
    let r = parse_query("-2147483648 2147483648 +7 - x1 ( ) \"\"").unwrap();
    assert_eq!(
        r,
        vec![
            Token::Word(WordType::Int(-2147483648)),
            Token::Word(s("2147483648")),
            Token::Word(WordType::Int(7)),
            Token::Word(s("-")),
            Token::Word(s("x1")),
            Token::Word(s("")),
        ]
    );
    assert_eq!(parse_query("   ").unwrap(), vec![]);
    assert_eq!(parse_query("(\"a b\" filter-or").unwrap(), vec![Token::Word(s("a b")), Token::Op(OpType::FilterOr)]);
}

#[test]
fn op_keywords() {
    assert_eq!(try_parse_op("drop"), Some(OpType::Drop));
    assert_eq!(try_parse_op("<"), Some(OpType::Less));
    assert_eq!(try_parse_op("Drop"), None);
}

#[test]
fn valid_logical_op() {
    let words = vec![WordType::Str("name".to_string()), WordType::Str("John".to_string())];
    let table = Table {
        schema: TableSchema { name: "test".to_string(), cols: vec![("name".to_string(), DataType::Str)] },
        rows: vec![],
    };
    let expected = Condition { idx: 0, value: WordType::Str("John".to_string()), op: OpType::Equal };
    assert!(expected == logical_op_check(OpType::Equal, &words, &table).unwrap());
}

#[test]
fn one_argument_for_logic_op() {
    let words = vec![WordType::Str("name".to_string())];
    let table = Table { schema: TableSchema { name: "test".to_string(), cols: vec![] }, rows: vec![] };
    assert_eq!(
        logical_op_check(OpType::Equal, &words, &table),
        Err(ExecError::NotEnoughArguments { op: OpType::Equal, provided: 1, needed: 2 })
    );
}

#[test]
fn not_string_for_col_name() {
    let words = vec![WordType::Int(10), WordType::Int(5)];
    let table = Table { schema: TableSchema { name: "test".to_string(), cols: vec![] }, rows: vec![] };
    assert_eq!(
        logical_op_check(OpType::More, &words, &table),
        Err(ExecError::CompareColumnNotString { op: OpType::More, found: WordType::Int(10) })
    );
}

#[test]
fn not_existing_column() {
    let words = vec![WordType::Str("age".to_string()), WordType::Int(5)];
    let table = Table {
        schema: TableSchema { name: "test".to_string(), cols: vec![("id".to_string(), DataType::Int)] },
        rows: vec![],
    };
    assert_eq!(
        logical_op_check(OpType::More, &words, &table),
        Err(ExecError::NoSuchColumn { column: "age".to_string(), table: "test".to_string() })
    );
}

#[test]
fn types_mismatch_between_col_and_word() {
    let words = vec![WordType::Str("id".to_string()), WordType::Str("8".to_string())];
    let table = Table {
        schema: TableSchema { name: "test".to_string(), cols: vec![("id".to_string(), DataType::Int)] },
        rows: vec![],
    };
    assert_eq!(
        logical_op_check(OpType::More, &words, &table),
        Err(ExecError::CompareTypeMismatch {
            op: OpType::More,
            expected: DataType::Int,
            found: WordType::Str("8".to_string())
        })
    );
}

#[test]
fn create_table() {
    let query = "clients (id Int) (name Str) create";
    let mut database = Database { name: "database".to_string(), tables: vec![] };
    let tokens = parse_query(query).unwrap();
    let result = execute_query(&tokens, &mut database);
    assert!(result.is_none());
    assert!(database.tables.len() == 1);
    let expected = Table {
        schema: TableSchema {
            name: "clients".to_string(),
            cols: vec![("id".to_string(), DataType::Int), ("name".to_string(), DataType::Str)],
        },
        rows: vec![],
    };
    assert!(expected == database.tables[0]);
}

#[test]
fn drop_table() {
    let query = "clients drop";
    let mut database = Database {
        name: "database".to_string(),
        tables: vec![Table { schema: TableSchema { name: "clients".to_string(), cols: vec![] }, rows: vec![] }],
    };
    let tokens = parse_query(query).unwrap();
    let result = execute_query(&tokens, &mut database);
    assert!(result.is_none());
    assert!(database.tables.len() == 0);
}

#[test]
fn select_star_then_filter() {
    let mut db = people();
    let r = run(&mut db, "t * select id 1 > filter-and").unwrap();
    assert_eq!(r.schema.name, "temp");
    assert_eq!(r.schema.cols, vec![("id".to_string(), DataType::Int), ("name".to_string(), DataType::Str)]);
    assert_eq!(r.rows, vec![vec![WordType::Int(2), s("b")], vec![WordType::Int(3), s("c")]]);
}

#[test]
fn delete_not_equal() {
    let mut db = people();
    assert!(run(&mut db, "id 2 != delete").is_none());
    assert_eq!(db.tables[0].rows, vec![vec![WordType::Int(2), s("b")]]);
    let mut db = people();
    assert!(run(&mut db, "id 2 == delete").is_none());
    assert_eq!(db.tables[0].rows, vec![vec![WordType::Int(1), s("a")], vec![WordType::Int(3), s("c")]]);
}

#[test]
fn projection_order_and_texts() {
    let mut db = people();
    let r = run(&mut db, "t name id select name \"b\" < filter-and").unwrap();
    assert_eq!(r.schema.cols, vec![("name".to_string(), DataType::Str), ("id".to_string(), DataType::Int)]);
    assert_eq!(r.rows, vec![vec![s("a"), WordType::Int(1)]]);
}

#[test]
fn filter_or_and_empty_conditions() {
    let mut db = people();
    let r = run(&mut db, "t * select id 1 == id 3 == filter-or").unwrap();
    assert_eq!(r.rows, vec![vec![WordType::Int(1), s("a")], vec![WordType::Int(3), s("c")]]);
    let r = run(&mut db, "t * select filter-and").unwrap();
    assert_eq!(r.rows.len(), 3);
    let r = run(&mut db, "t * select filter-or").unwrap();
    assert_eq!(r.rows.len(), 0);
}

#[test]
fn insert_appends_a_row() {
    let mut db = people();
    assert!(run(&mut db, "t 4 \"Jane Doe\" insert").is_none());
    assert_eq!(db.tables[0].rows.len(), 4);
    assert_eq!(db.tables[0].rows[3], vec![WordType::Int(4), s("Jane Doe")]);
}

#[test]
fn execution_errors() {
    let cases: Vec<(&str, ExecError)> = vec![
        ("select", ExecError::NoArguments(OpType::Select)),
        ("5 select", ExecError::TableNameNotString(WordType::Int(5))),
        ("u select", ExecError::NoSuchTable("u".to_string())),
        ("t age select", ExecError::NoSuchColumn { column: "age".to_string(), table: "t".to_string() }),
        ("t 3 select", ExecError::SelectNonString(WordType::Int(3))),
        ("t \"x\" insert", ExecError::NotEnoughArguments { op: OpType::Insert, provided: 1, needed: 2 }),
        (
            "t x y insert",
            ExecError::ArgumentTypeMismatch { expected: DataType::Int, found: s("x") },
        ),
        ("u id create", ExecError::ColumnTypeMissing),
        ("u 1 Int create", ExecError::ColumnNameNotString(WordType::Int(1))),
        ("u id Type create", ExecError::UnknownColumnType(WordType::Type(DataType::Type))),
        ("u id Int id Str create", ExecError::DuplicateColumn("id".to_string())),
        ("t create", ExecError::TableExists("t".to_string())),
        ("filter-and", ExecError::NoResultTable(OpType::FilterAnd)),
        ("id 1 == filter-or", ExecError::NoResultTable(OpType::Equal)),
        ("u drop", ExecError::NoSuchTable("u".to_string())),
    ];
    for (q, e) in cases {
        let mut db = people();
        let tokens = parse_query(q).unwrap();
        assert_eq!(run_query(&tokens, &mut db).err(), Some(e), "{}", q);
    }
    let mut empty = Database { name: "database".to_string(), tables: vec![] };
    let tokens = parse_query("delete").unwrap();
    assert_eq!(run_query(&tokens, &mut empty).err(), Some(ExecError::EmptyDatabase));
}

#[test]
fn earlier_effects_are_kept_and_leftovers_counted() {
    let mut db = people();
    let tokens = parse_query("u (id Int) create u drop t nope select").unwrap();
    assert!(run_query(&tokens, &mut db).is_err());
    assert_eq!(db.tables.len(), 1);
    let tokens = parse_query("t * select 1 2 id 1 >").unwrap();
    let out = run_query(&tokens, &mut db).unwrap();
    assert_eq!(out.unused_words, 2);
    assert_eq!(out.unused_conditions, 1);
    assert_eq!(out.result.unwrap().rows.len(), 3);
}

#[test]
fn rendered_program_lexes_back() {
    let program = parse_query("(t id) \"a b\" x\"y -12 Str == filter-or").unwrap();
    assert_eq!(
        program,
        vec![
            Token::Word(s("t")),
            Token::Word(s("id")),
            Token::Word(s("a b")),
            Token::Word(s("x\"y")),
            Token::Word(WordType::Int(-12)),
            Token::Word(WordType::Type(DataType::Str)),
            Token::Op(OpType::Equal),
            Token::Op(OpType::FilterOr),
        ]
    );
    let text = "\"t\" \"id\" \"a b\" x\"y -12 Str == filter-or ";
    assert_eq!(parse_query(text).unwrap(), program);
}
