use vstd::prelude::*;
use crate::chars::chars_of;
use crate::model::{
    database_wf, duplicate_row, row_fits, row_view, schema_wf, table_wf, tag_of, DataType, Database,
    DatabaseView, Row, SchemaView, Table, TableSchema, TableView, WordType, WordView,
};
use crate::query::{tokens_view, OpType, Token, TokenView};

verus! {

/// A comparison that rows are tested against: the value in column `idx`
/// compared by `op` with `value`.
#[derive(Debug, Clone, PartialEq, Eq)]
pub struct Condition {
    pub idx: usize,
    pub value: WordType,
    pub op: OpType,
}

pub struct CondView {
    pub idx: nat,
    pub value: WordView,
    pub op: OpType,
}

impl View for Condition {
    type V = CondView;

    open spec fn view(&self) -> CondView {
        CondView { idx: self.idx as nat, value: self.value@, op: self.op }
    }
}

/// Why a program stopped.
#[derive(Debug, Clone, PartialEq, Eq)]
pub enum ExecError {
    /// The operator found the value stack empty.
    NoArguments(OpType),
    /// The value that should name a table is not a text.
    TableNameNotString(WordType),
    NoSuchTable(String),
    NoSuchColumn { column: String, table: String },
    /// `select` was given a column that is not a text.
    SelectNonString(WordType),
    NotEnoughArguments { op: OpType, provided: usize, needed: usize },
    /// A value to insert has another type than its column.
    ArgumentTypeMismatch { expected: DataType, found: WordType },
    CompareColumnNotString { op: OpType, found: WordType },
    CompareTypeMismatch { op: OpType, expected: DataType, found: WordType },
    ColumnNameNotString(WordType),
    ColumnTypeMissing,
    UnknownColumnType(WordType),
    DuplicateColumn(String),
    TableExists(String),
    /// A filter or a comparison needs a result table and there is none.
    NoResultTable(OpType),
    /// `delete` works on the first table, and the database has none.
    EmptyDatabase,
}

pub enum ExecErrorView {
    NoArguments(OpType),
    TableNameNotString(WordView),
    NoSuchTable(Seq<char>),
    NoSuchColumn { column: Seq<char>, table: Seq<char> },
    SelectNonString(WordView),
    NotEnoughArguments { op: OpType, provided: nat, needed: nat },
    ArgumentTypeMismatch { expected: DataType, found: WordView },
    CompareColumnNotString { op: OpType, found: WordView },
    CompareTypeMismatch { op: OpType, expected: DataType, found: WordView },
    ColumnNameNotString(WordView),
    ColumnTypeMissing,
    UnknownColumnType(WordView),
    DuplicateColumn(Seq<char>),
    TableExists(Seq<char>),
    NoResultTable(OpType),
    EmptyDatabase,
}

impl View for ExecError {
    type V = ExecErrorView;

    open spec fn view(&self) -> ExecErrorView {
        match self {
            ExecError::NoArguments(o) => ExecErrorView::NoArguments(*o),
            ExecError::TableNameNotString(w) => ExecErrorView::TableNameNotString(w@),
            ExecError::NoSuchTable(s) => ExecErrorView::NoSuchTable(s@),
            ExecError::NoSuchColumn { column, table } => ExecErrorView::NoSuchColumn {
                column: column@,
                table: table@,
            },
            ExecError::SelectNonString(w) => ExecErrorView::SelectNonString(w@),
            ExecError::NotEnoughArguments { op, provided, needed } =>
                ExecErrorView::NotEnoughArguments {
                op: *op,
                provided: *provided as nat,
                needed: *needed as nat,
            },
            ExecError::ArgumentTypeMismatch { expected, found } =>
                ExecErrorView::ArgumentTypeMismatch { expected: *expected, found: found@ },
            ExecError::CompareColumnNotString { op, found } =>
                ExecErrorView::CompareColumnNotString { op: *op, found: found@ },
            ExecError::CompareTypeMismatch { op, expected, found } =>
                ExecErrorView::CompareTypeMismatch { op: *op, expected: *expected, found: found@ },
            ExecError::ColumnNameNotString(w) => ExecErrorView::ColumnNameNotString(w@),
            ExecError::ColumnTypeMissing => ExecErrorView::ColumnTypeMissing,
            ExecError::UnknownColumnType(w) => ExecErrorView::UnknownColumnType(w@),
            ExecError::DuplicateColumn(s) => ExecErrorView::DuplicateColumn(s@),
            ExecError::TableExists(s) => ExecErrorView::TableExists(s@),
            ExecError::NoResultTable(o) => ExecErrorView::NoResultTable(*o),
            ExecError::EmptyDatabase => ExecErrorView::EmptyDatabase,
        }
    }
}

pub open spec fn is_comparison(op: OpType) -> bool {
    op == OpType::Equal || op == OpType::NotEqual || op == OpType::Less || op == OpType::More
}

/// Lexicographic order of texts, character by character (the order of their
/// UTF-8 bytes).
pub open spec fn text_less(a: Seq<char>, b: Seq<char>) -> bool
    decreases a.len(),
{
    if a.len() == 0 {
        b.len() > 0
    } else if b.len() == 0 {
        false
    } else if a[0] != b[0] {
        a[0] < b[0]
    } else {
        text_less(a.skip(1), b.skip(1))
    }
}

/// Whether `a op b` holds; values of different tags never compare.
pub open spec fn compare(a: WordView, b: WordView, op: OpType) -> bool {
    match (a, b) {
        (WordView::Int(x), WordView::Int(y)) => match op {
            OpType::Equal => x == y,
            OpType::NotEqual => x != y,
            OpType::Less => x < y,
            OpType::More => x > y,
            _ => false,
        },
        (WordView::Str(x), WordView::Str(y)) => match op {
            OpType::Equal => x == y,
            OpType::NotEqual => x != y,
            OpType::Less => text_less(x, y),
            OpType::More => text_less(y, x),
            _ => false,
        },
        _ => false,
    }
}

/// Whether `row` meets the condition `c`.
pub open spec fn cond_holds(row: Seq<WordView>, c: CondView) -> bool {
    c.idx < row.len() && compare(row[c.idx as int], c.value, c.op)
}

pub open spec fn all_hold(row: Seq<WordView>, conds: Seq<CondView>) -> bool {
    forall|i: int| 0 <= i < conds.len() ==> cond_holds(row, #[trigger] conds[i])
}

pub open spec fn any_holds(row: Seq<WordView>, conds: Seq<CondView>) -> bool {
    exists|i: int| 0 <= i < conds.len() && cond_holds(row, #[trigger] conds[i])
}

/// The first position in `s` whose element satisfies `p`.
pub open spec fn first_where<A>(s: Seq<A>, p: spec_fn(A) -> bool) -> Option<int> {
    if exists|i: int| 0 <= i < s.len() && p(s[i]) && forall|j: int| 0 <= j < i ==> !p(s[j]) {
        Some(
            choose|i: int| 0 <= i < s.len() && p(s[i]) && forall|j: int| 0 <= j < i ==> !p(s[j]),
        )
    } else {
        None
    }
}

pub open spec fn table_index(tables: Seq<TableView>, name: Seq<char>) -> Option<int> {
    first_where(tables, |t: TableView| t.schema.name == name)
}

pub open spec fn col_index(cols: Seq<(Seq<char>, DataType)>, name: Seq<char>) -> Option<int> {
    first_where(cols, |c: (Seq<char>, DataType)| c.0 == name)
}

pub open spec fn star() -> Seq<char> {
    seq!['*']
}

/// The column positions that the arguments of `select` name, appended to
/// `acc`: `*` stands for every column in order.
pub open spec fn select_cols(
    cols: Seq<(Seq<char>, DataType)>,
    table: Seq<char>,
    acc: Seq<int>,
    args: Seq<WordView>,
) -> Result<Seq<int>, ExecErrorView>
    decreases args.len(),
{
    if args.len() == 0 {
        Ok(acc)
    } else {
        match args[0] {
            WordView::Str(s) => if s == star() {
                select_cols(cols, table, acc + Seq::new(cols.len(), |i: int| i), args.skip(1))
            } else {
                match col_index(cols, s) {
                    Some(c) => select_cols(cols, table, acc.push(c), args.skip(1)),
                    None => Err(ExecErrorView::NoSuchColumn { column: s, table }),
                }
            },
            _ => Err(ExecErrorView::SelectNonString(args[0])),
        }
    }
}

pub open spec fn temp_name() -> Seq<char> {
    seq!['t', 'e', 'm', 'p']
}

/// The table `t` cut down to the columns at `idx`, in that order.
pub open spec fn project(t: TableView, idx: Seq<int>) -> TableView {
    TableView {
        schema: SchemaView {
            name: temp_name(),
            cols: idx.map_values(|c: int| t.schema.cols[c]),
        },
        rows: t.rows.map_values(|r: Seq<WordView>| idx.map_values(|c: int| r[c])),
    }
}

/// The columns that the arguments of `create` declare, appended to `acc`:
/// pairs of a name and a type tag `Int` or `Str`, names not repeated.
pub open spec fn create_cols(
    acc: Seq<(Seq<char>, DataType)>,
    args: Seq<WordView>,
) -> Result<Seq<(Seq<char>, DataType)>, ExecErrorView>
    decreases args.len(),
{
    if args.len() == 0 {
        Ok(acc)
    } else {
        match args[0] {
            WordView::Str(name) => if args.len() < 2 {
                Err(ExecErrorView::ColumnTypeMissing)
            } else {
                match args[1] {
                    WordView::Type(t) => if t == DataType::Type {
                        Err(ExecErrorView::UnknownColumnType(args[1]))
                    } else if col_index(acc, name) is Some {
                        Err(ExecErrorView::DuplicateColumn(name))
                    } else {
                        create_cols(acc.push((name, t)), args.skip(2))
                    },
                    _ => Err(ExecErrorView::UnknownColumnType(args[1])),
                }
            },
            _ => Err(ExecErrorView::ColumnNameNotString(args[0])),
        }
    }
}

/// The condition that a comparison builds from the two values on top of the
/// stack, the column name under the value, against the columns `cols` of the
/// table named `table`.
pub open spec fn check_cond(
    op: OpType,
    words: Seq<WordView>,
    cols: Seq<(Seq<char>, DataType)>,
    table: Seq<char>,
) -> Result<CondView, ExecErrorView> {
    let n = words.len();
    if n < 2 {
        Err(ExecErrorView::NotEnoughArguments { op, provided: n, needed: 2 })
    } else {
        match words[n - 2] {
            WordView::Str(col) => match col_index(cols, col) {
                None => Err(ExecErrorView::NoSuchColumn { column: col, table }),
                Some(i) => if tag_of(words[n - 1]) != cols[i].1 {
                    Err(
                        ExecErrorView::CompareTypeMismatch {
                            op,
                            expected: cols[i].1,
                            found: words[n - 1],
                        },
                    )
                } else {
                    Ok(CondView { idx: i as nat, value: words[n - 1], op })
                },
            },
            _ => Err(ExecErrorView::CompareColumnNotString { op, found: words[n - 2] }),
        }
    }
}

/// Whether the first operator after `from` that uses up conditions is a
/// `delete`.
pub open spec fn feeds_delete(prog: Seq<TokenView>, from: int) -> bool
    decreases prog.len() - from,
{
    if from < 0 || from >= prog.len() {
        false
    } else {
        match prog[from] {
            TokenView::Op(OpType::Delete) => true,
            TokenView::Op(OpType::FilterAnd) => false,
            TokenView::Op(OpType::FilterOr) => false,
            _ => feeds_delete(prog, from + 1),
        }
    }
}

/// What the interpreter holds between opcodes: the value stack, the
/// condition stack and the result slot.
pub struct MachineView {
    pub words: Seq<WordView>,
    pub conds: Seq<CondView>,
    pub result: Option<TableView>,
}

pub open spec fn start_machine() -> MachineView {
    MachineView { words: seq![], conds: seq![], result: None }
}

pub open spec fn set_rows(t: TableView, rows: Seq<Seq<WordView>>) -> TableView {
    TableView { schema: t.schema, rows }
}

/// `select`: the bottom of the stack names a table, the rest its columns
/// (`*` for all); the result slot gets the projection.
pub open spec fn step_select(db: DatabaseView, m: MachineView) -> Result<
    (DatabaseView, MachineView),
    ExecErrorView,
> {
    let ws = m.words;
    if ws.len() == 0 {
        Err(ExecErrorView::NoArguments(OpType::Select))
    } else {
        match ws[0] {
            WordView::Str(name) => match table_index(db.tables, name) {
                None => Err(ExecErrorView::NoSuchTable(name)),
                Some(ti) => {
                    let t = db.tables[ti];
                    match select_cols(t.schema.cols, name, seq![], ws.skip(1)) {
                        Err(e) => Err(e),
                        Ok(idx) => Ok(
                            (
                                db,
                                MachineView {
                                    words: seq![],
                                    result: Some(project(t, idx)),
                                    ..m
                                },
                            ),
                        ),
                    }
                },
            },
            _ => Err(ExecErrorView::TableNameNotString(ws[0])),
        }
    }
}

/// `insert`: the bottom of the stack names a table; its last values, one per
/// column and of the column's type, are appended as a row.
pub open spec fn step_insert(db: DatabaseView, m: MachineView) -> Result<
    (DatabaseView, MachineView),
    ExecErrorView,
> {
    let ws = m.words;
    if ws.len() == 0 {
        Err(ExecErrorView::NoArguments(OpType::Insert))
    } else {
        match ws[0] {
            WordView::Str(name) => match table_index(db.tables, name) {
                None => Err(ExecErrorView::NoSuchTable(name)),
                Some(ti) => {
                    let t = db.tables[ti];
                    let cols = t.schema.cols;
                    let data = ws.skip(1);
                    if data.len() < cols.len() {
                        Err(
                            ExecErrorView::NotEnoughArguments {
                                op: OpType::Insert,
                                provided: data.len(),
                                needed: cols.len(),
                            },
                        )
                    } else {
                        let row = data.skip(data.len() - cols.len());
                        if exists|i: int|
                            0 <= i < row.len() && tag_of(#[trigger] row[i]) != cols[i].1 {
                            let i = choose|i: int|
                                0 <= i < row.len() && tag_of(#[trigger] row[i]) != cols[i].1
                                    && forall|j: int|
                                    0 <= j < i ==> tag_of(#[trigger] row[j]) == cols[j].1;
                            Err(
                                ExecErrorView::ArgumentTypeMismatch {
                                    expected: cols[i].1,
                                    found: row[i],
                                },
                            )
                        } else {
                            Ok(
                                (
                                    DatabaseView {
                                        tables: db.tables.update(
                                            ti,
                                            set_rows(t, t.rows.push(row)),
                                        ),
                                        ..db
                                    },
                                    MachineView { words: seq![], ..m },
                                ),
                            )
                        }
                    }
                },
            },
            _ => Err(ExecErrorView::TableNameNotString(ws[0])),
        }
    }
}

/// `create`: the bottom of the stack names a new table, the rest declares its
/// columns.
pub open spec fn step_create(db: DatabaseView, m: MachineView) -> Result<
    (DatabaseView, MachineView),
    ExecErrorView,
> {
    let ws = m.words;
    if ws.len() == 0 {
        Err(ExecErrorView::NoArguments(OpType::Create))
    } else {
        match ws[0] {
            WordView::Str(name) => match create_cols(seq![], ws.skip(1)) {
                Err(e) => Err(e),
                Ok(cols) => if table_index(db.tables, name) is Some {
                    Err(ExecErrorView::TableExists(name))
                } else {
                    Ok(
                        (
                            DatabaseView {
                                tables: db.tables.push(
                                    TableView {
                                        schema: SchemaView { name, cols },
                                        rows: seq![],
                                    },
                                ),
                                ..db
                            },
                            MachineView { words: seq![], ..m },
                        ),
                    )
                },
            },
            _ => Err(ExecErrorView::TableNameNotString(ws[0])),
        }
    }
}

/// `drop`: the top of the stack names the table to remove.
pub open spec fn step_drop(db: DatabaseView, m: MachineView) -> Result<
    (DatabaseView, MachineView),
    ExecErrorView,
> {
    let ws = m.words;
    if ws.len() == 0 {
        Err(ExecErrorView::NoArguments(OpType::Drop))
    } else {
        match ws.last() {
            WordView::Str(name) => match table_index(db.tables, name) {
                None => Err(ExecErrorView::NoSuchTable(name)),
                Some(ti) => Ok(
                    (
                        DatabaseView { tables: db.tables.remove(ti), ..db },
                        MachineView { words: ws.drop_last(), ..m },
                    ),
                ),
            },
            _ => Err(ExecErrorView::TableNameNotString(ws.last())),
        }
    }
}

/// `filter-and`: the result keeps the rows that meet every condition.
pub open spec fn step_filter_and(db: DatabaseView, m: MachineView) -> Result<
    (DatabaseView, MachineView),
    ExecErrorView,
> {
    match m.result {
        None => Err(ExecErrorView::NoResultTable(OpType::FilterAnd)),
        Some(t) => Ok(
            (
                db,
                MachineView {
                    conds: seq![],
                    result: Some(
                        set_rows(
                            t,
                            t.rows.filter(|r: Seq<WordView>| all_hold(r, m.conds)),
                        ),
                    ),
                    ..m
                },
            ),
        ),
    }
}

/// `filter-or`: the result keeps the rows that meet some condition.
pub open spec fn step_filter_or(db: DatabaseView, m: MachineView) -> Result<
    (DatabaseView, MachineView),
    ExecErrorView,
> {
    match m.result {
        None => Err(ExecErrorView::NoResultTable(OpType::FilterOr)),
        Some(t) => Ok(
            (
                db,
                MachineView {
                    conds: seq![],
                    result: Some(
                        set_rows(
                            t,
                            t.rows.filter(|r: Seq<WordView>| any_holds(r, m.conds)),
                        ),
                    ),
                    ..m
                },
            ),
        ),
    }
}

/// `delete`: the first table loses the rows that meet every condition.
pub open spec fn step_delete(db: DatabaseView, m: MachineView) -> Result<
    (DatabaseView, MachineView),
    ExecErrorView,
> {
    if db.tables.len() == 0 {
        Err(ExecErrorView::EmptyDatabase)
    } else {
        let t = db.tables[0];
        Ok(
            (
                DatabaseView {
                    tables: db.tables.update(
                        0,
                        set_rows(
                            t,
                            t.rows.filter(|r: Seq<WordView>| !all_hold(r, m.conds)),
                        ),
                    ),
                    ..db
                },
                MachineView { conds: seq![], ..m },
            ),
        )
    }
}

/// A comparison: a condition on the first table where a `delete` uses it,
/// on the result table otherwise.
pub open spec fn step_compare(
    op: OpType,
    to_delete: bool,
    db: DatabaseView,
    m: MachineView,
) -> Result<
    (DatabaseView, MachineView),
    ExecErrorView,
> {
    let ws = m.words;
    let target = if to_delete {
        if db.tables.len() == 0 {
            Err(ExecErrorView::EmptyDatabase)
        } else {
            Ok(db.tables[0])
        }
    } else {
        match m.result {
            None => Err(ExecErrorView::NoResultTable(op)),
            Some(t) => Ok(t),
        }
    };
    match target {
        Err(e) => Err(e),
        Ok(t) => match check_cond(op, ws, t.schema.cols, t.schema.name) {
            Err(e) => Err(e),
            Ok(c) => Ok(
                (
                    db,
                    MachineView {
                        words: ws.take(ws.len() - 2),
                        conds: m.conds.push(c),
                        ..m
                    },
                ),
            ),
        },
    }
}

/// One opcode, the one at `pc`, run on the database `db` and the machine `m`.
/// An error leaves both as they were.
pub open spec fn step(
    prog: Seq<TokenView>,
    pc: int,
    db: DatabaseView,
    m: MachineView,
) -> Result<(DatabaseView, MachineView), ExecErrorView> {
    match prog[pc] {
        TokenView::Word(w) => Ok((db, MachineView { words: m.words.push(w), ..m })),
        TokenView::Op(op) => match op {
            OpType::Select => step_select(db, m),
            OpType::Insert => step_insert(db, m),
            OpType::Create => step_create(db, m),
            OpType::Drop => step_drop(db, m),
            OpType::FilterAnd => step_filter_and(db, m),
            OpType::FilterOr => step_filter_or(db, m),
            OpType::Delete => step_delete(db, m),
            _ => step_compare(op, feeds_delete(prog, pc + 1), db, m),
        },
    }
}

/// The program run from `pc` on: the database as it is left, and the machine
/// at the end or the error that stopped it. Opcodes before an error keep
/// their effect.
pub open spec fn run(prog: Seq<TokenView>, pc: nat, db: DatabaseView, m: MachineView) -> (
    DatabaseView,
    Result<MachineView, ExecErrorView>,
)
    decreases prog.len() - pc,
{
    if pc >= prog.len() {
        (db, Ok(m))
    } else {
        match step(prog, pc as int, db, m) {
            Err(e) => (db, Err(e)),
            Ok((db2, m2)) => run(prog, pc + 1, db2, m2),
        }
    }
}

} // verus!

verus! {

pub proof fn lemma_first_where_found<A>(s: Seq<A>, p: spec_fn(A) -> bool, i: int)
    requires
        0 <= i < s.len(),
        p(s[i]),
        forall|j: int| 0 <= j < i ==> !p(s[j]),
    ensures
        first_where(s, p) == Some(i),
{
    let k = choose|k: int| 0 <= k < s.len() && p(s[k]) && forall|j: int| 0 <= j < k ==> !p(s[j]);
    if k < i {
        assert(!p(s[k]));
    } else if k > i {
        assert(!p(s[i]));
    }
}

pub proof fn lemma_first_where_exists<A>(s: Seq<A>, p: spec_fn(A) -> bool, j: int)
    requires
        0 <= j < s.len(),
        p(s[j]),
    ensures
        first_where(s, p) is Some,
    decreases j,
{
    if exists|k: int| 0 <= k < j && p(s[k]) {
        let k = choose|k: int| 0 <= k < j && p(s[k]);
        lemma_first_where_exists(s, p, k);
    } else {
        lemma_first_where_found(s, p, j);
    }
}

pub proof fn lemma_first_where_none<A>(s: Seq<A>, p: spec_fn(A) -> bool)
    requires
        forall|j: int| 0 <= j < s.len() ==> !p(s[j]),
    ensures
        first_where(s, p) is None,
{
}

pub proof fn lemma_first_where_some<A>(s: Seq<A>, p: spec_fn(A) -> bool)
    requires
        first_where(s, p) is Some,
    ensures
        0 <= first_where(s, p)->0 < s.len(),
        p(s[first_where(s, p)->0]),
        forall|j: int| 0 <= j < first_where(s, p)->0 ==> !p(s[j]),
{
}

pub open spec fn tables_view(ts: Seq<Table>) -> Seq<TableView> {
    ts.map_values(|t: Table| t@)
}

pub open spec fn cols_view(cs: Seq<(String, DataType)>) -> Seq<(Seq<char>, DataType)> {
    cs.map_values(|c: (String, DataType)| (c.0@, c.1))
}

pub open spec fn words_view(ws: Seq<WordType>) -> Seq<WordView> {
    ws.map_values(|w: WordType| w@)
}

pub open spec fn conds_view(cs: Seq<Condition>) -> Seq<CondView> {
    cs.map_values(|c: Condition| c@)
}

pub open spec fn rows_view(rs: Seq<Row>) -> Seq<Seq<WordView>> {
    rs.map_values(|r: Row| row_view(r))
}

/// The position of the table called `name`.
pub fn find_table(tables: &Vec<Table>, name: &String) -> (r: Option<usize>)
    ensures
        match r {
            Some(i) => table_index(tables_view(tables@), name@) == Some(i as int),
            None => table_index(tables_view(tables@), name@) is None,
        },
{
    let ghost p = |t: TableView| t.schema.name == name@;
    for i in 0..tables.len()
        invariant
            p == (|t: TableView| t.schema.name == name@),
            forall|j: int| 0 <= j < i ==> !p(#[trigger] tables_view(tables@)[j]),
    {
        if tables[i].schema.name == *name {
            proof {
                lemma_first_where_found(tables_view(tables@), p, i as int);
            }
            return Some(i);
        }
    }
    proof {
        lemma_first_where_none(tables_view(tables@), p);
    }
    None
}

/// The position of the column called `name`.
pub fn find_col(cols: &Vec<(String, DataType)>, name: &String) -> (r: Option<usize>)
    ensures
        match r {
            Some(i) => col_index(cols_view(cols@), name@) == Some(i as int),
            None => col_index(cols_view(cols@), name@) is None,
        },
{
    let ghost p = |c: (Seq<char>, DataType)| c.0 == name@;
    for i in 0..cols.len()
        invariant
            p == (|c: (Seq<char>, DataType)| c.0 == name@),
            forall|j: int| 0 <= j < i ==> !p(#[trigger] cols_view(cols@)[j]),
    {
        if cols[i].0 == *name {
            proof {
                lemma_first_where_found(cols_view(cols@), p, i as int);
            }
            return Some(i);
        }
    }
    proof {
        lemma_first_where_none(cols_view(cols@), p);
    }
    None
}

/// Whether `a` comes before `b` in lexicographic order.
pub fn text_lt(a: &String, b: &String) -> (r: bool)
    ensures
        r == text_less(a@, b@),
{
    let x = chars_of(a.as_str());
    let y = chars_of(b.as_str());
    let mut i: usize = 0;
    assert(x@.skip(0) =~= x@);
    assert(y@.skip(0) =~= y@);
    while i < x.len() && i < y.len() && x[i] == y[i]
        invariant
            i <= x.len(),
            i <= y.len(),
            x@ == a@,
            y@ == b@,
            text_less(a@, b@) == text_less(x@.skip(i as int), y@.skip(i as int)),
        decreases x.len() - i,
    {
        assert(x@.skip(i as int).skip(1) =~= x@.skip(i + 1));
        assert(y@.skip(i as int).skip(1) =~= y@.skip(i + 1));
        i = i + 1;
    }
    if i == x.len() {
        i < y.len()
    } else if i == y.len() {
        false
    } else {
        x[i] < y[i]
    }
}

/// Whether a row whose value is `a` is filtered out by the condition `a
/// condition b`: true where the comparison fails.
pub fn filter_condition(a: &WordType, b: &WordType, condition: OpType) -> (r: bool)
    ensures
        r == !compare(a@, b@, condition),
{
    match (a, b) {
        (WordType::Int(x), WordType::Int(y)) => match condition {
            OpType::Equal => *x != *y,
            OpType::NotEqual => *x == *y,
            OpType::Less => *x >= *y,
            OpType::More => *x <= *y,
            _ => true,
        },
        (WordType::Str(x), WordType::Str(y)) => match condition {
            OpType::Equal => !(*x == *y),
            OpType::NotEqual => *x == *y,
            OpType::Less => !text_lt(x, y),
            OpType::More => !text_lt(y, x),
            _ => true,
        },
        _ => true,
    }
}

/// Whether `row` meets the condition `c`.
pub fn row_meets(row: &Row, c: &Condition) -> (r: bool)
    ensures
        r == cond_holds(row_view(*row), c@),
{
    c.idx < row.len() && !filter_condition(&row[c.idx], &c.value, c.op)
}

pub fn meets_all(row: &Row, conds: &Vec<Condition>) -> (r: bool)
    ensures
        r == all_hold(row_view(*row), conds_view(conds@)),
{
    for i in 0..conds.len()
        invariant
            forall|j: int| 0 <= j < i ==> cond_holds(row_view(*row), #[trigger] conds_view(conds@)[j]),
    {
        if !row_meets(row, &conds[i]) {
            assert(!cond_holds(row_view(*row), conds_view(conds@)[i as int]));
            return false;
        }
    }
    true
}

pub fn meets_any(row: &Row, conds: &Vec<Condition>) -> (r: bool)
    ensures
        r == any_holds(row_view(*row), conds_view(conds@)),
{
    for i in 0..conds.len()
        invariant
            forall|j: int| 0 <= j < i ==> !cond_holds(row_view(*row), #[trigger] conds_view(conds@)[j]),
    {
        if row_meets(row, &conds[i]) {
            assert(cond_holds(row_view(*row), conds_view(conds@)[i as int]));
            return true;
        }
    }
    false
}

} // verus!

verus! {

proof fn lemma_filter_step<A>(s: Seq<A>, f: spec_fn(A) -> bool, i: int)
    requires
        0 <= i < s.len(),
    ensures
        s.take(i + 1).filter(f) == (if f(s[i]) {
            s.take(i).filter(f).push(s[i])
        } else {
            s.take(i).filter(f)
        }),
{
    reveal(Seq::filter);
    assert(s.take(i + 1).drop_last() =~= s.take(i));
}

/// Which rows a filter keeps.
enum Keep {
    /// Those that meet every condition.
    All,
    /// Those that meet at least one condition.
    Any,
    /// Those that fail at least one condition.
    NotAll,
}

spec fn keeps(mode: Keep, row: Seq<WordView>, conds: Seq<CondView>) -> bool {
    match mode {
        Keep::All => all_hold(row, conds),
        Keep::Any => any_holds(row, conds),
        Keep::NotAll => !all_hold(row, conds),
    }
}

/// The rows that `mode` keeps, in order.
fn keep_rows(rows: &Vec<Row>, conds: &Vec<Condition>, mode: Keep) -> (r: Vec<Row>)
    ensures
        rows_view(r@) == rows_view(rows@).filter(|row: Seq<WordView>| keeps(mode, row, conds_view(conds@))),
{
    let ghost f = |row: Seq<WordView>| keeps(mode, row, conds_view(conds@));
    let mut out: Vec<Row> = Vec::new();
    for i in 0..rows.len()
        invariant
            f == (|row: Seq<WordView>| keeps(mode, row, conds_view(conds@))),
            rows_view(out@) == rows_view(rows@).take(i as int).filter(f),
    {
        proof {
            lemma_filter_step(rows_view(rows@), f, i as int);
        }
        let keep = match mode {
            Keep::All => meets_all(&rows[i], conds),
            Keep::Any => meets_any(&rows[i], conds),
            Keep::NotAll => !meets_all(&rows[i], conds),
        };
        if keep {
            let ghost prev = out@;
            out.push(duplicate_row(&rows[i]));
            assert(rows_view(out@) =~= rows_view(prev).push(row_view(rows@[i as int])));
        }
    }
    assert(rows_view(rows@).take(rows.len() as int) =~= rows_view(rows@));
    out
}

} // verus!

verus! {

/// The condition that the comparison `op` builds from the top of the value
/// stack `words`: the value on top, compared with the column named by the
/// text under it, which must exist in `temp_table` and hold values of the
/// same type.
pub fn logical_op_check(op: OpType, words: &[WordType], temp_table: &Table) -> (r: Result<
    Condition,
    ExecError,
>)
    ensures
        match r {
            Ok(c) => check_cond(
                op,
                words_view(words@),
                cols_view(temp_table.schema.cols@),
                temp_table.schema.name@,
            ) == Ok::<CondView, ExecErrorView>(c@),
            Err(e) => check_cond(
                op,
                words_view(words@),
                cols_view(temp_table.schema.cols@),
                temp_table.schema.name@,
            ) == Err::<CondView, ExecErrorView>(e@),
        },
{
    let n = words.len();
    if n < 2 {
        return Err(ExecError::NotEnoughArguments { op, provided: n, needed: 2 });
    }
    let col = match &words[n - 2] {
        WordType::Str(s) => s,
        other => {
            return Err(ExecError::CompareColumnNotString { op, found: other.duplicate() });
        },
    };
    let cols = &temp_table.schema.cols;
    let idx = match find_col(cols, col) {
        Some(i) => i,
        None => {
            return Err(
                ExecError::NoSuchColumn { column: col.clone(), table: temp_table.schema.name.clone() },
            );
        },
    };
    let value = &words[n - 1];
    let expected = cols[idx].1;
    if value.data_type() != expected {
        return Err(ExecError::CompareTypeMismatch { op, expected, found: value.duplicate() });
    }
    Ok(Condition { idx, value: value.duplicate(), op })
}

pub open spec fn idx_view(v: Seq<usize>) -> Seq<int> {
    v.map_values(|c: usize| c as int)
}

/// The column positions that the arguments of `select` name in `table`.
fn select_columns(table: &Table, name: &String, args: &[WordType]) -> (r: Result<Vec<usize>, ExecError>)
    ensures
        select_cols(cols_view(table.schema.cols@), name@, seq![], words_view(args@)) == match r {
            Ok(v) => Ok::<Seq<int>, ExecErrorView>(idx_view(v@)),
            Err(e) => Err::<Seq<int>, ExecErrorView>(e@),
        },
        r is Ok ==> forall|i: int| 0 <= i < r->Ok_0.len() ==> r->Ok_0@[i] < table.schema.cols.len(),
{
    let cols = &table.schema.cols;
    let ghost cv = cols_view(cols@);
    let mut out: Vec<usize> = Vec::new();
    let mut k: usize = 0;
    assert(words_view(args@).skip(0) =~= words_view(args@));
    assert(idx_view(out@) =~= Seq::<int>::empty());
    while k < args.len()
        invariant
            k <= args.len(),
            cv == cols_view(cols@),
            cols@ == table.schema.cols@,
            select_cols(cv, name@, seq![], words_view(args@)) == select_cols(
                cv,
                name@,
                idx_view(out@),
                words_view(args@).skip(k as int),
            ),
            forall|i: int| 0 <= i < out.len() ==> out@[i] < cols.len(),
        decreases args.len() - k,
    {
        let ghost rest = words_view(args@).skip(k as int);
        assert(rest[0] == args@[k as int]@);
        assert(rest.skip(1) =~= words_view(args@).skip(k + 1));
        match &args[k] {
            WordType::Str(s) => {
                let all_cols = ['*'];
                assert(all_cols@ =~= star());
                let sc = chars_of(s.as_str());
                if crate::chars::chars_match(&sc, &all_cols) {
                    let ghost prev = idx_view(out@);
                    for c in 0..cols.len()
                        invariant
                            idx_view(out@) == prev + Seq::new(c as nat, |i: int| i),
                            forall|i: int| 0 <= i < out.len() ==> out@[i] < cols.len(),
                    {
                        let ghost before = idx_view(out@);
                        out.push(c);
                        assert(idx_view(out@) =~= before.push(c as int));
                        assert(idx_view(out@) =~= prev + Seq::new((c + 1) as nat, |i: int| i));
                    }
                } else {
                    match find_col(cols, s) {
                        Some(c) => {
                            let ghost prev = idx_view(out@);
                            out.push(c);
                            assert(idx_view(out@) =~= prev.push(c as int));
                        },
                        None => {
                            assert(s@ != star());
                            assert(select_cols(cv, name@, idx_view(out@), rest) == Err::<
                                Seq<int>,
                                ExecErrorView,
                            >(ExecErrorView::NoSuchColumn { column: s@, table: name@ }));
                            return Err(ExecError::NoSuchColumn { column: s.clone(), table: name.clone() });
                        },
                    }
                }
            },
            other => {
                return Err(ExecError::SelectNonString(other.duplicate()));
            },
        }
        k = k + 1;
    }
    Ok(out)
}

} // verus!

verus! {

/// The columns that the arguments of `create` declare.
fn create_columns(args: &[WordType]) -> (r: Result<Vec<(String, DataType)>, ExecError>)
    ensures
        create_cols(seq![], words_view(args@)) == match r {
            Ok(v) => Ok::<Seq<(Seq<char>, DataType)>, ExecErrorView>(cols_view(v@)),
            Err(e) => Err::<Seq<(Seq<char>, DataType)>, ExecErrorView>(e@),
        },
{
    let mut out: Vec<(String, DataType)> = Vec::new();
    let mut k: usize = 0;
    assert(words_view(args@).skip(0) =~= words_view(args@));
    assert(cols_view(out@) =~= Seq::<(Seq<char>, DataType)>::empty());
    while k < args.len()
        invariant
            k <= args.len(),
            create_cols(seq![], words_view(args@)) == create_cols(
                cols_view(out@),
                words_view(args@).skip(k as int),
            ),
        decreases args.len() - k,
    {
        let ghost rest = words_view(args@).skip(k as int);
        assert(rest[0] == args@[k as int]@);
        let name = match &args[k] {
            WordType::Str(s) => s,
            other => {
                return Err(ExecError::ColumnNameNotString(other.duplicate()));
            },
        };
        if k + 1 >= args.len() {
            return Err(ExecError::ColumnTypeMissing);
        }
        assert(rest[1] == args@[k + 1]@);
        let t = match &args[k + 1] {
            WordType::Type(t) => *t,
            other => {
                return Err(ExecError::UnknownColumnType(other.duplicate()));
            },
        };
        if t == DataType::Type {
            return Err(ExecError::UnknownColumnType(args[k + 1].duplicate()));
        }
        if find_col(&out, name).is_some() {
            return Err(ExecError::DuplicateColumn(name.clone()));
        }
        let ghost prev = cols_view(out@);
        out.push((name.clone(), t));
        assert(cols_view(out@) =~= prev.push((name@, t)));
        assert(rest.skip(2) =~= words_view(args@).skip(k + 2));
        k = k + 2;
    }
    assert(words_view(args@).skip(k as int) =~= Seq::<WordView>::empty());
    Ok(out)
}

/// The table `t` cut down to the columns at `idx`, in that order, and named
/// `temp`.
fn project_table(t: &Table, idx: &Vec<usize>) -> (r: Table)
    requires
        table_wf(t@),
        forall|i: int| 0 <= i < idx.len() ==> idx@[i] < t.schema.cols.len(),
    ensures
        r@ == project(t@, idx_view(idx@)),
{
    let mut cols: Vec<(String, DataType)> = Vec::new();
    for i in 0..idx.len()
        invariant
            forall|j: int| 0 <= j < idx.len() ==> idx@[j] < t.schema.cols.len(),
            cols_view(cols@) == idx_view(idx@).take(i as int).map_values(
                |c: int| t@.schema.cols[c],
            ),
    {
        let c = &t.schema.cols[idx[i]];
        let ghost prev = cols_view(cols@);
        cols.push((c.0.clone(), c.1));
        assert(cols_view(cols@) =~= prev.push(t@.schema.cols[idx@[i as int] as int]));
        assert(idx_view(idx@).take(i + 1).map_values(|c: int| t@.schema.cols[c]) =~= prev.push(
            t@.schema.cols[idx@[i as int] as int],
        ));
    }
    let mut rows: Vec<Row> = Vec::new();
    for k in 0..t.rows.len()
        invariant
            table_wf(t@),
            forall|j: int| 0 <= j < idx.len() ==> idx@[j] < t.schema.cols.len(),
            rows_view(rows@) == t@.rows.take(k as int).map_values(
                |r: Seq<WordView>| idx_view(idx@).map_values(|c: int| r[c]),
            ),
    {
        let row = &t.rows[k];
        assert(row_fits(t@.schema.cols, t@.rows[k as int]));
        let mut out: Row = Vec::new();
        for i in 0..idx.len()
            invariant
                forall|j: int| 0 <= j < idx.len() ==> idx@[j] < row.len(),
                row_view(out) == idx_view(idx@).take(i as int).map_values(
                    |c: int| row_view(*row)[c],
                ),
        {
            let ghost prev = row_view(out);
            out.push(row[idx[i]].duplicate());
            assert(row_view(out) =~= prev.push(row_view(*row)[idx@[i as int] as int]));
            assert(idx_view(idx@).take(i + 1).map_values(|c: int| row_view(*row)[c]) =~= prev.push(
                row_view(*row)[idx@[i as int] as int],
            ));
        }
        assert(idx_view(idx@).take(idx.len() as int) =~= idx_view(idx@));
        let ghost prev = rows_view(rows@);
        rows.push(out);
        assert(rows_view(rows@) =~= prev.push(row_view(out)));
        assert(t@.rows.take(k + 1) =~= t@.rows.take(k as int).push(row_view(*row)));
        assert(t@.rows.take(k + 1).map_values(
            |r: Seq<WordView>| idx_view(idx@).map_values(|c: int| r[c]),
        ) =~= prev.push(row_view(out)));
    }
    assert(idx_view(idx@).take(idx.len() as int) =~= idx_view(idx@));
    assert(t@.rows.take(t.rows.len() as int) =~= t@.rows);
    let name = String::from_str("temp");
    proof {
        reveal_strlit("temp");
    }
    assert(name@ =~= temp_name());
    let r = Table { schema: TableSchema { name, cols }, rows };
    assert(r@.schema.cols =~= project(t@, idx_view(idx@)).schema.cols);
    assert(r@.rows =~= project(t@, idx_view(idx@)).rows);
    r
}

} // verus!

verus! {

/// The interpreter's state between opcodes.
struct Machine {
    words: Vec<WordType>,
    conds: Vec<Condition>,
    result: Option<Table>,
}

pub open spec fn opt_table_view(t: Option<Table>) -> Option<TableView> {
    match t {
        Some(x) => Some(x@),
        None => None,
    }
}

impl View for Machine {
    type V = MachineView;

    closed spec fn view(&self) -> MachineView {
        MachineView {
            words: words_view(self.words@),
            conds: conds_view(self.conds@),
            result: opt_table_view(self.result),
        }
    }
}

pub open spec fn step_result(
    r: Result<(), ExecError>,
    db: DatabaseView,
    m: MachineView,
) -> Result<(DatabaseView, MachineView), ExecErrorView> {
    match r {
        Ok(_) => Ok((db, m)),
        Err(e) => Err(e@),
    }
}

proof fn lemma_filter_sub<A>(s: Seq<A>, f: spec_fn(A) -> bool, p: spec_fn(A) -> bool)
    requires
        forall|i: int| 0 <= i < s.len() ==> p(s[i]),
    ensures
        forall|i: int| 0 <= i < s.filter(f).len() ==> p(s.filter(f)[i]),
{
    assert forall|i: int| 0 <= i < s.filter(f).len() implies p(s.filter(f)[i]) by {
        assert(s.filter(f).contains(s.filter(f)[i]));
        s.lemma_filter_contains_rev(f, s.filter(f)[i]);
    }
}

proof fn lemma_create_cols_wf(acc: Seq<(Seq<char>, DataType)>, args: Seq<WordView>)
    requires
        schema_wf(acc),
        create_cols(acc, args) is Ok,
    ensures
        schema_wf(create_cols(acc, args)->Ok_0),
    decreases args.len(),
{
    if args.len() > 0 {
        let name = args[0]->Str_0;
        let t = args[1]->Type_0;
        let acc2 = acc.push((name, t));
        assert(col_index(acc, name) is None);
        assert forall|j: int| 0 <= j < acc.len() implies acc[j].0 != name by {
            if acc[j].0 == name {
                lemma_first_where_exists(acc, |c: (Seq<char>, DataType)| c.0 == name, j);
            }
        }
        assert(schema_wf(acc2));
        lemma_create_cols_wf(acc2, args.skip(2));
    }
}

proof fn lemma_wf_update(db: DatabaseView, i: int, t: TableView)
    requires
        database_wf(db),
        0 <= i < db.tables.len(),
        table_wf(t),
        t.schema.name == db.tables[i].schema.name,
    ensures
        database_wf(DatabaseView { tables: db.tables.update(i, t), ..db }),
{
    reveal(database_wf);
    let ts = db.tables.update(i, t);
    assert forall|a: int, b: int| 0 <= a < b < ts.len() implies (#[trigger] ts[a]).schema.name
        != (#[trigger] ts[b]).schema.name by {
        assert(db.tables[a].schema.name != db.tables[b].schema.name);
    }
}

proof fn lemma_wf_push(db: DatabaseView, t: TableView)
    requires
        database_wf(db),
        table_wf(t),
        forall|j: int| 0 <= j < db.tables.len() ==> db.tables[j].schema.name != t.schema.name,
    ensures
        database_wf(DatabaseView { tables: db.tables.push(t), ..db }),
{
    reveal(database_wf);
    let ts = db.tables.push(t);
    assert forall|a: int, b: int| 0 <= a < b < ts.len() implies (#[trigger] ts[a]).schema.name
        != (#[trigger] ts[b]).schema.name by {
        if b < db.tables.len() {
            assert(db.tables[a].schema.name != db.tables[b].schema.name);
        }
    }
}

proof fn lemma_wf_remove(db: DatabaseView, i: int)
    requires
        database_wf(db),
        0 <= i < db.tables.len(),
    ensures
        database_wf(DatabaseView { tables: db.tables.remove(i), ..db }),
{
    reveal(database_wf);
    let ts = db.tables.remove(i);
    assert forall|a: int, b: int| 0 <= a < b < ts.len() implies (#[trigger] ts[a]).schema.name
        != (#[trigger] ts[b]).schema.name by {
        let a2 = if a < i { a } else { a + 1 };
        let b2 = if b < i { b } else { b + 1 };
        assert(db.tables[a2].schema.name != db.tables[b2].schema.name);
    }
    assert forall|a: int| 0 <= a < ts.len() implies table_wf(#[trigger] ts[a]) by {
        let a2 = if a < i { a } else { a + 1 };
        assert(table_wf(db.tables[a2]));
    }
}

/// `select`: the bottom of the stack names a table, the rest its columns.
fn exec_select(db: &Database, m: &mut Machine) -> (r: Result<(), ExecError>)
    requires
        database_wf(db@),
    ensures
        step_select(db@, old(m)@) == step_result(r, db@, final(m)@),
{
    let op = OpType::Select;
    if m.words.len() == 0 {
        return Err(ExecError::NoArguments(op));
    }
    assert(words_view(m.words@)[0] == m.words@[0]@);
    let name = match &m.words[0] {
        WordType::Str(s) => s.clone(),
        other => {
            return Err(ExecError::TableNameNotString(other.duplicate()));
        },
    };
    let ti = match find_table(&db.tables, &name) {
        Some(i) => i,
        None => {
            return Err(ExecError::NoSuchTable(name));
        },
    };
    let table = &db.tables[ti];
    let args = vstd::slice::slice_subrange(m.words.as_slice(), 1, m.words.len());
    assert(words_view(args@) =~= words_view(m.words@).skip(1));
    let idx = match select_columns(table, &name, args) {
        Ok(idx) => idx,
        Err(e) => {
            return Err(e);
        },
    };
    assert(table_wf(tables_view(db.tables@)[ti as int])) by {
        reveal(database_wf);
    }
    let t = project_table(table, &idx);
    m.words.clear();
    m.result = Some(t);
    assert(words_view(m.words@) =~= Seq::<WordView>::empty());
    Ok(())
}

/// The values `words[start..]` as a row of a table with columns `cols`,
/// or the first that has another type than its column.
fn build_row(words: &Vec<WordType>, start: usize, cols: &Vec<(String, DataType)>) -> (r: Result<
    Row,
    ExecError,
>)
    requires
        start + cols.len() == words.len(),
    ensures
        ({
            let rowv = words_view(words@).skip(start as int);
            let cv = cols_view(cols@);
            match r {
                Ok(row) => row_view(row) == rowv && !(exists|i: int|
                    0 <= i < rowv.len() && tag_of(#[trigger] rowv[i]) != cv[i].1),
                Err(e) => (exists|i: int| 0 <= i < rowv.len() && tag_of(#[trigger] rowv[i]) != cv[i].1)
                    && e@ == ({
                    let i = choose|i: int|
                        0 <= i < rowv.len() && tag_of(#[trigger] rowv[i]) != cv[i].1 && forall|j: int|
                            0 <= j < i ==> tag_of(#[trigger] rowv[j]) == cv[j].1;
                    ExecErrorView::ArgumentTypeMismatch { expected: cv[i].1, found: rowv[i] }
                }),
            }
        }),
{
    let ghost rowv = words_view(words@).skip(start as int);
    let ghost cv = cols_view(cols@);
    let mut row: Row = Vec::new();
    for i in 0..cols.len()
        invariant
            start + cols.len() == words.len(),
            rowv == words_view(words@).skip(start as int),
            cv == cols_view(cols@),
            row_view(row) == rowv.take(i as int),
            forall|j: int| 0 <= j < i ==> tag_of(#[trigger] rowv[j]) == cv[j].1,
    {
        let w = &words[start + i];
        let expected = cols[i].1;
        assert(rowv[i as int] == w@);
        if w.data_type() != expected {
            proof {
                let q = choose|q: int|
                    0 <= q < rowv.len() && tag_of(#[trigger] rowv[q]) != cv[q].1 && forall|j: int|
                        0 <= j < q ==> tag_of(#[trigger] rowv[j]) == cv[j].1;
                if q < i {
                    assert(tag_of(rowv[q]) == cv[q].1);
                } else if q > i {
                    assert(tag_of(rowv[i as int]) == cv[i as int].1);
                }
            }
            return Err(ExecError::ArgumentTypeMismatch { expected, found: w.duplicate() });
        }
        let ghost prev = row_view(row);
        row.push(w.duplicate());
        assert(row_view(row) =~= prev.push(w@));
        assert(rowv.take(i + 1) =~= rowv.take(i as int).push(rowv[i as int]));
    }
    assert(rowv.take(cols.len() as int) =~= rowv);
    Ok(row)
}

/// Appends `row` to the rows of table `ti`.
fn append_row(db: &mut Database, ti: usize, row: Row)
    requires
        ti < old(db).tables.len(),
    ensures
        final(db)@ == (DatabaseView {
            tables: old(db)@.tables.update(
                ti as int,
                set_rows(old(db)@.tables[ti as int], old(db)@.tables[ti as int].rows.push(row_view(row))),
            ),
            ..old(db)@
        }),
{
    let ghost old_tables = db.tables@;
    let table = db.tables.remove(ti);
    let Table { schema, mut rows } = table;
    let ghost old_rows = rows@;
    let ghost rv = row_view(row);
    rows.push(row);
    assert(rows_view(rows@) =~= rows_view(old_rows).push(rv));
    db.tables.insert(ti, Table { schema, rows });
    assert(db.tables@ =~= old_tables.update(ti as int, db.tables@[ti as int]));
    assert(tables_view(db.tables@) =~= tables_view(old_tables).update(
        ti as int,
        set_rows(tables_view(old_tables)[ti as int], tables_view(old_tables)[ti as int].rows.push(rv)),
    ));
}

/// `insert`: the bottom of the stack names a table, the top values make a
/// row of it.
#[verifier::rlimit(60)]
fn exec_insert(db: &mut Database, m: &mut Machine) -> (r: Result<
    (),
    ExecError,
>)
    requires
        database_wf(old(db)@),
    ensures
        step_insert(old(db)@, old(m)@) == step_result(
            r,
            final(db)@,
            final(m)@,
        ),
        r is Err ==> final(db)@ == old(db)@,
        database_wf(final(db)@),
{
    let op = OpType::Insert;
    let n = m.words.len();
    if n == 0 {
        return Err(ExecError::NoArguments(op));
    }
    assert(words_view(m.words@)[0] == m.words@[0]@);
    let name = match &m.words[0] {
        WordType::Str(s) => s.clone(),
        other => {
            return Err(ExecError::TableNameNotString(other.duplicate()));
        },
    };
    let ti = match find_table(&db.tables, &name) {
        Some(i) => i,
        None => {
            return Err(ExecError::NoSuchTable(name));
        },
    };
    let ghost tv = tables_view(db.tables@)[ti as int];
    let ncols = db.tables[ti].schema.cols.len();
    if n - 1 < ncols {
        return Err(ExecError::NotEnoughArguments { op, provided: n - 1, needed: ncols });
    }
    let start = n - ncols;
    let ghost data = words_view(m.words@).skip(1);
    assert(data.skip(data.len() - tv.schema.cols.len()) =~= words_view(m.words@).skip(start as int));
    let row = match build_row(&m.words, start, &db.tables[ti].schema.cols) {
        Ok(row) => row,
        Err(e) => {
            return Err(e);
        },
    };
    let ghost rowv = row_view(row);
    append_row(db, ti, row);
    let ghost newt = set_rows(tv, tv.rows.push(rowv));
    m.words.clear();
    assert(words_view(m.words@) =~= Seq::<WordView>::empty());
    proof {
        assert(table_wf(tv)) by {
            reveal(database_wf);
        }
        assert forall|i: int| 0 <= i < newt.rows.len() implies row_fits(
            newt.schema.cols,
            #[trigger] newt.rows[i],
        ) by {
            if i < tv.rows.len() {
                assert(newt.rows[i] == tv.rows[i]);
            }
        }
        lemma_wf_update(old(db)@, ti as int, newt);
    }
    Ok(())
}

/// `create`: the bottom of the stack names a new table, the rest declares
/// its columns in pairs of a name and a type.
fn exec_create(db: &mut Database, m: &mut Machine) -> (r: Result<
    (),
    ExecError,
>)
    requires
        database_wf(old(db)@),
    ensures
        step_create(old(db)@, old(m)@) == step_result(
            r,
            final(db)@,
            final(m)@,
        ),
        r is Err ==> final(db)@ == old(db)@,
        database_wf(final(db)@),
{
    let op = OpType::Create;
    if m.words.len() == 0 {
        return Err(ExecError::NoArguments(op));
    }
    assert(words_view(m.words@)[0] == m.words@[0]@);
    let name = match &m.words[0] {
        WordType::Str(s) => s.clone(),
        other => {
            return Err(ExecError::TableNameNotString(other.duplicate()));
        },
    };
    let args = vstd::slice::slice_subrange(m.words.as_slice(), 1, m.words.len());
    assert(words_view(args@) =~= words_view(m.words@).skip(1));
    let cols = match create_columns(args) {
        Ok(cols) => cols,
        Err(e) => {
            return Err(e);
        },
    };
    if find_table(&db.tables, &name).is_some() {
        return Err(ExecError::TableExists(name));
    }
    proof {
        lemma_create_cols_wf(seq![], words_view(m.words@).skip(1));
        let p = |t: TableView| t.schema.name == name@;
        assert forall|j: int| 0 <= j < db.tables.len() implies tables_view(db.tables@)[j].schema.name
            != name@ by {
            if tables_view(db.tables@)[j].schema.name == name@ {
                lemma_first_where_exists(tables_view(db.tables@), p, j);
            }
        }
    }
    let ghost old_tables = db.tables@;
    let rows: Vec<Row> = Vec::new();
    assert(rows_view(rows@) =~= Seq::<Seq<WordView>>::empty());
    let ghost newt = TableView { schema: SchemaView { name: name@, cols: cols_view(cols@) }, rows: seq![] };
    db.tables.push(Table { schema: TableSchema { name, cols }, rows });
    assert(tables_view(db.tables@) =~= tables_view(old_tables).push(newt));
    proof {
        lemma_wf_push(old(db)@, newt);
    }
    m.words.clear();
    assert(words_view(m.words@) =~= Seq::<WordView>::empty());
    Ok(())
}

/// `drop`: the top of the stack names the table to remove.
fn exec_drop(db: &mut Database, m: &mut Machine) -> (r: Result<
    (),
    ExecError,
>)
    requires
        database_wf(old(db)@),
    ensures
        step_drop(old(db)@, old(m)@) == step_result(
            r,
            final(db)@,
            final(m)@,
        ),
        r is Err ==> final(db)@ == old(db)@,
        database_wf(final(db)@),
{
    let op = OpType::Drop;
    let n = m.words.len();
    if n == 0 {
        return Err(ExecError::NoArguments(op));
    }
    assert(words_view(m.words@).last() == m.words@[n - 1]@);
    let name = match &m.words[n - 1] {
        WordType::Str(s) => s.clone(),
        other => {
            return Err(ExecError::TableNameNotString(other.duplicate()));
        },
    };
    let ti = match find_table(&db.tables, &name) {
        Some(i) => i,
        None => {
            return Err(ExecError::NoSuchTable(name));
        },
    };
    let ghost old_tables = db.tables@;
    db.tables.remove(ti);
    assert(tables_view(db.tables@) =~= tables_view(old_tables).remove(ti as int));
    proof {
        lemma_wf_remove(old(db)@, ti as int);
    }
    let ghost old_words = m.words@;
    m.words.pop();
    assert(words_view(m.words@) =~= words_view(old_words).drop_last());
    Ok(())
}

} // verus!

verus! {

/// `filter-and` (or, with `any`, `filter-or`) on the result table.
fn exec_filter(db: &Database, m: &mut Machine, any: bool) -> (r: Result<(), ExecError>)
    ensures
        (if any {
            step_filter_or(db@, old(m)@)
        } else {
            step_filter_and(db@, old(m)@)
        }) == step_result(r, db@, final(m)@),
{
    let op = if any {
        OpType::FilterOr
    } else {
        OpType::FilterAnd
    };
    let ghost cs = conds_view(m.conds@);
    let t = match m.result.take() {
        Some(t) => t,
        None => {
            return Err(ExecError::NoResultTable(op));
        },
    };
    let Table { schema, rows } = t;
    let mode = if any {
        Keep::Any
    } else {
        Keep::All
    };
    let kept = keep_rows(&rows, &m.conds, mode);
    if any {
        assert((|row: Seq<WordView>| keeps(Keep::Any, row, cs)) =~= (|r: Seq<WordView>| any_holds(r, cs)));
    } else {
        assert((|row: Seq<WordView>| keeps(Keep::All, row, cs)) =~= (|r: Seq<WordView>| all_hold(r, cs)));
    }
    m.result = Some(Table { schema, rows: kept });
    m.conds.clear();
    assert(conds_view(m.conds@) =~= Seq::<CondView>::empty());
    Ok(())
}

/// `delete`: the first table loses the rows that meet every condition.
fn exec_delete(db: &mut Database, m: &mut Machine) -> (r: Result<(), ExecError>)
    requires
        database_wf(old(db)@),
    ensures
        step_delete(old(db)@, old(m)@) == step_result(r, final(db)@, final(m)@),
        r is Err ==> final(db)@ == old(db)@,
        database_wf(final(db)@),
{
    if db.tables.len() == 0 {
        return Err(ExecError::EmptyDatabase);
    }
    let ghost cs = conds_view(m.conds@);
    let ghost old_tables = db.tables@;
    let ghost tv = tables_view(db.tables@)[0];
    let t = db.tables.remove(0);
    let Table { schema, rows } = t;
    let kept = keep_rows(&rows, &m.conds, Keep::NotAll);
    let ghost f = |r: Seq<WordView>| !all_hold(r, cs);
    assert((|row: Seq<WordView>| keeps(Keep::NotAll, row, cs)) =~= f);
    db.tables.insert(0, Table { schema, rows: kept });
    let ghost newt = set_rows(tv, tv.rows.filter(f));
    assert(db.tables@ =~= old_tables.update(0, db.tables@[0]));
    assert(tables_view(db.tables@) =~= tables_view(old_tables).update(0, newt));
    m.conds.clear();
    assert(conds_view(m.conds@) =~= Seq::<CondView>::empty());
    proof {
        assert(table_wf(tv)) by {
            reveal(database_wf);
        }
        lemma_filter_sub(tv.rows, f, |r: Seq<WordView>| row_fits(tv.schema.cols, r));
        lemma_wf_update(old(db)@, 0, newt);
    }
    Ok(())
}

/// Whether the first operator from `from` on that uses up conditions is a
/// `delete`.
fn feeds_delete_at(prog: &Vec<Token>, from: usize) -> (r: bool)
    ensures
        r == feeds_delete(tokens_view(prog@), from as int),
{
    let ghost pv = tokens_view(prog@);
    let mut k = from;
    while k < prog.len()
        invariant
            from <= k,
            pv == tokens_view(prog@),
            feeds_delete(pv, from as int) == feeds_delete(pv, k as int),
        decreases prog.len() - k,
    {
        assert(pv[k as int] == prog@[k as int]@);
        match &prog[k] {
            Token::Op(OpType::Delete) => {
                return true;
            },
            Token::Op(OpType::FilterAnd) => {
                return false;
            },
            Token::Op(OpType::FilterOr) => {
                return false;
            },
            _ => {},
        }
        k = k + 1;
    }
    false
}

/// A comparison: builds a condition from the top of the stack, on the first
/// table where `to_delete`, on the result table otherwise.
fn exec_compare(op: OpType, to_delete: bool, db: &Database, m: &mut Machine) -> (r: Result<
    (),
    ExecError,
>)
    ensures
        step_compare(op, to_delete, db@, old(m)@) == step_result(r, db@, final(m)@),
{
    let cond = if to_delete {
        if db.tables.len() == 0 {
            return Err(ExecError::EmptyDatabase);
        }
        assert(tables_view(db.tables@)[0] == db.tables@[0]@);
        logical_op_check(op, m.words.as_slice(), &db.tables[0])
    } else {
        match &m.result {
            None => {
                return Err(ExecError::NoResultTable(op));
            },
            Some(t) => logical_op_check(op, m.words.as_slice(), t),
        }
    };
    match cond {
        Err(e) => Err(e),
        Ok(c) => {
            let ghost ws = words_view(m.words@);
            let ghost cs = conds_view(m.conds@);
            m.words.pop();
            m.words.pop();
            assert(words_view(m.words@) =~= ws.take(ws.len() - 2));
            let ghost cv = c@;
            m.conds.push(c);
            assert(conds_view(m.conds@) =~= cs.push(cv));
            Ok(())
        },
    }
}

/// The opcode at `pc`, run on `db` and `m`.
fn exec_step(query: &Vec<Token>, pc: usize, db: &mut Database, m: &mut Machine) -> (r: Result<
    (),
    ExecError,
>)
    requires
        pc < query.len(),
        database_wf(old(db)@),
    ensures
        step(tokens_view(query@), pc as int, old(db)@, old(m)@) == step_result(
            r,
            final(db)@,
            final(m)@,
        ),
        r is Err ==> final(db)@ == old(db)@,
        database_wf(final(db)@),
{
    assert(tokens_view(query@)[pc as int] == query@[pc as int]@);
    match &query[pc] {
        Token::Word(w) => {
            let ghost prev = m@;
            m.words.push(w.duplicate());
            assert(m@.words =~= prev.words.push(w@));
            Ok(())
        },
        Token::Op(op) => match op {
            OpType::Select => exec_select(db, m),
            OpType::Insert => exec_insert(db, m),
            OpType::Create => exec_create(db, m),
            OpType::Drop => exec_drop(db, m),
            OpType::FilterAnd => exec_filter(db, m, false),
            OpType::FilterOr => exec_filter(db, m, true),
            OpType::Delete => exec_delete(db, m),
            _ => {
                let to_delete = feeds_delete_at(query, pc + 1);
                exec_compare(*op, to_delete, db, m)
            },
        },
    }
}

/// What a program that ran to its end leaves: the result table, if an
/// operator made one, and how many values and conditions it left unused.
pub struct Execution {
    pub result: Option<Table>,
    pub unused_words: usize,
    pub unused_conditions: usize,
}

/// Runs `query` against `database`. Opcodes run in order and change the
/// database as they go; the first error stops the program and keeps what
/// earlier opcodes did.
pub fn run_query(query: &Vec<Token>, database: &mut Database) -> (r: Result<Execution, ExecError>)
    requires
        database_wf(old(database)@),
    ensures
        database_wf(final(database)@),
        final(database)@ == run(tokens_view(query@), 0, old(database)@, start_machine()).0,
        match r {
            Ok(x) => {
                let out = run(tokens_view(query@), 0, old(database)@, start_machine()).1;
                &&& out is Ok
                &&& opt_table_view(x.result) == out->Ok_0.result
                &&& x.unused_words == out->Ok_0.words.len()
                &&& x.unused_conditions == out->Ok_0.conds.len()
            },
            Err(e) => run(tokens_view(query@), 0, old(database)@, start_machine()).1 == Err::<
                MachineView,
                ExecErrorView,
            >(e@),
        },
{
    let ghost pv = tokens_view(query@);
    let ghost db0 = database@;
    let mut m = Machine { words: Vec::new(), conds: Vec::new(), result: None };
    assert(m@.words =~= Seq::<WordView>::empty());
    assert(m@.conds =~= Seq::<CondView>::empty());
    let mut pc: usize = 0;
    while pc < query.len()
        invariant
            pc <= query.len(),
            pv == tokens_view(query@),
            db0 == old(database)@,
            database_wf(database@),
            run(pv, 0, db0, start_machine()) == run(pv, pc as nat, database@, m@),
        decreases query.len() - pc,
    {
        let ghost m0 = m@;
        let ghost d0 = database@;
        let r = exec_step(query, pc, database, &mut m);
        if let Err(e) = r {
            assert(run(pv, pc as nat, d0, m0) == (d0, Err::<MachineView, ExecErrorView>(e@)));
            return Err(e);
        }
        pc = pc + 1;
    }
    Ok(
        Execution {
            result: m.result,
            unused_words: m.words.len(),
            unused_conditions: m.conds.len(),
        },
    )
}

/// Runs `query` against `database` and returns the result table, if the
/// program made one and ran without error.
pub fn execute_query(query: &Vec<Token>, database: &mut Database) -> (r: Option<Table>)
    requires
        database_wf(old(database)@),
    ensures
        database_wf(final(database)@),
        final(database)@ == run(tokens_view(query@), 0, old(database)@, start_machine()).0,
        opt_table_view(r) == match run(tokens_view(query@), 0, old(database)@, start_machine()).1 {
            Ok(m) => m.result,
            Err(_) => None,
        },
{
    match run_query(query, database) {
        Ok(x) => x.result,
        Err(_) => None,
    }
}

} // verus!

verus! {

proof fn lemma_filter_all<A>(s: Seq<A>, f: spec_fn(A) -> bool)
    requires
        forall|i: int| 0 <= i < s.len() ==> f(s[i]),
    ensures
        s.filter(f) == s,
    decreases s.len(),
{
    reveal(Seq::filter);
    if s.len() > 0 {
        lemma_filter_all(s.drop_last(), f);
        assert(s.drop_last().push(s.last()) =~= s);
    }
}

proof fn lemma_filter_none<A>(s: Seq<A>, f: spec_fn(A) -> bool)
    requires
        forall|i: int| 0 <= i < s.len() ==> !f(s[i]),
    ensures
        s.filter(f).len() == 0,
    decreases s.len(),
{
    reveal(Seq::filter);
    if s.len() > 0 {
        lemma_filter_none(s.drop_last(), f);
    }
}

/// A `create` that succeeds adds one table to the database and a `drop` that
/// succeeds removes one; an opcode that fails leaves the database as it was.
pub proof fn lemma_create_drop_count(prog: Seq<TokenView>, pc: int, db: DatabaseView, m: MachineView)
    requires
        0 <= pc < prog.len(),
    ensures
        prog[pc] == TokenView::Op(OpType::Create) && step(prog, pc, db, m) is Ok ==> step(
            prog,
            pc,
            db,
            m,
        )->Ok_0.0.tables.len() == db.tables.len() + 1,
        prog[pc] == TokenView::Op(OpType::Drop) && step(prog, pc, db, m) is Ok ==> step(
            prog,
            pc,
            db,
            m,
        )->Ok_0.0.tables.len() == db.tables.len() - 1,
        step(prog, pc, db, m) is Err ==> run(prog, pc as nat, db, m).0 == db,
{
    if prog[pc] == TokenView::Op(OpType::Drop) && step(prog, pc, db, m) is Ok {
        let name = m.words.last()->Str_0;
        lemma_first_where_some(db.tables, |t: TableView| t.schema.name == name);
    }
}

/// An `insert` that succeeds adds one row to the table that the bottom of the
/// stack names, and the tags of that row are the table's column types.
pub proof fn lemma_insert_appends_row(db: DatabaseView, m: MachineView)
    requires
        step_insert(db, m) is Ok,
    ensures
        ({
            let ti = table_index(db.tables, m.words[0]->Str_0)->0;
            let after = step_insert(db, m)->Ok_0.0.tables[ti];
            &&& 0 <= ti < db.tables.len()
            &&& after.schema == db.tables[ti].schema
            &&& after.rows.len() == db.tables[ti].rows.len() + 1
            &&& after.rows.drop_last() == db.tables[ti].rows
            &&& row_fits(after.schema.cols, after.rows.last())
        }),
{
    let name = m.words[0]->Str_0;
    lemma_first_where_some(db.tables, |t: TableView| t.schema.name == name);
    let ti = table_index(db.tables, name)->0;
    let t = db.tables[ti];
    let data = m.words.skip(1);
    let row = data.skip(data.len() - t.schema.cols.len());
    assert(t.rows.push(row).drop_last() =~= t.rows);
}

/// With no conditions, `filter-and` keeps every row of the result table and
/// `filter-or` keeps none.
pub proof fn lemma_filters_without_conditions(db: DatabaseView, m: MachineView)
    requires
        m.conds.len() == 0,
        m.result is Some,
    ensures
        step_filter_and(db, m)->Ok_0.1.result == m.result,
        step_filter_or(db, m)->Ok_0.1.result->0.rows.len() == 0,
        step_filter_or(db, m)->Ok_0.1.result->0.schema == m.result->0.schema,
{
    let t = m.result->0;
    lemma_filter_all(t.rows, |r: Seq<WordView>| all_hold(r, m.conds));
    lemma_filter_none(t.rows, |r: Seq<WordView>| any_holds(r, m.conds));
    assert(set_rows(t, t.rows) == t);
}

} // verus!
