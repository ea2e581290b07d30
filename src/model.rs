use vstd::prelude::*;
use crate::chars::{chars_match, chars_of};

verus! {

/// The type tag of a value or of a column.
#[derive(Debug, Clone, Copy, PartialEq, Eq, Structural)]
pub enum DataType {
    Int,
    Str,
    Type,
}

/// The keyword that names a data type, if `w` is one.
pub open spec fn data_type_of(w: Seq<char>) -> Option<DataType> {
    if w == seq!['I', 'n', 't'] {
        Some(DataType::Int)
    } else if w == seq!['S', 't', 'r'] {
        Some(DataType::Str)
    } else if w == seq!['T', 'y', 'p', 'e'] {
        Some(DataType::Type)
    } else {
        None
    }
}

/// The keyword of a data type.
pub open spec fn data_type_name(t: DataType) -> Seq<char> {
    match t {
        DataType::Int => seq!['I', 'n', 't'],
        DataType::Str => seq!['S', 't', 'r'],
        DataType::Type => seq!['T', 'y', 'p', 'e'],
    }
}

pub fn data_type_from_chars(w: &Vec<char>) -> (r: Option<DataType>)
    ensures
        r == data_type_of(w@),
{
    if chars_match(w, &['I', 'n', 't']) {
        Some(DataType::Int)
    } else if chars_match(w, &['S', 't', 'r']) {
        Some(DataType::Str)
    } else if chars_match(w, &['T', 'y', 'p', 'e']) {
        Some(DataType::Type)
    } else {
        None
    }
}

pub fn try_parse_data_type(col_type: &str) -> (r: Option<DataType>)
    ensures
        r == data_type_of(col_type@),
{
    data_type_from_chars(&chars_of(col_type))
}

} // verus!

verus! {

/// The keyword of a data type.
pub fn data_type_to_string(data_type: DataType) -> (r: String)
    ensures
        r@ == data_type_name(data_type),
{
    let r = match data_type {
        DataType::Int => String::from_str("Int"),
        DataType::Str => String::from_str("Str"),
        DataType::Type => String::from_str("Type"),
    };
    proof {
        reveal_strlit("Int");
        reveal_strlit("Str");
        reveal_strlit("Type");
    }
    r
}

/// A value: an integer, a text, or a data type tag.
#[derive(Debug, Clone, PartialEq, Eq)]
pub enum WordType {
    Int(i32),
    Str(String),
    Type(DataType),
}

/// The mathematical value that a `WordType` holds.
pub enum WordView {
    Int(i32),
    Str(Seq<char>),
    Type(DataType),
}

impl View for WordType {
    type V = WordView;

    open spec fn view(&self) -> WordView {
        match self {
            WordType::Int(v) => WordView::Int(*v),
            WordType::Str(s) => WordView::Str(s@),
            WordType::Type(t) => WordView::Type(*t),
        }
    }
}

/// The tag of a value.
pub open spec fn tag_of(w: WordView) -> DataType {
    match w {
        WordView::Int(_) => DataType::Int,
        WordView::Str(_) => DataType::Str,
        WordView::Type(_) => DataType::Type,
    }
}

impl WordType {
    /// The tag of this value.
    pub fn data_type(&self) -> (r: DataType)
        ensures
            r == tag_of(self@),
    {
        match self {
            WordType::Int(_) => DataType::Int,
            WordType::Str(_) => DataType::Str,
            WordType::Type(_) => DataType::Type,
        }
    }

    /// A copy of this value.
    pub fn duplicate(&self) -> (r: WordType)
        ensures
            r@ == self@,
    {
        match self {
            WordType::Int(v) => WordType::Int(*v),
            WordType::Str(s) => WordType::Str(s.clone()),
            WordType::Type(t) => WordType::Type(*t),
        }
    }
}

pub type Row = Vec<WordType>;

pub open spec fn row_view(r: Row) -> Seq<WordView> {
    r@.map_values(|w: WordType| w@)
}

/// A copy of a row.
pub fn duplicate_row(r: &Row) -> (c: Row)
    ensures
        row_view(c) == row_view(*r),
{
    let mut c: Row = Vec::new();
    for i in 0..r.len()
        invariant
            c.len() == i,
            forall|j: int| 0 <= j < i ==> c@[j]@ == r@[j]@,
    {
        c.push(r[i].duplicate());
    }
    assert(row_view(c) =~= row_view(*r));
    c
}

/// A table's name and its columns, each a name and a type.
#[derive(Debug, Clone, PartialEq, Eq)]
pub struct TableSchema {
    pub name: String,
    pub cols: Vec<(String, DataType)>,
}

pub struct SchemaView {
    pub name: Seq<char>,
    pub cols: Seq<(Seq<char>, DataType)>,
}

impl View for TableSchema {
    type V = SchemaView;

    open spec fn view(&self) -> SchemaView {
        SchemaView { name: self.name@, cols: self.cols@.map_values(|c: (String, DataType)| (c.0@, c.1)) }
    }
}

/// Columns hold integers or texts, and no two columns share a name.
pub open spec fn schema_wf(cols: Seq<(Seq<char>, DataType)>) -> bool {
    &&& forall|i: int| 0 <= i < cols.len() ==> (#[trigger] cols[i]).1 != DataType::Type
    &&& forall|i: int, j: int| 0 <= i < j < cols.len() ==> (#[trigger] cols[i]).0 != (#[trigger] cols[j]).0
}

/// A row has one value per column, each with the column's tag.
pub open spec fn row_fits(cols: Seq<(Seq<char>, DataType)>, row: Seq<WordView>) -> bool {
    &&& row.len() == cols.len()
    &&& forall|i: int| 0 <= i < row.len() ==> tag_of(#[trigger] row[i]) == cols[i].1
}

#[derive(Debug, PartialEq, Eq)]
pub struct Table {
    pub schema: TableSchema,
    pub rows: Vec<Row>,
}

pub struct TableView {
    pub schema: SchemaView,
    pub rows: Seq<Seq<WordView>>,
}

impl View for Table {
    type V = TableView;

    open spec fn view(&self) -> TableView {
        TableView { schema: self.schema@, rows: self.rows@.map_values(|r: Row| row_view(r)) }
    }
}

pub open spec fn table_wf(t: TableView) -> bool {
    &&& schema_wf(t.schema.cols)
    &&& forall|i: int| 0 <= i < t.rows.len() ==> row_fits(t.schema.cols, #[trigger] t.rows[i])
}

#[derive(Debug, PartialEq, Eq)]
pub struct Database {
    pub name: String,
    pub tables: Vec<Table>,
}

pub struct DatabaseView {
    pub name: Seq<char>,
    pub tables: Seq<TableView>,
}

impl View for Database {
    type V = DatabaseView;

    open spec fn view(&self) -> DatabaseView {
        DatabaseView { name: self.name@, tables: self.tables@.map_values(|t: Table| t@) }
    }
}

/// Every table is well formed and no two tables share a name.
#[verifier::opaque]
pub open spec fn database_wf(d: DatabaseView) -> bool {
    &&& forall|i: int| 0 <= i < d.tables.len() ==> table_wf(#[trigger] d.tables[i])
    &&& forall|i: int, j: int|
        0 <= i < j < d.tables.len() ==> (#[trigger] d.tables[i]).schema.name != (#[trigger] d.tables[j]).schema.name
}

} // verus!
