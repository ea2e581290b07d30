use vstd::prelude::*;
use crate::engine::{rows_view, tables_view};
use crate::model::{database_wf, row_fits, row_view, schema_wf, table_wf, tag_of, DataType, Database, Row, Table, WordType};
use crate::rows::{encode_rows, rows_bytes, long_texts, EncodedRows, Endian};
use crate::schema::{schema_text, schema_to_text};

verus! {

/// The two files that persist one table: its `.tbls` text and its row file.
pub struct TableFiles {
    pub name: String,
    pub schema: String,
    pub rows: EncodedRows,
}

/// The files that persist `database`, one entry per table, in order.
pub fn save_database_to(database: &Database, e: Endian) -> (r: Vec<TableFiles>)
    ensures
        r.len() == database.tables.len(),
        forall|i: int|
            0 <= i < r.len() ==> {
                let t = #[trigger] database@.tables[i];
                &&& r[i].name@ == t.schema.name
                &&& r[i].schema@ == schema_text(t.schema)
                &&& r[i].rows.bytes@ == rows_bytes(t.rows, e)
                &&& r[i].rows.cut_texts == (long_texts(t.rows) > 0)
            },
{
    let mut out: Vec<TableFiles> = Vec::new();
    for i in 0..database.tables.len()
        invariant
            out.len() == i,
            forall|j: int|
                0 <= j < i ==> {
                    let t = #[trigger] database@.tables[j];
                    &&& out[j].name@ == t.schema.name
                    &&& out[j].schema@ == schema_text(t.schema)
                    &&& out[j].rows.bytes@ == rows_bytes(t.rows, e)
                    &&& out[j].rows.cut_texts == (long_texts(t.rows) > 0)
                },
    {
        let t = &database.tables[i];
        assert(database@.tables[i as int] == t@);
        let files = TableFiles {
            name: t.schema.name.clone(),
            schema: schema_to_text(&t.schema),
            rows: encode_rows(&t.rows, e),
        };
        out.push(files);
    }
    out
}

/// Whether `row` has one value per column, each of the column's type.
fn row_fits_cols(row: &Row, cols: &Vec<(String, DataType)>) -> (r: bool)
    ensures
        r == row_fits(crate::engine::cols_view(cols@), row_view(*row)),
{
    if row.len() != cols.len() {
        return false;
    }
    for i in 0..row.len()
        invariant
            row.len() == cols.len(),
            forall|j: int|
                0 <= j < i ==> tag_of(#[trigger] row_view(*row)[j]) == crate::engine::cols_view(cols@)[j].1,
    {
        assert(row_view(*row)[i as int] == row@[i as int]@);
        if row[i].data_type() != cols[i].1 {
            assert(tag_of(row_view(*row)[i as int]) != crate::engine::cols_view(cols@)[i as int].1);
            return false;
        }
    }
    true
}

/// Whether a table is well formed: columns of type `Int` or `Str` with
/// distinct names, and rows that fit them.
fn table_is_well_formed(t: &Table) -> (r: bool)
    ensures
        r == table_wf(t@),
{
    let cols = &t.schema.cols;
    for i in 0..cols.len()
        invariant
            cols@ == t.schema.cols@,
            forall|a: int| 0 <= a < i ==> (#[trigger] t@.schema.cols[a]).1 != DataType::Type,
            forall|a: int, b: int| 0 <= a < b < i ==> (#[trigger] t@.schema.cols[a]).0 != (#[trigger] t@.schema.cols[b]).0,
    {
        if cols[i].1 == DataType::Type {
            assert(t@.schema.cols[i as int].1 == DataType::Type);
            return false;
        }
        for j in 0..i
            invariant
                i < cols.len(),
                cols@ == t.schema.cols@,
                forall|a: int| 0 <= a < j ==> (#[trigger] t@.schema.cols[a]).0 != t@.schema.cols[i as int].0,
        {
            if cols[j].0 == cols[i].0 {
                assert(t@.schema.cols[j as int].0 == t@.schema.cols[i as int].0);
                return false;
            }
        }
    }
    for k in 0..t.rows.len()
        invariant
            schema_wf(t@.schema.cols),
            forall|a: int| 0 <= a < k ==> row_fits(t@.schema.cols, #[trigger] t@.rows[a]),
    {
        if !row_fits_cols(&t.rows[k], &t.schema.cols) {
            assert(!row_fits(t@.schema.cols, t@.rows[k as int]));
            return false;
        }
    }
    true
}

/// Whether `database` is well formed: every table is, and no two tables
/// share a name. The interpreter runs only on such a database.
pub fn is_well_formed(database: &Database) -> (r: bool)
    ensures
        r == database_wf(database@),
{
    let ts = &database.tables;
    for i in 0..ts.len()
        invariant
            ts@ == database.tables@,
            forall|a: int| 0 <= a < i ==> table_wf(#[trigger] database@.tables[a]),
            forall|a: int, b: int|
                0 <= a < b < i ==> (#[trigger] database@.tables[a]).schema.name != (#[trigger] database@.tables[b]).schema.name,
    {
        if !table_is_well_formed(&ts[i]) {
            assert(!database_wf(database@)) by {
                reveal(database_wf);
                assert(!table_wf(database@.tables[i as int]));
            }
            return false;
        }
        for j in 0..i
            invariant
                i < ts.len(),
                ts@ == database.tables@,
                forall|a: int| 0 <= a < j ==> (#[trigger] database@.tables[a]).schema.name != database@.tables[i as int].schema.name,
        {
            if ts[j].schema.name == ts[i].schema.name {
                assert(!database_wf(database@)) by {
                    reveal(database_wf);
                    assert(database@.tables[j as int].schema.name == database@.tables[i as int].schema.name);
                }
                return false;
            }
        }
    }
    assert(database_wf(database@)) by {
        reveal(database_wf);
    }
    true
}

} // verus!
