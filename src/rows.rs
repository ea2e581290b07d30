use vstd::prelude::*;
use vstd::string::StrSliceExecFns;
use vstd::utf8::{decode_utf8, encode_utf8, valid_utf8};
use vstd::bytes::{spec_u32_from_le_bytes, spec_u32_to_le_bytes, u32_from_le_bytes, u32_to_le_bytes};
use crate::engine::{cols_view, rows_view};
use crate::model::{row_view, DataType, Row, TableSchema, WordType, WordView};

verus! {

/// Byte order of the integers in a row file.
#[derive(Debug, Clone, Copy, PartialEq, Eq, Structural)]
pub enum Endian {
    Little,
    Big,
}

/// The width of a text field.
pub const STR_WIDTH: usize = 50;

/// How many bytes a value of type `t` takes in a row.
pub open spec fn field_width(t: DataType) -> nat {
    match t {
        DataType::Int => 4,
        DataType::Str => 50,
        DataType::Type => 0,
    }
}

/// How many bytes a row of the columns `cols` takes.
pub open spec fn row_width(cols: Seq<(Seq<char>, DataType)>) -> nat
    decreases cols.len(),
{
    if cols.len() == 0 {
        0
    } else {
        row_width(cols.drop_last()) + field_width(cols.last().1)
    }
}

/// The four bytes of `v`.
pub open spec fn int_bytes(v: i32, e: Endian) -> Seq<u8> {
    let le = spec_u32_to_le_bytes(#[verifier::truncate] (v as u32));
    match e {
        Endian::Little => le,
        Endian::Big => le.reverse(),
    }
}

/// The integer that four bytes hold.
pub open spec fn int_of_bytes(b: Seq<u8>, e: Endian) -> i32 {
    let le = match e {
        Endian::Little => b,
        Endian::Big => b.reverse(),
    };
    #[verifier::truncate] (spec_u32_from_le_bytes(le) as i32)
}

/// The UTF-8 bytes of a text, cut to fifty or padded with zeros to fifty.
pub open spec fn str_bytes(s: Seq<char>) -> Seq<u8> {
    let b = encode_utf8(s);
    if b.len() >= 50 {
        b.take(50)
    } else {
        b + Seq::new((50 - b.len()) as nat, |i: int| 0u8)
    }
}

/// The bytes of a value in a row file.
pub open spec fn value_bytes(w: WordView, e: Endian) -> Seq<u8> {
    match w {
        WordView::Int(v) => int_bytes(v, e),
        WordView::Str(s) => str_bytes(s),
        WordView::Type(_) => seq![],
    }
}

pub open spec fn row_bytes(row: Seq<WordView>, e: Endian) -> Seq<u8>
    decreases row.len(),
{
    if row.len() == 0 {
        seq![]
    } else {
        row_bytes(row.drop_last(), e) + value_bytes(row.last(), e)
    }
}

/// The content of a row file: its rows one after another.
pub open spec fn rows_bytes(rows: Seq<Seq<WordView>>, e: Endian) -> Seq<u8>
    decreases rows.len(),
{
    if rows.len() == 0 {
        seq![]
    } else {
        rows_bytes(rows.drop_last(), e) + row_bytes(rows.last(), e)
    }
}

/// What the lossy UTF-8 decoding of `b` gives.
pub uninterp spec fn utf8_lossy(b: Seq<u8>) -> Seq<char>;

/// The text that `b` decodes to: valid UTF-8 as it stands, anything else
/// with replacement characters.
pub open spec fn lossy_text(b: Seq<u8>) -> Seq<char> {
    if valid_utf8(b) {
        decode_utf8(b)
    } else {
        utf8_lossy(b)
    }
}

/// Relies on `String::from_utf8_lossy`: it decodes `b`, and valid UTF-8 is
/// decoded as it stands.
#[verifier::external_body]
fn text_from_utf8_lossy(b: &[u8]) -> (r: String)
    ensures
        valid_utf8(b@) ==> r@ == decode_utf8(b@),
        !valid_utf8(b@) ==> r@ == utf8_lossy(b@),
{
    String::from_utf8_lossy(b).into_owned()
}

/// The position of the first zero byte in `b`, or its length.
pub open spec fn zero_pos(b: Seq<u8>) -> nat
    decreases b.len(),
{
    if b.len() == 0 {
        0
    } else if b[0] == 0 {
        0
    } else {
        1 + zero_pos(b.skip(1))
    }
}

/// The value that a field of type `t` holds.
pub open spec fn field_value(t: DataType, b: Seq<u8>, e: Endian) -> WordView {
    match t {
        DataType::Int => WordView::Int(int_of_bytes(b, e)),
        DataType::Str => WordView::Str(lossy_text(b.take(zero_pos(b) as int))),
        DataType::Type => WordView::Type(DataType::Type),
    }
}

/// The row that `b`, a row's worth of bytes, holds.
pub open spec fn decode_row(cols: Seq<(Seq<char>, DataType)>, b: Seq<u8>, e: Endian) -> Seq<WordView>
    decreases cols.len(),
{
    if cols.len() == 0 {
        seq![]
    } else {
        let w = row_width(cols.drop_last());
        decode_row(cols.drop_last(), b.take(w as int), e).push(
            field_value(cols.last().1, b.subrange(w as int, (w + field_width(cols.last().1)) as int), e),
        )
    }
}

/// The rows that a row file holds: as many as whole rows fit in it.
pub open spec fn decode_rows(cols: Seq<(Seq<char>, DataType)>, b: Seq<u8>, e: Endian) -> Seq<Seq<WordView>> {
    let w = row_width(cols);
    if w == 0 {
        seq![]
    } else {
        Seq::new(b.len() / w, |k: int| decode_row(cols, b.subrange(k * w, k * w + w), e))
    }
}

/// A row file is whole when its length is a multiple of the row width (a
/// table without columns has an empty file).
pub open spec fn rows_fit(cols: Seq<(Seq<char>, DataType)>, len: nat) -> bool {
    if row_width(cols) == 0 {
        len == 0
    } else {
        len % row_width(cols) == 0
    }
}


/// The rows of a file whose length is not a multiple of the row width.
#[derive(Debug, Clone, Copy, PartialEq, Eq, Structural)]
pub enum RowsError {
    Misaligned,
}

/// Appends the bytes of `w` to `out`; true where a text was cut to fit.
fn encode_value(w: &WordType, e: Endian, out: &mut Vec<u8>) -> (cut: bool)
    ensures
        final(out)@ == old(out)@ + value_bytes(w@, e),
        cut == (w@ is Str && encode_utf8(w@->Str_0).len() > 50),
{
    match w {
        WordType::Int(v) => {
            let le = u32_to_le_bytes(#[verifier::truncate] (*v as u32));
            let ghost start = out@;
            match e {
                Endian::Little => {
                    for i in 0..4
                        invariant
                            le@ == spec_u32_to_le_bytes(#[verifier::truncate] (*v as u32)),
                            le@.len() == 4,
                            out@ == start + le@.take(i as int),
                    {
                        out.push(le[i]);
                        assert(le@.take(i + 1) =~= le@.take(i as int).push(le@[i as int]));
                    }
                    assert(le@.take(4) =~= le@);
                },
                Endian::Big => {
                    for i in 0..4
                        invariant
                            le@ == spec_u32_to_le_bytes(#[verifier::truncate] (*v as u32)),
                            le@.len() == 4,
                            out@ == start + le@.reverse().take(i as int),
                    {
                        out.push(le[3 - i]);
                        assert(le@.reverse().take(i + 1) =~= le@.reverse().take(i as int).push(le@[3 - i]));
                    }
                    assert(le@.reverse().take(4) =~= le@.reverse());
                },
            }
            false
        },
        WordType::Str(s) => {
            let b = s.as_str().as_bytes_vec();
            let ghost start = out@;
            let n = if b.len() > STR_WIDTH {
                STR_WIDTH
            } else {
                b.len()
            };
            for i in 0..n
                invariant
                    n <= b.len(),
                    n <= 50,
                    out@ == start + b@.take(i as int),
            {
                out.push(b[i]);
                assert(b@.take(i + 1) =~= b@.take(i as int).push(b@[i as int]));
            }
            for i in n..STR_WIDTH
                invariant
                    n <= b.len(),
                    n <= 50,
                    out@ == start + b@.take(n as int) + Seq::new((i - n) as nat, |j: int| 0u8),
            {
                out.push(0u8);
                assert(Seq::new((i + 1 - n) as nat, |j: int| 0u8) =~= Seq::new((i - n) as nat, |j: int| 0u8).push(0u8));
                assert(out@ =~= start + b@.take(n as int) + Seq::new((i + 1 - n) as nat, |j: int| 0u8));
            }
            proof {
                if b.len() >= 50 {
                    assert(Seq::new(0, |j: int| 0u8) =~= Seq::<u8>::empty());
                    assert(b@.take(50) + Seq::new(0, |j: int| 0u8) =~= b@.take(50));
                } else {
                    assert(b@.take(n as int) =~= b@);
                }
            }
            b.len() > STR_WIDTH
        },
        WordType::Type(_) => false,
    }
}

/// How many texts in `rows` are longer than fifty bytes.
pub open spec fn long_texts(rows: Seq<Seq<WordView>>) -> nat
    decreases rows.len(),
{
    if rows.len() == 0 {
        0
    } else {
        long_texts(rows.drop_last()) + long_in_row(rows.last())
    }
}

pub open spec fn long_in_row(row: Seq<WordView>) -> nat
    decreases row.len(),
{
    if row.len() == 0 {
        0
    } else {
        long_in_row(row.drop_last()) + if row.last() is Str && encode_utf8(row.last()->Str_0).len() > 50 {
            1nat
        } else {
            0
        }
    }
}

/// A row file's content, and whether some text was cut to fit.
pub struct EncodedRows {
    pub bytes: Vec<u8>,
    pub cut_texts: bool,
}

/// The content of the row file for `rows`.
pub fn encode_rows(rows: &Vec<Row>, e: Endian) -> (r: EncodedRows)
    ensures
        r.bytes@ == rows_bytes(rows_view(rows@), e),
        r.cut_texts == (long_texts(rows_view(rows@)) > 0),
{
    let mut out: Vec<u8> = Vec::new();
    let mut cut = false;
    for k in 0..rows.len()
        invariant
            out@ == rows_bytes(rows_view(rows@).take(k as int), e),
            cut == (long_texts(rows_view(rows@).take(k as int)) > 0),
    {
        let row = &rows[k];
        let ghost before = out@;
        let ghost cut0 = cut;
        assert(row_view(*row) == rows_view(rows@)[k as int]);
        assert(row_view(*row).take(0) =~= Seq::<WordView>::empty());
        for i in 0..row.len()
            invariant
                out@ == before + row_bytes(row_view(*row).take(i as int), e),
                cut == (cut0 || long_in_row(row_view(*row).take(i as int)) > 0),
        {
            assert(row_view(*row).take(i + 1).drop_last() =~= row_view(*row).take(i as int));
            let c = encode_value(&row[i], e, &mut out);
            cut = cut || c;
        }
        assert(row_view(*row).take(row.len() as int) =~= row_view(*row));
        assert(rows_view(rows@).take(k + 1).drop_last() =~= rows_view(rows@).take(k as int));
    }
    assert(rows_view(rows@).take(rows.len() as int) =~= rows_view(rows@));
    EncodedRows { bytes: out, cut_texts: cut }
}

proof fn lemma_row_width_prefix(cols: Seq<(Seq<char>, DataType)>, i: int)
    requires
        0 <= i <= cols.len(),
    ensures
        row_width(cols.take(i)) <= row_width(cols),
    decreases cols.len(),
{
    if i < cols.len() {
        assert(cols.drop_last().take(i) =~= cols.take(i));
        lemma_row_width_prefix(cols.drop_last(), i);
    } else {
        assert(cols.take(i) =~= cols);
    }
}

/// The value of type `t` whose field starts at `at`.
fn read_field(t: DataType, bytes: &Vec<u8>, at: usize, e: Endian) -> (w: WordType)
    requires
        at + field_width(t) <= bytes.len(),
    ensures
        w@ == field_value(t, bytes@.subrange(at as int, at + field_width(t)), e),
{
    let ghost f = bytes@.subrange(at as int, at + field_width(t));
    match t {
        DataType::Int => {
            let mut buf: Vec<u8> = Vec::new();
            let ghost le = match e {
                Endian::Little => f,
                Endian::Big => f.reverse(),
            };
            for i in 0..4
                invariant
                    at + 4 <= bytes.len(),
                    f == bytes@.subrange(at as int, at + 4),
                    le == (match e {
                        Endian::Little => f,
                        Endian::Big => f.reverse(),
                    }),
                    buf@ == le.take(i as int),
            {
                let byte = match e {
                    Endian::Little => bytes[at + i],
                    Endian::Big => bytes[at + 3 - i],
                };
                assert(byte == le[i as int]);
                buf.push(byte);
                assert(buf@ =~= le.take(i + 1));
            }
            assert(le.take(4) =~= le);
            let x = u32_from_le_bytes(buf.as_slice());
            WordType::Int(#[verifier::truncate] (x as i32))
        },
        DataType::Str => {
            let end = at + STR_WIDTH;
            let mut j = at;
            while j < end && bytes[j] != 0
                invariant
                    at <= j <= end == at + 50 <= bytes.len(),
                    f == bytes@.subrange(at as int, end as int),
                    zero_pos(f) == (j - at) + zero_pos(bytes@.subrange(j as int, end as int)),
                decreases end - j,
            {
                assert(bytes@.subrange(j as int, end as int).skip(1) =~= bytes@.subrange(j + 1, end as int));
                j = j + 1;
            }
            let b = vstd::slice::slice_subrange(bytes.as_slice(), at, j);
            assert(b@ =~= f.take(zero_pos(f) as int));
            WordType::Str(text_from_utf8_lossy(b))
        },
        DataType::Type => WordType::Type(DataType::Type),
    }
}

/// The row whose bytes start at `start`.
fn read_row(cols: &Vec<(String, DataType)>, bytes: &Vec<u8>, start: usize, e: Endian) -> (r: Row)
    requires
        start + row_width(cols_view(cols@)) <= bytes.len(),
    ensures
        row_view(r) == decode_row(
            cols_view(cols@),
            bytes@.subrange(start as int, start + row_width(cols_view(cols@))),
            e,
        ),
{
    let ghost cv = cols_view(cols@);
    let ghost seg = bytes@.subrange(start as int, start + row_width(cv));
    let mut out: Row = Vec::new();
    let mut off: usize = 0;
    assert(cv.take(0) =~= Seq::<(Seq<char>, DataType)>::empty());
    assert(row_view(out) =~= Seq::<WordView>::empty());
    for i in 0..cols.len()
        invariant
            cv == cols_view(cols@),
            seg == bytes@.subrange(start as int, start + row_width(cv)),
            start + row_width(cv) <= bytes.len(),
            off == row_width(cv.take(i as int)),
            row_view(out) == decode_row(cv.take(i as int), seg.take(off as int), e),
    {
        let t = cols[i].1;
        proof {
            lemma_row_width_prefix(cv, i + 1);
            assert(cv.take(i + 1).drop_last() =~= cv.take(i as int));
            assert(cv.take(i + 1).last() == cv[i as int]);
        }
        let w = read_field(t, bytes, start + off, e);
        let ghost fw = field_width(t);
        assert(seg.take(off + fw).take(off as int) =~= seg.take(off as int));
        assert(seg.take(off + fw).subrange(off as int, off + fw) =~= bytes@.subrange(
            start + off,
            start + off + fw,
        ));
        let ghost prev = row_view(out);
        out.push(w);
        assert(row_view(out) =~= prev.push(w@));
        off = off + if t == DataType::Int {
            4
        } else if t == DataType::Str {
            STR_WIDTH
        } else {
            0
        };
    }
    assert(cv.take(cols.len() as int) =~= cv);
    assert(seg.take(off as int) =~= seg);
    out
}

/// The width in bytes of a row of `cols`.
fn width_of(cols: &Vec<(String, DataType)>) -> (w: usize)
    requires
        row_width(cols_view(cols@)) <= usize::MAX,
    ensures
        w == row_width(cols_view(cols@)),
{
    let ghost cv = cols_view(cols@);
    let mut w: usize = 0;
    assert(cv.take(0) =~= Seq::<(Seq<char>, DataType)>::empty());
    for i in 0..cols.len()
        invariant
            cv == cols_view(cols@),
            row_width(cv) <= usize::MAX,
            w == row_width(cv.take(i as int)),
    {
        proof {
            lemma_row_width_prefix(cv, i + 1);
            assert(cv.take(i + 1).drop_last() =~= cv.take(i as int));
        }
        w = w + match cols[i].1 {
            DataType::Int => 4,
            DataType::Str => STR_WIDTH,
            DataType::Type => 0,
        };
    }
    assert(cv.take(cols.len() as int) =~= cv);
    w
}

/// Reads the content of a row file for a table with the schema `schema`:
/// the rows it holds, or `Misaligned` where its length is not a whole
/// number of rows.
pub fn read_rows(schema: &TableSchema, bytes: &Vec<u8>, e: Endian) -> (r: Result<Vec<Row>, RowsError>)
    requires
        row_width(schema@.cols) <= usize::MAX,
    ensures
        match r {
            Ok(rows) => rows_fit(schema@.cols, bytes@.len()) && rows_view(rows@) == decode_rows(
                schema@.cols,
                bytes@,
                e,
            ),
            Err(_) => !rows_fit(schema@.cols, bytes@.len()),
        },
{
    let cols = &schema.cols;
    let w = width_of(cols);
    let n = bytes.len();
    if w == 0 {
        if n == 0 {
            let rows: Vec<Row> = Vec::new();
            assert(rows_view(rows@) =~= Seq::<Seq<WordView>>::empty());
            return Ok(rows);
        }
        return Err(RowsError::Misaligned);
    }
    if n % w != 0 {
        return Err(RowsError::Misaligned);
    }
    let count = n / w;
    let ghost cv = cols_view(cols@);
    let mut rows: Vec<Row> = Vec::new();
    let mut off: usize = 0;
    assert(0 * w == 0) by (nonlinear_arith);
    assert(rows_view(rows@) =~= Seq::new(
        0,
        |q: int| decode_row(cv, bytes@.subrange(q * w, q * w + w), e),
    ));
    for k in 0..count
        invariant
            cv == cols_view(cols@),
            cv == schema@.cols,
            w == row_width(cv),
            w > 0,
            n == bytes.len(),
            count == n / w,
            off == k * w,
            rows_view(rows@) == Seq::new(
                k as nat,
                |q: int| decode_row(cv, bytes@.subrange(q * w, q * w + w), e),
            ),
    {
        assert(off + w <= n) by (nonlinear_arith)
            requires
                off == k * w,
                k < count,
                count == n / w,
                w > 0,
        {
            assert(k + 1 <= n / w);
            assert((k + 1) * w <= (n / w) * w);
            assert((n / w) * w <= n);
        }
        let row = read_row(cols, bytes, off, e);
        let ghost prev = rows_view(rows@);
        assert(row_view(row) == decode_row(cv, bytes@.subrange(k * w, k * w + w), e));
        rows.push(row);
        assert(rows_view(rows@) =~= prev.push(row_view(row)));
        assert(rows_view(rows@) =~= Seq::new(
            (k + 1) as nat,
            |q: int| decode_row(cv, bytes@.subrange(q * w, q * w + w), e),
        ));
        assert((k + 1) * w == k * w + w) by (nonlinear_arith);
        off = off + w;
    }
    Ok(rows)
}

} // verus!

verus! {

/// A field as a save writes it: an integer field is any four bytes; a text
/// field is valid UTF-8 up to its first zero byte and zeros after it.
pub open spec fn canonical_field(t: DataType, f: Seq<u8>) -> bool {
    match t {
        DataType::Str => {
            &&& valid_utf8(f.take(zero_pos(f) as int))
            &&& forall|i: int| zero_pos(f) <= i < f.len() ==> f[i] == 0
        },
        _ => true,
    }
}

/// Every field of a row's bytes is as a save writes it.
pub open spec fn canonical_row(cols: Seq<(Seq<char>, DataType)>, b: Seq<u8>) -> bool
    decreases cols.len(),
{
    if cols.len() == 0 {
        true
    } else {
        let w = row_width(cols.drop_last());
        canonical_row(cols.drop_last(), b.take(w as int)) && canonical_field(
            cols.last().1,
            b.subrange(w as int, (w + field_width(cols.last().1)) as int),
        )
    }
}

proof fn lemma_zero_pos(b: Seq<u8>)
    ensures
        zero_pos(b) <= b.len(),
        zero_pos(b) < b.len() ==> b[zero_pos(b) as int] == 0,
    decreases b.len(),
{
    if b.len() > 0 && b[0] != 0 {
        lemma_zero_pos(b.skip(1));
    }
}

proof fn lemma_int_round_trip(f: Seq<u8>, e: Endian)
    requires
        f.len() == 4,
    ensures
        int_bytes(int_of_bytes(f, e), e) == f,
{
    vstd::bytes::lemma_auto_spec_u32_to_from_le_bytes();
    let le = match e {
        Endian::Little => f,
        Endian::Big => f.reverse(),
    };
    let x = spec_u32_from_le_bytes(le);
    let v = #[verifier::truncate] (x as i32);
    assert((#[verifier::truncate] (v as u32)) == x) by (bit_vector)
        requires
            v == #[verifier::truncate] (x as i32),
    ;
    assert(spec_u32_to_le_bytes(x) == le);
    if e == Endian::Big {
        assert(f.reverse().reverse() =~= f);
    }
}

proof fn lemma_field_round_trip(t: DataType, f: Seq<u8>, e: Endian)
    requires
        t != DataType::Type,
        f.len() == field_width(t),
        canonical_field(t, f),
    ensures
        value_bytes(field_value(t, f, e), e) == f,
{
    match t {
        DataType::Int => {
            lemma_int_round_trip(f, e);
            let v = int_of_bytes(f, e);
            assert(int_bytes(v, e) == f);
            assert(field_value(t, f, e) == WordView::Int(v));
            assert(value_bytes(WordView::Int(v), e) == int_bytes(v, e));
            assert(value_bytes(field_value(t, f, e), e) == f);
        },
        DataType::Str => {
            lemma_zero_pos(f);
            let z = zero_pos(f);
            let x = f.take(z as int);
            vstd::utf8::decode_utf8_encode_utf8(x);
            assert(encode_utf8(decode_utf8(x)) == x);
            if z < 50 {
                assert(x + Seq::new((50 - z) as nat, |i: int| 0u8) =~= f);
            } else {
                assert(x.take(50) =~= f);
            }
            assert(value_bytes(field_value(t, f, e), e) == f);
        },
        DataType::Type => {},
    }
}

proof fn lemma_row_round_trip(cols: Seq<(Seq<char>, DataType)>, b: Seq<u8>, e: Endian)
    requires
        forall|i: int| 0 <= i < cols.len() ==> (#[trigger] cols[i]).1 != DataType::Type,
        b.len() == row_width(cols),
        canonical_row(cols, b),
    ensures
        row_bytes(decode_row(cols, b, e), e) == b,
    decreases cols.len(),
{
    if cols.len() == 0 {
        assert(b =~= Seq::<u8>::empty());
    } else {
        let c2 = cols.drop_last();
        let w = row_width(c2);
        let t = cols.last().1;
        assert(t == cols[cols.len() - 1].1);
        let f = b.subrange(w as int, (w + field_width(t)) as int);
        lemma_row_round_trip(c2, b.take(w as int), e);
        lemma_field_round_trip(t, f, e);
        let r = decode_row(c2, b.take(w as int), e);
        let x = field_value(t, f, e);
        assert(r.push(x).drop_last() =~= r);
        assert(b.take(w as int) + f =~= b);
    }
}

/// Every row's bytes in `b` are as a save writes them.
pub open spec fn canonical_rows(cols: Seq<(Seq<char>, DataType)>, b: Seq<u8>) -> bool {
    let w = row_width(cols) as int;
    forall|k: int| 0 <= k < (b.len() as int) / w ==> #[trigger] canonical_row(cols, b.subrange(k * w, k * w + w))
}

/// A row file whose length is a whole number of rows and whose fields are
/// as a save writes them (texts of valid UTF-8 padded with zeros), read and
/// written back with the same schema and byte order, gives the same bytes.
pub proof fn lemma_rows_round_trip(cols: Seq<(Seq<char>, DataType)>, b: Seq<u8>, e: Endian)
    requires
        forall|i: int| 0 <= i < cols.len() ==> (#[trigger] cols[i]).1 != DataType::Type,
        row_width(cols) > 0,
        rows_fit(cols, b.len()),
        canonical_rows(cols, b),
    ensures
        rows_bytes(decode_rows(cols, b, e), e) == b,
{
    let w = row_width(cols) as int;
    let n = (b.len() as int) / w;
    assert(n * w == b.len()) by (nonlinear_arith)
        requires
            (b.len() as int) % w == 0,
            n == (b.len() as int) / w,
            w > 0,
    {
        assert(b.len() == w * ((b.len() as int) / w) + (b.len() as int) % w);
    }
    let f = |k: int| decode_row(cols, b.subrange(k * w, k * w + w), e);
    lemma_rows_prefix(cols, b, e, n);
    assert(b.take(n * w) =~= b);
    assert(decode_rows(cols, b, e) =~= Seq::new(n as nat, f));
}

proof fn lemma_rows_prefix(cols: Seq<(Seq<char>, DataType)>, b: Seq<u8>, e: Endian, m: int)
    requires
        forall|i: int| 0 <= i < cols.len() ==> (#[trigger] cols[i]).1 != DataType::Type,
        row_width(cols) > 0,
        0 <= m <= (b.len() as int) / (row_width(cols) as int),
        canonical_rows(cols, b),
    ensures
        ({
            let w = row_width(cols) as int;
            &&& m * w <= b.len()
            &&& rows_bytes(
                Seq::new(m as nat, |k: int| decode_row(cols, b.subrange(k * w, k * w + w), e)),
                e,
            ) == b.take(m * w)
        }),
    decreases m,
{
    let w = row_width(cols) as int;
    let f = |k: int| decode_row(cols, b.subrange(k * w, k * w + w), e);
    assert(m * w <= b.len()) by (nonlinear_arith)
        requires
            0 <= m <= (b.len() as int) / w,
            w > 0,
    {
        assert(m * w <= ((b.len() as int) / w) * w);
        assert(((b.len() as int) / w) * w <= b.len());
    }
    if m == 0 {
        assert(0 * w == 0);
        assert(Seq::new(0, f) =~= Seq::<Seq<WordView>>::empty());
        assert(b.take(0) =~= Seq::<u8>::empty());
    } else {
        lemma_rows_prefix(cols, b, e, m - 1);
        assert((m - 1) * w + w == m * w) by (nonlinear_arith);
        assert(Seq::new(m as nat, f).drop_last() =~= Seq::new((m - 1) as nat, f));
        let seg = b.subrange((m - 1) * w, (m - 1) * w + w);
        assert(canonical_row(cols, seg));
        lemma_row_round_trip(cols, seg, e);
        assert(Seq::new(m as nat, f).last() == decode_row(cols, seg, e));
        assert(rows_bytes(Seq::new(m as nat, f), e) == rows_bytes(Seq::new((m - 1) as nat, f), e)
            + row_bytes(decode_row(cols, seg, e), e));
        assert(b.take((m - 1) * w) + seg =~= b.take(m * w));
    }
}

} // verus!
