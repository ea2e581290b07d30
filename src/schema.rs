use vstd::prelude::*;
use crate::chars::{chars_of, is_whitespace, is_ws, push_char, string_from};
use vstd::string::StringExecFns;
use crate::engine::{col_index, cols_view, find_col};
use crate::model::{
    data_type_from_chars, data_type_name, data_type_of, data_type_to_string, DataType, SchemaView,
    TableSchema,
};
use crate::query::skip_ws;

verus! {

/// Why a schema text was rejected. Line numbers count the column lines from
/// one; the name line is line zero.
#[derive(Debug, Clone, PartialEq, Eq)]
pub enum SchemaError {
    TableNameMissing,
    EmptyTableName,
    InvalidColumnFormat(usize),
    EmptyColumnName(usize),
    DuplicateColumn(String),
    UnknownColumnType(usize),
}

pub enum SchemaErrorView {
    TableNameMissing,
    EmptyTableName,
    InvalidColumnFormat(nat),
    EmptyColumnName(nat),
    DuplicateColumn(Seq<char>),
    UnknownColumnType(nat),
}

impl View for SchemaError {
    type V = SchemaErrorView;

    open spec fn view(&self) -> SchemaErrorView {
        match self {
            SchemaError::TableNameMissing => SchemaErrorView::TableNameMissing,
            SchemaError::EmptyTableName => SchemaErrorView::EmptyTableName,
            SchemaError::InvalidColumnFormat(n) => SchemaErrorView::InvalidColumnFormat(*n as nat),
            SchemaError::EmptyColumnName(n) => SchemaErrorView::EmptyColumnName(*n as nat),
            SchemaError::DuplicateColumn(s) => SchemaErrorView::DuplicateColumn(s@),
            SchemaError::UnknownColumnType(n) => SchemaErrorView::UnknownColumnType(*n as nat),
        }
    }
}

/// The position of the first `c` in `s`.
pub open spec fn find_char(s: Seq<char>, c: char) -> Option<nat>
    decreases s.len(),
{
    if s.len() == 0 {
        None
    } else if s[0] == c {
        Some(0)
    } else {
        match find_char(s.skip(1), c) {
            Some(k) => Some(k + 1),
            None => None,
        }
    }
}

/// The lines of `s`: the pieces between line feeds, where a final line feed
/// ends the last line rather than starting an empty one.
pub open spec fn lines(s: Seq<char>) -> Seq<Seq<char>>
    decreases s.len(),
{
    if s.len() == 0 {
        seq![]
    } else {
        match find_char(s, '\n') {
            None => seq![s],
            Some(k) => if k < s.len() {
                seq![s.take(k as int)] + lines(s.skip(k + 1 as int))
            } else {
                seq![s]
            },
        }
    }
}

/// `s` without trailing whitespace.
pub open spec fn trim_end(s: Seq<char>) -> Seq<char>
    decreases s.len(),
{
    if s.len() > 0 && is_ws(s.last()) {
        trim_end(s.drop_last())
    } else {
        s
    }
}

/// `s` without leading and trailing whitespace.
pub open spec fn trim(s: Seq<char>) -> Seq<char> {
    trim_end(skip_ws(s))
}

/// The column types a schema may declare.
pub open spec fn column_type_of(w: Seq<char>) -> Option<DataType> {
    match data_type_of(w) {
        Some(DataType::Type) => None,
        t => t,
    }
}

/// The columns declared by `ls`, numbered from `line`, appended to `acc`.
pub open spec fn parse_cols(
    ls: Seq<Seq<char>>,
    line: nat,
    acc: Seq<(Seq<char>, DataType)>,
) -> Result<Seq<(Seq<char>, DataType)>, SchemaErrorView>
    decreases ls.len(),
{
    if ls.len() == 0 {
        Ok(acc)
    } else {
        let l = ls[0];
        match find_char(l, ':') {
            None => Err(SchemaErrorView::InvalidColumnFormat(line)),
            Some(k) => {
                let name = trim(l.take(k as int));
                let ty = trim(l.skip(k + 1 as int));
                if name.len() == 0 {
                    Err(SchemaErrorView::EmptyColumnName(line))
                } else if col_index(acc, name) is Some {
                    Err(SchemaErrorView::DuplicateColumn(name))
                } else {
                    match column_type_of(ty) {
                        None => Err(SchemaErrorView::UnknownColumnType(line)),
                        Some(t) => parse_cols(ls.skip(1), line + 1, acc.push((name, t))),
                    }
                }
            },
        }
    }
}

/// The schema that a `.tbls` text declares: the table's name on the first
/// line, then one `name:type` per line.
pub open spec fn parse_schema(s: Seq<char>) -> Result<SchemaView, SchemaErrorView> {
    let ls = lines(s);
    if ls.len() == 0 {
        Err(SchemaErrorView::TableNameMissing)
    } else if trim(ls[0]).len() == 0 {
        Err(SchemaErrorView::EmptyTableName)
    } else {
        match parse_cols(ls.skip(1), 1, seq![]) {
            Err(e) => Err(e),
            Ok(cols) => Ok(SchemaView { name: trim(ls[0]), cols }),
        }
    }
}

/// The text of `v[lo..hi]` without leading and trailing whitespace.
fn trim_range(v: &Vec<char>, lo: usize, hi: usize) -> (r: Vec<char>)
    requires
        lo <= hi <= v.len(),
    ensures
        r@ == trim(v@.subrange(lo as int, hi as int)),
{
    let mut a = lo;
    while a < hi && is_whitespace(v[a])
        invariant
            lo <= a <= hi <= v.len(),
            skip_ws(v@.subrange(lo as int, hi as int)) == skip_ws(v@.subrange(a as int, hi as int)),
        decreases hi - a,
    {
        assert(v@.subrange(a as int, hi as int).skip(1) =~= v@.subrange(a + 1, hi as int));
        a = a + 1;
    }
    let mut b = hi;
    while b > a && is_whitespace(v[b - 1])
        invariant
            lo <= a <= b <= hi <= v.len(),
            skip_ws(v@.subrange(lo as int, hi as int)) == v@.subrange(a as int, hi as int),
            trim_end(v@.subrange(a as int, hi as int)) == trim_end(v@.subrange(a as int, b as int)),
        decreases b - a,
    {
        assert(v@.subrange(a as int, b as int).drop_last() =~= v@.subrange(a as int, b - 1));
        b = b - 1;
    }
    let mut r: Vec<char> = Vec::new();
    let mut i = a;
    while i < b
        invariant
            a <= i <= b <= v.len(),
            r@ == v@.subrange(a as int, i as int),
        decreases b - i,
    {
        r.push(v[i]);
        assert(r@ =~= v@.subrange(a as int, i + 1));
        i = i + 1;
    }
    r
}

/// The position of the first `c` in `v[lo..hi]`, counted from `lo`.
fn find_in(v: &Vec<char>, lo: usize, hi: usize, c: char) -> (r: Option<usize>)
    requires
        lo <= hi <= v.len(),
    ensures
        match r {
            Some(k) => find_char(v@.subrange(lo as int, hi as int), c) == Some(k as nat) && lo + k < hi,
            None => find_char(v@.subrange(lo as int, hi as int), c) is None,
        },
{
    let mut j = lo;
    while j < hi && v[j] != c
        invariant
            lo <= j <= hi <= v.len(),
            find_char(v@.subrange(lo as int, hi as int), c) == match find_char(
                v@.subrange(j as int, hi as int),
                c,
            ) {
                Some(k) => Some((k + (j - lo)) as nat),
                None => None,
            },
        decreases hi - j,
    {
        assert(v@.subrange(j as int, hi as int).skip(1) =~= v@.subrange(j + 1, hi as int));
        j = j + 1;
    }
    if j == hi {
        None
    } else {
        Some(j - lo)
    }
}

/// Reads a `.tbls` text: the schema it declares, or the first fault in it.
pub fn parse_table_schema(content: &str) -> (r: Result<TableSchema, SchemaError>)
    ensures
        parse_schema(content@) == match r {
            Ok(s) => Ok::<SchemaView, SchemaErrorView>(s@),
            Err(e) => Err::<SchemaView, SchemaErrorView>(e@),
        },
{
    let v = chars_of(content);
    let n = v.len();
    if n == 0 {
        return Err(SchemaError::TableNameMissing);
    }
    // the name line
    let first = find_in(&v, 0, n, '\n');
    assert(v@.subrange(0, n as int) =~= v@);
    let name_end = match first {
        Some(k) => k,
        None => n,
    };
    let name = trim_range(&v, 0, name_end);
    assert(v@.take(name_end as int) =~= v@.subrange(0, name_end as int));
    if name.len() == 0 {
        return Err(SchemaError::EmptyTableName);
    }
    let mut pos: usize = if name_end < n {
        name_end + 1
    } else {
        n
    };
    assert(lines(v@) == seq![v@.subrange(0, name_end as int)] + lines(v@.skip(pos as int))) by {
        if name_end == n {
            assert(v@.skip(n as int) =~= Seq::<char>::empty());
            assert(seq![v@] + Seq::<Seq<char>>::empty() =~= seq![v@]);
        }
    }
    assert(lines(v@).skip(1) =~= lines(v@.skip(pos as int)));
    assert(lines(v@)[0] == v@.subrange(0, name_end as int));
    let mut cols: Vec<(String, DataType)> = Vec::new();
    let mut line: usize = 1;
    assert(cols_view(cols@) =~= Seq::<(Seq<char>, DataType)>::empty());
    while pos < n
        invariant
            pos <= n == v.len(),
            v@ == content@,
            lines(v@).len() > 0,
            trim(lines(v@)[0]) == name@,
            name@.len() > 0,
            1 <= line <= pos + 1,
            parse_cols(lines(v@).skip(1), 1, seq![]) == parse_cols(
                lines(v@.skip(pos as int)),
                line as nat,
                cols_view(cols@),
            ),
        decreases n - pos,
    {
        let end = match find_in(&v, pos, n, '\n') {
            Some(k) => pos + k,
            None => n,
        };
        let ghost rest = v@.skip(pos as int);
        let ghost l = v@.subrange(pos as int, end as int);
        assert(v@.subrange(pos as int, n as int) =~= rest);
        assert(rest.take(end - pos) =~= l);
        let next = if end < n {
            end + 1
        } else {
            n
        };
        assert(lines(rest) == seq![l] + lines(v@.skip(next as int))) by {
            if end < n {
                assert(rest.skip(end - pos + 1) =~= v@.skip(next as int));
            } else {
                assert(rest =~= l);
                assert(v@.skip(n as int) =~= Seq::<char>::empty());
                assert(seq![l] + Seq::<Seq<char>>::empty() =~= seq![l]);
            }
        }
        assert((seq![l] + lines(v@.skip(next as int))).skip(1) =~= lines(v@.skip(next as int)));
        let colon = match find_in(&v, pos, end, ':') {
            Some(k) => pos + k,
            None => {
                return Err(SchemaError::InvalidColumnFormat(line));
            },
        };
        let cname = trim_range(&v, pos, colon);
        let ctype = trim_range(&v, colon + 1, end);
        assert(l.take(colon - pos) =~= v@.subrange(pos as int, colon as int));
        assert(l.skip(colon - pos + 1) =~= v@.subrange(colon + 1, end as int));
        if cname.len() == 0 {
            return Err(SchemaError::EmptyColumnName(line));
        }
        let cname = string_from(&cname, 0, cname.len());
        assert(cname@ =~= trim(l.take(colon - pos)));
        if find_col(&cols, &cname).is_some() {
            return Err(SchemaError::DuplicateColumn(cname));
        }
        let t = match data_type_from_chars(&ctype) {
            Some(DataType::Int) => DataType::Int,
            Some(DataType::Str) => DataType::Str,
            _ => {
                return Err(SchemaError::UnknownColumnType(line));
            },
        };
        let ghost prev = cols_view(cols@);
        cols.push((cname, t));
        assert(cols_view(cols@) =~= prev.push((trim(l.take(colon - pos)), t)));
        line = line + 1;
        pos = next;
    }
    assert(v@.skip(pos as int) =~= Seq::<char>::empty());
    let name = string_from(&name, 0, name.len());
    assert(name@ =~= trim(v@.subrange(0, name_end as int)));
    Ok(TableSchema { name, cols })
}

} // verus!

verus! {

/// The line that declares a column: `name:type` and a line feed.
pub open spec fn col_line(c: (Seq<char>, DataType)) -> Seq<char> {
    c.0 + seq![':'] + data_type_name(c.1) + seq!['\n']
}

/// The lines that declare `cols`, in order.
pub open spec fn cols_text(cols: Seq<(Seq<char>, DataType)>) -> Seq<char>
    decreases cols.len(),
{
    if cols.len() == 0 {
        seq![]
    } else {
        col_line(cols[0]) + cols_text(cols.skip(1))
    }
}

proof fn lemma_cols_text_push(cols: Seq<(Seq<char>, DataType)>, c: (Seq<char>, DataType))
    ensures
        cols_text(cols.push(c)) == cols_text(cols) + col_line(c),
    decreases cols.len(),
{
    if cols.len() == 0 {
        assert(cols.push(c).skip(1) =~= Seq::<(Seq<char>, DataType)>::empty());
        assert(cols.push(c)[0] == c);
        assert(cols_text(cols.push(c).skip(1)) == Seq::<char>::empty());
        assert(cols_text(cols) == Seq::<char>::empty());
        assert(col_line(c) + Seq::<char>::empty() =~= col_line(c));
        assert(Seq::<char>::empty() + col_line(c) =~= col_line(c));
    } else {
        assert(cols.push(c).skip(1) =~= cols.skip(1).push(c));
        lemma_cols_text_push(cols.skip(1), c);
        assert(cols.push(c)[0] == cols[0]);
        assert(cols_text(cols.push(c)) == col_line(cols[0]) + cols_text(cols.skip(1).push(c)));
        assert(col_line(cols[0]) + (cols_text(cols.skip(1)) + col_line(c)) =~= (col_line(cols[0])
            + cols_text(cols.skip(1))) + col_line(c));
    }
}

/// The `.tbls` text of a schema: its name on a line, then its columns.
pub open spec fn schema_text(s: SchemaView) -> Seq<char> {
    s.name + seq!['\n'] + cols_text(s.cols)
}

/// Writes the `.tbls` text of `schema`.
pub fn schema_to_text(schema: &TableSchema) -> (r: String)
    ensures
        r@ == schema_text(schema@),
{
    let mut r = String::new();
    r.append(schema.name.as_str());
    push_char(&mut r, '\n');
    let ghost head = r@;
    let ghost cv = cols_view(schema.cols@);
    assert(cv.take(0) =~= Seq::<(Seq<char>, DataType)>::empty());
    assert(head + Seq::<char>::empty() =~= head);
    for i in 0..schema.cols.len()
        invariant
            cv == cols_view(schema.cols@),
            r@ == head + cols_text(cv.take(i as int)),
    {
        let c = &schema.cols[i];
        r.append(c.0.as_str());
        push_char(&mut r, ':');
        let t = data_type_to_string(c.1);
        r.append(t.as_str());
        push_char(&mut r, '\n');
        proof {
            assert(cv.take(i + 1) =~= cv.take(i as int).push(cv[i as int]));
            lemma_cols_text_push(cv.take(i as int), cv[i as int]);
        }
        assert(r@ =~= head + cols_text(cv.take(i + 1)));
    }
    assert(cv.take(schema.cols.len() as int) =~= cv);
    r
}

} // verus!

verus! {

pub open spec fn no_char(s: Seq<char>, c: char) -> bool {
    forall|i: int| 0 <= i < s.len() ==> s[i] != c
}

proof fn lemma_find_char(s: Seq<char>, c: char)
    ensures
        match find_char(s, c) {
            Some(k) => k < s.len() && s[k as int] == c && no_char(s.take(k as int), c),
            None => no_char(s, c),
        },
    decreases s.len(),
{
    if s.len() > 0 && s[0] != c {
        lemma_find_char(s.skip(1), c);
        match find_char(s.skip(1), c) {
            Some(k) => {
                assert forall|i: int| 0 <= i < k + 1 implies #[trigger] s.take(k + 1 as int)[i] != c by {
                    if i > 0 {
                        assert(s.take(k + 1 as int)[i] == s.skip(1).take(k as int)[i - 1]);
                    }
                }
            },
            None => {
                assert forall|i: int| 0 <= i < s.len() implies s[i] != c by {
                    if i > 0 {
                        assert(s[i] == s.skip(1)[i - 1]);
                    }
                }
            },
        }
    }
}

proof fn lemma_find_char_after(a: Seq<char>, c: char, rest: Seq<char>)
    requires
        no_char(a, c),
    ensures
        find_char(a + seq![c] + rest, c) == Some(a.len()),
    decreases a.len(),
{
    let s = a + seq![c] + rest;
    if a.len() == 0 {
        assert(s[0] == c);
    } else {
        assert(s[0] == a[0]);
        assert(s.skip(1) =~= a.skip(1) + seq![c] + rest);
        lemma_find_char_after(a.skip(1), c, rest);
    }
}

proof fn lemma_lines_cons(a: Seq<char>, rest: Seq<char>)
    requires
        no_char(a, '\n'),
    ensures
        lines(a + seq!['\n'] + rest) == seq![a] + lines(rest),
{
    let s = a + seq!['\n'] + rest;
    lemma_find_char_after(a, '\n', rest);
    assert(s.take(a.len() as int) =~= a);
    assert(s.skip(a.len() + 1 as int) =~= rest);
}

proof fn lemma_lines_clean(s: Seq<char>)
    ensures
        forall|i: int| 0 <= i < lines(s).len() ==> no_char(#[trigger] lines(s)[i], '\n'),
    decreases s.len(),
{
    if s.len() > 0 {
        lemma_find_char(s, '\n');
        match find_char(s, '\n') {
            Some(k) => {
                lemma_lines_clean(s.skip(k + 1 as int));
                assert forall|i: int| 0 <= i < lines(s).len() implies no_char(
                    #[trigger] lines(s)[i],
                    '\n',
                ) by {
                    if i > 0 {
                        assert(lines(s)[i] == lines(s.skip(k + 1 as int))[i - 1]);
                    }
                }
            },
            None => {},
        }
    }
}

proof fn lemma_skip_ws(s: Seq<char>)
    ensures
        skip_ws(s).len() <= s.len(),
        skip_ws(s) == s.skip(s.len() - skip_ws(s).len()),
        skip_ws(s).len() > 0 ==> !is_ws(skip_ws(s)[0]),
    decreases s.len(),
{
    if s.len() > 0 && is_ws(s[0]) {
        lemma_skip_ws(s.skip(1));
        assert(s.skip(1).skip(s.len() - 1 - skip_ws(s).len()) =~= s.skip(s.len() - skip_ws(s).len()));
    } else {
        assert(s.skip(0) =~= s);
    }
}

proof fn lemma_trim_end(s: Seq<char>)
    ensures
        trim_end(s).len() <= s.len(),
        trim_end(s) == s.take(trim_end(s).len() as int),
        trim_end(s).len() > 0 ==> !is_ws(trim_end(s).last()),
        s.len() > 0 && !is_ws(s[0]) ==> trim_end(s).len() > 0,
    decreases s.len(),
{
    if s.len() > 0 && is_ws(s.last()) {
        lemma_trim_end(s.drop_last());
        assert(s.drop_last().take(trim_end(s).len() as int) =~= s.take(trim_end(s).len() as int));
    } else {
        assert(s.take(s.len() as int) =~= s);
    }
}

/// A text that loses nothing to trimming and holds no `c`.
pub open spec fn clean_text(s: Seq<char>) -> bool {
    trim(s) == s && no_char(s, '\n')
}

proof fn lemma_trim_clean(s: Seq<char>, c: char)
    requires
        no_char(s, c),
    ensures
        trim(trim(s)) == trim(s),
        no_char(trim(s), c),
{
    lemma_skip_ws(s);
    let a = skip_ws(s);
    lemma_trim_end(a);
    let t = trim_end(a);
    assert forall|i: int| 0 <= i < t.len() implies t[i] != c by {
        assert(t[i] == s[s.len() - a.len() + i]);
    }
    if t.len() > 0 {
        assert(t[0] == a[0]);
        assert(skip_ws(t) == t);
        assert(trim_end(t) == t);
    }
}

/// What a schema loaded from text looks like: a name and column names that
/// are trimmed, hold no line feed and are not empty, column names without a
/// colon and distinct, columns of type `Int` or `Str`.
pub open spec fn clean_schema(s: SchemaView) -> bool {
    &&& s.name.len() > 0
    &&& clean_text(s.name)
    &&& clean_cols(s.cols)
}

pub open spec fn clean_cols(cols: Seq<(Seq<char>, DataType)>) -> bool {
    &&& forall|i: int|
        0 <= i < cols.len() ==> {
            let c = #[trigger] cols[i];
            c.0.len() > 0 && clean_text(c.0) && no_char(c.0, ':') && c.1 != DataType::Type
        }
    &&& forall|i: int, j: int| 0 <= i < j < cols.len() ==> (#[trigger] cols[i]).0 != (#[trigger] cols[j]).0
}

proof fn lemma_parse_cols_clean(ls: Seq<Seq<char>>, line: nat, acc: Seq<(Seq<char>, DataType)>)
    requires
        forall|i: int| 0 <= i < ls.len() ==> no_char(#[trigger] ls[i], '\n'),
        clean_cols(acc),
        parse_cols(ls, line, acc) is Ok,
    ensures
        clean_cols(parse_cols(ls, line, acc)->Ok_0),
    decreases ls.len(),
{
    if ls.len() > 0 {
        let l = ls[0];
        lemma_find_char(l, ':');
        let k = find_char(l, ':')->0;
        let name = trim(l.take(k as int));
        let t = column_type_of(trim(l.skip(k + 1 as int)))->0;
        assert(no_char(l.take(k as int), '\n'));
        lemma_trim_clean(l.take(k as int), '\n');
        lemma_trim_clean(l.take(k as int), ':');
        assert forall|j: int| 0 <= j < acc.len() implies acc[j].0 != name by {
            if acc[j].0 == name {
                crate::engine::lemma_first_where_exists(acc, |c: (Seq<char>, DataType)| c.0 == name, j);
            }
        }
        let acc2 = acc.push((name, t));
        assert(clean_cols(acc2));
        assert forall|i: int| 0 <= i < ls.skip(1).len() implies no_char(#[trigger] ls.skip(1)[i], '\n') by {
            assert(ls.skip(1)[i] == ls[i + 1]);
        }
        lemma_parse_cols_clean(ls.skip(1), line + 1, acc2);
    }
}

proof fn lemma_parse_cols_text(cols: Seq<(Seq<char>, DataType)>, line: nat, acc: Seq<(Seq<char>, DataType)>)
    requires
        clean_cols(cols),
        forall|i: int, j: int| 0 <= i < acc.len() && 0 <= j < cols.len() ==> acc[i].0 != cols[j].0,
    ensures
        parse_cols(lines(cols_text(cols)), line, acc) == Ok::<Seq<(Seq<char>, DataType)>, SchemaErrorView>(acc + cols),
    decreases cols.len(),
{
    if cols.len() == 0 {
        assert(acc + cols =~= acc);
    } else {
        let c = cols[0];
        let tname = data_type_name(c.1);
        let l = c.0 + seq![':'] + tname;
        assert(no_char(l, '\n')) by {
            assert forall|i: int| 0 <= i < l.len() implies l[i] != '\n' by {
                if i < c.0.len() {
                    assert(l[i] == c.0[i]);
                }
            }
        }
        assert(col_line(c) + cols_text(cols.skip(1)) =~= l + seq!['\n'] + cols_text(cols.skip(1)));
        lemma_lines_cons(l, cols_text(cols.skip(1)));
        let ls = lines(cols_text(cols));
        assert(ls[0] == l);
        assert(ls.skip(1) =~= lines(cols_text(cols.skip(1))));
        lemma_find_char_after(c.0, ':', tname);
        assert(l.take(c.0.len() as int) =~= c.0);
        assert(l.skip(c.0.len() + 1 as int) =~= tname);
        assert(trim(tname) == tname);
        assert(column_type_of(tname) == Some(c.1));
        assert forall|j: int| 0 <= j < acc.len() implies !((|x: (Seq<char>, DataType)| x.0 == c.0)(acc[j])) by {
            assert(acc[j].0 != cols[0].0);
        }
        crate::engine::lemma_first_where_none(acc, |x: (Seq<char>, DataType)| x.0 == c.0);
        let acc2 = acc.push(c);
        assert forall|i: int, j: int|
            0 <= i < acc2.len() && 0 <= j < cols.skip(1).len() implies acc2[i].0 != cols.skip(1)[j].0 by {
            assert(cols.skip(1)[j] == cols[j + 1]);
            if i < acc.len() {
                assert(acc[i].0 != cols[j + 1].0);
            } else {
                assert(cols[0].0 != cols[j + 1].0);
            }
        }
        assert(clean_cols(cols.skip(1))) by {
            assert forall|i: int, j: int| 0 <= i < j < cols.skip(1).len() implies (#[trigger] cols.skip(1)[i]).0
                != (#[trigger] cols.skip(1)[j]).0 by {
                assert(cols[i + 1].0 != cols[j + 1].0);
            }
            assert forall|i: int| 0 <= i < cols.skip(1).len() implies {
                let c = #[trigger] cols.skip(1)[i];
                c.0.len() > 0 && clean_text(c.0) && no_char(c.0, ':') && c.1 != DataType::Type
            } by {
                assert(cols.skip(1)[i] == cols[i + 1]);
            }
        }
        lemma_parse_cols_text(cols.skip(1), line + 1, acc2);
        assert(acc2 + cols.skip(1) =~= acc + cols);
    }
}

/// Loading a schema from text and saving it back gives a text that loads as
/// the same schema: same name, same columns in the same order.
pub proof fn lemma_schema_round_trip(text: Seq<char>)
    requires
        parse_schema(text) is Ok,
    ensures
        parse_schema(schema_text(parse_schema(text)->Ok_0)) == parse_schema(text),
{
    let s = parse_schema(text)->Ok_0;
    let ls = lines(text);
    lemma_lines_clean(text);
    lemma_trim_clean(ls[0], '\n');
    assert forall|i: int| 0 <= i < ls.skip(1).len() implies no_char(#[trigger] ls.skip(1)[i], '\n') by {
        assert(ls.skip(1)[i] == ls[i + 1]);
    }
    assert(clean_cols(Seq::<(Seq<char>, DataType)>::empty()));
    lemma_parse_cols_clean(ls.skip(1), 1, seq![]);
    lemma_lines_cons(s.name, cols_text(s.cols));
    let ls2 = lines(schema_text(s));
    assert(ls2[0] == s.name);
    assert(ls2.skip(1) =~= lines(cols_text(s.cols)));
    lemma_parse_cols_text(s.cols, 1, seq![]);
    assert(Seq::<(Seq<char>, DataType)>::empty() + s.cols =~= s.cols);
}

} // verus!
