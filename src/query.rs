use vstd::prelude::*;
use crate::chars::{chars_match, chars_of, is_whitespace, is_ws, string_from};
use crate::model::{data_type_from_chars, data_type_name, data_type_of, DataType, WordType, WordView};

verus! {

/// An operator of the query language.
#[derive(Debug, Clone, Copy, PartialEq, Eq, Structural)]
pub enum OpType {
    Select,
    Insert,
    Delete,
    FilterAnd,
    FilterOr,
    Equal,
    NotEqual,
    Less,
    More,
    Create,
    Drop,
}

/// One opcode of a program: a value to push, or an operator.
#[derive(Debug, Clone, PartialEq, Eq)]
pub enum Token {
    Word(WordType),
    Op(OpType),
}

pub enum TokenView {
    Word(WordView),
    Op(OpType),
}

impl View for Token {
    type V = TokenView;

    open spec fn view(&self) -> TokenView {
        match self {
            Token::Word(w) => TokenView::Word(w@),
            Token::Op(o) => TokenView::Op(*o),
        }
    }
}

/// The only way query text can be rejected.
#[derive(Debug, Clone, Copy, PartialEq, Eq, Structural)]
pub enum LexError {
    UnclosedString,
}

impl LexError {
    /// The diagnostic line for this error.
    pub fn message(&self) -> (r: String)
        ensures
            r@ == "ERROR: unclosed string literal in a query"@,
    {
        String::from_str("ERROR: unclosed string literal in a query")
    }
}

/// The operator that the keyword `w` names, if any.
pub open spec fn op_of(w: Seq<char>) -> Option<OpType> {
    if w == seq!['s', 'e', 'l', 'e', 'c', 't'] {
        Some(OpType::Select)
    } else if w == seq!['i', 'n', 's', 'e', 'r', 't'] {
        Some(OpType::Insert)
    } else if w == seq!['d', 'e', 'l', 'e', 't', 'e'] {
        Some(OpType::Delete)
    } else if w == seq!['f', 'i', 'l', 't', 'e', 'r', '-', 'a', 'n', 'd'] {
        Some(OpType::FilterAnd)
    } else if w == seq!['f', 'i', 'l', 't', 'e', 'r', '-', 'o', 'r'] {
        Some(OpType::FilterOr)
    } else if w == seq!['c', 'r', 'e', 'a', 't', 'e'] {
        Some(OpType::Create)
    } else if w == seq!['d', 'r', 'o', 'p'] {
        Some(OpType::Drop)
    } else if w == seq!['=', '='] {
        Some(OpType::Equal)
    } else if w == seq!['!', '='] {
        Some(OpType::NotEqual)
    } else if w == seq!['<'] {
        Some(OpType::Less)
    } else if w == seq!['>'] {
        Some(OpType::More)
    } else {
        None
    }
}

/// The operator that the keyword `w` names, if any.
pub fn op_from_chars(w: &Vec<char>) -> (r: Option<OpType>)
    ensures
        r == op_of(w@),
{
    let k = ['s', 'e', 'l', 'e', 'c', 't'];
    assert(k@ =~= seq!['s', 'e', 'l', 'e', 'c', 't']);
    if chars_match(w, &k) {
        return Some(OpType::Select);
    }
    let k = ['i', 'n', 's', 'e', 'r', 't'];
    assert(k@ =~= seq!['i', 'n', 's', 'e', 'r', 't']);
    if chars_match(w, &k) {
        return Some(OpType::Insert);
    }
    let k = ['d', 'e', 'l', 'e', 't', 'e'];
    assert(k@ =~= seq!['d', 'e', 'l', 'e', 't', 'e']);
    if chars_match(w, &k) {
        return Some(OpType::Delete);
    }
    let k = ['f', 'i', 'l', 't', 'e', 'r', '-', 'a', 'n', 'd'];
    assert(k@ =~= seq!['f', 'i', 'l', 't', 'e', 'r', '-', 'a', 'n', 'd']);
    if chars_match(w, &k) {
        return Some(OpType::FilterAnd);
    }
    let k = ['f', 'i', 'l', 't', 'e', 'r', '-', 'o', 'r'];
    assert(k@ =~= seq!['f', 'i', 'l', 't', 'e', 'r', '-', 'o', 'r']);
    if chars_match(w, &k) {
        return Some(OpType::FilterOr);
    }
    let k = ['c', 'r', 'e', 'a', 't', 'e'];
    assert(k@ =~= seq!['c', 'r', 'e', 'a', 't', 'e']);
    if chars_match(w, &k) {
        return Some(OpType::Create);
    }
    let k = ['d', 'r', 'o', 'p'];
    assert(k@ =~= seq!['d', 'r', 'o', 'p']);
    if chars_match(w, &k) {
        return Some(OpType::Drop);
    }
    let k = ['=', '='];
    assert(k@ =~= seq!['=', '=']);
    if chars_match(w, &k) {
        return Some(OpType::Equal);
    }
    let k = ['!', '='];
    assert(k@ =~= seq!['!', '=']);
    if chars_match(w, &k) {
        return Some(OpType::NotEqual);
    }
    let k = ['<'];
    assert(k@ =~= seq!['<']);
    if chars_match(w, &k) {
        return Some(OpType::Less);
    }
    let k = ['>'];
    assert(k@ =~= seq!['>']);
    if chars_match(w, &k) {
        return Some(OpType::More);
    }
    None
}

pub fn try_parse_op(op: &str) -> (r: Option<OpType>)
    ensures
        r == op_of(op@),
{
    op_from_chars(&chars_of(op))
}

pub open spec fn is_digit(c: char) -> bool {
    '0' <= c && c <= '9'
}

pub open spec fn all_digits(d: Seq<char>) -> bool {
    forall|i: int| 0 <= i < d.len() ==> is_digit(#[trigger] d[i])
}

/// The number that a run of decimal digits spells.
pub open spec fn digits_value(d: Seq<char>) -> int
    decreases d.len(),
{
    if d.len() == 0 {
        0
    } else {
        digits_value(d.drop_last()) * 10 + (d.last() as int - '0' as int)
    }
}

/// `w` read as a decimal `i32`: an optional sign, then one or more digits,
/// with a value in range (what `str::parse::<i32>` accepts).
pub open spec fn parse_i32(w: Seq<char>) -> Option<i32> {
    let neg = w.len() > 0 && w[0] == '-';
    let d = if w.len() > 0 && (w[0] == '-' || w[0] == '+') {
        w.skip(1)
    } else {
        w
    };
    let v = if neg {
        -digits_value(d)
    } else {
        digits_value(d)
    };
    if d.len() > 0 && all_digits(d) && i32::MIN <= v <= i32::MAX {
        Some(v as i32)
    } else {
        None
    }
}

pub fn parse_int(w: &Vec<char>) -> (r: Option<i32>)
    ensures
        r == parse_i32(w@),
{
    let n = w.len();
    let neg = n > 0 && w[0] == '-';
    let start: usize = if n > 0 && (w[0] == '-' || w[0] == '+') {
        1
    } else {
        0
    };
    let ghost d = if w@.len() > 0 && (w@[0] == '-' || w@[0] == '+') {
        w@.skip(1)
    } else {
        w@
    };
    assert(d =~= w@.skip(start as int));
    if start == n {
        assert(d.len() == 0);
        return None;
    }
    let mut acc: i64 = 0;
    let mut big = false;
    let mut i = start;
    while i < n
        invariant
            start <= i <= n,
            n == w.len(),
            d =~= w@.skip(start as int),
            d == (if w@.len() > 0 && (w@[0] == '-' || w@[0] == '+') {
                w@.skip(1)
            } else {
                w@
            }),
            forall|j: int| start <= j < i ==> is_digit(#[trigger] w@[j]),
            !big ==> acc == digits_value(w@.subrange(start as int, i as int)),
            !big ==> 0 <= acc <= 2147483648,
            big ==> digits_value(w@.subrange(start as int, i as int)) > 2147483648,
        decreases n - i,
    {
        let c = w[i];
        if !('0' <= c && c <= '9') {
            assert(d[i - start] == w@[i as int]);
            assert(!is_digit(d[i - start]));
            assert(!all_digits(d));
            return None;
        }
        let ghost prev = w@.subrange(start as int, i as int);
        assert(w@.subrange(start as int, i + 1).drop_last() =~= prev);
        if !big {
            let dig = (c as u32 - '0' as u32) as i64;
            acc = acc * 10 + dig;
            if acc > 2147483648 {
                big = true;
            }
        }
        i = i + 1;
    }
    assert(w@.subrange(start as int, n as int) =~= d);
    assert(forall|j: int| 0 <= j < d.len() ==> is_digit(#[trigger] d[j]) ) by {
        assert forall|j: int| 0 <= j < d.len() implies is_digit(#[trigger] d[j]) by {
            assert(d[j] == w@[j + start]);
        }
    }
    if big {
        return None;
    }
    if neg {
        Some((-acc) as i32)
    } else if acc <= 2147483647 {
        Some(acc as i32)
    } else {
        None
    }
}

} // verus!

verus! {

pub open spec fn is_paren(c: char) -> bool {
    c == '(' || c == ')'
}

/// `s` without its leading whitespace.
pub open spec fn skip_ws(s: Seq<char>) -> Seq<char>
    decreases s.len(),
{
    if s.len() > 0 && is_ws(s[0]) {
        skip_ws(s.skip(1))
    } else {
        s
    }
}

/// `s` without its leading parentheses.
pub open spec fn skip_parens(s: Seq<char>) -> Seq<char>
    decreases s.len(),
{
    if s.len() > 0 && is_paren(s[0]) {
        skip_parens(s.skip(1))
    } else {
        s
    }
}

/// The length of the run of non-whitespace characters that starts `s`.
pub open spec fn word_len(s: Seq<char>) -> nat
    decreases s.len(),
{
    if s.len() > 0 && !is_ws(s[0]) {
        1 + word_len(s.skip(1))
    } else {
        0
    }
}

/// `w` with every parenthesis taken out.
pub open spec fn strip_parens(w: Seq<char>) -> Seq<char>
    decreases w.len(),
{
    if w.len() == 0 {
        w
    } else if is_paren(w[0]) {
        strip_parens(w.skip(1))
    } else {
        seq![w[0]] + strip_parens(w.skip(1))
    }
}

/// The position of the first double quote in `s`.
pub open spec fn quote_pos(s: Seq<char>) -> Option<nat>
    decreases s.len(),
{
    if s.len() == 0 {
        None
    } else if s[0] == '"' {
        Some(0)
    } else {
        match quote_pos(s.skip(1)) {
            Some(k) => Some(k + 1),
            None => None,
        }
    }
}

/// The token that a bare word stands for: an operator, a type, an integer or
/// else a text; a word that is empty stands for nothing.
pub open spec fn classify(w: Seq<char>) -> Option<TokenView> {
    if w.len() == 0 {
        None
    } else if op_of(w) is Some {
        Some(TokenView::Op(op_of(w)->0))
    } else if data_type_of(w) is Some {
        Some(TokenView::Word(WordView::Type(data_type_of(w)->0)))
    } else if parse_i32(w) is Some {
        Some(TokenView::Word(WordView::Int(parse_i32(w)->0)))
    } else {
        Some(TokenView::Word(WordView::Str(w)))
    }
}

pub open spec fn prepend(
    tok: Option<TokenView>,
    r: Result<Seq<TokenView>, LexError>,
) -> Result<Seq<TokenView>, LexError> {
    match r {
        Ok(ts) => Ok(
            match tok {
                Some(t) => seq![t] + ts,
                None => ts,
            },
        ),
        Err(e) => Err(e),
    }
}

/// The program that query text stands for. After leading whitespace, and
/// past any parentheses, a double quote opens a text literal that runs to the
/// next double quote; anything else is a word that runs to the next
/// whitespace, whose parentheses are dropped before it is classified.
pub open spec fn lex(s: Seq<char>) -> Result<Seq<TokenView>, LexError>
    decreases s.len(),
{
    let t = skip_ws(s);
    let u = skip_parens(t);
    if t.len() == 0 {
        Ok(seq![])
    } else if u.len() > 0 && u[0] == '"' {
        match quote_pos(u.skip(1)) {
            None => Err(LexError::UnclosedString),
            Some(k) => {
                let rest = u.skip(1).skip(k + 1 as int);
                if rest.len() < s.len() {
                    prepend(Some(TokenView::Word(WordView::Str(u.skip(1).take(k as int)))), lex(rest))
                } else {
                    Ok(seq![])
                }
            },
        }
    } else {
        let n = word_len(u);
        let rest = u.skip(n as int);
        if rest.len() < s.len() {
            prepend(classify(strip_parens(u.take(n as int))), lex(rest))
        } else {
            Ok(seq![])
        }
    }
}

pub open spec fn tokens_view(ts: Seq<Token>) -> Seq<TokenView> {
    ts.map_values(|t: Token| t@)
}

pub open spec fn append_result(
    ts: Seq<TokenView>,
    r: Result<Seq<TokenView>, LexError>,
) -> Result<Seq<TokenView>, LexError> {
    match r {
        Ok(x) => Ok(ts + x),
        Err(e) => Err(e),
    }
}

pub open spec fn opt_view(t: Option<Token>) -> Option<TokenView> {
    match t {
        Some(x) => Some(x@),
        None => None,
    }
}

/// The token that the bare word `w` stands for.
fn classify_word(w: &Vec<char>) -> (r: Option<Token>)
    ensures
        opt_view(r) == classify(w@),
{
    if w.len() == 0 {
        return None;
    }
    if let Some(op) = op_from_chars(w) {
        return Some(Token::Op(op));
    }
    if let Some(t) = data_type_from_chars(w) {
        return Some(Token::Word(WordType::Type(t)));
    }
    if let Some(v) = parse_int(w) {
        return Some(Token::Word(WordType::Int(v)));
    }
    let s = string_from(w, 0, w.len());
    assert(w@.subrange(0, w@.len() as int) =~= w@);
    Some(Token::Word(WordType::Str(s)))
}

/// Turns query text into a program: the tokens of `query` in order, or
/// `UnclosedString` where a double quote opens a text that never closes.
pub fn parse_query(query: &str) -> (r: Result<Vec<Token>, LexError>)
    ensures
        match r {
            Ok(ts) => lex(query@) == Ok::<Seq<TokenView>, LexError>(tokens_view(ts@)),
            Err(e) => lex(query@) == Err::<Seq<TokenView>, LexError>(e),
        },
{
    let v = chars_of(query);
    let n = v.len();
    let mut out: Vec<Token> = Vec::new();
    let mut i: usize = 0;
    assert(v@.skip(0) =~= v@);
    assert(tokens_view(out@) =~= Seq::<TokenView>::empty());
    proof {
        match lex(v@) {
            Ok(x) => assert(Seq::<TokenView>::empty() + x =~= x),
            Err(_) => {},
        }
    }
    while i < n
        invariant
            i <= n == v.len(),
            v@ == query@,
            lex(v@) == append_result(tokens_view(out@), lex(v@.skip(i as int))),
        decreases n - i,
    {
        let i0 = i;
        while i < n && is_whitespace(v[i])
            invariant
                i0 <= i <= n == v.len(),
                skip_ws(v@.skip(i0 as int)) == skip_ws(v@.skip(i as int)),
            decreases n - i,
        {
            assert(v@.skip(i as int).skip(1) =~= v@.skip(i + 1));
            i = i + 1;
        }
        let ghost t = v@.skip(i as int);
        assert(i < n ==> skip_ws(t) == t);
        if i == n {
            assert(t.len() == 0);
            assert(lex(v@.skip(i0 as int)) == Ok::<Seq<TokenView>, LexError>(seq![]));
            assert(tokens_view(out@) + seq![] =~= tokens_view(out@));
            return Ok(out);
        }
        let i1 = i;
        while i < n && (v[i] == '(' || v[i] == ')')
            invariant
                i1 <= i <= n == v.len(),
                skip_parens(v@.skip(i1 as int)) == skip_parens(v@.skip(i as int)),
            decreases n - i,
        {
            assert(v@.skip(i as int).skip(1) =~= v@.skip(i + 1));
            i = i + 1;
        }
        let ghost u = v@.skip(i as int);
        assert(skip_parens(t) == u);
        let tok: Option<Token>;
        if i < n && v[i] == '"' {
            let mut j = i + 1;
            while j < n && v[j] != '"'
                invariant
                    i < j <= n == v.len(),
                    quote_pos(v@.skip(i + 1)) == match quote_pos(v@.skip(j as int)) {
                        Some(k) => Some((k + (j - i - 1)) as nat),
                        None => None,
                    },
                decreases n - j,
            {
                assert(v@.skip(j as int).skip(1) =~= v@.skip(j + 1));
                j = j + 1;
            }
            assert(u.skip(1) =~= v@.skip(i + 1));
            if j == n {
                assert(quote_pos(v@.skip(j as int)) is None);
                return Err(LexError::UnclosedString);
            }
            let s = string_from(&v, i + 1, j);
            assert(u.skip(1).skip(j - i) =~= v@.skip(j + 1));
            assert(u.skip(1).take(j - i - 1) =~= v@.subrange(i + 1, j as int));
            tok = Some(Token::Word(WordType::Str(s)));
            i = j + 1;
        } else {
            let i2 = i;
            let mut j = i;
            while j < n && !is_whitespace(v[j])
                invariant
                    i2 <= j <= n == v.len(),
                    word_len(v@.skip(i2 as int)) == (j - i2) + word_len(v@.skip(j as int)),
                decreases n - j,
            {
                assert(v@.skip(j as int).skip(1) =~= v@.skip(j + 1));
                j = j + 1;
            }
            let mut w: Vec<char> = Vec::new();
            let mut k = i2;
            while k < j
                invariant
                    i2 <= k <= j <= n == v.len(),
                    strip_parens(v@.subrange(i2 as int, j as int)) == w@ + strip_parens(
                        v@.subrange(k as int, j as int),
                    ),
                decreases j - k,
            {
                assert(v@.subrange(k as int, j as int).skip(1) =~= v@.subrange(k + 1, j as int));
                let ghost w0 = w@;
                if v[k] != '(' && v[k] != ')' {
                    w.push(v[k]);
                }
                proof {
                    let r = strip_parens(v@.subrange(k + 1, j as int));
                    if !is_paren(v@[k as int]) {
                        assert(w@ + r =~= w0 + (seq![v@[k as int]] + r));
                    }
                }
                k = k + 1;
            }
            assert(v@.subrange(j as int, j as int) =~= Seq::<char>::empty());
            assert(w@ + Seq::<char>::empty() =~= w@);
            assert(u.take(j - i2) =~= v@.subrange(i2 as int, j as int));
            assert(u.skip(j - i2) =~= v@.skip(j as int));
            assert(j > i2 || i1 < i2);
            tok = classify_word(&w);
            i = j;
        }
        proof {
            assert(lex(v@.skip(i0 as int)) == prepend(opt_view(tok), lex(v@.skip(i as int))));
        }
        let ghost prev = out@;
        match tok {
            Some(x) => {
                out.push(x);
                assert(tokens_view(out@) =~= tokens_view(prev) + seq![x@]);
            },
            None => {},
        }
        proof {
            match lex(v@.skip(i as int)) {
                Ok(rest) => {
                    if tok is Some {
                        assert(tokens_view(out@) + rest =~= tokens_view(prev) + (seq![tok->0@] + rest));
                    } else {
                        assert(tokens_view(out@) =~= tokens_view(prev));
                    }
                },
                Err(_) => {},
            }
        }
    }
    assert(lex(v@.skip(n as int)) == Ok::<Seq<TokenView>, LexError>(seq![]));
    assert(tokens_view(out@) + seq![] =~= tokens_view(out@));
    Ok(out)
}

} // verus!

verus! {

proof fn lemma_skip_ws_suffix(s: Seq<char>)
    ensures
        skip_ws(s).len() <= s.len(),
        skip_ws(s) == s.skip(s.len() - skip_ws(s).len()),
        skip_ws(s).len() > 0 ==> !is_ws(skip_ws(s)[0]),
    decreases s.len(),
{
    if s.len() > 0 && is_ws(s[0]) {
        lemma_skip_ws_suffix(s.skip(1));
        assert(s.skip(1).skip(s.len() - 1 - skip_ws(s).len()) =~= s.skip(s.len() - skip_ws(s).len()));
    } else {
        assert(s.skip(0) =~= s);
    }
}

proof fn lemma_skip_parens_suffix(s: Seq<char>)
    ensures
        skip_parens(s).len() <= s.len(),
        skip_parens(s) == s.skip(s.len() - skip_parens(s).len()),
        skip_parens(s).len() > 0 ==> !is_paren(skip_parens(s)[0]),
        s.len() > 0 && !is_paren(s[0]) ==> skip_parens(s) == s,
    decreases s.len(),
{
    if s.len() > 0 && is_paren(s[0]) {
        lemma_skip_parens_suffix(s.skip(1));
        assert(s.skip(1).skip(s.len() - 1 - skip_parens(s).len()) =~= s.skip(
            s.len() - skip_parens(s).len(),
        ));
    } else {
        assert(s.skip(0) =~= s);
    }
}

proof fn lemma_quote_pos_bound(s: Seq<char>)
    ensures
        quote_pos(s) is Some ==> quote_pos(s)->0 < s.len(),
    decreases s.len(),
{
    if s.len() > 0 && s[0] != '"' {
        lemma_quote_pos_bound(s.skip(1));
    }
}

proof fn lemma_word_len_bound(s: Seq<char>)
    ensures
        word_len(s) <= s.len(),
        s.len() > 0 && !is_ws(s[0]) ==> word_len(s) > 0,
    decreases s.len(),
{
    if s.len() > 0 && !is_ws(s[0]) {
        lemma_word_len_bound(s.skip(1));
    }
}

/// Whatever `s` holds past its leading whitespace, one step of `lex` uses up
/// at least one character.
proof fn lemma_lex_progress(s: Seq<char>)
    ensures
        ({
            let t = skip_ws(s);
            let u = skip_parens(t);
            t.len() > 0 ==> if u.len() > 0 && u[0] == '"' {
                quote_pos(u.skip(1)) is Some ==> u.skip(1).skip(quote_pos(u.skip(1))->0 + 1 as int).len()
                    < s.len()
            } else {
                u.skip(word_len(u) as int).len() < s.len()
            }
        }),
{
    let t = skip_ws(s);
    let u = skip_parens(t);
    lemma_skip_ws_suffix(s);
    lemma_skip_parens_suffix(t);
    lemma_quote_pos_bound(u.skip(1));
    lemma_word_len_bound(u);
}

/// Leading whitespace does not change what text lexes to.
proof fn lemma_lex_ws(c: char, x: Seq<char>)
    requires
        is_ws(c),
    ensures
        lex(seq![c] + x) == lex(x),
{
    let s = seq![c] + x;
    assert(s.skip(1) =~= x);
    assert(skip_ws(s) == skip_ws(x));
    lemma_lex_progress(s);
    lemma_lex_progress(x);
}

} // verus!

verus! {

pub open spec fn digit_char(d: nat) -> char {
    seq!['0', '1', '2', '3', '4', '5', '6', '7', '8', '9'][d as int]
}

/// The decimal digits of `n`.
pub open spec fn decimal(n: nat) -> Seq<char>
    decreases n,
{
    if n < 10 {
        seq![digit_char(n)]
    } else {
        decimal(n / 10).push(digit_char(n % 10))
    }
}

/// `v` written in decimal, with a minus sign when negative.
pub open spec fn int_text(v: i32) -> Seq<char> {
    if v < 0 {
        seq!['-'] + decimal((-(v as int)) as nat)
    } else {
        decimal(v as nat)
    }
}

pub open spec fn quote_free(s: Seq<char>) -> bool {
    forall|i: int| 0 <= i < s.len() ==> s[i] != '"'
}

pub open spec fn op_text(op: OpType) -> Seq<char> {
    match op {
        OpType::Select => seq!['s', 'e', 'l', 'e', 'c', 't'],
        OpType::Insert => seq!['i', 'n', 's', 'e', 'r', 't'],
        OpType::Delete => seq!['d', 'e', 'l', 'e', 't', 'e'],
        OpType::FilterAnd => seq!['f', 'i', 'l', 't', 'e', 'r', '-', 'a', 'n', 'd'],
        OpType::FilterOr => seq!['f', 'i', 'l', 't', 'e', 'r', '-', 'o', 'r'],
        OpType::Create => seq!['c', 'r', 'e', 'a', 't', 'e'],
        OpType::Drop => seq!['d', 'r', 'o', 'p'],
        OpType::Equal => seq!['=', '='],
        OpType::NotEqual => seq!['!', '='],
        OpType::Less => seq!['<'],
        OpType::More => seq!['>'],
    }
}

/// The text of a token: a keyword, a number, a type name, and a text in
/// double quotes (bare where it holds a double quote itself).
pub open spec fn token_text(t: TokenView) -> Seq<char> {
    match t {
        TokenView::Op(op) => op_text(op),
        TokenView::Word(WordView::Int(v)) => int_text(v),
        TokenView::Word(WordView::Type(t)) => data_type_name(t),
        TokenView::Word(WordView::Str(s)) => if quote_free(s) {
            seq!['"'] + s + seq!['"']
        } else {
            s
        },
    }
}

/// A program written back as query text, one token after another.
pub open spec fn render(p: Seq<TokenView>) -> Seq<char>
    decreases p.len(),
{
    if p.len() == 0 {
        seq![]
    } else {
        token_text(p[0]) + seq![' '] + render(p.skip(1))
    }
}

/// A word that lexes to itself as a text.
pub open spec fn bare_word(s: Seq<char>) -> bool {
    &&& s.len() > 0
    &&& forall|i: int| 0 <= i < s.len() ==> !is_ws(#[trigger] s[i]) && !is_paren(s[i])
    &&& s[0] != '"'
    &&& classify(s) == Some(TokenView::Word(WordView::Str(s)))
}

/// A token that the lexer can give: a text that holds a double quote is a
/// bare word.
pub open spec fn lexable(t: TokenView) -> bool {
    match t {
        TokenView::Word(WordView::Str(s)) => quote_free(s) || bare_word(s),
        _ => true,
    }
}

proof fn lemma_decimal(n: nat)
    ensures
        decimal(n).len() > 0,
        all_digits(decimal(n)),
        digits_value(decimal(n)) == n,
    decreases n,
{
    let ds = seq!['0', '1', '2', '3', '4', '5', '6', '7', '8', '9'];
    assert(forall|d: int| 0 <= d < 10 ==> is_digit(#[trigger] ds[d]) && ds[d] as int - '0' as int == d);
    if n >= 10 {
        lemma_decimal(n / 10);
        let w = decimal(n);
        assert(w.drop_last() == decimal(n / 10));
        assert(forall|i: int| 0 <= i < w.len() - 1 ==> w[i] == decimal(n / 10)[i]);
        assert(w.last() == ds[(n % 10) as int]);
        assert((n / 10) * 10 + n % 10 == n) by (nonlinear_arith);
        assert(digits_value(w) == digits_value(decimal(n / 10)) * 10 + (w.last() as int - '0' as int));
    } else {
        assert(seq![digit_char(n)].drop_last() =~= Seq::<char>::empty());
        assert(digit_char(n) == ds[n as int]);
        assert(digits_value(decimal(n)) == digits_value(Seq::<char>::empty()) * 10 + (digit_char(n) as int
            - '0' as int));
    }
}

proof fn lemma_int_text(v: i32)
    ensures
        int_text(v).len() > 0,
        parse_i32(int_text(v)) == Some(v),
        is_digit(int_text(v)[0]) || int_text(v)[0] == '-',
        forall|i: int| 0 <= i < int_text(v).len() ==> !is_ws(#[trigger] int_text(v)[i]) && !is_paren(int_text(v)[i])
            && int_text(v)[i] != '"',
{
    let w = int_text(v);
    if v < 0 {
        let n = (-(v as int)) as nat;
        lemma_decimal(n);
        assert(w.skip(1) =~= decimal(n));
        assert(forall|i: int| 1 <= i < w.len() ==> w[i] == decimal(n)[i - 1]);
    } else {
        lemma_decimal(v as nat);
    }
}

proof fn lemma_word_len_prefix(w: Seq<char>, rest: Seq<char>)
    requires
        forall|i: int| 0 <= i < w.len() ==> !is_ws(#[trigger] w[i]),
        rest.len() > 0,
        is_ws(rest[0]),
    ensures
        word_len(w + rest) == w.len(),
    decreases w.len(),
{
    if w.len() == 0 {
        assert(w + rest =~= rest);
    } else {
        assert((w + rest).skip(1) =~= w.skip(1) + rest);
        lemma_word_len_prefix(w.skip(1), rest);
    }
}

proof fn lemma_strip_parens_id(w: Seq<char>)
    requires
        forall|i: int| 0 <= i < w.len() ==> !is_paren(#[trigger] w[i]),
    ensures
        strip_parens(w) == w,
    decreases w.len(),
{
    if w.len() > 0 {
        lemma_strip_parens_id(w.skip(1));
        assert(seq![w[0]] + w.skip(1) =~= w);
    }
}

proof fn lemma_quote_pos_after(s: Seq<char>, rest: Seq<char>)
    requires
        quote_free(s),
    ensures
        quote_pos(s + seq!['"'] + rest) == Some(s.len()),
    decreases s.len(),
{
    let x = s + seq!['"'] + rest;
    if s.len() == 0 {
        assert(x[0] == '"');
    } else {
        assert(x[0] == s[0]);
        assert(x.skip(1) =~= s.skip(1) + seq!['"'] + rest);
        lemma_quote_pos_after(s.skip(1), rest);
    }
}

/// A word `w` followed by a space lexes to the token it classifies as.
proof fn lemma_lex_plain(w: Seq<char>, t: TokenView, rest: Seq<char>)
    requires
        w.len() > 0,
        forall|i: int| 0 <= i < w.len() ==> !is_ws(#[trigger] w[i]) && !is_paren(w[i]),
        w[0] != '"',
        classify(w) == Some(t),
    ensures
        lex(w + seq![' '] + rest) == prepend(Some(t), lex(rest)),
{
    let s = w + seq![' '] + rest;
    assert(s[0] == w[0]);
    assert(!is_ws(w[0]) && !is_paren(w[0]));
    assert(skip_ws(s) == s);
    lemma_skip_parens_suffix(s);
    assert(skip_parens(s) == s);
    assert(s =~= w + (seq![' '] + rest));
    lemma_word_len_prefix(w, seq![' '] + rest);
    assert(s.take(w.len() as int) =~= w);
    lemma_strip_parens_id(w);
    assert(s.skip(w.len() as int) =~= seq![' '] + rest);
    lemma_lex_progress(s);
    lemma_lex_ws(' ', rest);
}

proof fn lemma_lex_token(t: TokenView, rest: Seq<char>)
    requires
        lexable(t),
    ensures
        lex(token_text(t) + seq![' '] + rest) == prepend(Some(t), lex(rest)),
{
    match t {
        TokenView::Word(WordView::Str(s)) => {
            if quote_free(s) {
                let x = seq!['"'] + s + seq!['"'] + seq![' '] + rest;
                assert(token_text(t) + seq![' '] + rest =~= x);
                assert(skip_ws(x) == x);
                lemma_skip_parens_suffix(x);
                assert(x.skip(1) =~= s + seq!['"'] + (seq![' '] + rest));
                lemma_quote_pos_after(s, seq![' '] + rest);
                assert(x.skip(1).take(s.len() as int) =~= s);
                assert(x.skip(1).skip(s.len() + 1 as int) =~= seq![' '] + rest);
                lemma_lex_progress(x);
                lemma_lex_ws(' ', rest);
            } else {
                lemma_lex_plain(s, t, rest);
            }
        },
        TokenView::Word(WordView::Int(v)) => {
            lemma_int_text(v);
            let w = int_text(v);
            assert(op_of(w) is None);
            assert(data_type_of(w) is None);
            lemma_lex_plain(w, t, rest);
        },
        TokenView::Word(WordView::Type(d)) => {
            let w = data_type_name(d);
            assert(op_of(w) is None);
            lemma_lex_plain(w, t, rest);
        },
        TokenView::Op(op) => {
            let w = op_text(op);
            assert(op_of(w) == Some(op));
            lemma_lex_plain(w, t, rest);
        },
    }
}

} // verus!

verus! {

proof fn lemma_quote_pos_free(x: Seq<char>)
    ensures
        quote_pos(x) is Some ==> quote_free(x.take(quote_pos(x)->0 as int)),
    decreases x.len(),
{
    lemma_quote_pos_bound(x);
    if x.len() > 0 && x[0] != '"' {
        lemma_quote_pos_free(x.skip(1));
        lemma_quote_pos_bound(x.skip(1));
        if quote_pos(x) is Some {
            let k = quote_pos(x)->0;
            assert forall|i: int| 0 <= i < k implies #[trigger] x.take(k as int)[i] != '"' by {
                if i > 0 {
                    assert(x.take(k as int)[i] == x.skip(1).take(k - 1)[i - 1]);
                }
            }
        }
    }
}

proof fn lemma_word_chars(u: Seq<char>)
    ensures
        forall|j: int| 0 <= j < word_len(u) ==> !is_ws(#[trigger] u[j]),
    decreases u.len(),
{
    lemma_word_len_bound(u);
    if u.len() > 0 && !is_ws(u[0]) {
        lemma_word_chars(u.skip(1));
        assert forall|j: int| 0 <= j < word_len(u) implies !is_ws(#[trigger] u[j]) by {
            if j > 0 {
                assert(u[j] == u.skip(1)[j - 1]);
            }
        }
    }
}

proof fn lemma_strip_parens_chars(x: Seq<char>)
    requires
        forall|j: int| 0 <= j < x.len() ==> !is_ws(#[trigger] x[j]),
    ensures
        forall|i: int|
            0 <= i < strip_parens(x).len() ==> !is_ws(#[trigger] strip_parens(x)[i]) && !is_paren(
                strip_parens(x)[i],
            ),
        x.len() > 0 && !is_paren(x[0]) ==> strip_parens(x).len() > 0 && strip_parens(x)[0] == x[0],
    decreases x.len(),
{
    if x.len() > 0 {
        assert(forall|j: int| 0 <= j < x.skip(1).len() ==> x.skip(1)[j] == x[j + 1]);
        lemma_strip_parens_chars(x.skip(1));
        let r = strip_parens(x.skip(1));
        if !is_paren(x[0]) {
            assert forall|i: int| 0 <= i < strip_parens(x).len() implies !is_ws(
                #[trigger] strip_parens(x)[i],
            ) && !is_paren(strip_parens(x)[i]) by {
                if i > 0 {
                    assert(strip_parens(x)[i] == r[i - 1]);
                }
            }
        }
    }
}

proof fn lemma_lex_lexable(s: Seq<char>)
    requires
        lex(s) is Ok,
    ensures
        forall|i: int| 0 <= i < lex(s)->Ok_0.len() ==> lexable(#[trigger] lex(s)->Ok_0[i]),
    decreases s.len(),
{
    let t = skip_ws(s);
    let u = skip_parens(t);
    lemma_lex_progress(s);
    if t.len() > 0 {
        lemma_skip_parens_suffix(t);
        if u.len() > 0 && u[0] == '"' {
            let k = quote_pos(u.skip(1))->0;
            let rest = u.skip(1).skip(k + 1 as int);
            lemma_lex_lexable(rest);
            lemma_quote_pos_free(u.skip(1));
            let tok = TokenView::Word(WordView::Str(u.skip(1).take(k as int)));
            assert(lexable(tok));
            assert forall|i: int| 0 <= i < lex(s)->Ok_0.len() implies lexable(#[trigger] lex(s)->Ok_0[i]) by {
                if i > 0 {
                    assert(lex(s)->Ok_0[i] == lex(rest)->Ok_0[i - 1]);
                }
            }
        } else {
            let n = word_len(u);
            lemma_word_len_bound(u);
            let rest = u.skip(n as int);
            lemma_lex_lexable(rest);
            lemma_word_chars(u);
            let x = u.take(n as int);
            assert forall|j: int| 0 <= j < x.len() implies !is_ws(#[trigger] x[j]) by {
                assert(x[j] == u[j]);
            }
            lemma_strip_parens_chars(x);
            let w = strip_parens(x);
            if classify(w) is Some {
                let tok = classify(w)->0;
                lemma_word_len_bound(u);
                if tok is Word && tok->Word_0 is Str {
                    assert(bare_word(w));
                }
                assert(lexable(tok));
                assert forall|i: int| 0 <= i < lex(s)->Ok_0.len() implies lexable(
                    #[trigger] lex(s)->Ok_0[i],
                ) by {
                    if i > 0 {
                        assert(lex(s)->Ok_0[i] == lex(rest)->Ok_0[i - 1]);
                    }
                }
            }
        }
    }
}

proof fn lemma_render_lexes(p: Seq<TokenView>)
    requires
        forall|i: int| 0 <= i < p.len() ==> lexable(#[trigger] p[i]),
    ensures
        lex(render(p)) == Ok::<Seq<TokenView>, LexError>(p),
    decreases p.len(),
{
    if p.len() == 0 {
        assert(render(p) == Seq::<char>::empty());
        assert(skip_ws(Seq::<char>::empty()) == Seq::<char>::empty());
        assert(p =~= Seq::<TokenView>::empty());
    } else {
        assert(forall|i: int| 0 <= i < p.skip(1).len() ==> p.skip(1)[i] == p[i + 1]);
        lemma_render_lexes(p.skip(1));
        assert(lexable(p[0]));
        lemma_lex_token(p[0], render(p.skip(1)));
        assert(seq![p[0]] + p.skip(1) =~= p);
    }
}

/// Every program that the lexer gives, written back as text by `render`,
/// lexes to the same program.
pub proof fn lemma_parse_render(q: Seq<char>)
    requires
        lex(q) is Ok,
    ensures
        lex(render(lex(q)->Ok_0)) == lex(q),
{
    lemma_lex_lexable(q);
    lemma_render_lexes(lex(q)->Ok_0);
}

} // verus!
