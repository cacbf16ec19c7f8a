//! The savefile format: statements `key = value`, where a value is an
//! identifier, a string, an integer, a decimal or a block in braces. A block
//! holds either statements or bare values. The lexer turns text into tokens
//! that carry their line and column; the parser builds the statement tree.

use vstd::prelude::*;
use crate::text::{
    all_digits, chars_of, digits_value, is_digit, is_whitespace, is_ws, lemma_digits_value_monotone,
    push_chars, push_str, slice_chars, string_from_chars, string_of,
};


verus! {

// ---------------------------------------------------------------------------
// The parsed tree
// ---------------------------------------------------------------------------

/// A decimal literal as written: its sign and its digits before and after the
/// point, both non-empty.
#[derive(Debug, PartialEq)]
pub struct Decimal {
    negative: bool,
    whole: String,
    fraction: String,
}

/// A parsed savefile: its top-level statements, in order.
#[derive(Debug, PartialEq)]
pub struct Document {
    pub statements: Vec<Statement>,
}

/// `key = value`, or a bare key with no value.
#[derive(Debug, PartialEq)]
pub struct Statement {
    pub key: String,
    pub value: Option<Value>,
}

#[derive(Debug, PartialEq)]
pub enum Value {
    Identifier(String),
    String(String),
    Integer(i64),
    Decimal(Decimal),
    Block(Block),
}

#[derive(Debug, PartialEq)]
pub enum Block {
    Statements(Vec<Statement>),
    Values(Vec<Value>),
}

/// Where parsing stopped and why.
#[derive(Debug, PartialEq, Eq)]
pub struct ParseError {
    line: usize,
    column: usize,
    message: String,
}

// ---------------------------------------------------------------------------
// The mathematical model of the tree
// ---------------------------------------------------------------------------

pub struct SpecDecimal {
    pub negative: bool,
    pub whole: Seq<char>,
    pub fraction: Seq<char>,
}

pub enum SpecValue {
    Identifier(Seq<char>),
    Str(Seq<char>),
    Integer(i64),
    Decimal(SpecDecimal),
    Block(SpecBlock),
}

pub enum SpecBlock {
    Statements(Seq<SpecStatement>),
    Values(Seq<SpecValue>),
}

pub struct SpecStatement {
    pub key: Seq<char>,
    pub value: Option<SpecValue>,
}

pub struct SpecParseError {
    pub line: int,
    pub column: int,
    pub message: Seq<char>,
}

impl Decimal {
    #[verifier::type_invariant]
    closed spec fn digits_only(&self) -> bool {
        &&& self.whole@.len() > 0
        &&& self.fraction@.len() > 0
        &&& all_digits(self.whole@)
        &&& all_digits(self.fraction@)
    }
}

impl View for Decimal {
    type V = SpecDecimal;

    closed spec fn view(&self) -> SpecDecimal {
        SpecDecimal { negative: self.negative, whole: self.whole@, fraction: self.fraction@ }
    }
}

impl View for ParseError {
    type V = SpecParseError;

    closed spec fn view(&self) -> SpecParseError {
        SpecParseError { line: self.line as int, column: self.column as int, message: self.message@ }
    }
}

pub open spec fn value_view(v: Value) -> SpecValue
    decreases v, 3int,
{
    match v {
        Value::Identifier(s) => SpecValue::Identifier(s@),
        Value::String(s) => SpecValue::Str(s@),
        Value::Integer(i) => SpecValue::Integer(i),
        Value::Decimal(d) => SpecValue::Decimal(d@),
        Value::Block(b) => SpecValue::Block(block_view(b)),
    }
}

pub open spec fn block_view(b: Block) -> SpecBlock
    decreases b, 2int,
{
    match b {
        Block::Statements(s) => SpecBlock::Statements(statements_view(s@)),
        Block::Values(v) => SpecBlock::Values(values_view(v@)),
    }
}

pub open spec fn statements_view(s: Seq<Statement>) -> Seq<SpecStatement>
    decreases s, 0int,
{
    if s.len() == 0 {
        seq![]
    } else {
        statements_view(s.drop_last()).push(statement_view(s.last()))
    }
}

pub open spec fn values_view(s: Seq<Value>) -> Seq<SpecValue>
    decreases s, 0int,
{
    if s.len() == 0 {
        seq![]
    } else {
        values_view(s.drop_last()).push(value_view(s.last()))
    }
}

pub open spec fn statement_view(s: Statement) -> SpecStatement
    decreases s, 4int,
{
    SpecStatement {
        key: s.key@,
        value: match s.value {
            Some(v) => Some(value_view(v)),
            None => None,
        },
    }
}

impl View for Value {
    type V = SpecValue;

    open spec fn view(&self) -> SpecValue {
        value_view(*self)
    }
}

impl View for Block {
    type V = SpecBlock;

    open spec fn view(&self) -> SpecBlock {
        block_view(*self)
    }
}

impl View for Statement {
    type V = SpecStatement;

    open spec fn view(&self) -> SpecStatement {
        statement_view(*self)
    }
}

impl View for Document {
    type V = Seq<SpecStatement>;

    open spec fn view(&self) -> Seq<SpecStatement> {
        statements_view(self.statements@)
    }
}

/// The first three digits after the point, padded with `0`.
pub open spec fn first_three_decimals(f: Seq<char>) -> Seq<char> {
    if f.len() >= 3 {
        f.take(3)
    } else {
        f + Seq::new((3 - f.len()) as nat, |i: int| '0')
    }
}

/// A decimal's magnitude in thousandths, rounded half away from zero.
pub open spec fn decimal_milli_magnitude(d: SpecDecimal) -> int {
    digits_value(d.whole) * 1000 + digits_value(first_three_decimals(d.fraction)) + if d.fraction.len()
        > 3 && d.fraction[3] >= '5' {
        1int
    } else {
        0int
    }
}

/// A decimal in thousandths, rounded half away from zero. The rounding
/// follows the written digits exactly, not a floating-point product: a
/// decimal whose digits lie just below a half thousandth rounds down even
/// where an `f64` would have rounded it up.
pub open spec fn decimal_thousandths(d: SpecDecimal) -> int {
    if d.negative {
        -decimal_milli_magnitude(d)
    } else {
        decimal_milli_magnitude(d)
    }
}

/// The literal text of a decimal: its sign when negative, its digits, the point.
pub open spec fn decimal_literal_text(d: SpecDecimal) -> Seq<char> {
    (if d.negative {
        seq!['-']
    } else {
        Seq::<char>::empty()
    }) + d.whole + seq!['.'] + d.fraction
}

impl Decimal {
    /// The decimal as its literal text, without a `+`.
    pub fn to_text(&self) -> (r: String)
        ensures
            r@ == decimal_literal_text(self@),
    {
        let mut out: Vec<char> = Vec::new();
        if self.negative {
            out.push('-');
        }
        push_str(&mut out, self.whole.as_str());
        out.push('.');
        push_str(&mut out, self.fraction.as_str());
        string_of(&out)
    }

    /// The value in thousandths, rounded half away from zero from the written
    /// digits (not through an `f64`), when it fits in `i32`.
    pub fn to_thousandths(&self) -> (r: Option<i32>)
        ensures
            match r {
                Some(x) => x == decimal_thousandths(self@),
                None => !(i32::MIN <= decimal_thousandths(self@) <= i32::MAX),
            },
    {
        proof {
            use_type_invariant(self);
        }
        let whole = chars_of(self.whole.as_str());
        let fraction = chars_of(self.fraction.as_str());
        let mut acc: u64 = 0;
        let mut i: usize = 0;
        assert(whole@.take(0) =~= Seq::<char>::empty());
        assert(digits_value(Seq::<char>::empty()) == 0);
        while i < whole.len()
            invariant
                i <= whole@.len(),
                all_digits(whole@),
                whole@ == self.whole@,
                acc == digits_value(whole@.take(i as int)),
                acc <= 3_000_000,
            decreases whole.len() - i,
        {
            assert(is_digit(whole@[i as int]));
            let digit = (whole[i] as u32 - '0' as u32) as u64;
            assert(digit <= 9 && digit == crate::text::digit_value(whole@[i as int]));
            assert(whole@.take(i + 1).drop_last() == whole@.take(i as int));
            assert(whole@.take(i + 1).last() == whole@[i as int]);
            acc = acc * 10 + digit;
            i += 1;
            assert(acc == digits_value(whole@.take(i as int)));
            if acc > 3_000_000 {
                proof {
                    lemma_digits_value_monotone(whole@, i as int);
                    assert(self@.whole == whole@);
                    assert(digits_value(self@.whole) >= 3_000_001);
                    assert(decimal_milli_magnitude(self@) >= 3_000_001 * 1000);
                }
                return None;
            }
        }
        assert(whole@.take(whole@.len() as int) == whole@);
        let mut f3: u64 = 0;
        let mut j: usize = 0;
        let ghost t = first_three_decimals(fraction@);
        assert(t.len() == 3);
        assert(t.take(0) =~= Seq::<char>::empty());
        while j < 3
            invariant
                j <= 3,
                t == first_three_decimals(fraction@),
                t.len() == 3,
                all_digits(fraction@),
                f3 == digits_value(t.take(j as int)),
                f3 < if j == 0 {
                    1u64
                } else if j == 1 {
                    10u64
                } else if j == 2 {
                    100u64
                } else {
                    1000u64
                },
            decreases 3 - j,
        {
            let c = if j < fraction.len() {
                fraction[j]
            } else {
                '0'
            };
            assert(c == t[j as int]);
            assert(is_digit(c)) by {
                if j < fraction.len() {
                    assert(is_digit(fraction@[j as int]));
                }
            }
            let digit = (c as u32 - '0' as u32) as u64;
            assert(digit <= 9 && digit == crate::text::digit_value(c));
            assert(t.take(j + 1).drop_last() == t.take(j as int));
            assert(t.take(j + 1).last() == c);
            f3 = f3 * 10 + digit;
            j += 1;
        }
        assert(t.take(3) == t);
        let round: u64 = if fraction.len() > 3 && fraction[3] >= '5' {
            1
        } else {
            0
        };
        let magnitude: u64 = acc * 1000 + f3 + round;
        if self.negative {
            if magnitude <= 2147483648 {
                Some((0 - (magnitude as i64)) as i32)
            } else {
                None
            }
        } else {
            if magnitude <= 2147483647 {
                Some(magnitude as i32)
            } else {
                None
            }
        }
    }
}

impl Clone for Decimal {
    fn clone(&self) -> (r: Self)
        ensures
            r@ == self@,
    {
        proof {
            use_type_invariant(self);
        }
        Decimal { negative: self.negative, whole: self.whole.clone(), fraction: self.fraction.clone() }
    }
}

impl Clone for Value {
    fn clone(&self) -> (r: Self)
        ensures
            r@ == self@,
        decreases self,
    {
        match self {
            Value::Identifier(s) => Value::Identifier(s.clone()),
            Value::String(s) => Value::String(s.clone()),
            Value::Integer(i) => Value::Integer(*i),
            Value::Decimal(d) => Value::Decimal(d.clone()),
            Value::Block(b) => Value::Block(b.clone()),
        }
    }
}

impl Clone for Block {
    fn clone(&self) -> (r: Self)
        ensures
            r@ == self@,
        decreases self,
    {
        match self {
            Block::Statements(v) => Block::Statements(clone_statements(v)),
            Block::Values(v) => Block::Values(clone_values(v)),
        }
    }
}

impl Clone for Statement {
    fn clone(&self) -> (r: Self)
        ensures
            r@ == self@,
        decreases self,
    {
        let value = match &self.value {
            Some(v) => Some(v.clone()),
            None => None,
        };
        Statement { key: self.key.clone(), value }
    }
}

/// A copy of a list of statements.
pub fn clone_statements(v: &Vec<Statement>) -> (r: Vec<Statement>)
    ensures
        statements_view(r@) == statements_view(v@),
    decreases v,
{
    let mut r: Vec<Statement> = Vec::new();
    let mut i: usize = 0;
    while i < v.len()
        invariant
            i <= v.len(),
            statements_view(r@) == statements_view(v@.take(i as int)),
        decreases v.len() - i,
    {
        let ghost before = r@;
        let s = v[i].clone();
        r.push(s);
        assert(v@.take(i + 1).drop_last() == v@.take(i as int));
        assert(r@.drop_last() == before);
        i += 1;
    }
    assert(v@.take(v.len() as int) == v@);
    r
}

/// A copy of a list of values.
pub fn clone_values(v: &Vec<Value>) -> (r: Vec<Value>)
    ensures
        values_view(r@) == values_view(v@),
    decreases v,
{
    let mut r: Vec<Value> = Vec::new();
    let mut i: usize = 0;
    while i < v.len()
        invariant
            i <= v.len(),
            values_view(r@) == values_view(v@.take(i as int)),
        decreases v.len() - i,
    {
        let ghost before = r@;
        let x = v[i].clone();
        r.push(x);
        assert(v@.take(i + 1).drop_last() == v@.take(i as int));
        assert(r@.drop_last() == before);
        i += 1;
    }
    assert(v@.take(v.len() as int) == v@);
    r
}

/// The view of statements has one entry per statement, each its view.
pub proof fn lemma_statements_view_len(s: Seq<Statement>)
    ensures
        statements_view(s).len() == s.len(),
        forall|i: int| 0 <= i < s.len() ==> #[trigger] statements_view(s)[i] == statement_view(s[i]),
    decreases s.len(),
{
    if s.len() > 0 {
        lemma_statements_view_len(s.drop_last());
    }
}

/// The view of values has one entry per value, each its view.
pub proof fn lemma_values_view_len(s: Seq<Value>)
    ensures
        values_view(s).len() == s.len(),
        forall|i: int| 0 <= i < s.len() ==> #[trigger] values_view(s)[i] == value_view(s[i]),
    decreases s.len(),
{
    if s.len() > 0 {
        lemma_values_view_len(s.drop_last());
    }
}


// ---------------------------------------------------------------------------
// Tokens and what the lexer makes of the text
// ---------------------------------------------------------------------------

#[derive(Debug, PartialEq)]
pub enum TokenKind {
    Identifier(String),
    String(String),
    Integer(i64),
    Decimal(Decimal),
    Equals,
    LeftBrace,
    RightBrace,
    Eof,
}

/// A token and the line and column (both from 1) of its first character.
#[derive(Debug, PartialEq)]
pub struct Token {
    pub kind: TokenKind,
    pub line: usize,
    pub column: usize,
}

pub enum SpecTokenKind {
    Identifier(Seq<char>),
    Str(Seq<char>),
    Integer(i64),
    Decimal(SpecDecimal),
    Equals,
    LeftBrace,
    RightBrace,
    Eof,
}

pub struct SpecToken {
    pub kind: SpecTokenKind,
    pub line: int,
    pub column: int,
}

impl View for TokenKind {
    type V = SpecTokenKind;

    open spec fn view(&self) -> SpecTokenKind {
        match self {
            TokenKind::Identifier(s) => SpecTokenKind::Identifier(s@),
            TokenKind::String(s) => SpecTokenKind::Str(s@),
            TokenKind::Integer(i) => SpecTokenKind::Integer(*i),
            TokenKind::Decimal(d) => SpecTokenKind::Decimal(d@),
            TokenKind::Equals => SpecTokenKind::Equals,
            TokenKind::LeftBrace => SpecTokenKind::LeftBrace,
            TokenKind::RightBrace => SpecTokenKind::RightBrace,
            TokenKind::Eof => SpecTokenKind::Eof,
        }
    }
}

impl View for Token {
    type V = SpecToken;

    open spec fn view(&self) -> SpecToken {
        SpecToken { kind: self.kind@, line: self.line as int, column: self.column as int }
    }
}

pub open spec fn tokens_view(t: Seq<Token>) -> Seq<SpecToken> {
    t.map_values(|x: Token| x@)
}

pub open spec fn error_at(line: int, column: int, message: Seq<char>) -> SpecParseError {
    SpecParseError { line, column, message }
}

/// The line (from 1) of position `p` of `s`: one more than the newlines before it.
pub open spec fn line_of(s: Seq<char>, p: int) -> int
    decreases p,
{
    if p <= 0 {
        1
    } else {
        line_of(s, p - 1) + if s[p - 1] == '\n' {
            1int
        } else {
            0int
        }
    }
}

/// The column (from 1) of position `p` of `s`: one more than the characters
/// between the last newline before it and it.
pub open spec fn column_of(s: Seq<char>, p: int) -> int
    decreases p,
{
    if p <= 0 {
        1
    } else if s[p - 1] == '\n' {
        1
    } else {
        column_of(s, p - 1) + 1
    }
}

/// The characters that end a word: whitespace, `=`, braces and `"`.
pub open spec fn is_delimiter(c: char) -> bool {
    is_ws(c) || c == '=' || c == '{' || c == '}' || c == '"'
}

/// The first position from `p` on that is not whitespace.
pub open spec fn skip_ws(s: Seq<char>, p: int) -> int
    decreases s.len() - p,
{
    if 0 <= p < s.len() && is_ws(s[p]) {
        skip_ws(s, p + 1)
    } else {
        p
    }
}

/// The first position from `p` on that holds `"`, or the length of `s` if none does.
pub open spec fn closing_quote(s: Seq<char>, p: int) -> int
    decreases s.len() - p,
{
    if p < 0 || p >= s.len() {
        s.len() as int
    } else if s[p] == '"' {
        p
    } else {
        closing_quote(s, p + 1)
    }
}

/// The first position from `p` on that holds a delimiter, or the length of `s`.
pub open spec fn word_end(s: Seq<char>, p: int) -> int
    decreases s.len() - p,
{
    if p < 0 || p >= s.len() || is_delimiter(s[p]) {
        p
    } else {
        word_end(s, p + 1)
    }
}

/// `w` without one leading `+` or `-`.
pub open spec fn strip_sign(w: Seq<char>) -> Seq<char> {
    if w.len() > 0 && (w[0] == '+' || w[0] == '-') {
        w.drop_first()
    } else {
        w
    }
}

pub open spec fn integer_literal(w: Seq<char>) -> bool {
    strip_sign(w).len() > 0 && all_digits(strip_sign(w))
}

/// The value an integer literal denotes.
pub open spec fn integer_value(w: Seq<char>) -> int {
    if w.len() > 0 && w[0] == '-' {
        -digits_value(strip_sign(w))
    } else {
        digits_value(strip_sign(w)) as int
    }
}

/// The position of the first `.` in `d`, or its length if it has none.
pub open spec fn dot_index(d: Seq<char>) -> int
    decreases d.len(),
{
    if d.len() == 0 {
        0
    } else if d[0] == '.' {
        0
    } else {
        1 + dot_index(d.drop_first())
    }
}

/// Digits, one point, digits, after an optional sign.
pub open spec fn decimal_literal(w: Seq<char>) -> bool {
    let d = strip_sign(w);
    let k = dot_index(d);
    &&& 0 < k
    &&& k + 1 < d.len()
    &&& all_digits(d.take(k))
    &&& all_digits(d.skip(k + 1))
}

pub open spec fn decimal_of(w: Seq<char>) -> SpecDecimal {
    let d = strip_sign(w);
    let k = dot_index(d);
    SpecDecimal { negative: w.len() > 0 && w[0] == '-', whole: d.take(k), fraction: d.skip(k + 1) }
}

/// ASCII letters and digits, `_`, `-`, `.` and `:`.
pub open spec fn identifier_char(c: char) -> bool {
    ||| ('a' <= c && c <= 'z')
    ||| ('A' <= c && c <= 'Z')
    ||| ('0' <= c && c <= '9')
    ||| c == '_'
    ||| c == '-'
    ||| c == '.'
    ||| c == ':'
}

pub open spec fn all_identifier_chars(w: Seq<char>) -> bool {
    forall|i: int| 0 <= i < w.len() ==> identifier_char(#[trigger] w[i])
}

/// What a word (a run of characters up to a delimiter) lexes to, when it starts at `line`, `column`.
pub open spec fn word_kind(w: Seq<char>, line: int, column: int) -> Result<SpecTokenKind, SpecParseError> {
    if integer_literal(w) {
        let v = integer_value(w);
        if i64::MIN <= v <= i64::MAX {
            Ok(SpecTokenKind::Integer(v as i64))
        } else {
            Err(error_at(line, column, "invalid integer literal '"@ + w + "'"@))
        }
    } else if decimal_literal(w) {
        Ok(SpecTokenKind::Decimal(decimal_of(w)))
    } else if all_identifier_chars(w) {
        Ok(SpecTokenKind::Identifier(w))
    } else {
        Err(error_at(line, column, "unexpected token '"@ + w + "'"@))
    }
}

/// The token that starts at position `q` (not whitespace) and the position after it.
pub open spec fn lex_token(s: Seq<char>, q: int) -> Result<(SpecTokenKind, int), SpecParseError> {
    let line = line_of(s, q);
    let column = column_of(s, q);
    let c = s[q];
    if c == '=' {
        Ok((SpecTokenKind::Equals, q + 1))
    } else if c == '{' {
        Ok((SpecTokenKind::LeftBrace, q + 1))
    } else if c == '}' {
        Ok((SpecTokenKind::RightBrace, q + 1))
    } else if c == '"' {
        let e = closing_quote(s, q + 1);
        if e < s.len() {
            Ok((SpecTokenKind::Str(s.subrange(q + 1, e)), e + 1))
        } else {
            Err(error_at(line, column, "unterminated string literal"@))
        }
    } else {
        let e = word_end(s, q);
        match word_kind(s.subrange(q, e), line, column) {
            Ok(k) => Ok((k, e)),
            Err(err) => Err(err),
        }
    }
}

/// Skipping whitespace stops inside the input, at a character that is not
/// whitespace or at the end.
pub proof fn lemma_skip_ws(s: Seq<char>, p: int)
    requires
        0 <= p <= s.len(),
    ensures
        p <= skip_ws(s, p) <= s.len(),
        skip_ws(s, p) < s.len() ==> !is_ws(s[skip_ws(s, p)]),
    decreases s.len() - p,
{
    if p < s.len() && is_ws(s[p]) {
        lemma_skip_ws(s, p + 1);
    }
}

/// The search for a closing quote stops at a `"` or at the end.
pub proof fn lemma_closing_quote(s: Seq<char>, p: int)
    requires
        0 <= p <= s.len(),
    ensures
        p <= closing_quote(s, p) <= s.len(),
        closing_quote(s, p) < s.len() ==> s[closing_quote(s, p)] == '"',
    decreases s.len() - p,
{
    if p < s.len() && s[p] != '"' {
        lemma_closing_quote(s, p + 1);
    }
}

/// A word runs up to the first delimiter.
pub proof fn lemma_word_end(s: Seq<char>, p: int)
    requires
        0 <= p <= s.len(),
    ensures
        p <= word_end(s, p) <= s.len(),
        forall|i: int| p <= i < word_end(s, p) ==> !is_delimiter(#[trigger] s[i]),
    decreases s.len() - p,
{
    if p < s.len() && !is_delimiter(s[p]) {
        lemma_word_end(s, p + 1);
    }
}

/// Reading a token at a character that is not whitespace moves past it.
pub proof fn lemma_lex_token_advances(s: Seq<char>, q: int)
    requires
        0 <= q < s.len(),
        !is_ws(s[q]),
    ensures
        lex_token(s, q) matches Ok((_, next)) ==> q < next <= s.len(),
{
    lemma_closing_quote(s, q + 1);
    lemma_word_end(s, q);
    if s[q] != '=' && s[q] != '{' && s[q] != '}' && s[q] != '"' {
        lemma_word_end(s, q + 1);
        assert(word_end(s, q) == word_end(s, q + 1));
    }
}

/// The tokens of `s` from position `p` on, ending with `Eof`, or the first lexing error.
pub open spec fn lex_from(s: Seq<char>, p: int) -> Result<Seq<SpecToken>, SpecParseError>
    decreases s.len() - p,
{
    if p < 0 || p > s.len() {
        Ok(seq![])
    } else {
        let q = skip_ws(s, p);
        proof {
            lemma_skip_ws(s, p);
        }
        if q >= s.len() {
            Ok(seq![SpecToken { kind: SpecTokenKind::Eof, line: line_of(s, q), column: column_of(s, q) }])
        } else {
            proof {
                lemma_lex_token_advances(s, q);
            }
            match lex_token(s, q) {
                Err(e) => Err(e),
                Ok((kind, next)) => match lex_from(s, next) {
                    Err(e) => Err(e),
                    Ok(rest) => Ok(
                        seq![SpecToken { kind, line: line_of(s, q), column: column_of(s, q) }] + rest,
                    ),
                },
            }
        }
    }
}

/// The tokens of a whole text.
pub open spec fn spec_tokenize(s: Seq<char>) -> Result<Seq<SpecToken>, SpecParseError> {
    lex_from(s, 0)
}

pub open spec fn prepend_tokens(
    t: Seq<SpecToken>,
    r: Result<Seq<SpecToken>, SpecParseError>,
) -> Result<Seq<SpecToken>, SpecParseError> {
    match r {
        Ok(rest) => Ok(t + rest),
        Err(e) => Err(e),
    }
}


// ---------------------------------------------------------------------------
// The lexer
// ---------------------------------------------------------------------------

impl ParseError {
    /// The error `message` at `line`, `column`.
    pub fn new(line: usize, column: usize, message: String) -> (r: Self)
        ensures
            r@ == error_at(line as int, column as int, message@),
    {
        ParseError { line, column, message }
    }

    pub closed spec fn spec_line(&self) -> int {
        self.line as int
    }

    pub closed spec fn spec_column(&self) -> int {
        self.column as int
    }

    pub closed spec fn spec_message(&self) -> Seq<char> {
        self.message@
    }

    /// A parse error is exactly its line, column and message.
    pub proof fn lemma_view(&self)
        ensures
            self@ == error_at(self.spec_line(), self.spec_column(), self.spec_message()),
    {
    }

    /// The message, then the line and the column where parsing stopped.
    pub fn to_string(&self) -> (r: String)
        ensures
            r@ == self.spec_message() + " at line "@ + crate::text::nat_text(
                self.spec_line() as nat,
            ) + ", column "@ + crate::text::nat_text(self.spec_column() as nat),
    {
        let mut out: Vec<char> = chars_of(self.message.as_str());
        push_str(&mut out, " at line ");
        let line = crate::text::u64_text(self.line as u64);
        push_chars(&mut out, &line);
        push_str(&mut out, ", column ");
        let column = crate::text::u64_text(self.column as u64);
        push_chars(&mut out, &column);
        string_of(&out)
    }
}

/// Lines and columns count from one, and neither exceeds the position plus
/// one.
pub proof fn lemma_line_column_bounds(s: Seq<char>, p: int)
    requires
        0 <= p <= s.len(),
    ensures
        1 <= line_of(s, p) <= p + 1,
        1 <= column_of(s, p) <= p + 1,
    decreases p,
{
    if p > 0 {
        lemma_line_column_bounds(s, p - 1);
    }
}

pub open spec fn tokens_result_view(r: Result<Vec<Token>, ParseError>) -> Result<
    Seq<SpecToken>,
    SpecParseError,
> {
    match r {
        Ok(t) => Ok(tokens_view(t@)),
        Err(e) => Err(e@),
    }
}

/// Reads characters one at a time, keeping the line and column of the
/// current position.
pub struct Lexer {
    chars: Vec<char>,
    position: usize,
    line: usize,
    column: usize,
}

impl Lexer {
    /// The characters being read.
    pub closed spec fn text(&self) -> Seq<char> {
        self.chars@
    }

    /// How many characters have been read.
    pub closed spec fn pos(&self) -> int {
        self.position as int
    }

    /// The position is within the text, and the line and column are those
    /// of the position.
    pub closed spec fn inv(&self) -> bool {
        &&& self.position <= self.chars.len()
        &&& self.chars.len() < usize::MAX
        &&& self.line == line_of(self.chars@, self.position as int)
        &&& self.column == column_of(self.chars@, self.position as int)
    }

    /// A lexer at the start of `input`.
    pub fn new(input: &str) -> (r: Lexer)
        requires
            input@.len() < usize::MAX,
        ensures
            r.inv(),
            r.text() == input@,
            r.pos() == 0,
    {
        Lexer { chars: chars_of(input), position: 0, line: 1, column: 1 }
    }

    /// The character at the position, if any.
    pub fn peek_char(&self) -> (r: Option<char>)
        requires
            self.pos() <= self.text().len(),
        ensures
            r == if self.pos() < self.text().len() {
                Some(self.text()[self.pos()])
            } else {
                None::<char>
            },
    {
        if self.position < self.chars.len() {
            Some(self.chars[self.position])
        } else {
            None
        }
    }

    /// Reads the character at the position, if any, moving past it.
    pub fn bump_char(&mut self) -> (r: Option<char>)
        requires
            old(self).inv(),
        ensures
            final(self).inv(),
            final(self).text() == old(self).text(),
            final(self).pos() == if old(self).pos() < old(self).text().len() {
                old(self).pos() + 1
            } else {
                old(self).pos()
            },
            r == if old(self).pos() < old(self).text().len() {
                Some(old(self).text()[old(self).pos()])
            } else {
                None::<char>
            },
    {
        let current = self.peek_char()?;
        proof {
            lemma_line_column_bounds(self.chars@, self.position as int);
        }
        self.position += 1;
        if current == '\n' {
            self.line += 1;
            self.column = 1;
        } else {
            self.column += 1;
        }
        Some(current)
    }

    /// Moves past the whitespace at the position.
    pub fn skip_whitespace(&mut self)
        requires
            old(self).inv(),
        ensures
            final(self).inv(),
            final(self).text() == old(self).text(),
            final(self).pos() == skip_ws(old(self).text(), old(self).pos()),
    {
        let ghost start = self.position as int;
        loop
            invariant
                self.inv(),
                self.chars@ == old(self).chars@,
                start == old(self).position,
                start <= self.position,
                skip_ws(self.chars@, start) == skip_ws(self.chars@, self.position as int),
            decreases self.chars.len() - self.position,
        {
            match self.peek_char() {
                Some(current) => {
                    if !is_whitespace(current) {
                        assert(skip_ws(self.chars@, self.position as int) == self.position);
                        return;
                    }
                    self.bump_char();
                },
                None => {
                    assert(skip_ws(self.chars@, self.position as int) == self.position);
                    return;
                },
            }
        }
    }

    /// A string literal, from the opening quote to the next `"`.
    fn lex_string(&mut self, line: usize, column: usize) -> (r: Result<TokenKind, ParseError>)
        requires
            old(self).inv(),
            old(self).position < old(self).chars.len(),
            old(self).chars@[old(self).position as int] == '"',
            line == line_of(old(self).chars@, old(self).position as int),
            column == column_of(old(self).chars@, old(self).position as int),
        ensures
            final(self).inv(),
            final(self).chars@ == old(self).chars@,
            match r {
                Ok(k) => lex_token(old(self).chars@, old(self).position as int) == Ok::<
                    (SpecTokenKind, int),
                    SpecParseError,
                >((k@, final(self).position as int)),
                Err(e) => lex_token(old(self).chars@, old(self).position as int) == Err::<
                    (SpecTokenKind, int),
                    SpecParseError,
                >(e@),
            },
    {
        self.bump_char();
        let start = self.position;
        loop
            invariant
                self.inv(),
                self.chars@ == old(self).chars@,
                start == old(self).position + 1,
                old(self).position < old(self).chars.len(),
                old(self).chars@[old(self).position as int] == '"',
                line == line_of(old(self).chars@, old(self).position as int),
                column == column_of(old(self).chars@, old(self).position as int),
                start <= self.position,
                closing_quote(self.chars@, start as int) == closing_quote(
                    self.chars@,
                    self.position as int,
                ),
            decreases self.chars.len() - self.position,
        {
            match self.peek_char() {
                Some(current) => {
                    if current == '"' {
                        assert(closing_quote(self.chars@, self.position as int) == self.position);
                        let value = string_from_chars(vstd::slice::slice_subrange(self.chars.as_slice(), start, self.position));
                        self.bump_char();
                        return Ok(TokenKind::String(value));
                    }
                    self.bump_char();
                },
                None => {
                    assert(closing_quote(self.chars@, self.position as int) == self.chars@.len());
                    let message = "unterminated string literal".to_string();
                    assert(message@ == "unterminated string literal"@);
                    return Err(ParseError::new(line, column, message));
                },
            }
        }
    }

    /// A word: a run of characters up to the next delimiter, as a number or an identifier.
    fn lex_word(&mut self, line: usize, column: usize) -> (r: Result<TokenKind, ParseError>)
        requires
            old(self).inv(),
            old(self).position < old(self).chars.len(),
            !is_delimiter(old(self).chars@[old(self).position as int]),
            line == line_of(old(self).chars@, old(self).position as int),
            column == column_of(old(self).chars@, old(self).position as int),
        ensures
            final(self).inv(),
            final(self).chars@ == old(self).chars@,
            match r {
                Ok(k) => lex_token(old(self).chars@, old(self).position as int) == Ok::<
                    (SpecTokenKind, int),
                    SpecParseError,
                >((k@, final(self).position as int)),
                Err(e) => lex_token(old(self).chars@, old(self).position as int) == Err::<
                    (SpecTokenKind, int),
                    SpecParseError,
                >(e@),
            },
    {
        let start = self.position;
        loop
            invariant
                self.inv(),
                self.chars@ == old(self).chars@,
                start == old(self).position,
                old(self).position < old(self).chars.len(),
                !is_delimiter(old(self).chars@[old(self).position as int]),
                start <= self.position,
                word_end(self.chars@, start as int) == word_end(self.chars@, self.position as int),
            ensures
                self.inv(),
                self.chars@ == old(self).chars@,
                start <= self.position,
                word_end(self.chars@, start as int) == self.position,
            decreases self.chars.len() - self.position,
        {
            match self.peek_char() {
                Some(current) => {
                    if is_whitespace(current) || current == '=' || current == '{' || current == '}'
                        || current == '"' {
                        assert(word_end(self.chars@, self.position as int) == self.position);
                        break;
                    }
                    self.bump_char();
                },
                None => {
                    assert(word_end(self.chars@, self.position as int) == self.position);
                    break;
                },
            }
        }
        let lexeme = copy_range(&self.chars, start, self.position);
        classify_word(&lexeme, line, column)
    }

    fn tokenize(&mut self) -> (r: Result<Vec<Token>, ParseError>)
        requires
            old(self).inv(),
            old(self).position == 0,
        ensures
            tokens_result_view(r) == spec_tokenize(old(self).chars@),
    {
        let ghost s = self.chars@;
        let mut tokens: Vec<Token> = Vec::new();
        assert(tokens_view(tokens@) =~= seq![]);
        loop
            invariant
                self.inv(),
                self.chars@ == s,
                old(self).chars@ == s,
                lex_from(s, 0) == prepend_tokens(tokens_view(tokens@), lex_from(s, self.position as int)),
            decreases s.len() - self.position,
        {
            let ghost p0 = self.position as int;
            proof {
                lemma_skip_ws(s, p0);
            }
            self.skip_whitespace();
            let line = self.line;
            let column = self.column;
            let ghost q = self.position as int;
            match self.peek_char() {
                None => {
                    assert(q >= s.len());
                    assert(lex_from(s, p0) == Ok::<Seq<SpecToken>, SpecParseError>(
                        seq![SpecToken { kind: SpecTokenKind::Eof, line: line as int, column: column as int }],
                    ));
                    let eof = Token { kind: TokenKind::Eof, line, column };
                    let ghost before = tokens@;
                    tokens.push(eof);
                    assert(tokens_view(tokens@) =~= tokens_view(before) + seq![eof@]);
                    return Ok(tokens);
                },
                Some(current) => {
                    proof {
                        lemma_lex_token_advances(s, q);
                    }
                    let kind = if current == '=' {
                        self.bump_char();
                        TokenKind::Equals
                    } else if current == '{' {
                        self.bump_char();
                        TokenKind::LeftBrace
                    } else if current == '}' {
                        self.bump_char();
                        TokenKind::RightBrace
                    } else if current == '"' {
                        self.lex_string(line, column)?
                    } else {
                        self.lex_word(line, column)?
                    };
                    let token = Token { kind, line, column };
                    let ghost before = tokens@;
                    tokens.push(token);
                    assert(tokens_view(tokens@) =~= tokens_view(before) + seq![token@]);
                    proof {
                        let next = self.position as int;
                        assert(lex_from(s, p0) == prepend_tokens(seq![token@], lex_from(s, next)));
                        match lex_from(s, next) {
                            Ok(rest) => {
                                assert(tokens_view(before) + (seq![token@] + rest) =~= (
                                tokens_view(before) + seq![token@]) + rest);
                            },
                            Err(e) => {},
                        }
                    }
                },
            }
        }
    }
}

/// `v[start..end]` as a new vector.
fn copy_range(v: &Vec<char>, start: usize, end: usize) -> (r: Vec<char>)
    requires
        start <= end <= v.len(),
    ensures
        r@ == v@.subrange(start as int, end as int),
{
    let mut r: Vec<char> = Vec::new();
    let mut i = start;
    while i < end
        invariant
            start <= i <= end,
            end <= v.len(),
            r@ == v@.subrange(start as int, i as int),
        decreases end - i,
    {
        r.push(v[i]);
        i += 1;
        assert(r@ =~= v@.subrange(start as int, i as int));
    }
    r
}

/// How many sign characters (`+` or `-`) `w` starts with, zero or one.
fn sign_length(w: &Vec<char>) -> (r: usize)
    ensures
        r <= 1,
        r <= w.len(),
        strip_sign(w@) == w@.skip(r as int),
{
    if w.len() > 0 && (w[0] == '+' || w[0] == '-') {
        assert(w@.drop_first() == w@.skip(1));
        1
    } else {
        assert(w@.skip(0) == w@);
        0
    }
}

/// Whether `w[from..to]` holds only ASCII digits.
fn digits_between(w: &Vec<char>, from: usize, to: usize) -> (r: bool)
    requires
        from <= to <= w.len(),
    ensures
        r == all_digits(w@.subrange(from as int, to as int)),
{
    let mut i = from;
    while i < to
        invariant
            from <= i <= to,
            to <= w.len(),
            all_digits(w@.subrange(from as int, i as int)),
        decreases to - i,
    {
        if !('0' <= w[i] && w[i] <= '9') {
            assert(w@.subrange(from as int, to as int)[i - from] == w@[i as int]);
            return false;
        }
        i += 1;
        assert forall|k: int| 0 <= k < i - from implies is_digit(
            #[trigger] w@.subrange(from as int, i as int)[k],
        ) by {
            if k < i - 1 - from {
                assert(w@.subrange(from as int, i as int)[k] == w@.subrange(
                    from as int,
                    i - 1,
                )[k]);
            }
        }
    }
    true
}

/// The value of an integer literal, or `None` when it does not fit in `i64`.
fn parse_integer(w: &Vec<char>) -> (r: Option<i64>)
    requires
        integer_literal(w@),
    ensures
        match r {
            Some(v) => v == integer_value(w@),
            None => !(i64::MIN <= integer_value(w@) <= i64::MAX),
        },
{
    let s0 = sign_length(w);
    let negative = w.len() > 0 && w[0] == '-';
    let limit: u64 = if negative {
        9223372036854775808
    } else {
        9223372036854775807
    };
    let ghost d = w@.skip(s0 as int);
    let mut acc: u64 = 0;
    let mut i = s0;
    assert(w@.subrange(s0 as int, s0 as int) =~= Seq::<char>::empty());
    assert(digits_value(Seq::<char>::empty()) == 0);
    while i < w.len()
        invariant
            s0 <= i <= w.len(),
            d == w@.skip(s0 as int),
            d == strip_sign(w@),
            all_digits(d),
            acc == digits_value(w@.subrange(s0 as int, i as int)),
            acc <= limit,
            negative == (w@.len() > 0 && w@[0] == '-'),
            limit == if negative {
                9223372036854775808u64
            } else {
                9223372036854775807u64
            },
        decreases w.len() - i,
    {
        assert(is_digit(d[i - s0]));
        assert(d[i - s0] == w@[i as int]);
        let digit = (w[i] as u32 - '0' as u32) as u64;
        assert(digit <= 9 && digit == crate::text::digit_value(w@[i as int]));
        let ghost next = w@.subrange(s0 as int, i + 1);
        assert(next.drop_last() =~= w@.subrange(s0 as int, i as int));
        assert(next.last() == w@[i as int]);
        assert(digits_value(next) == acc * 10 + digit);
        if acc > (limit - digit) / 10 {
            assert(acc * 10 + digit > limit) by (nonlinear_arith)
                requires
                    acc > (limit - digit) / 10,
                    digit <= limit,
            ;
            proof {
                assert(d.take(i + 1 - s0) =~= next);
                lemma_digits_value_monotone(d, i + 1 - s0);
            }
            return None;
        }
        assert(acc * 10 + digit <= limit) by (nonlinear_arith)
            requires
                acc <= (limit - digit) / 10,
                digit <= limit,
        ;
        acc = acc * 10 + digit;
        i += 1;
    }
    assert(w@.subrange(s0 as int, w.len() as int) =~= d);
    if negative {
        if acc == 9223372036854775808 {
            Some(i64::MIN)
        } else {
            Some(-(acc as i64))
        }
    } else {
        Some(acc as i64)
    }
}

/// `from` plus the position of the first `.` in `w[from..]`.
pub fn first_dot(w: &Vec<char>, from: usize) -> (r: usize)
    requires
        from <= w.len(),
    ensures
        r == from + dot_index(w@.skip(from as int)),
        from <= r <= w.len(),
{
    let mut i = from;
    while i < w.len() && w[i] != '.'
        invariant
            from <= i <= w.len(),
            dot_index(w@.skip(from as int)) == (i - from) + dot_index(w@.skip(i as int)),
        decreases w.len() - i,
    {
        assert(w@.skip(i as int).drop_first() == w@.skip(i + 1));
        i += 1;
    }
    if i == w.len() {
        assert(w@.skip(i as int).len() == 0);
    }
    i
}

/// Whether `current` may appear in an identifier: an ASCII letter or digit,
/// `_`, `-`, `.` or `:`.
pub fn is_identifier_char(current: char) -> (r: bool)
    ensures
        r == identifier_char(current),
{
    ('a' <= current && current <= 'z') || ('A' <= current && current <= 'Z') || ('0' <= current
        && current <= '9') || current == '_' || current == '-' || current == '.' || current == ':'
}

/// `lexeme` without one leading `+` or `-`.
pub fn strip_number_sign(lexeme: &str) -> (r: String)
    ensures
        r@ == strip_sign(lexeme@),
{
    let w = chars_of(lexeme);
    let s0 = sign_length(&w);
    let rest = slice_chars(&w, s0, w.len());
    assert(rest@ =~= w@.skip(s0 as int));
    string_of(&rest)
}

/// Whether `lexeme` is an integer literal: one or more ASCII digits after an
/// optional sign.
pub fn is_integer_literal(lexeme: &str) -> (r: bool)
    ensures
        r == integer_literal(lexeme@),
{
    let w = chars_of(lexeme);
    let s0 = sign_length(&w);
    assert(w@.subrange(s0 as int, w.len() as int) =~= w@.skip(s0 as int));
    s0 < w.len() && digits_between(&w, s0, w.len())
}

/// Whether `lexeme` is a decimal literal: digits, one `.`, digits, after an
/// optional sign.
pub fn is_decimal_literal(lexeme: &str) -> (r: bool)
    ensures
        r == decimal_literal(lexeme@),
{
    let w = chars_of(lexeme);
    let s0 = sign_length(&w);
    decimal_parts(&w, s0).is_some()
}

/// Whether every character of `w` is an identifier character.
fn identifier_chars_only(w: &Vec<char>) -> (r: bool)
    ensures
        r == all_identifier_chars(w@),
{
    let mut i: usize = 0;
    while i < w.len()
        invariant
            i <= w.len(),
            forall|k: int| 0 <= k < i ==> identifier_char(#[trigger] w@[k]),
        decreases w.len() - i,
    {
        if !is_identifier_char(w[i]) {
            return false;
        }
        i += 1;
    }
    true
}

/// `prefix`, then `w`, then `'`, as an error at `line`, `column`.
fn word_error(prefix: &str, w: &Vec<char>, line: usize, column: usize) -> (r: ParseError)
    ensures
        r@ == error_at(line as int, column as int, prefix@ + w@ + "'"@),
{
    let mut message: Vec<char> = chars_of(prefix);
    push_chars(&mut message, w);
    push_str(&mut message, "'");
    ParseError::new(line, column, string_of(&message))
}

/// The decimal a word denotes, if it is a decimal literal; `s0` is the length of its sign.
fn decimal_parts(w: &Vec<char>, s0: usize) -> (r: Option<Decimal>)
    requires
        s0 <= 1,
        s0 <= w.len(),
        strip_sign(w@) == w@.skip(s0 as int),
    ensures
        match r {
            Some(d) => decimal_literal(w@) && d@ == decimal_of(w@),
            None => !decimal_literal(w@),
        },
{
    let k = first_dot(w, s0);
    let ghost d = w@.skip(s0 as int);
    assert(d.take(k - s0) =~= w@.subrange(s0 as int, k as int));
    if k < w.len() {
        assert(d.skip(k + 1 - s0) =~= w@.subrange(k + 1, w.len() as int));
    }
    if k > s0 && k < w.len() && k + 1 < w.len() && digits_between(w, s0, k) && digits_between(
        w,
        k + 1,
        w.len(),
    ) {
        let negative = w.len() > 0 && w[0] == '-';
        let whole = string_from_chars(vstd::slice::slice_subrange(w.as_slice(), s0, k));
        let fraction = string_from_chars(vstd::slice::slice_subrange(w.as_slice(), k + 1, w.len()));
        Some(Decimal { negative, whole, fraction })
    } else {
        None
    }
}

/// What a word lexes to: an integer, a decimal or an identifier, or an error.
fn classify_word(w: &Vec<char>, line: usize, column: usize) -> (r: Result<TokenKind, ParseError>)
    ensures
        match r {
            Ok(k) => word_kind(w@, line as int, column as int) == Ok::<
                SpecTokenKind,
                SpecParseError,
            >(k@),
            Err(e) => word_kind(w@, line as int, column as int) == Err::<
                SpecTokenKind,
                SpecParseError,
            >(e@),
        },
{
    let s0 = sign_length(w);
    assert(w@.subrange(s0 as int, w.len() as int) == w@.skip(s0 as int));
    if s0 < w.len() && digits_between(w, s0, w.len()) {
        match parse_integer(w) {
            Some(v) => {
                return Ok(TokenKind::Integer(v));
            },
            None => {
                return Err(word_error("invalid integer literal '", w, line, column));
            },
        }
    }
    match decimal_parts(w, s0) {
        Some(d) => {
            return Ok(TokenKind::Decimal(d));
        },
        None => {},
    }
    if identifier_chars_only(w) {
        return Ok(TokenKind::Identifier(string_of(w)));
    }
    Err(word_error("unexpected token '", w, line, column))
}

/// The tokens of `input`, ending with `Eof`, or the first lexing error.
pub fn tokenize(input: &str) -> (r: Result<Vec<Token>, ParseError>)
    requires
        input@.len() < usize::MAX,
    ensures
        tokens_result_view(r) == spec_tokenize(input@),
{
    let mut lexer = Lexer::new(input);
    lexer.tokenize()
}


// ---------------------------------------------------------------------------
// What the parser makes of the tokens
// ---------------------------------------------------------------------------

/// `s` without its leading `0`s, keeping at least one character.
pub open spec fn strip_leading_zeros(s: Seq<char>) -> Seq<char>
    decreases s.len(),
{
    if s.len() > 1 && s[0] == '0' {
        strip_leading_zeros(s.drop_first())
    } else {
        s
    }
}

/// `s` without its trailing `0`s.
pub open spec fn strip_trailing_zeros(s: Seq<char>) -> Seq<char>
    decreases s.len(),
{
    if s.len() > 0 && s.last() == '0' {
        strip_trailing_zeros(s.drop_last())
    } else {
        s
    }
}

/// The shortest text of a decimal: no `+`, no leading zeros before the point,
/// no trailing zeros after it, and no point when nothing follows it. The
/// text keeps every written digit; it is not the rendering of an `f64`, so
/// it differs from one only for decimals of more significant digits than an
/// `f64` holds.
pub open spec fn decimal_text(d: SpecDecimal) -> Seq<char> {
    let sign = if d.negative {
        seq!['-']
    } else {
        Seq::<char>::empty()
    };
    let whole = strip_leading_zeros(d.whole);
    let fraction = strip_trailing_zeros(d.fraction);
    if fraction.len() == 0 {
        sign + whole
    } else {
        sign + whole + seq!['.'] + fraction
    }
}

/// The text of a key token: identifiers and strings as written, numbers as
/// their value renders; other tokens cannot be keys.
pub open spec fn key_text(k: SpecTokenKind) -> Option<Seq<char>> {
    match k {
        SpecTokenKind::Identifier(s) => Some(s),
        SpecTokenKind::Str(s) => Some(s),
        SpecTokenKind::Integer(v) => Some(crate::text::int_text(v as int)),
        SpecTokenKind::Decimal(d) => Some(decimal_text(d)),
        _ => None,
    }
}

/// A bare identifier ends a statement when a brace or the end follows it, or
/// when the next token is on a later line.
pub open spec fn statement_boundary(key: SpecToken, next: SpecToken) -> bool {
    next.kind is RightBrace || next.kind is Eof || next.line > key.line
}

pub open spec fn only_closing_braces_from(t: Seq<SpecToken>, pos: int) -> bool {
    forall|i: int| pos <= i < t.len() ==> (#[trigger] t[i]).kind is RightBrace || t[i].kind is Eof
}

/// The position of the first token from `pos` on that is not a closing
/// brace.
pub open spec fn after_closing_braces(t: Seq<SpecToken>, pos: int) -> int
    decreases t.len() - pos,
{
    if 0 <= pos < t.len() && t[pos].kind is RightBrace {
        after_closing_braces(t, pos + 1)
    } else {
        pos
    }
}

pub open spec fn token_error(tok: SpecToken, message: Seq<char>) -> SpecParseError {
    error_at(tok.line, tok.column, message)
}

pub open spec fn no_position() -> SpecParseError {
    error_at(0, 0, Seq::empty())
}

/// The token after `pos`, or the last one.
pub open spec fn token_after(t: Seq<SpecToken>, pos: int) -> SpecToken {
    if pos + 1 < t.len() {
        t[pos + 1]
    } else {
        t[t.len() - 1]
    }
}

/// A list of statements from `pos`: up to the end of input at top level
/// (`in_block` false), where closing braces may trail; up to and including
/// the closing brace inside a block. With the statements, the position after them.
pub open spec fn parse_statements_spec(t: Seq<SpecToken>, pos: int, in_block: bool) -> Result<
    (Seq<SpecStatement>, int),
    SpecParseError,
>
    decreases t.len() - pos, 2int,
{
    if pos < 0 || pos >= t.len() {
        Err(no_position())
    } else {
        let tok = t[pos];
        match tok.kind {
            SpecTokenKind::Eof => if in_block {
                Err(token_error(tok, "expected '}' before end of input"@))
            } else {
                Ok((seq![], pos))
            },
            SpecTokenKind::RightBrace => if in_block {
                Ok((seq![], pos + 1))
            } else if only_closing_braces_from(t, pos) {
                Ok((seq![], t.len() - 1))
            } else {
                Err(token_error(tok, "unexpected '}'"@))
            },
            _ => match parse_statement_spec(t, pos) {
                Err(e) => Err(e),
                Ok((st, next)) => if pos < next <= t.len() {
                    match parse_statements_spec(t, next, in_block) {
                        Err(e) => Err(e),
                        Ok((rest, end)) => Ok((seq![st] + rest, end)),
                    }
                } else {
                    Err(no_position())
                },
            },
        }
    }
}

/// One statement from `pos`: a key, then `=` and a value, or a bare identifier.
pub open spec fn parse_statement_spec(t: Seq<SpecToken>, pos: int) -> Result<
    (SpecStatement, int),
    SpecParseError,
>
    decreases t.len() - pos, 1int,
{
    if pos < 0 || pos + 1 >= t.len() {
        Err(no_position())
    } else {
        let key_tok = t[pos];
        match key_text(key_tok.kind) {
            None => Err(token_error(key_tok, "expected identifier, string, or numeric key"@)),
            Some(key) => {
                let next = t[pos + 1];
                if next.kind is Equals {
                    match parse_value_spec(t, pos + 2) {
                        Err(e) => Err(e),
                        Ok((v, end)) => Ok((SpecStatement { key, value: Some(v) }, end)),
                    }
                } else if key_tok.kind is Identifier && statement_boundary(key_tok, next) {
                    Ok((SpecStatement { key, value: None }, pos + 1))
                } else {
                    Err(token_error(next, "expected '=' after key '"@ + key + "'"@))
                }
            },
        }
    }
}

/// One value from `pos`.
pub open spec fn parse_value_spec(t: Seq<SpecToken>, pos: int) -> Result<
    (SpecValue, int),
    SpecParseError,
>
    decreases t.len() - pos, 0int,
{
    if pos < 0 || pos >= t.len() {
        Err(no_position())
    } else {
        let tok = t[pos];
        match tok.kind {
            SpecTokenKind::Identifier(s) => Ok((SpecValue::Identifier(s), pos + 1)),
            SpecTokenKind::Str(s) => Ok((SpecValue::Str(s), pos + 1)),
            SpecTokenKind::Integer(v) => Ok((SpecValue::Integer(v), pos + 1)),
            SpecTokenKind::Decimal(d) => Ok((SpecValue::Decimal(d), pos + 1)),
            SpecTokenKind::LeftBrace => match parse_block_spec(t, pos + 1) {
                Err(e) => Err(e),
                Ok((b, end)) => Ok((SpecValue::Block(b), end)),
            },
            SpecTokenKind::RightBrace => Err(
                token_error(tok, "unexpected '}' while parsing value"@),
            ),
            SpecTokenKind::Equals => Err(token_error(tok, "unexpected '=' while parsing value"@)),
            SpecTokenKind::Eof => Err(token_error(tok, "expected value before end of input"@)),
        }
    }
}

/// Whether a block that starts at `pos` holds statements (`true`) or values (`false`),
/// decided by its first token and the one after it.
pub open spec fn block_mode_spec(t: Seq<SpecToken>, pos: int) -> Result<bool, SpecParseError> {
    let current = t[pos];
    let next = token_after(t, pos);
    match current.kind {
        SpecTokenKind::Identifier(_) => Ok(next.kind is Equals || statement_boundary(current, next)),
        SpecTokenKind::Str(_) => Ok(next.kind is Equals),
        SpecTokenKind::Integer(_) => Ok(next.kind is Equals),
        SpecTokenKind::Decimal(_) => Ok(next.kind is Equals),
        SpecTokenKind::LeftBrace => Ok(false),
        SpecTokenKind::RightBrace => Ok(true),
        SpecTokenKind::Eof => Err(token_error(current, "expected '}' before end of input"@)),
        SpecTokenKind::Equals => Err(token_error(current, "unexpected '=' at start of block"@)),
    }
}

/// The inside of a block from `pos`, just after its opening brace.
pub open spec fn parse_block_spec(t: Seq<SpecToken>, pos: int) -> Result<
    (SpecBlock, int),
    SpecParseError,
>
    decreases t.len() - pos, 3int,
{
    if pos < 0 || pos >= t.len() {
        Err(no_position())
    } else if t[pos].kind is RightBrace {
        Ok((SpecBlock::Statements(seq![]), pos + 1))
    } else {
        match block_mode_spec(t, pos) {
            Err(e) => Err(e),
            Ok(true) => match parse_statements_spec(t, pos, true) {
                Err(e) => Err(e),
                Ok((sts, end)) => Ok((SpecBlock::Statements(sts), end)),
            },
            Ok(false) => match parse_values_spec(t, pos) {
                Err(e) => Err(e),
                Ok((vs, end)) => Ok((SpecBlock::Values(vs), end)),
            },
        }
    }
}

/// Values from `pos` up to and including the closing brace.
pub open spec fn parse_values_spec(t: Seq<SpecToken>, pos: int) -> Result<
    (Seq<SpecValue>, int),
    SpecParseError,
>
    decreases t.len() - pos, 2int,
{
    if pos < 0 || pos >= t.len() {
        Err(no_position())
    } else {
        let tok = t[pos];
        match tok.kind {
            SpecTokenKind::RightBrace => Ok((seq![], pos + 1)),
            SpecTokenKind::Eof => Err(token_error(tok, "expected '}' before end of input"@)),
            _ => match parse_value_spec(t, pos) {
                Err(e) => Err(e),
                Ok((v, next)) => if pos < next <= t.len() {
                    match parse_values_spec(t, next) {
                        Err(e) => Err(e),
                        Ok((rest, end)) => Ok((seq![v] + rest, end)),
                    }
                } else {
                    Err(no_position())
                },
            },
        }
    }
}

/// What `parse_document` gives for a text: its top-level statements, or the
/// first error of the lexer or the parser.
pub open spec fn spec_parse_document(s: Seq<char>) -> Result<Seq<SpecStatement>, SpecParseError> {
    match spec_tokenize(s) {
        Err(e) => Err(e),
        Ok(t) => match parse_statements_spec(t, 0, false) {
            Err(e) => Err(e),
            Ok((sts, _)) => Ok(sts),
        },
    }
}


// ---------------------------------------------------------------------------
// The parser
// ---------------------------------------------------------------------------

/// A tokenization that succeeds ends with the end-of-input token.
pub proof fn lemma_lex_from_ends_with_eof(s: Seq<char>, p: int)
    requires
        0 <= p <= s.len(),
    ensures
        lex_from(s, p) matches Ok(t) ==> t.len() > 0 && t.last().kind is Eof,
    decreases s.len() - p,
{
    let q = skip_ws(s, p);
    lemma_skip_ws(s, p);
    if q < s.len() {
        lemma_lex_token_advances(s, q);
        match lex_token(s, q) {
            Ok((kind, next)) => {
                lemma_lex_from_ends_with_eof(s, next);
                match lex_from(s, next) {
                    Ok(rest) => {
                        let tok = SpecToken { kind, line: line_of(s, q), column: column_of(s, q) };
                        assert((seq![tok] + rest).last() == rest.last());
                    },
                    Err(_) => {},
                }
            },
            Err(_) => {},
        }
    }
}

pub open spec fn prepend_statements(
    prefix: Seq<SpecStatement>,
    r: Result<(Seq<SpecStatement>, int), SpecParseError>,
) -> Result<(Seq<SpecStatement>, int), SpecParseError> {
    match r {
        Ok((rest, end)) => Ok((prefix + rest, end)),
        Err(e) => Err(e),
    }
}

pub open spec fn prepend_values(
    prefix: Seq<SpecValue>,
    r: Result<(Seq<SpecValue>, int), SpecParseError>,
) -> Result<(Seq<SpecValue>, int), SpecParseError> {
    match r {
        Ok((rest, end)) => Ok((prefix + rest, end)),
        Err(e) => Err(e),
    }
}

enum ScopeTerminator {
    Eof,
    RightBrace,
}

enum BlockMode {
    Statements,
    Values,
}

struct Parser {
    tokens: Vec<Token>,
    position: usize,
}

impl Parser {
    spec fn toks(&self) -> Seq<SpecToken> {
        tokens_view(self.tokens@)
    }

    spec fn wf(&self) -> bool {
        &&& self.tokens.len() > 0
        &&& self.tokens@.last()@.kind is Eof
        &&& self.position < self.tokens.len()
    }

    proof fn lemma_not_last(&self)
        requires
            self.wf(),
            !(self.tokens@[self.position as int]@.kind is Eof),
        ensures
            self.position + 1 < self.tokens.len(),
    {
    }

    fn new(tokens: Vec<Token>) -> (r: Parser)
        requires
            tokens.len() > 0,
            tokens@.last()@.kind is Eof,
        ensures
            r.wf(),
            r.tokens == tokens,
            r.position == 0,
    {
        Parser { tokens, position: 0 }
    }

    fn peek(&self) -> (r: &Token)
        requires
            self.wf(),
        ensures
            *r == self.tokens@[self.position as int],
    {
        &self.tokens[self.position]
    }

    fn advance(&mut self)
        requires
            old(self).wf(),
        ensures
            final(self).wf(),
            final(self).tokens == old(self).tokens,
            final(self).position == if old(self).position + 1 < old(self).tokens.len() {
                old(self).position + 1
            } else {
                old(self).position as int
            },
    {
        if self.position < self.tokens.len() - 1 {
            self.position += 1;
        }
    }

    fn peek_n(&self, offset: usize) -> (r: &Token)
        requires
            self.wf(),
            offset == 1,
        ensures
            r@ == token_after(self.toks(), self.position as int),
    {
        let last_index = self.tokens.len() - 1;
        let index = if self.position + 1 < last_index {
            self.position + 1
        } else {
            last_index
        };
        &self.tokens[index]
    }

    fn parse_document(&mut self) -> (r: Result<Vec<Statement>, ParseError>)
        requires
            old(self).wf(),
            old(self).position == 0,
        ensures
            match r {
                Ok(sts) => parse_statements_spec(old(self).toks(), 0, false) matches Ok((sp, _))
                    && statements_view(sts@) == sp,
                Err(e) => parse_statements_spec(old(self).toks(), 0, false) == Err::<
                    (Seq<SpecStatement>, int),
                    SpecParseError,
                >(e@),
            },
    {
        self.parse_statement_list(ScopeTerminator::Eof)
    }

    fn parse_statement_list(&mut self, terminator: ScopeTerminator) -> (r: Result<
        Vec<Statement>,
        ParseError,
    >)
        requires
            old(self).wf(),
        ensures
            final(self).wf(),
            final(self).tokens == old(self).tokens,
            match r {
                Ok(sts) => parse_statements_spec(
                    old(self).toks(),
                    old(self).position as int,
                    terminator is RightBrace,
                ) matches Ok((sp, end)) && statements_view(sts@) == sp && (terminator is RightBrace
                    ==> final(self).position == end && old(self).position < end),
                Err(e) => parse_statements_spec(
                    old(self).toks(),
                    old(self).position as int,
                    terminator is RightBrace,
                ) == Err::<(Seq<SpecStatement>, int), SpecParseError>(e@),
            },
        decreases old(self).tokens@.len() - old(self).position, 2int,
    {
        let ghost t = self.toks();
        let ghost p0 = self.position as int;
        let ghost in_block = terminator is RightBrace;
        let mut statements: Vec<Statement> = Vec::new();
        assert(statements_view(statements@) =~= Seq::<SpecStatement>::empty());
        assert(Seq::<SpecStatement>::empty() + parse_statements_spec(t, p0, in_block)->Ok_0.0
            =~= parse_statements_spec(t, p0, in_block)->Ok_0.0);
        loop
            invariant
                self.wf(),
                self.tokens == old(self).tokens,
                t == self.toks(),
                p0 == old(self).position,
                p0 <= self.position,
                in_block == terminator is RightBrace,
                parse_statements_spec(t, p0, in_block) == prepend_statements(
                    statements_view(statements@),
                    parse_statements_spec(t, self.position as int, in_block),
                ),
            decreases t.len() - self.position,
        {
            let ghost pos = self.position as int;
            assert(t[pos] == self.tokens@[pos]@);
            match &self.peek().kind {
                TokenKind::Eof => {
                    match terminator {
                        ScopeTerminator::Eof => {
                            return Ok(statements);
                        },
                        ScopeTerminator::RightBrace => {
                            let tok = self.peek();
                            let message = "expected '}' before end of input".to_string();
                            return Err(ParseError::new(tok.line, tok.column, message));
                        },
                    }
                },
                TokenKind::RightBrace => {
                    match terminator {
                        ScopeTerminator::RightBrace => {
                            self.advance();
                            return Ok(statements);
                        },
                        ScopeTerminator::Eof => {
                            if self.only_trailing_right_braces_remain() {
                                self.consume_trailing_right_braces();
                                return Ok(statements);
                            }
                            let tok = self.peek();
                            let message = "unexpected '}'".to_string();
                            return Err(ParseError::new(tok.line, tok.column, message));
                        },
                    }
                },
                _ => {
                    let statement = self.parse_statement()?;
                    let ghost before = statements@;
                    statements.push(statement);
                    proof {
                        assert(statements@.drop_last() == before);
                        let sv = statement@;
                        match parse_statements_spec(t, self.position as int, in_block) {
                            Ok((rest, end)) => {
                                assert(statements_view(before) + (seq![sv] + rest) =~= (
                                statements_view(before).push(sv)) + rest);
                            },
                            Err(_) => {},
                        }
                    }
                },
            }
        }
    }

    fn parse_statement(&mut self) -> (r: Result<Statement, ParseError>)
        requires
            old(self).wf(),
            !(old(self).tokens@[old(self).position as int]@.kind is Eof),
        ensures
            final(self).wf(),
            final(self).tokens == old(self).tokens,
            match r {
                Ok(st) => parse_statement_spec(old(self).toks(), old(self).position as int) matches Ok(
                    (sp, end),
                ) && st@ == sp && final(self).position == end && old(self).position < end,
                Err(e) => parse_statement_spec(old(self).toks(), old(self).position as int) == Err::<
                    (SpecStatement, int),
                    SpecParseError,
                >(e@),
            },
        decreases old(self).tokens@.len() - old(self).position, 1int,
    {
        let ghost t = self.toks();
        let key_index = self.position;
        proof {
            self.lemma_not_last();
        }
        assert(t[key_index as int] == self.tokens@[key_index as int]@);
        self.advance();
        let key_token = &self.tokens[key_index];
        let mut is_identifier_key = false;
        let key: String = match &key_token.kind {
            TokenKind::Identifier(key) => {
                is_identifier_key = true;
                key.clone()
            },
            TokenKind::String(value) => value.clone(),
            TokenKind::Integer(value) => string_of(&crate::text::i64_text(*value)),
            TokenKind::Decimal(value) => decimal_key_text(value),
            _ => {
                let message = "expected identifier, string, or numeric key".to_string();
                return Err(ParseError::new(key_token.line, key_token.column, message));
            },
        };
        assert(key_text(t[key_index as int].kind) == Some(key@));
        assert(t[key_index + 1] == self.tokens@[key_index + 1]@);
        if let TokenKind::Equals = &self.peek().kind {
            self.advance();
            let value = self.parse_value()?;
            return Ok(Statement { key, value: Some(value) });
        }
        if is_identifier_key && self.is_bare_identifier_statement_boundary(key_index) {
            return Ok(Statement { key, value: None });
        }
        let next_token = self.peek();
        let mut message: Vec<char> = chars_of("expected '=' after key '");
        push_chars(&mut message, &chars_of(key.as_str()));
        push_str(&mut message, "'");
        Err(ParseError::new(next_token.line, next_token.column, string_of(&message)))
    }

    fn parse_value(&mut self) -> (r: Result<Value, ParseError>)
        requires
            old(self).wf(),
        ensures
            final(self).wf(),
            final(self).tokens == old(self).tokens,
            match r {
                Ok(v) => parse_value_spec(old(self).toks(), old(self).position as int) matches Ok(
                    (sv, end),
                ) && v@ == sv && final(self).position == end && old(self).position < end,
                Err(e) => parse_value_spec(old(self).toks(), old(self).position as int) == Err::<
                    (SpecValue, int),
                    SpecParseError,
                >(e@),
            },
        decreases old(self).tokens@.len() - old(self).position, 0int,
    {
        let ghost t = self.toks();
        let index = self.position;
        assert(t[index as int] == self.tokens@[index as int]@);
        self.advance();
        let token = &self.tokens[index];
        match &token.kind {
            TokenKind::Identifier(identifier) => Ok(Value::Identifier(identifier.clone())),
            TokenKind::String(value) => Ok(Value::String(value.clone())),
            TokenKind::Integer(value) => Ok(Value::Integer(*value)),
            TokenKind::Decimal(value) => Ok(Value::Decimal(value.clone())),
            TokenKind::LeftBrace => {
                let block = self.parse_block()?;
                Ok(Value::Block(block))
            },
            TokenKind::RightBrace => {
                let message = "unexpected '}' while parsing value".to_string();
                Err(ParseError::new(token.line, token.column, message))
            },
            TokenKind::Equals => {
                let message = "unexpected '=' while parsing value".to_string();
                Err(ParseError::new(token.line, token.column, message))
            },
            TokenKind::Eof => {
                let message = "expected value before end of input".to_string();
                Err(ParseError::new(token.line, token.column, message))
            },
        }
    }

    fn parse_block(&mut self) -> (r: Result<Block, ParseError>)
        requires
            old(self).wf(),
        ensures
            final(self).wf(),
            final(self).tokens == old(self).tokens,
            match r {
                Ok(b) => parse_block_spec(old(self).toks(), old(self).position as int) matches Ok(
                    (sb, end),
                ) && b@ == sb && final(self).position == end && old(self).position < end,
                Err(e) => parse_block_spec(old(self).toks(), old(self).position as int) == Err::<
                    (SpecBlock, int),
                    SpecParseError,
                >(e@),
            },
        decreases old(self).tokens@.len() - old(self).position, 3int,
    {
        let ghost t = self.toks();
        assert(t[self.position as int] == self.tokens@[self.position as int]@);
        if let TokenKind::RightBrace = &self.peek().kind {
            self.advance();
            let empty: Vec<Statement> = Vec::new();
            assert(statements_view(empty@) =~= Seq::<SpecStatement>::empty());
            return Ok(Block::Statements(empty));
        }
        let mode = self.detect_block_mode()?;
        match mode {
            BlockMode::Statements => {
                let statements = self.parse_statement_list(ScopeTerminator::RightBrace)?;
                Ok(Block::Statements(statements))
            },
            BlockMode::Values => {
                let values = self.parse_value_list()?;
                Ok(Block::Values(values))
            },
        }
    }

    fn parse_value_list(&mut self) -> (r: Result<Vec<Value>, ParseError>)
        requires
            old(self).wf(),
        ensures
            final(self).wf(),
            final(self).tokens == old(self).tokens,
            match r {
                Ok(vs) => parse_values_spec(old(self).toks(), old(self).position as int) matches Ok(
                    (sv, end),
                ) && values_view(vs@) == sv && final(self).position == end && old(self).position
                    < end,
                Err(e) => parse_values_spec(old(self).toks(), old(self).position as int) == Err::<
                    (Seq<SpecValue>, int),
                    SpecParseError,
                >(e@),
            },
        decreases old(self).tokens@.len() - old(self).position, 2int,
    {
        let ghost t = self.toks();
        let ghost p0 = self.position as int;
        let mut values: Vec<Value> = Vec::new();
        assert(values_view(values@) =~= Seq::<SpecValue>::empty());
        assert(Seq::<SpecValue>::empty() + parse_values_spec(t, p0)->Ok_0.0 =~= parse_values_spec(
            t,
            p0,
        )->Ok_0.0);
        loop
            invariant
                self.wf(),
                self.tokens == old(self).tokens,
                t == self.toks(),
                p0 == old(self).position,
                p0 <= self.position,
                parse_values_spec(t, p0) == prepend_values(
                    values_view(values@),
                    parse_values_spec(t, self.position as int),
                ),
            decreases t.len() - self.position,
        {
            let ghost pos = self.position as int;
            assert(t[pos] == self.tokens@[pos]@);
            match &self.peek().kind {
                TokenKind::RightBrace => {
                    proof {
                        self.lemma_not_last();
                    }
                    self.advance();
                    return Ok(values);
                },
                TokenKind::Eof => {
                    let tok = self.peek();
                    let message = "expected '}' before end of input".to_string();
                    return Err(ParseError::new(tok.line, tok.column, message));
                },
                _ => {
                    let value = self.parse_value()?;
                    let ghost before = values@;
                    values.push(value);
                    proof {
                        assert(values@.drop_last() == before);
                        let vv = value@;
                        match parse_values_spec(t, self.position as int) {
                            Ok((rest, end)) => {
                                assert(values_view(before) + (seq![vv] + rest) =~= (values_view(
                                    before,
                                ).push(vv)) + rest);
                            },
                            Err(_) => {},
                        }
                    }
                },
            }
        }
    }

    fn detect_block_mode(&self) -> (r: Result<BlockMode, ParseError>)
        requires
            self.wf(),
        ensures
            match r {
                Ok(mode) => block_mode_spec(self.toks(), self.position as int) == Ok::<
                    bool,
                    SpecParseError,
                >(mode is Statements),
                Err(e) => block_mode_spec(self.toks(), self.position as int) == Err::<
                    bool,
                    SpecParseError,
                >(e@),
            },
    {
        let current = self.peek();
        let next = self.peek_n(1);
        assert(self.toks()[self.position as int] == current@);
        match &current.kind {
            TokenKind::Identifier(_) => {
                if let TokenKind::Equals = &next.kind {
                    Ok(BlockMode::Statements)
                } else if is_bare_identifier_statement_boundary(current, next) {
                    Ok(BlockMode::Statements)
                } else {
                    Ok(BlockMode::Values)
                }
            },
            TokenKind::String(_) | TokenKind::Integer(_) | TokenKind::Decimal(_) => {
                if let TokenKind::Equals = &next.kind {
                    Ok(BlockMode::Statements)
                } else {
                    Ok(BlockMode::Values)
                }
            },
            TokenKind::LeftBrace => Ok(BlockMode::Values),
            TokenKind::RightBrace => Ok(BlockMode::Statements),
            TokenKind::Eof => {
                let message = "expected '}' before end of input".to_string();
                Err(ParseError::new(current.line, current.column, message))
            },
            TokenKind::Equals => {
                let message = "unexpected '=' at start of block".to_string();
                Err(ParseError::new(current.line, current.column, message))
            },
        }
    }

    fn is_bare_identifier_statement_boundary(&self, key_index: usize) -> (r: bool)
        requires
            self.wf(),
            key_index < self.tokens.len(),
        ensures
            r == statement_boundary(
                self.toks()[key_index as int],
                self.toks()[self.position as int],
            ),
    {
        let next_token = self.peek();
        is_bare_identifier_statement_boundary(&self.tokens[key_index], next_token)
    }

    fn only_trailing_right_braces_remain(&self) -> (r: bool)
        requires
            self.wf(),
        ensures
            r == only_closing_braces_from(self.toks(), self.position as int),
    {
        let mut i = self.position;
        while i < self.tokens.len()
            invariant
                self.wf(),
                self.position <= i <= self.tokens.len(),
                forall|k: int|
                    self.position <= k < i ==> (#[trigger] self.toks()[k]).kind is RightBrace
                        || self.toks()[k].kind is Eof,
            decreases self.tokens.len() - i,
        {
            assert(self.toks()[i as int] == self.tokens@[i as int]@);
            match &self.tokens[i].kind {
                TokenKind::RightBrace | TokenKind::Eof => {},
                _ => {
                    return false;
                },
            }
            i += 1;
        }
        true
    }

    fn consume_trailing_right_braces(&mut self)
        requires
            old(self).wf(),
        ensures
            final(self).wf(),
            final(self).tokens == old(self).tokens,
            final(self).position == after_closing_braces(old(self).toks(), old(self).position as int),
    {
        loop
            invariant
                self.wf(),
                self.tokens == old(self).tokens,
                after_closing_braces(self.toks(), self.position as int) == after_closing_braces(
                    old(self).toks(),
                    old(self).position as int,
                ),
            decreases self.tokens.len() - self.position,
        {
            assert(self.toks()[self.position as int] == self.tokens@[self.position as int]@);
            if let TokenKind::RightBrace = &self.peek().kind {
                proof {
                    assert(self.toks()[self.position as int] == self.tokens@[self.position as int]@);
                    self.lemma_not_last();
                }
                self.advance();
            } else {
                return;
            }
        }
    }
}

fn is_bare_identifier_statement_boundary(key_token: &Token, next_token: &Token) -> (r: bool)
    ensures
        r == statement_boundary(key_token@, next_token@),
{
    match &next_token.kind {
        TokenKind::RightBrace | TokenKind::Eof => true,
        _ => next_token.line > key_token.line,
    }
}

/// The key text of a decimal, from its written digits: see `decimal_text`.
pub fn decimal_key_text(d: &Decimal) -> (r: String)
    ensures
        r@ == decimal_text(d@),
{
    let whole = chars_of(d.whole.as_str());
    let fraction = chars_of(d.fraction.as_str());
    let mut start: usize = 0;
    assert(whole@.skip(0) == whole@);
    assert(fraction@.take(fraction@.len() as int) == fraction@);
    while start + 1 < whole.len() && whole[start] == '0'
        invariant
            start < whole.len() || whole.len() == 0 && start == 0,
            strip_leading_zeros(whole@) == strip_leading_zeros(whole@.skip(start as int)),
        decreases whole.len() - start,
    {
        assert(whole@.skip(start as int).drop_first() == whole@.skip(start + 1));
        start += 1;
    }
    let mut end = fraction.len();
    while end > 0 && fraction[end - 1] == '0'
        invariant
            end <= fraction.len(),
            strip_trailing_zeros(fraction@) == strip_trailing_zeros(fraction@.take(end as int)),
        decreases end,
    {
        assert(fraction@.take(end as int).drop_last() == fraction@.take(end - 1));
        end -= 1;
    }
    let mut out: Vec<char> = Vec::new();
    if d.negative {
        out.push('-');
    }
    let mut i = start;
    while i < whole.len()
        invariant
            start <= i <= whole.len(),
            out@ == (if d.negative {
                seq!['-']
            } else {
                Seq::<char>::empty()
            }) + whole@.subrange(start as int, i as int),
        decreases whole.len() - i,
    {
        out.push(whole[i]);
        i += 1;
        assert(whole@.subrange(start as int, i as int) == whole@.subrange(start as int, i - 1).push(
            whole@[i - 1],
        ));
    }
    assert(whole@.subrange(start as int, whole.len() as int) == whole@.skip(start as int));
    if end > 0 {
        out.push('.');
        let mut j: usize = 0;
        let ghost base = out@;
        while j < end
            invariant
                j <= end <= fraction.len(),
                out@ == base + fraction@.take(j as int),
            decreases end - j,
        {
            out.push(fraction[j]);
            j += 1;
            assert(fraction@.take(j as int) == fraction@.take(j - 1).push(fraction@[j - 1]));
        }
    }
    proof {
        let w = whole@.skip(start as int);
        assert(strip_leading_zeros(w) == w) by {
            if w.len() > 1 && w[0] == '0' {
                assert(whole@[start as int] == '0');
            }
        }
        let f = fraction@.take(end as int);
        assert(strip_trailing_zeros(f) == f);
    }
    string_of(&out)
}

/// Parses a savefile text into its top-level statements, in order.
pub fn parse_document(input: &str) -> (r: Result<Document, ParseError>)
    requires
        input@.len() < usize::MAX,
    ensures
        match r {
            Ok(document) => spec_parse_document(input@) == Ok::<
                Seq<SpecStatement>,
                SpecParseError,
            >(document@),
            Err(e) => spec_parse_document(input@) == Err::<Seq<SpecStatement>, SpecParseError>(e@),
        },
{
    let tokens = tokenize(input)?;
    proof {
        lemma_lex_from_ends_with_eof(input@, 0);
        assert(tokens_view(tokens@).last() == tokens@.last()@);
    }
    let mut parser = Parser::new(tokens);
    let statements = parser.parse_document()?;
    Ok(Document { statements })
}


// ---------------------------------------------------------------------------
// Surrounding whitespace
// ---------------------------------------------------------------------------

/// Every character of `w` is whitespace.
pub open spec fn all_ws(w: Seq<char>) -> bool {
    forall|i: int| 0 <= i < w.len() ==> is_ws(#[trigger] w[i])
}

/// Two outcomes alike: the same result, or errors with the same message
/// (their positions may differ).
pub open spec fn alike<T>(r1: Result<T, SpecParseError>, r2: Result<T, SpecParseError>) -> bool {
    match (r1, r2) {
        (Ok(a), Ok(b)) => a == b,
        (Err(e1), Err(e2)) => e1.message == e2.message,
        _ => false,
    }
}

/// Token sequences alike: the same kinds, and every token but the end of
/// input `shift` lines further down in `t2`.
pub open spec fn tokens_alike(t1: Seq<SpecToken>, t2: Seq<SpecToken>, shift: int) -> bool {
    &&& t1.len() == t2.len()
    &&& forall|i: int|
        0 <= i < t1.len() ==> (#[trigger] t1[i]).kind == t2[i].kind && (!(t1[i].kind is Eof)
            ==> t2[i].line == t1[i].line + shift)
}

/// Two tokenizations alike: token sequences alike, or errors with the same
/// message.
pub open spec fn lexed_alike(
    r1: Result<Seq<SpecToken>, SpecParseError>,
    r2: Result<Seq<SpecToken>, SpecParseError>,
    shift: int,
) -> bool {
    match (r1, r2) {
        (Ok(a), Ok(b)) => tokens_alike(a, b, shift),
        (Err(e1), Err(e2)) => e1.message == e2.message,
        _ => false,
    }
}

/// `big` holds `s` from position `o` on, with only whitespace before and
/// after it.
pub open spec fn embeds(big: Seq<char>, s: Seq<char>, o: int) -> bool {
    &&& 0 <= o
    &&& o + s.len() <= big.len()
    &&& forall|i: int| 0 <= i < s.len() ==> big[o + i] == #[trigger] s[i]
    &&& forall|i: int| 0 <= i < o ==> is_ws(#[trigger] big[i])
    &&& forall|i: int| o + s.len() <= i < big.len() ==> is_ws(#[trigger] big[i])
}

proof fn lemma_skip_trailing_ws(big: Seq<char>, s: Seq<char>, o: int, x: int)
    requires
        embeds(big, s, o),
        o + s.len() <= x <= big.len(),
    ensures
        skip_ws(big, x) == big.len(),
    decreases big.len() - x,
{
    if x < big.len() {
        lemma_skip_trailing_ws(big, s, o, x + 1);
    }
}

proof fn lemma_skip_leading_ws(big: Seq<char>, s: Seq<char>, o: int, x: int)
    requires
        embeds(big, s, o),
        0 <= x <= o,
    ensures
        skip_ws(big, x) == skip_ws(big, o),
    decreases o - x,
{
    if x < o {
        lemma_skip_leading_ws(big, s, o, x + 1);
    }
}

proof fn lemma_skip_embedded(big: Seq<char>, s: Seq<char>, o: int, p: int)
    requires
        embeds(big, s, o),
        0 <= p <= s.len(),
    ensures
        skip_ws(s, p) < s.len() ==> skip_ws(big, o + p) == o + skip_ws(s, p),
        skip_ws(s, p) >= s.len() ==> skip_ws(big, o + p) == big.len(),
    decreases s.len() - p,
{
    if p == s.len() {
        lemma_skip_trailing_ws(big, s, o, o + p);
    } else {
        assert(big[o + p] == s[p]);
        if is_ws(s[p]) {
            lemma_skip_embedded(big, s, o, p + 1);
        }
    }
}

proof fn lemma_quote_trailing(big: Seq<char>, s: Seq<char>, o: int, x: int)
    requires
        embeds(big, s, o),
        o + s.len() <= x <= big.len(),
    ensures
        closing_quote(big, x) == big.len(),
    decreases big.len() - x,
{
    if x < big.len() {
        assert(is_ws(big[x]));
        lemma_quote_trailing(big, s, o, x + 1);
    }
}

proof fn lemma_quote_embedded(big: Seq<char>, s: Seq<char>, o: int, p: int)
    requires
        embeds(big, s, o),
        0 <= p <= s.len(),
    ensures
        closing_quote(s, p) < s.len() ==> closing_quote(big, o + p) == o + closing_quote(s, p),
        closing_quote(s, p) >= s.len() ==> closing_quote(big, o + p) == big.len(),
    decreases s.len() - p,
{
    if p == s.len() {
        lemma_quote_trailing(big, s, o, o + p);
    } else {
        assert(big[o + p] == s[p]);
        if s[p] != '"' {
            lemma_quote_embedded(big, s, o, p + 1);
        }
    }
}

proof fn lemma_word_embedded(big: Seq<char>, s: Seq<char>, o: int, p: int)
    requires
        embeds(big, s, o),
        0 <= p <= s.len(),
    ensures
        word_end(big, o + p) == o + word_end(s, p),
    decreases s.len() - p,
{
    if p == s.len() {
        if o + p < big.len() {
            assert(is_ws(big[o + p]));
        }
    } else {
        assert(big[o + p] == s[p]);
        if !is_delimiter(s[p]) {
            lemma_word_embedded(big, s, o, p + 1);
        }
    }
}

proof fn lemma_line_embedded(big: Seq<char>, s: Seq<char>, o: int, q: int)
    requires
        embeds(big, s, o),
        0 <= q <= s.len(),
    ensures
        line_of(big, o + q) == line_of(big, o) + line_of(s, q) - 1,
    decreases q,
{
    if q > 0 {
        lemma_line_embedded(big, s, o, q - 1);
        assert(big[o + q - 1] == s[q - 1]);
    }
}

proof fn lemma_token_embedded(big: Seq<char>, s: Seq<char>, o: int, q: int)
    requires
        embeds(big, s, o),
        0 <= q < s.len(),
    ensures
        match lex_token(s, q) {
            Ok((k, n)) => lex_token(big, o + q) == Ok::<(SpecTokenKind, int), SpecParseError>(
                (k, o + n),
            ),
            Err(e) => lex_token(big, o + q) matches Err(e2) && e2.message == e.message,
        },
{
    assert(big[o + q] == s[q]);
    let c = s[q];
    if c == '"' {
        lemma_quote_embedded(big, s, o, q + 1);
        lemma_closing_quote(s, q + 1);
        let e = closing_quote(s, q + 1);
        if e < s.len() {
            assert(big.subrange(o + q + 1, o + e) =~= s.subrange(q + 1, e));
        }
    } else if c != '=' && c != '{' && c != '}' {
        lemma_word_embedded(big, s, o, q);
        lemma_word_end(s, q);
        let e = word_end(s, q);
        assert(big.subrange(o + q, o + e) =~= s.subrange(q, e));
    }
}

proof fn lemma_tokens_alike_cons(
    h1: SpecToken,
    h2: SpecToken,
    r1: Seq<SpecToken>,
    r2: Seq<SpecToken>,
    shift: int,
)
    requires
        tokens_alike(r1, r2, shift),
        h1.kind == h2.kind,
        !(h1.kind is Eof) ==> h2.line == h1.line + shift,
    ensures
        tokens_alike(seq![h1] + r1, seq![h2] + r2, shift),
{
    let a = seq![h1] + r1;
    let b = seq![h2] + r2;
    assert forall|i: int| 0 <= i < a.len() implies (#[trigger] a[i]).kind == b[i].kind && (!(
    a[i].kind is Eof) ==> b[i].line == a[i].line + shift) by {
        if i > 0 {
            assert(a[i] == r1[i - 1] && b[i] == r2[i - 1]);
        }
    }
}

proof fn lemma_lex_embedded(big: Seq<char>, s: Seq<char>, o: int, p: int)
    requires
        embeds(big, s, o),
        0 <= p <= s.len(),
    ensures
        lexed_alike(lex_from(s, p), lex_from(big, o + p), line_of(big, o) - 1),
    decreases s.len() - p,
{
    let q = skip_ws(s, p);
    lemma_skip_ws(s, p);
    lemma_skip_embedded(big, s, o, p);
    if q >= s.len() {
        let t1 = seq![SpecToken { kind: SpecTokenKind::Eof, line: line_of(s, q), column: column_of(s, q) }];
        let bq = skip_ws(big, o + p);
        let t2 = seq![SpecToken { kind: SpecTokenKind::Eof, line: line_of(big, bq), column: column_of(big, bq) }];
        assert(lex_from(s, p) == Ok::<Seq<SpecToken>, SpecParseError>(t1));
        assert(lex_from(big, o + p) == Ok::<Seq<SpecToken>, SpecParseError>(t2));
        assert(tokens_alike(t1, t2, line_of(big, o) - 1));
    } else {
        lemma_token_embedded(big, s, o, q);
        lemma_lex_token_advances(s, q);
        lemma_line_embedded(big, s, o, q);
        match lex_token(s, q) {
            Ok((k, n)) => {
                lemma_lex_embedded(big, s, o, n);
                match (lex_from(s, n), lex_from(big, o + n)) {
                    (Ok(r1), Ok(r2)) => {
                        let h1 = SpecToken { kind: k, line: line_of(s, q), column: column_of(s, q) };
                        let h2 = SpecToken {
                            kind: k,
                            line: line_of(big, o + q),
                            column: column_of(big, o + q),
                        };
                        lemma_tokens_alike_cons(h1, h2, r1, r2, line_of(big, o) - 1);
                    },
                    _ => {},
                }
            },
            Err(_) => {},
        }
    }
}

/// Whitespace before and after a text changes its tokens only in their
/// positions: the same kinds, each token but the end of input as many lines
/// further down as the leading whitespace has newlines; and a lexing error
/// keeps its message.
pub proof fn lemma_tokenize_ignores_surrounding_whitespace(
    s: Seq<char>,
    before: Seq<char>,
    after: Seq<char>,
)
    requires
        all_ws(before),
        all_ws(after),
    ensures
        lexed_alike(
            spec_tokenize(s),
            spec_tokenize(before + s + after),
            line_of(before + s + after, before.len() as int) - 1,
        ),
{
    let big = before + s + after;
    let o = before.len() as int;
    assert forall|i: int| 0 <= i < s.len() implies big[o + i] == #[trigger] s[i] by {}
    assert forall|i: int| 0 <= i < o implies is_ws(#[trigger] big[i]) by {
        assert(big[i] == before[i]);
    }
    assert forall|i: int| o + s.len() <= i < big.len() implies is_ws(#[trigger] big[i]) by {
        assert(big[i] == after[i - o - s.len()]);
    }
    assert(embeds(big, s, o));
    lemma_lex_embedded(big, s, o, 0);
    lemma_skip_leading_ws(big, s, o, 0);
    lemma_skip_ws(big, 0);
    lemma_skip_ws(big, o);
    assert(lex_from(big, 0) == lex_from(big, o));
}

proof fn lemma_boundary_alike(t1: Seq<SpecToken>, t2: Seq<SpecToken>, shift: int, a: int, b: int)
    requires
        tokens_alike(t1, t2, shift),
        0 <= a < t1.len(),
        0 <= b < t1.len(),
        !(t1[a].kind is Eof),
    ensures
        statement_boundary(t1[a], t1[b]) == statement_boundary(t2[a], t2[b]),
{
    assert(t1[a].kind == t2[a].kind);
    assert(t1[b].kind == t2[b].kind);
}

proof fn lemma_statements_alike(t1: Seq<SpecToken>, t2: Seq<SpecToken>, shift: int, pos: int, in_block: bool)
    requires
        tokens_alike(t1, t2, shift),
    ensures
        alike(parse_statements_spec(t1, pos, in_block), parse_statements_spec(t2, pos, in_block)),
    decreases t1.len() - pos, 2int,
{
    if 0 <= pos < t1.len() {
        assert(t1[pos].kind == t2[pos].kind);
        assert(only_closing_braces_from(t1, pos) == only_closing_braces_from(t2, pos)) by {
            assert forall|i: int| pos <= i < t1.len() implies t1[i].kind == t2[i].kind by {
                assert(t1[i].kind == t2[i].kind);
            }
        }
        match t1[pos].kind {
            SpecTokenKind::Eof => {},
            SpecTokenKind::RightBrace => {},
            _ => {
                lemma_statement_alike(t1, t2, shift, pos);
                match parse_statement_spec(t1, pos) {
                    Ok((st, next)) => {
                        if pos < next <= t1.len() {
                            lemma_statements_alike(t1, t2, shift, next, in_block);
                        }
                    },
                    Err(_) => {},
                }
            },
        }
    }
}

proof fn lemma_statement_alike(t1: Seq<SpecToken>, t2: Seq<SpecToken>, shift: int, pos: int)
    requires
        tokens_alike(t1, t2, shift),
    ensures
        alike(parse_statement_spec(t1, pos), parse_statement_spec(t2, pos)),
    decreases t1.len() - pos, 1int,
{
    if 0 <= pos && pos + 1 < t1.len() {
        assert(t1[pos].kind == t2[pos].kind);
        assert(t1[pos + 1].kind == t2[pos + 1].kind);
        if key_text(t1[pos].kind) is Some {
            if t1[pos + 1].kind is Equals {
                lemma_value_alike(t1, t2, shift, pos + 2);
            } else if t1[pos].kind is Identifier {
                lemma_boundary_alike(t1, t2, shift, pos, pos + 1);
            }
        }
    }
}

proof fn lemma_value_alike(t1: Seq<SpecToken>, t2: Seq<SpecToken>, shift: int, pos: int)
    requires
        tokens_alike(t1, t2, shift),
    ensures
        alike(parse_value_spec(t1, pos), parse_value_spec(t2, pos)),
    decreases t1.len() - pos, 0int,
{
    if 0 <= pos < t1.len() {
        assert(t1[pos].kind == t2[pos].kind);
        if t1[pos].kind is LeftBrace {
            lemma_block_alike(t1, t2, shift, pos + 1);
        }
    }
}

proof fn lemma_block_mode_alike(t1: Seq<SpecToken>, t2: Seq<SpecToken>, shift: int, pos: int)
    requires
        tokens_alike(t1, t2, shift),
        0 <= pos < t1.len(),
    ensures
        alike(block_mode_spec(t1, pos), block_mode_spec(t2, pos)),
{
    assert(t1[pos].kind == t2[pos].kind);
    let after = if pos + 1 < t1.len() {
        pos + 1
    } else {
        t1.len() - 1
    };
    assert(token_after(t1, pos) == t1[after] && token_after(t2, pos) == t2[after]);
    assert(t1[after].kind == t2[after].kind);
    if !(t1[pos].kind is Eof) {
        lemma_boundary_alike(t1, t2, shift, pos, after);
    }
}

proof fn lemma_block_alike(t1: Seq<SpecToken>, t2: Seq<SpecToken>, shift: int, pos: int)
    requires
        tokens_alike(t1, t2, shift),
    ensures
        alike(parse_block_spec(t1, pos), parse_block_spec(t2, pos)),
    decreases t1.len() - pos, 3int,
{
    if 0 <= pos < t1.len() {
        assert(t1[pos].kind == t2[pos].kind);
        if !(t1[pos].kind is RightBrace) {
            lemma_block_mode_alike(t1, t2, shift, pos);
            lemma_statements_alike(t1, t2, shift, pos, true);
            lemma_values_alike(t1, t2, shift, pos);
        }
    }
}

proof fn lemma_values_alike(t1: Seq<SpecToken>, t2: Seq<SpecToken>, shift: int, pos: int)
    requires
        tokens_alike(t1, t2, shift),
    ensures
        alike(parse_values_spec(t1, pos), parse_values_spec(t2, pos)),
    decreases t1.len() - pos, 2int,
{
    if 0 <= pos < t1.len() {
        assert(t1[pos].kind == t2[pos].kind);
        match t1[pos].kind {
            SpecTokenKind::RightBrace => {},
            SpecTokenKind::Eof => {},
            _ => {
                lemma_value_alike(t1, t2, shift, pos);
                match parse_value_spec(t1, pos) {
                    Ok((v, next)) => {
                        if pos < next <= t1.len() {
                            lemma_values_alike(t1, t2, shift, next);
                        }
                    },
                    Err(_) => {},
                }
            },
        }
    }
}

/// Whitespace before and after a savefile changes nothing of what it
/// parses to: the same statements, or an error with the same message (only
/// its line and column may differ).
pub proof fn lemma_parse_ignores_surrounding_whitespace(
    s: Seq<char>,
    before: Seq<char>,
    after: Seq<char>,
)
    requires
        all_ws(before),
        all_ws(after),
    ensures
        alike(spec_parse_document(s), spec_parse_document(before + s + after)),
{
    let big = before + s + after;
    let shift = line_of(big, before.len() as int) - 1;
    lemma_tokenize_ignores_surrounding_whitespace(s, before, after);
    match (spec_tokenize(s), spec_tokenize(big)) {
        (Ok(t1), Ok(t2)) => {
            lemma_statements_alike(t1, t2, shift, 0, false);
        },
        _ => {},
    }
}


// ---------------------------------------------------------------------------
// Blocks of values
// ---------------------------------------------------------------------------

/// A word that lexes to an identifier: identifier characters only, and not
/// a number.
pub open spec fn identifier_word(w: Seq<char>) -> bool {
    &&& w.len() > 0
    &&& all_identifier_chars(w)
    &&& !integer_literal(w)
    &&& !decimal_literal(w)
}

proof fn lemma_skip_to(s: Seq<char>, p: int, q: int)
    requires
        0 <= p <= q <= s.len(),
        forall|i: int| p <= i < q ==> is_ws(#[trigger] s[i]),
        q == s.len() || !is_ws(s[q]),
    ensures
        skip_ws(s, p) == q,
    decreases q - p,
{
    if p < q {
        lemma_skip_to(s, p + 1, q);
    }
}

proof fn lemma_word_end_at(s: Seq<char>, q: int, e: int)
    requires
        0 <= q <= e <= s.len(),
        forall|i: int| q <= i < e ==> !is_delimiter(#[trigger] s[i]),
        e == s.len() || is_delimiter(s[e]),
    ensures
        word_end(s, q) == e,
    decreases e - q,
{
    if q < e {
        lemma_word_end_at(s, q + 1, e);
    }
}

proof fn lemma_no_newline_first_line(s: Seq<char>, p: int)
    requires
        0 <= p <= s.len(),
        forall|i: int| 0 <= i < s.len() ==> #[trigger] s[i] != '\n',
    ensures
        line_of(s, p) == 1,
    decreases p,
{
    if p > 0 {
        lemma_no_newline_first_line(s, p - 1);
    }
}

proof fn lemma_identifier_token(s: Seq<char>, q: int, w: Seq<char>)
    requires
        identifier_word(w),
        0 <= q,
        q + w.len() <= s.len(),
        s.subrange(q, q + w.len()) == w,
        q + w.len() == s.len() || is_delimiter(s[q + w.len()]),
    ensures
        !is_ws(s[q]),
        lex_token(s, q) == Ok::<(SpecTokenKind, int), SpecParseError>(
            (SpecTokenKind::Identifier(w), q + w.len()),
        ),
{
    assert forall|i: int| q <= i < q + w.len() implies !is_delimiter(#[trigger] s[i]) by {
        assert(s[i] == w[i - q]);
        assert(identifier_char(w[i - q]));
    }
    assert(s[q] == w[0] && identifier_char(w[0]));
    lemma_word_end_at(s, q, q + w.len());
}

proof fn lemma_lex_step(s: Seq<char>, p: int, q: int, kind: SpecTokenKind, next: int)
    requires
        0 <= p <= q < s.len(),
        forall|i: int| p <= i < q ==> is_ws(#[trigger] s[i]),
        !is_ws(s[q]),
        lex_token(s, q) == Ok::<(SpecTokenKind, int), SpecParseError>((kind, next)),
    ensures
        lex_from(s, p) == prepend_tokens(
            seq![SpecToken { kind, line: line_of(s, q), column: column_of(s, q) }],
            lex_from(s, next),
        ),
{
    lemma_skip_to(s, p, q);
}

/// The text `k = { a b }`.
pub open spec fn pair_block_text(k: Seq<char>, a: Seq<char>, b: Seq<char>) -> Seq<char> {
    k + seq![' ', '=', ' ', '{', ' '] + a + seq![' '] + b + seq![' ', '}']
}

/// The tokens `k`, `=`, `{`, `a`, `b`, `}` and the end of input, `a` and `b`
/// on one line.
pub open spec fn pair_block_tokens(t: Seq<SpecToken>, k: Seq<char>, a: Seq<char>, b: Seq<char>) -> bool {
    &&& t.len() == 7
    &&& t[0].kind == SpecTokenKind::Identifier(k)
    &&& t[1].kind == SpecTokenKind::Equals
    &&& t[2].kind == SpecTokenKind::LeftBrace
    &&& t[3].kind == SpecTokenKind::Identifier(a)
    &&& t[4].kind == SpecTokenKind::Identifier(b)
    &&& t[5].kind == SpecTokenKind::RightBrace
    &&& t[6].kind == SpecTokenKind::Eof
    &&& t[3].line == t[4].line
}

proof fn lemma_pair_block_text_chars(k: Seq<char>, a: Seq<char>, b: Seq<char>)
    requires
        identifier_word(k),
        identifier_word(a),
        identifier_word(b),
    ensures
        ({
            let s = pair_block_text(k, a, b);
            let nk = k.len() as int;
            let pa = nk + 5;
            let pb = pa + a.len() + 1;
            let pr = pb + b.len() + 1;
            &&& s.len() == pr + 1
            &&& forall|i: int| 0 <= i < s.len() ==> #[trigger] s[i] != '\n'
            &&& s.subrange(0, nk) == k
            &&& s.subrange(pa, pa + a.len()) == a
            &&& s.subrange(pb, pb + b.len()) == b
            &&& s[nk] == ' ' && s[nk + 1] == '=' && s[nk + 2] == ' ' && s[nk + 3] == '{'
            &&& s[nk + 4] == ' ' && s[pa + a.len()] == ' ' && s[pb + b.len()] == ' '
            &&& s[pr] == '}'
        }),
{
    let s = pair_block_text(k, a, b);
    let nk = k.len() as int;
    let pa = nk + 5;
    let pb = pa + a.len() + 1;
    assert forall|i: int| 0 <= i < s.len() implies #[trigger] s[i] != '\n' by {
        if i < nk {
            assert(s[i] == k[i] && identifier_char(k[i]));
        } else if pa <= i < pa + a.len() {
            assert(s[i] == a[i - pa] && identifier_char(a[i - pa]));
        } else if pb <= i < pb + b.len() {
            assert(s[i] == b[i - pb] && identifier_char(b[i - pb]));
        }
    }
    assert(s.subrange(0, nk) =~= k);
    assert(s.subrange(pa, pa + a.len()) =~= a);
    assert(s.subrange(pb, pb + b.len()) =~= b);
}

#[verifier::rlimit(40)]
proof fn lemma_pair_block_tokenizes(k: Seq<char>, a: Seq<char>, b: Seq<char>)
    requires
        identifier_word(k),
        identifier_word(a),
        identifier_word(b),
    ensures
        spec_tokenize(pair_block_text(k, a, b)) matches Ok(t) && pair_block_tokens(t, k, a, b),
{
    let s = pair_block_text(k, a, b);
    let nk = k.len() as int;
    let pa = nk + 5;
    let pb = pa + a.len() + 1;
    let pr = pb + b.len() + 1;
    lemma_pair_block_text_chars(k, a, b);
    lemma_identifier_token(s, 0, k);
    lemma_identifier_token(s, pa, a);
    lemma_identifier_token(s, pb, b);
    lemma_lex_step(s, 0, 0, SpecTokenKind::Identifier(k), nk);
    lemma_lex_step(s, nk, nk + 1, SpecTokenKind::Equals, nk + 2);
    lemma_lex_step(s, nk + 2, nk + 3, SpecTokenKind::LeftBrace, nk + 4);
    lemma_lex_step(s, nk + 4, pa, SpecTokenKind::Identifier(a), pa + a.len());
    lemma_lex_step(s, pa + a.len(), pb, SpecTokenKind::Identifier(b), pb + b.len());
    lemma_lex_step(s, pb + b.len(), pr, SpecTokenKind::RightBrace, pr + 1);
    lemma_skip_to(s, pr + 1, pr + 1);
    lemma_no_newline_first_line(s, pa);
    lemma_no_newline_first_line(s, pb);
    let t6 = seq![SpecToken { kind: SpecTokenKind::Eof, line: line_of(s, pr + 1), column: column_of(s, pr + 1) }];
    assert(lex_from(s, pr + 1) == Ok::<Seq<SpecToken>, SpecParseError>(t6));
    let r5 = seq![SpecToken { kind: SpecTokenKind::RightBrace, line: line_of(s, pr), column: column_of(s, pr) }] + t6;
    let r4 = seq![SpecToken { kind: SpecTokenKind::Identifier(b), line: line_of(s, pb), column: column_of(s, pb) }] + r5;
    let r3 = seq![SpecToken { kind: SpecTokenKind::Identifier(a), line: line_of(s, pa), column: column_of(s, pa) }] + r4;
    let r2 = seq![SpecToken { kind: SpecTokenKind::LeftBrace, line: line_of(s, nk + 3), column: column_of(s, nk + 3) }] + r3;
    let r1 = seq![SpecToken { kind: SpecTokenKind::Equals, line: line_of(s, nk + 1), column: column_of(s, nk + 1) }] + r2;
    let r0 = seq![SpecToken { kind: SpecTokenKind::Identifier(k), line: line_of(s, 0), column: column_of(s, 0) }] + r1;
    assert(lex_from(s, 0) == Ok::<Seq<SpecToken>, SpecParseError>(r0));
    assert(pair_block_tokens(r0, k, a, b));
}

/// Parsing the tokens of `k = { a b }`, with `a` and `b` on one line, gives
/// one statement `k` whose value is the block of values `a`, `b`.
pub proof fn lemma_pair_block_tokens_parse_as_values(
    t: Seq<SpecToken>,
    k: Seq<char>,
    a: Seq<char>,
    b: Seq<char>,
)
    requires
        pair_block_tokens(t, k, a, b),
    ensures
        parse_statements_spec(t, 0, false) == Ok::<(Seq<SpecStatement>, int), SpecParseError>(
            (
                seq![
                    SpecStatement {
                        key: k,
                        value: Some(
                            SpecValue::Block(
                                SpecBlock::Values(
                                    seq![SpecValue::Identifier(a), SpecValue::Identifier(b)],
                                ),
                            ),
                        ),
                    },
                ],
                6,
            ),
        ),
{
    let vals = seq![SpecValue::Identifier(a), SpecValue::Identifier(b)];
    assert(parse_value_spec(t, 4) == Ok::<(SpecValue, int), SpecParseError>(
        (SpecValue::Identifier(b), 5),
    ));
    assert(parse_value_spec(t, 3) == Ok::<(SpecValue, int), SpecParseError>(
        (SpecValue::Identifier(a), 4),
    ));
    assert(parse_values_spec(t, 5) == Ok::<(Seq<SpecValue>, int), SpecParseError>((seq![], 6)));
    assert(parse_values_spec(t, 4) == Ok::<(Seq<SpecValue>, int), SpecParseError>(
        (seq![SpecValue::Identifier(b)], 6),
    )) by {
        assert(seq![SpecValue::Identifier(b)] + Seq::<SpecValue>::empty() =~= seq![SpecValue::Identifier(b)]);
    }
    assert(parse_values_spec(t, 3) == Ok::<(Seq<SpecValue>, int), SpecParseError>((vals, 6))) by {
        assert(seq![SpecValue::Identifier(a)] + seq![SpecValue::Identifier(b)] =~= vals);
    }
    assert(block_mode_spec(t, 3) == Ok::<bool, SpecParseError>(false));
    assert(parse_block_spec(t, 3) == Ok::<(SpecBlock, int), SpecParseError>(
        (SpecBlock::Values(vals), 6),
    ));
    assert(parse_statements_spec(t, 6, false) == Ok::<(Seq<SpecStatement>, int), SpecParseError>(
        (seq![], 6),
    ));
    let st = SpecStatement { key: k, value: Some(SpecValue::Block(SpecBlock::Values(vals))) };
    assert(parse_statement_spec(t, 0) == Ok::<(SpecStatement, int), SpecParseError>((st, 6)));
    assert(seq![st] + Seq::<SpecStatement>::empty() =~= seq![st]);
}

/// A block whose first two entries are identifiers on one line is a list of
/// values: for any identifiers `k`, `a` and `b`, `k = { a b }` parses to one
/// statement `k` whose value is the block of values `a`, `b`.
pub proof fn lemma_identifier_pair_block_is_values(k: Seq<char>, a: Seq<char>, b: Seq<char>)
    requires
        identifier_word(k),
        identifier_word(a),
        identifier_word(b),
    ensures
        spec_parse_document(pair_block_text(k, a, b)) == Ok::<Seq<SpecStatement>, SpecParseError>(
            seq![
                SpecStatement {
                    key: k,
                    value: Some(
                        SpecValue::Block(
                            SpecBlock::Values(
                                seq![SpecValue::Identifier(a), SpecValue::Identifier(b)],
                            ),
                        ),
                    ),
                },
            ],
        ),
{
    lemma_pair_block_tokenizes(k, a, b);
    let t = spec_tokenize(pair_block_text(k, a, b))->Ok_0;
    lemma_pair_block_tokens_parse_as_values(t, k, a, b);
}

} // verus!
