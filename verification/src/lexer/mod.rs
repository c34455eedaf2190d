//! The lexer of the scripting language: from source text to tokens.

use vstd::prelude::*;
use crate::text::{chars_of, push_str_chars, str_eq, string_of, string_of_range};

verus! {

/// An arithmetic operator.
#[derive(Debug, PartialEq, Eq, Structural, Clone, Copy)]
pub enum Operator {
    Add,
    Subtract,
    Multiply,
    Divide,
}

/// A comparison operator.
#[derive(Debug, PartialEq, Eq, Structural, Clone, Copy)]
pub enum Comparison {
    Equal,
    NotEqual,
    LessThan,
    LessThanOrEqual,
    GreaterThan,
    GreaterThanOrEqual,
}

/// What a token is.
#[derive(Debug, PartialEq, Eq)]
pub enum TokenType {
    KWLet,
    KWFn,
    KWReturn,
    KWIf,
    KWWhile,
    Identifier(String),
    Number(i32),
    String(String),
    Operator(Operator),
    Comparison(Comparison),
    Assign,
    BracketOpen,
    BracketClose,
    BraceOpen,
    BraceClose,
    Comma,
    Semicolon,
    Dot,
    /// The name before a dot, as `std` in `std.print`.
    ObjectName(String),
    Comment(String),
}

/// What a token is, with text as sequences of characters.
pub ghost enum TokenKind {
    KWLet,
    KWFn,
    KWReturn,
    KWIf,
    KWWhile,
    Identifier(Seq<char>),
    Number(i32),
    String(Seq<char>),
    Operator(Operator),
    Comparison(Comparison),
    Assign,
    BracketOpen,
    BracketClose,
    BraceOpen,
    BraceClose,
    Comma,
    Semicolon,
    Dot,
    ObjectName(Seq<char>),
    Comment(Seq<char>),
}

impl View for TokenType {
    type V = TokenKind;

    open spec fn view(&self) -> TokenKind {
        match self {
            TokenType::KWLet => TokenKind::KWLet,
            TokenType::KWFn => TokenKind::KWFn,
            TokenType::KWReturn => TokenKind::KWReturn,
            TokenType::KWIf => TokenKind::KWIf,
            TokenType::KWWhile => TokenKind::KWWhile,
            TokenType::Identifier(name) => TokenKind::Identifier(name@),
            TokenType::Number(n) => TokenKind::Number(*n),
            TokenType::String(text) => TokenKind::String(text@),
            TokenType::Operator(op) => TokenKind::Operator(*op),
            TokenType::Comparison(op) => TokenKind::Comparison(*op),
            TokenType::Assign => TokenKind::Assign,
            TokenType::BracketOpen => TokenKind::BracketOpen,
            TokenType::BracketClose => TokenKind::BracketClose,
            TokenType::BraceOpen => TokenKind::BraceOpen,
            TokenType::BraceClose => TokenKind::BraceClose,
            TokenType::Comma => TokenKind::Comma,
            TokenType::Semicolon => TokenKind::Semicolon,
            TokenType::Dot => TokenKind::Dot,
            TokenType::ObjectName(name) => TokenKind::ObjectName(name@),
            TokenType::Comment(text) => TokenKind::Comment(text@),
        }
    }
}

impl Clone for TokenType {
    fn clone(&self) -> (r: Self)
        ensures
            r@ == self@,
    {
        match self {
            TokenType::KWLet => TokenType::KWLet,
            TokenType::KWFn => TokenType::KWFn,
            TokenType::KWReturn => TokenType::KWReturn,
            TokenType::KWIf => TokenType::KWIf,
            TokenType::KWWhile => TokenType::KWWhile,
            TokenType::Identifier(name) => TokenType::Identifier(name.clone()),
            TokenType::Number(n) => TokenType::Number(*n),
            TokenType::String(text) => TokenType::String(text.clone()),
            TokenType::Operator(op) => TokenType::Operator(*op),
            TokenType::Comparison(op) => TokenType::Comparison(*op),
            TokenType::Assign => TokenType::Assign,
            TokenType::BracketOpen => TokenType::BracketOpen,
            TokenType::BracketClose => TokenType::BracketClose,
            TokenType::BraceOpen => TokenType::BraceOpen,
            TokenType::BraceClose => TokenType::BraceClose,
            TokenType::Comma => TokenType::Comma,
            TokenType::Semicolon => TokenType::Semicolon,
            TokenType::Dot => TokenType::Dot,
            TokenType::ObjectName(name) => TokenType::ObjectName(name.clone()),
            TokenType::Comment(text) => TokenType::Comment(text.clone()),
        }
    }
}

impl TokenType {
    /// The text of the token as it is written in a program.
    pub open spec fn text(kind: TokenKind) -> Seq<char> {
        match kind {
            TokenKind::KWLet => "let"@,
            TokenKind::KWFn => "fn"@,
            TokenKind::KWReturn => "return"@,
            TokenKind::KWIf => "if"@,
            TokenKind::KWWhile => "while"@,
            TokenKind::Identifier(name) => name,
            TokenKind::Number(n) => crate::text::signed_decimal(n as int),
            TokenKind::String(text) => text,
            TokenKind::Operator(op) => match op {
                Operator::Add => "+"@,
                Operator::Subtract => "-"@,
                Operator::Multiply => "*"@,
                Operator::Divide => "/"@,
            },
            TokenKind::Comparison(op) => match op {
                Comparison::Equal => "=="@,
                Comparison::NotEqual => "!="@,
                Comparison::LessThan => "<"@,
                Comparison::LessThanOrEqual => "<="@,
                Comparison::GreaterThan => ">"@,
                Comparison::GreaterThanOrEqual => ">="@,
            },
            TokenKind::Assign => "="@,
            TokenKind::BracketOpen => "("@,
            TokenKind::BracketClose => ")"@,
            TokenKind::BraceOpen => "{"@,
            TokenKind::BraceClose => "}"@,
            TokenKind::Comma => ","@,
            TokenKind::Semicolon => ";"@,
            TokenKind::Dot => "."@,
            TokenKind::ObjectName(name) => name,
            TokenKind::Comment(text) => text,
        }
    }

    /// The text of the token as it is written in a program.
    pub fn into_string(self) -> (s: String)
        ensures
            s@ == Self::text(self@),
    {
        match self {
            TokenType::KWLet => "let".to_owned(),
            TokenType::KWFn => "fn".to_owned(),
            TokenType::KWReturn => "return".to_owned(),
            TokenType::KWIf => "if".to_owned(),
            TokenType::KWWhile => "while".to_owned(),
            TokenType::Identifier(name) => name,
            TokenType::Number(num) => crate::text::decimal_string(num as i64),
            TokenType::String(text) => text,
            TokenType::Operator(op) => op.into_string(),
            TokenType::Comparison(op) => op.into_string(),
            TokenType::Assign => "=".to_owned(),
            TokenType::BracketOpen => "(".to_owned(),
            TokenType::BracketClose => ")".to_owned(),
            TokenType::BraceOpen => "{".to_owned(),
            TokenType::BraceClose => "}".to_owned(),
            TokenType::Comma => ",".to_owned(),
            TokenType::Semicolon => ";".to_owned(),
            TokenType::Dot => ".".to_owned(),
            TokenType::ObjectName(name) => name,
            TokenType::Comment(comment) => comment,
        }
    }
}

impl Operator {
    /// The sign of the operator.
    pub fn into_string(self) -> (s: String)
        ensures
            s@ == TokenType::text(TokenKind::Operator(self)),
    {
        match self {
            Operator::Add => "+".to_owned(),
            Operator::Subtract => "-".to_owned(),
            Operator::Multiply => "*".to_owned(),
            Operator::Divide => "/".to_owned(),
        }
    }
}

impl Comparison {
    /// The sign of the comparison.
    pub fn into_string(self) -> (s: String)
        ensures
            s@ == TokenType::text(TokenKind::Comparison(self)),
    {
        match self {
            Comparison::Equal => "==".to_owned(),
            Comparison::NotEqual => "!=".to_owned(),
            Comparison::LessThan => "<".to_owned(),
            Comparison::LessThanOrEqual => "<=".to_owned(),
            Comparison::GreaterThan => ">".to_owned(),
            Comparison::GreaterThanOrEqual => ">=".to_owned(),
        }
    }
}

/// A token with the place where it was read.
#[derive(Debug, PartialEq, Eq)]
pub struct Token {
    pub token: TokenType,
    pub line: u32,
    pub column: u32,
}

/// A token with text as a sequence of characters.
pub ghost struct TokenModel {
    pub kind: TokenKind,
    pub line: u32,
    pub column: u32,
}

impl View for Token {
    type V = TokenModel;

    open spec fn view(&self) -> TokenModel {
        TokenModel { kind: self.token@, line: self.line, column: self.column }
    }
}

impl Clone for Token {
    fn clone(&self) -> (r: Self)
        ensures
            r@ == self@,
    {
        Token { token: self.token.clone(), line: self.line, column: self.column }
    }
}

impl Token {
    /// A token read at the given place.
    pub fn new(token: TokenType, line: u32, column: u32) -> (t: Self)
        ensures
            t.token == token,
            t.line == line,
            t.column == column,
    {
        Token { token, line, column }
    }
}

/// The tokens of a list, with text as sequences of characters.
pub open spec fn tokens_model(tokens: Seq<Token>) -> Seq<TokenModel> {
    tokens.map_values(|t: Token| t@)
}

/// `char::is_alphabetic` of the standard library, by character.
pub uninterp spec fn alphabetic(c: char) -> bool;

/// `char::is_alphanumeric` of the standard library, by character.
pub uninterp spec fn alphanumeric(c: char) -> bool;

/// `char::is_alphabetic`: whether the character has the Unicode property
/// Alphabetic.
#[verifier::external_body]
fn is_alphabetic(c: char) -> (r: bool)
    ensures
        r == alphabetic(c),
{
    c.is_alphabetic()
}

/// `char::is_alphanumeric`: whether the character is alphabetic or
/// numeric in Unicode.
#[verifier::external_body]
fn is_alphanumeric(c: char) -> (r: bool)
    ensures
        r == alphanumeric(c),
{
    c.is_alphanumeric()
}

/// True for the ten ASCII digits.
pub open spec fn is_digit(c: char) -> bool {
    '0' <= c <= '9'
}

/// True for a character that can start a word.
pub open spec fn starts_word(c: char) -> bool {
    alphabetic(c) || c == '_'
}

/// True for a character that can continue a word.
pub open spec fn in_word(c: char) -> bool {
    alphanumeric(c) || c == '_'
}

/// The successor of a line or column number; the largest number is
/// followed by 0.
pub open spec fn bump(n: u32) -> u32 {
    if n == u32::MAX {
        0
    } else {
        (n + 1) as u32
    }
}

/// The place after the rest of a line: after the first line feed at or
/// after `pos`, or the end of the text.
pub open spec fn line_end(chars: Seq<char>, pos: int) -> int
    decreases chars.len() - pos,
{
    if pos < 0 || pos >= chars.len() {
        pos
    } else if chars[pos] == '\n' {
        pos + 1
    } else {
        line_end(chars, pos + 1)
    }
}

/// True when the rest of the line from `pos` ends in a line feed.
pub open spec fn line_ends_in_feed(chars: Seq<char>, pos: int) -> bool {
    line_end(chars, pos) > pos && chars[line_end(chars, pos) - 1] == '\n'
}

/// The place of the first double quote at or after `pos`, or the end of
/// the text.
pub open spec fn quote_end(chars: Seq<char>, pos: int) -> int
    decreases chars.len() - pos,
{
    if pos < 0 || pos >= chars.len() {
        pos
    } else if chars[pos] == '"' {
        pos
    } else {
        quote_end(chars, pos + 1)
    }
}

/// The place after the digits that start at `pos`.
pub open spec fn digits_end(chars: Seq<char>, pos: int) -> int
    decreases chars.len() - pos,
{
    if 0 <= pos < chars.len() && is_digit(chars[pos]) {
        digits_end(chars, pos + 1)
    } else {
        pos
    }
}

/// The number that a run of digits writes.
pub open spec fn digits_number(digits: Seq<char>) -> nat
    decreases digits.len(),
{
    if digits.len() == 0 {
        0
    } else {
        digits_number(digits.drop_last()) * 10 + (digits.last() as nat - 48) as nat
    }
}

/// The token of a word: a keyword, or else an identifier.
pub open spec fn word_kind(word: Seq<char>) -> TokenKind {
    if word == "let"@ || word == "var"@ || word == "const"@ {
        TokenKind::KWLet
    } else if word == "fn"@ || word == "function"@ || word == "def"@ {
        TokenKind::KWFn
    } else if word == "return"@ {
        TokenKind::KWReturn
    } else if word == "if"@ {
        TokenKind::KWIf
    } else if word == "while"@ {
        TokenKind::KWWhile
    } else {
        TokenKind::Identifier(word)
    }
}

/// The place after a dotted word whose current part started at `start` and
/// has been read up to `pos`.
pub open spec fn word_end(chars: Seq<char>, pos: int) -> int
    decreases chars.len() - pos,
{
    if 0 <= pos < chars.len() && (in_word(chars[pos]) || chars[pos] == '.') {
        word_end(chars, pos + 1)
    } else {
        pos
    }
}

/// The tokens of a dotted word whose current part started at `start` and
/// has been read up to `pos`: an object name for each part that a dot
/// follows, then the token of the last part, which may be empty.
pub open spec fn word_tokens(chars: Seq<char>, start: int, pos: int, line: u32, column: u32) -> Seq<
    TokenModel,
>
    decreases chars.len() - pos,
{
    if 0 <= start <= pos < chars.len() && in_word(chars[pos]) {
        word_tokens(chars, start, pos + 1, line, column)
    } else if 0 <= start <= pos < chars.len() && chars[pos] == '.' {
        seq![
            TokenModel { kind: TokenKind::ObjectName(chars.subrange(start, pos)), line, column },
        ] + word_tokens(chars, pos + 1, pos + 1, line, column)
    } else if 0 <= start <= pos <= chars.len() {
        seq![TokenModel { kind: word_kind(chars.subrange(start, pos)), line, column }]
    } else {
        Seq::empty()
    }
}

/// The token of a character that is a token by itself.
pub open spec fn single_kind(c: char) -> Option<TokenKind> {
    if c == ';' {
        Some(TokenKind::Semicolon)
    } else if c == ',' {
        Some(TokenKind::Comma)
    } else if c == '.' {
        Some(TokenKind::Dot)
    } else if c == '(' {
        Some(TokenKind::BracketOpen)
    } else if c == ')' {
        Some(TokenKind::BracketClose)
    } else if c == '{' {
        Some(TokenKind::BraceOpen)
    } else if c == '}' {
        Some(TokenKind::BraceClose)
    } else if c == '+' {
        Some(TokenKind::Operator(Operator::Add))
    } else if c == '-' {
        Some(TokenKind::Operator(Operator::Subtract))
    } else if c == '*' {
        Some(TokenKind::Operator(Operator::Multiply))
    } else {
        None
    }
}

/// One step of the lexer at `pos`, where the text has not ended: the
/// tokens read, the place to go on from, and whether a line feed was
/// consumed, after which the next character is the first of a new line.
///
/// Blanks are skipped. `//` and `#` start a comment that runs to the end of
/// the line; the character after `#` is skipped unread. A double quote
/// starts a string that runs to the next double quote. Digits make a
/// number, which is dropped when it does not fit thirty-two bits. A letter
/// or underscore starts a dotted word. `!` alone, and any other character,
/// is skipped.
pub open spec fn lex_step(chars: Seq<char>, pos: int, line: u32, column: u32) -> (
    Seq<TokenModel>,
    int,
    bool,
) {
    let c = chars[pos];
    let followed_by_equal = pos + 1 < chars.len() && chars[pos + 1] == '=';
    let one = |kind: TokenKind| seq![TokenModel { kind, line, column }];
    if c == '\n' {
        (Seq::empty(), pos + 1, true)
    } else if c == ' ' || c == '\t' {
        (Seq::empty(), pos + 1, false)
    } else if single_kind(c) is Some {
        (one(single_kind(c)->0), pos + 1, false)
    } else if c == '/' {
        if pos + 1 < chars.len() && chars[pos + 1] == '/' {
            (Seq::empty(), line_end(chars, pos + 2), line_ends_in_feed(chars, pos + 2))
        } else {
            (one(TokenKind::Operator(Operator::Divide)), pos + 1, false)
        }
    } else if c == '#' {
        let from = if pos + 2 <= chars.len() {
            pos + 2
        } else {
            pos + 1
        };
        (Seq::empty(), line_end(chars, from), line_ends_in_feed(chars, from))
    } else if c == '=' {
        if followed_by_equal {
            (one(TokenKind::Comparison(Comparison::Equal)), pos + 2, false)
        } else {
            (one(TokenKind::Assign), pos + 1, false)
        }
    } else if c == '!' {
        if followed_by_equal {
            (one(TokenKind::Comparison(Comparison::NotEqual)), pos + 2, false)
        } else {
            (Seq::empty(), pos + 1, false)
        }
    } else if c == '<' {
        if followed_by_equal {
            (one(TokenKind::Comparison(Comparison::LessThanOrEqual)), pos + 2, false)
        } else {
            (one(TokenKind::Comparison(Comparison::LessThan)), pos + 1, false)
        }
    } else if c == '>' {
        if followed_by_equal {
            (one(TokenKind::Comparison(Comparison::GreaterThanOrEqual)), pos + 2, false)
        } else {
            (one(TokenKind::Comparison(Comparison::GreaterThan)), pos + 1, false)
        }
    } else if c == '"' {
        let close = quote_end(chars, pos + 1);
        (
            one(TokenKind::String(chars.subrange(pos + 1, close))),
            if close < chars.len() {
                close + 1
            } else {
                close
            },
            false,
        )
    } else if is_digit(c) {
        let end = digits_end(chars, pos + 1);
        let value = digits_number(chars.subrange(pos, end));
        (
            if value <= i32::MAX {
                one(TokenKind::Number(value as i32))
            } else {
                Seq::empty()
            },
            end,
            false,
        )
    } else if starts_word(c) {
        (word_tokens(chars, pos, pos + 1, line, column), word_end(chars, pos + 1), false)
    } else {
        (Seq::empty(), pos + 1, false)
    }
}

/// The tokens of the text from `pos` on, read at the given line with
/// `column` characters counted on it so far. Every step counts as one
/// column, whatever the number of characters it reads.
pub open spec fn lex(chars: Seq<char>, pos: int, line: u32, column: u32) -> Seq<TokenModel>
    decreases chars.len() - pos,
{
    if pos < 0 || pos >= chars.len() {
        Seq::empty()
    } else {
        let (tokens, next, fed) = lex_step(chars, pos, line, bump(column));
        if next <= pos || next > chars.len() {
            tokens
        } else if fed {
            tokens + lex(chars, next, bump(line), 0)
        } else {
            tokens + lex(chars, next, line, bump(column))
        }
    }
}

/// The successor of a line or column number.
fn next_number(n: u32) -> (r: u32)
    ensures
        r == bump(n),
{
    if n == u32::MAX {
        0
    } else {
        n + 1
    }
}

/// Adds a token to the end of the list.
fn push_token(tokens: &mut Vec<Token>, token: TokenType, line: u32, column: u32)
    ensures
        tokens_model(final(tokens)@) == tokens_model(old(tokens)@).push(
            TokenModel { kind: token@, line, column },
        ),
{
    tokens.push(Token::new(token, line, column));
    assert(tokens_model(tokens@) =~= tokens_model(old(tokens)@).push(
        TokenModel { kind: token@, line, column },
    ));
}

/// Skips the rest of a line: the place after it, and whether it ended in a
/// line feed.
fn skip_line(chars: &Vec<char>, pos: usize) -> (r: (usize, bool))
    requires
        pos <= chars.len(),
    ensures
        r.0 == line_end(chars@, pos as int),
        r.1 == line_ends_in_feed(chars@, pos as int),
        pos <= r.0 <= chars.len(),
{
    let mut i: usize = pos;
    while i < chars.len()
        invariant
            pos <= i <= chars.len(),
            line_end(chars@, pos as int) == line_end(chars@, i as int),
            forall|j: int| pos <= j < i ==> chars[j] != '\n',
        decreases chars.len() - i,
    {
        if chars[i] == '\n' {
            return (i + 1, true);
        }
        i += 1;
    }
    (i, false)
}

/// Finds the double quote that closes a string.
fn find_quote(chars: &Vec<char>, pos: usize) -> (r: usize)
    requires
        pos <= chars.len(),
    ensures
        r == quote_end(chars@, pos as int),
        pos <= r <= chars.len(),
{
    let mut i: usize = pos;
    while i < chars.len() && chars[i] != '"'
        invariant
            pos <= i <= chars.len(),
            quote_end(chars@, pos as int) == quote_end(chars@, i as int),
        decreases chars.len() - i,
    {
        i += 1;
    }
    i
}

/// Finds the end of a run of digits.
fn scan_digits(chars: &Vec<char>, pos: usize) -> (r: usize)
    requires
        pos <= chars.len(),
    ensures
        r == digits_end(chars@, pos as int),
        pos <= r <= chars.len(),
        forall|j: int| pos <= j < r ==> is_digit(chars[j]),
{
    let mut i: usize = pos;
    while i < chars.len() && chars[i] >= '0' && chars[i] <= '9'
        invariant
            pos <= i <= chars.len(),
            digits_end(chars@, pos as int) == digits_end(chars@, i as int),
            forall|j: int| pos <= j < i ==> is_digit(chars[j]),
        decreases chars.len() - i,
    {
        i += 1;
    }
    i
}

/// More digits never write a smaller number.
proof fn lemma_digits_number_grows(chars: Seq<char>, start: int, mid: int, end: int)
    requires
        0 <= start <= mid <= end <= chars.len(),
        forall|j: int| start <= j < end ==> is_digit(chars[j]),
    ensures
        digits_number(chars.subrange(start, mid)) <= digits_number(chars.subrange(start, end)),
    decreases end - mid,
{
    if mid < end {
        lemma_digits_number_grows(chars, start, mid, end - 1);
        assert(chars.subrange(start, end).drop_last() =~= chars.subrange(start, end - 1));
    }
}

/// The number that the digits `chars[start..end]` write, if it fits.
fn number_of(chars: &Vec<char>, start: usize, end: usize) -> (r: Option<i32>)
    requires
        start <= end <= chars.len(),
        forall|j: int| start <= j < end ==> is_digit(chars[j]),
    ensures
        match r {
            Some(n) => digits_number(chars@.subrange(start as int, end as int)) == n,
            None => digits_number(chars@.subrange(start as int, end as int)) > i32::MAX,
        },
{
    let mut value: u64 = 0;
    let mut i: usize = start;
    assert(chars@.subrange(start as int, start as int) =~= Seq::<char>::empty());
    while i < end
        invariant
            start <= i <= end <= chars.len(),
            forall|j: int| start <= j < end ==> is_digit(chars[j]),
            value == digits_number(chars@.subrange(start as int, i as int)),
            value <= i32::MAX,
        decreases end - i,
    {
        let d: u64 = (chars[i] as u32 - 48) as u64;
        proof {
            assert(chars@.subrange(start as int, i + 1).drop_last() =~= chars@.subrange(
                start as int,
                i as int,
            ));
        }
        value = value * 10 + d;
        if value > i32::MAX as u64 {
            proof {
                lemma_digits_number_grows(chars@, start as int, i + 1, end as int);
            }
            return None;
        }
        i += 1;
    }
    Some(value as i32)
}

/// The token of a word.
fn word_token(word: String) -> (token: TokenType)
    ensures
        token@ == word_kind(word@),
{
    let w = word.as_str();
    if str_eq(w, "let") || str_eq(w, "var") || str_eq(w, "const") {
        TokenType::KWLet
    } else if str_eq(w, "fn") || str_eq(w, "function") || str_eq(w, "def") {
        TokenType::KWFn
    } else if str_eq(w, "return") {
        TokenType::KWReturn
    } else if str_eq(w, "if") {
        TokenType::KWIf
    } else if str_eq(w, "while") {
        TokenType::KWWhile
    } else {
        TokenType::Identifier(word)
    }
}

/// Reads a dotted word whose first character is at `pos - 1`, and adds its
/// tokens to the list. Returns the place after the word.
fn scan_word(chars: &Vec<char>, pos: usize, line: u32, column: u32, tokens: &mut Vec<Token>) -> (r:
    usize)
    requires
        1 <= pos <= chars.len(),
    ensures
        tokens_model(final(tokens)@) == tokens_model(old(tokens)@) + word_tokens(
            chars@,
            pos - 1,
            pos as int,
            line,
            column,
        ),
        r == word_end(chars@, pos as int),
        pos <= r <= chars.len(),
{
    let mut start: usize = pos - 1;
    let mut i: usize = pos;
    loop
        invariant
            start <= i <= chars.len(),
            pos <= i,
            word_end(chars@, pos as int) == word_end(chars@, i as int),
            tokens_model(tokens@) + word_tokens(chars@, start as int, i as int, line, column)
                == tokens_model(old(tokens)@) + word_tokens(
                chars@,
                pos - 1,
                pos as int,
                line,
                column,
            ),
        ensures
            start <= i <= chars.len(),
            pos <= i,
            i == word_end(chars@, pos as int),
            tokens_model(tokens@) + seq![
                TokenModel {
                    kind: word_kind(chars@.subrange(start as int, i as int)),
                    line,
                    column,
                },
            ] == tokens_model(old(tokens)@) + word_tokens(
                chars@,
                pos - 1,
                pos as int,
                line,
                column,
            ),
        decreases chars.len() - i,
    {
        if i < chars.len() && (is_alphanumeric(chars[i]) || chars[i] == '_') {
            i += 1;
        } else if i < chars.len() && chars[i] == '.' {
            let ghost before = tokens_model(tokens@);
            let name = string_of_range(chars, start, i);
            push_token(tokens, TokenType::ObjectName(name), line, column);
            proof {
                let head = seq![
                    TokenModel {
                        kind: TokenKind::ObjectName(chars@.subrange(start as int, i as int)),
                        line,
                        column,
                    },
                ];
                let rest = word_tokens(chars@, i + 1, i + 1, line, column);
                assert(before.push(head[0]) + rest =~= before + (head + rest));
            }
            start = i + 1;
            i += 1;
        } else {
            break ;
        }
    }
    let ghost before = tokens_model(tokens@);
    let word = string_of_range(chars, start, i);
    push_token(tokens, word_token(word), line, column);
    proof {
        let last = TokenModel {
            kind: word_kind(chars@.subrange(start as int, i as int)),
            line,
            column,
        };
        assert(before.push(last) =~= before + seq![last]);
    }
    i
}

/// One step of the lexer: reads what starts at `pos`, adds the tokens read
/// to the list, and returns the place to go on from and whether a line
/// feed was consumed.
fn step(chars: &Vec<char>, pos: usize, line: u32, column: u32, tokens: &mut Vec<Token>) -> (r: (
    usize,
    bool,
))
    requires
        pos < chars.len(),
    ensures
        tokens_model(final(tokens)@) == tokens_model(old(tokens)@) + lex_step(
            chars@,
            pos as int,
            line,
            column,
        ).0,
        r.0 == lex_step(chars@, pos as int, line, column).1,
        r.1 == lex_step(chars@, pos as int, line, column).2,
        pos < r.0 <= chars.len(),
{
    let c = chars[pos];
    let followed_by_equal = pos + 1 < chars.len() && chars[pos + 1] == '=';
    let ghost before = tokens_model(tokens@);
    let ghost want = lex_step(chars@, pos as int, line, column).0;
    let single: Option<TokenType> = match c {
        ';' => Some(TokenType::Semicolon),
        ',' => Some(TokenType::Comma),
        '.' => Some(TokenType::Dot),
        '(' => Some(TokenType::BracketOpen),
        ')' => Some(TokenType::BracketClose),
        '{' => Some(TokenType::BraceOpen),
        '}' => Some(TokenType::BraceClose),
        '+' => Some(TokenType::Operator(Operator::Add)),
        '-' => Some(TokenType::Operator(Operator::Subtract)),
        '*' => Some(TokenType::Operator(Operator::Multiply)),
        _ => None,
    };
    if c == '\n' {
        assert(before + want =~= before);
        return (pos + 1, true);
    }
    if c == ' ' || c == '\t' {
        assert(before + want =~= before);
        return (pos + 1, false);
    }
    if let Some(token) = single {
        push_token(tokens, token, line, column);
        assert(before.push(want[0]) =~= before + want);
        return (pos + 1, false);
    }
    if c == '/' {
        if pos + 1 < chars.len() && chars[pos + 1] == '/' {
            assert(before + want =~= before);
            return skip_line(chars, pos + 2);
        }
        push_token(tokens, TokenType::Operator(Operator::Divide), line, column);
        assert(before.push(want[0]) =~= before + want);
        return (pos + 1, false);
    }
    if c == '#' {
        let from = if chars.len() - pos >= 2 {
            pos + 2
        } else {
            pos + 1
        };
        assert(before + want =~= before);
        return skip_line(chars, from);
    }
    if c == '=' || c == '!' || c == '<' || c == '>' {
        let token = if followed_by_equal {
            match c {
                '=' => Some(TokenType::Comparison(Comparison::Equal)),
                '!' => Some(TokenType::Comparison(Comparison::NotEqual)),
                '<' => Some(TokenType::Comparison(Comparison::LessThanOrEqual)),
                _ => Some(TokenType::Comparison(Comparison::GreaterThanOrEqual)),
            }
        } else {
            match c {
                '=' => Some(TokenType::Assign),
                '!' => None,
                '<' => Some(TokenType::Comparison(Comparison::LessThan)),
                _ => Some(TokenType::Comparison(Comparison::GreaterThan)),
            }
        };
        match token {
            Some(token) => {
                push_token(tokens, token, line, column);
                assert(before.push(want[0]) =~= before + want);
            },
            None => {
                assert(before + want =~= before);
            },
        }
        return (
            if followed_by_equal {
                pos + 2
            } else {
                pos + 1
            },
            false,
        );
    }
    if c == '"' {
        let close = find_quote(chars, pos + 1);
        let text = string_of_range(chars, pos + 1, close);
        push_token(tokens, TokenType::String(text), line, column);
        assert(before.push(want[0]) =~= before + want);
        return (
            if close < chars.len() {
                close + 1
            } else {
                close
            },
            false,
        );
    }
    if c >= '0' && c <= '9' {
        let end = scan_digits(chars, pos + 1);
        match number_of(chars, pos, end) {
            Some(n) => {
                push_token(tokens, TokenType::Number(n), line, column);
                assert(before.push(want[0]) =~= before + want);
            },
            None => {
                assert(before + want =~= before);
            },
        }
        return (end, false);
    }
    if is_alphabetic(c) || c == '_' {
        let end = scan_word(chars, pos + 1, line, column, tokens);
        return (end, false);
    }
    assert(before + want =~= before);
    (pos + 1, false)
}

/// The tokens of a list of characters.
pub fn tokenize_chars(chars: &Vec<char>) -> (tokens: Vec<Token>)
    ensures
        tokens_model(tokens@) == lex(chars@, 0, 0, 0),
{
    let mut tokens: Vec<Token> = Vec::new();
    let mut pos: usize = 0;
    let mut line: u32 = 0;
    let mut column: u32 = 0;
    assert(tokens_model(tokens@) + lex(chars@, 0, 0, 0) =~= lex(chars@, 0, 0, 0));
    while pos < chars.len()
        invariant
            pos <= chars.len(),
            tokens_model(tokens@) + lex(chars@, pos as int, line, column) == lex(chars@, 0, 0, 0),
        decreases chars.len() - pos,
    {
        let ghost before = tokens_model(tokens@);
        let ghost rest = lex(chars@, pos as int, line, column);
        column = next_number(column);
        let (next, fed) = step(chars, pos, line, column, &mut tokens);
        proof {
            let read = lex_step(chars@, pos as int, line, column).0;
            if fed {
                assert(before + read + lex(chars@, next as int, bump(line), 0) =~= before + rest);
            } else {
                assert(before + read + lex(chars@, next as int, line, column) =~= before + rest);
            }
        }
        if fed {
            line = next_number(line);
            column = 0;
        }
        pos = next;
    }
    assert(tokens_model(tokens@) + Seq::<TokenModel>::empty() =~= tokens_model(tokens@));
    tokens
}

/// The tokens of a program.
pub fn tokenize(input: String) -> (tokens: Vec<Token>)
    ensures
        tokens_model(tokens@) == lex(input@, 0, 0, 0),
{
    let chars = chars_of(input.as_str());
    tokenize_chars(&chars)
}

/// The lines of a text as `str::lines` of the standard library gives
/// them: the text split at line endings, without the line endings.
pub uninterp spec fn text_lines(text: Seq<char>) -> Seq<Seq<char>>;

/// A text without the white space at its end, as `str::trim_end` of the
/// standard library gives it.
pub uninterp spec fn trimmed_end(text: Seq<char>) -> Seq<char>;

/// `str::lines`: the lines of the text, each without its line ending.
#[verifier::external_body]
fn lines_of(input: &str) -> (lines: Vec<String>)
    ensures
        lines@.map_values(|line: String| line@) == text_lines(input@),
{
    input.lines().map(|line| line.to_owned()).collect()
}

/// `str::trim_end`: the text without the white space at its end.
#[verifier::external_body]
fn trim_end(line: &str) -> (trimmed: &str)
    ensures
        trimmed@ == trimmed_end(line@),
{
    line.trim_end()
}

/// True for a character after which a line needs no semicolon.
pub open spec fn closes_line(c: char) -> bool {
    c == ';' || c == '{' || c == '}' || c == ',' || c == '('
}

/// A line as it stands after the fix, given the line without the white
/// space at its end: where that is not empty and does not end in one of
/// `; { } , (`, it is taken and a semicolon is put after it; otherwise the
/// line stays as it is. Every line ends in a line feed.
pub open spec fn fixed_line(line: Seq<char>, trimmed: Seq<char>) -> Seq<char> {
    if trimmed.len() > 0 && !closes_line(trimmed.last()) {
        trimmed + seq![';', '\n']
    } else {
        line + seq!['\n']
    }
}

/// The fixed lines one after the other.
pub open spec fn fixed_lines(lines: Seq<Seq<char>>) -> Seq<char>
    decreases lines.len(),
{
    if lines.len() == 0 {
        Seq::empty()
    } else {
        fixed_lines(lines.drop_last()) + fixed_line(lines.last(), trimmed_end(lines.last()))
    }
}

/// Appends a fixed line to `out`.
fn push_fixed_line(out: &mut Vec<char>, line: &str, trimmed: &str)
    ensures
        final(out)@ == old(out)@ + fixed_line(line@, trimmed@),
{
    let t = chars_of(trimmed);
    let needs_semicolon = t.len() > 0 && {
        let last = t[t.len() - 1];
        !(last == ';' || last == '{' || last == '}' || last == ',' || last == '(')
    };
    if needs_semicolon {
        push_str_chars(out, trimmed);
        out.push(';');
        out.push('\n');
        assert(out@ =~= old(out)@ + (trimmed@ + seq![';', '\n']));
    } else {
        push_str_chars(out, line);
        out.push('\n');
        assert(out@ =~= old(out)@ + (line@ + seq!['\n']));
    }
}

/// A line after the fix, given the line without the white space at its
/// end.
pub fn fix_line(line: &str, trimmed: &str) -> (fixed: String)
    ensures
        fixed@ == fixed_line(line@, trimmed@),
{
    let mut out: Vec<char> = Vec::new();
    push_fixed_line(&mut out, line, trimmed);
    assert(out@ =~= fixed_line(line@, trimmed@));
    string_of(&out)
}

/// The text made of the given lines, each fixed.
pub fn fix_lines(lines: &Vec<String>) -> (output: String)
    ensures
        output@ == fixed_lines(lines@.map_values(|line: String| line@)),
{
    let mut out: Vec<char> = Vec::new();
    let ghost all = lines@.map_values(|line: String| line@);
    let mut i: usize = 0;
    assert(all.take(0) =~= Seq::<Seq<char>>::empty());
    while i < lines.len()
        invariant
            i <= lines.len(),
            all == lines@.map_values(|line: String| line@),
            out@ == fixed_lines(all.take(i as int)),
        decreases lines.len() - i,
    {
        let line = lines[i].as_str();
        push_fixed_line(&mut out, line, trim_end(line));
        proof {
            assert(all.take(i + 1).drop_last() =~= all.take(i as int));
            assert(all.take(i + 1).last() == lines[i as int]@);
        }
        i += 1;
    }
    assert(all.take(i as int) =~= all);
    string_of(&out)
}

/// Mends a program in which lines lack their semicolon: every line that
/// does not end in one of `; { } , (` gets one.
pub fn autofix(input: &str) -> (output: String)
    ensures
        output@ == fixed_lines(text_lines(input@)),
{
    let lines = lines_of(input);
    fix_lines(&lines)
}

} // verus!
