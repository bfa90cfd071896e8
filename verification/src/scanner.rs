//! The scanner: turns the text of a program into tokens.
use vstd::prelude::*;

use crate::reader::Source;
use crate::{join_errors, joined, texts, LoxError};
use crate::text::{
    chars_of, debug_str, debug_string, decimal, decimal_string, push_char, string_from_chars,
};

verus! {

/// The kinds of token, with the text of identifiers, strings and numbers.
#[derive(Debug, PartialEq, Clone)]
pub enum TokenType {
    // Single-character tokens.
    LeftParen,
    RightParen,
    LeftBrace,
    RightBrace,
    Comma,
    Dot,
    Minus,
    Plus,
    Semicolon,
    Slash,
    Star,
    // One or two character tokens.
    Bang,
    BangEqual,
    Equal,
    EqualEqual,
    GreaterThan,
    GreaterThanEqual,
    LessThan,
    LessThanEqual,
    // Literals.
    Identifier(String),
    String(String),
    Number(String),
    // Keywords.
    And,
    Class,
    Else,
    False,
    Fun,
    For,
    If,
    Nil,
    Or,
    Print,
    Return,
    Super,
    This,
    True,
    Var,
    While,
    Eof,
}

/// A token kind as a mathematical value: texts are character sequences.
pub enum SpecTokenType {
    LeftParen,
    RightParen,
    LeftBrace,
    RightBrace,
    Comma,
    Dot,
    Minus,
    Plus,
    Semicolon,
    Slash,
    Star,
    Bang,
    BangEqual,
    Equal,
    EqualEqual,
    GreaterThan,
    GreaterThanEqual,
    LessThan,
    LessThanEqual,
    Identifier(Seq<char>),
    String(Seq<char>),
    Number(Seq<char>),
    And,
    Class,
    Else,
    False,
    Fun,
    For,
    If,
    Nil,
    Or,
    Print,
    Return,
    Super,
    This,
    True,
    Var,
    While,
    Eof,
}

impl View for TokenType {
    type V = SpecTokenType;

    open spec fn view(&self) -> SpecTokenType {
        match self {
            TokenType::LeftParen => SpecTokenType::LeftParen,
            TokenType::RightParen => SpecTokenType::RightParen,
            TokenType::LeftBrace => SpecTokenType::LeftBrace,
            TokenType::RightBrace => SpecTokenType::RightBrace,
            TokenType::Comma => SpecTokenType::Comma,
            TokenType::Dot => SpecTokenType::Dot,
            TokenType::Minus => SpecTokenType::Minus,
            TokenType::Plus => SpecTokenType::Plus,
            TokenType::Semicolon => SpecTokenType::Semicolon,
            TokenType::Slash => SpecTokenType::Slash,
            TokenType::Star => SpecTokenType::Star,
            TokenType::Bang => SpecTokenType::Bang,
            TokenType::BangEqual => SpecTokenType::BangEqual,
            TokenType::Equal => SpecTokenType::Equal,
            TokenType::EqualEqual => SpecTokenType::EqualEqual,
            TokenType::GreaterThan => SpecTokenType::GreaterThan,
            TokenType::GreaterThanEqual => SpecTokenType::GreaterThanEqual,
            TokenType::LessThan => SpecTokenType::LessThan,
            TokenType::LessThanEqual => SpecTokenType::LessThanEqual,
            TokenType::Identifier(s) => SpecTokenType::Identifier(s@),
            TokenType::String(s) => SpecTokenType::String(s@),
            TokenType::Number(s) => SpecTokenType::Number(s@),
            TokenType::And => SpecTokenType::And,
            TokenType::Class => SpecTokenType::Class,
            TokenType::Else => SpecTokenType::Else,
            TokenType::False => SpecTokenType::False,
            TokenType::Fun => SpecTokenType::Fun,
            TokenType::For => SpecTokenType::For,
            TokenType::If => SpecTokenType::If,
            TokenType::Nil => SpecTokenType::Nil,
            TokenType::Or => SpecTokenType::Or,
            TokenType::Print => SpecTokenType::Print,
            TokenType::Return => SpecTokenType::Return,
            TokenType::Super => SpecTokenType::Super,
            TokenType::This => SpecTokenType::This,
            TokenType::True => SpecTokenType::True,
            TokenType::Var => SpecTokenType::Var,
            TokenType::While => SpecTokenType::While,
            TokenType::Eof => SpecTokenType::Eof,
        }
    }
}

/// A token and the line it was found on.
#[derive(Debug, PartialEq, Clone)]
pub struct Token {
    pub value: TokenType,
    pub line: usize,
}

pub struct SpecToken {
    pub value: SpecTokenType,
    pub line: nat,
}

impl View for Token {
    type V = SpecToken;

    open spec fn view(&self) -> SpecToken {
        SpecToken { value: self.value@, line: self.line as nat }
    }
}

/// How a token is shown: its kind as `{:?}` writes it, then its line.
pub open spec fn token_text(t: SpecToken) -> Seq<char> {
    token_debug_text(t.value) + " @ line "@ + decimal(t.line)
}

impl Token {
    /// The token as text, for example `Semicolon @ line 3`.
    pub fn display_text(&self) -> (s: String)
        ensures
            s@ == token_text(self@),
    {
        let mut s = self.value.debug_text();
        s.append(" @ line ");
        s.append(decimal_string(self.line).as_str());
        s
    }
}

/// The tokens of a whole program; the last one is `Eof`.
#[derive(Debug, PartialEq)]
pub struct Tokens {
    pub tokens: Vec<Token>,
}

pub open spec fn tokens_view(ts: Seq<Token>) -> Seq<SpecToken> {
    ts.map_values(|t: Token| t@)
}

impl View for Tokens {
    type V = Seq<SpecToken>;

    open spec fn view(&self) -> Seq<SpecToken> {
        tokens_view(self.tokens@)
    }
}

/// What can go wrong while scanning.
#[derive(Debug, PartialEq)]
pub enum ScanError {
    UnexpectedCharacter { line: usize, character: char },
    FloatWithoutDecimals { line: usize, text: String },
    UnterminatedString { line: usize },
}

pub enum SpecScanError {
    UnexpectedCharacter { line: nat, character: char },
    FloatWithoutDecimals { line: nat, text: Seq<char> },
    UnterminatedString { line: nat },
}

impl View for ScanError {
    type V = SpecScanError;

    open spec fn view(&self) -> SpecScanError {
        match self {
            ScanError::UnexpectedCharacter { line, character } => SpecScanError::UnexpectedCharacter {
                line: *line as nat,
                character: *character,
            },
            ScanError::FloatWithoutDecimals { line, text } => SpecScanError::FloatWithoutDecimals {
                line: *line as nat,
                text: text@,
            },
            ScanError::UnterminatedString { line } => SpecScanError::UnterminatedString {
                line: *line as nat,
            },
        }
    }
}

pub open spec fn errors_view(es: Seq<ScanError>) -> Seq<SpecScanError> {
    es.map_values(|e: ScanError| e@)
}

/// How `{:?}` writes a token kind: its name, and for the kinds that carry a
/// text, that text written as `{:?}` writes a string, in parentheses.
pub open spec fn token_debug_text(t: SpecTokenType) -> Seq<char> {
    match t {
        SpecTokenType::LeftParen => "LeftParen"@,
        SpecTokenType::RightParen => "RightParen"@,
        SpecTokenType::LeftBrace => "LeftBrace"@,
        SpecTokenType::RightBrace => "RightBrace"@,
        SpecTokenType::Comma => "Comma"@,
        SpecTokenType::Dot => "Dot"@,
        SpecTokenType::Minus => "Minus"@,
        SpecTokenType::Plus => "Plus"@,
        SpecTokenType::Semicolon => "Semicolon"@,
        SpecTokenType::Slash => "Slash"@,
        SpecTokenType::Star => "Star"@,
        SpecTokenType::Bang => "Bang"@,
        SpecTokenType::BangEqual => "BangEqual"@,
        SpecTokenType::Equal => "Equal"@,
        SpecTokenType::EqualEqual => "EqualEqual"@,
        SpecTokenType::GreaterThan => "GreaterThan"@,
        SpecTokenType::GreaterThanEqual => "GreaterThanEqual"@,
        SpecTokenType::LessThan => "LessThan"@,
        SpecTokenType::LessThanEqual => "LessThanEqual"@,
        SpecTokenType::Identifier(s) => "Identifier("@ + debug_str(s) + ")"@,
        SpecTokenType::String(s) => "String("@ + debug_str(s) + ")"@,
        SpecTokenType::Number(s) => "Number("@ + debug_str(s) + ")"@,
        SpecTokenType::And => "And"@,
        SpecTokenType::Class => "Class"@,
        SpecTokenType::Else => "Else"@,
        SpecTokenType::False => "False"@,
        SpecTokenType::Fun => "Fun"@,
        SpecTokenType::For => "For"@,
        SpecTokenType::If => "If"@,
        SpecTokenType::Nil => "Nil"@,
        SpecTokenType::Or => "Or"@,
        SpecTokenType::Print => "Print"@,
        SpecTokenType::Return => "Return"@,
        SpecTokenType::Super => "Super"@,
        SpecTokenType::This => "This"@,
        SpecTokenType::True => "True"@,
        SpecTokenType::Var => "Var"@,
        SpecTokenType::While => "While"@,
        SpecTokenType::Eof => "Eof"@,
    }
}

impl TokenType {
    /// The kind written as `{:?}` writes it, for example `Identifier("a")`.
    pub fn debug_text(&self) -> (s: String)
        ensures
            s@ == token_debug_text(self@),
    {
        match self {
            TokenType::LeftParen => String::from_str("LeftParen"),
            TokenType::RightParen => String::from_str("RightParen"),
            TokenType::LeftBrace => String::from_str("LeftBrace"),
            TokenType::RightBrace => String::from_str("RightBrace"),
            TokenType::Comma => String::from_str("Comma"),
            TokenType::Dot => String::from_str("Dot"),
            TokenType::Minus => String::from_str("Minus"),
            TokenType::Plus => String::from_str("Plus"),
            TokenType::Semicolon => String::from_str("Semicolon"),
            TokenType::Slash => String::from_str("Slash"),
            TokenType::Star => String::from_str("Star"),
            TokenType::Bang => String::from_str("Bang"),
            TokenType::BangEqual => String::from_str("BangEqual"),
            TokenType::Equal => String::from_str("Equal"),
            TokenType::EqualEqual => String::from_str("EqualEqual"),
            TokenType::GreaterThan => String::from_str("GreaterThan"),
            TokenType::GreaterThanEqual => String::from_str("GreaterThanEqual"),
            TokenType::LessThan => String::from_str("LessThan"),
            TokenType::LessThanEqual => String::from_str("LessThanEqual"),
            TokenType::Identifier(text) => {
                let mut s = String::from_str("Identifier(");
                s.append(debug_string(text.as_str()).as_str());
                s.append(")");
                s
            },
            TokenType::String(text) => {
                let mut s = String::from_str("String(");
                s.append(debug_string(text.as_str()).as_str());
                s.append(")");
                s
            },
            TokenType::Number(text) => {
                let mut s = String::from_str("Number(");
                s.append(debug_string(text.as_str()).as_str());
                s.append(")");
                s
            },
            TokenType::And => String::from_str("And"),
            TokenType::Class => String::from_str("Class"),
            TokenType::Else => String::from_str("Else"),
            TokenType::False => String::from_str("False"),
            TokenType::Fun => String::from_str("Fun"),
            TokenType::For => String::from_str("For"),
            TokenType::If => String::from_str("If"),
            TokenType::Nil => String::from_str("Nil"),
            TokenType::Or => String::from_str("Or"),
            TokenType::Print => String::from_str("Print"),
            TokenType::Return => String::from_str("Return"),
            TokenType::Super => String::from_str("Super"),
            TokenType::This => String::from_str("This"),
            TokenType::True => String::from_str("True"),
            TokenType::Var => String::from_str("Var"),
            TokenType::While => String::from_str("While"),
            TokenType::Eof => String::from_str("Eof"),
        }
    }
}

/// The line a scan error was found on.
pub open spec fn scan_error_line(e: SpecScanError) -> nat {
    match e {
        SpecScanError::UnexpectedCharacter { line, .. } => line,
        SpecScanError::FloatWithoutDecimals { line, .. } => line,
        SpecScanError::UnterminatedString { line } => line,
    }
}

/// The text of a scan error, as the scanner reports it.
pub open spec fn scan_error_text(e: SpecScanError) -> Seq<char> {
    match e {
        SpecScanError::UnexpectedCharacter { line, character } => "[line: "@ + decimal(line) + "] "@
            + "Unexpected character \""@ + seq![character] + "\"."@,
        SpecScanError::FloatWithoutDecimals { line, text } => "[line: "@ + decimal(line) + "] "@
            + "Got float with no decimals: '"@ + text + "'"@,
        SpecScanError::UnterminatedString { line } => "[line: "@ + decimal(line) + "] "@
            + "Unterminated string started"@,
    }
}

impl ScanError {
    /// The text of the error, for example `[line: 1] Unterminated string started`.
    pub fn message(&self) -> (s: String)
        ensures
            s@ == scan_error_text(self@),
    {
        let mut s = String::from_str("[line: ");
        let line = match self {
            ScanError::UnexpectedCharacter { line, .. } => *line,
            ScanError::FloatWithoutDecimals { line, .. } => *line,
            ScanError::UnterminatedString { line } => *line,
        };
        let digits = decimal_string(line);
        s.append(digits.as_str());
        s.append("] ");
        match self {
            ScanError::UnexpectedCharacter { character, .. } => {
                s.append("Unexpected character \"");
                push_char(&mut s, *character);
                s.append("\".");
            },
            ScanError::FloatWithoutDecimals { text, .. } => {
                s.append("Got float with no decimals: '");
                s.append(text.as_str());
                s.append("'");
            },
            ScanError::UnterminatedString { .. } => {
                s.append("Unterminated string started");
            },
        }
        s
    }
}

// ---------------------------------------------------------------------------
// The scanner as mathematics: one lexeme at a time, from left to right.
pub open spec fn is_digit(c: char) -> bool {
    '0' <= c && c <= '9'
}

/// Letters and `_` start and continue identifiers (digits do not).
pub open spec fn is_ident_char(c: char) -> bool {
    ('a' <= c && c <= 'z') || ('A' <= c && c <= 'Z') || c == '_'
}

/// The first index at or after `p` that does not hold a digit.
pub open spec fn digits_end(cs: Seq<char>, p: int) -> int
    decreases cs.len() - p,
{
    if 0 <= p < cs.len() && is_digit(cs[p]) {
        digits_end(cs, p + 1)
    } else {
        p
    }
}

/// The first index at or after `p` that does not hold an identifier character.
pub open spec fn ident_end(cs: Seq<char>, p: int) -> int
    decreases cs.len() - p,
{
    if 0 <= p < cs.len() && is_ident_char(cs[p]) {
        ident_end(cs, p + 1)
    } else {
        p
    }
}

/// The first index at or after `p` that holds `c`, or the length of `cs`.
pub open spec fn find_char(cs: Seq<char>, p: int, c: char) -> int
    decreases cs.len() - p,
{
    if p < cs.len() {
        if p >= 0 && cs[p] == c {
            p
        } else {
            find_char(cs, p + 1, c)
        }
    } else {
        cs.len() as int
    }
}

pub open spec fn count_newlines(s: Seq<char>) -> nat
    decreases s.len(),
{
    if s.len() == 0 {
        0
    } else {
        count_newlines(s.drop_last()) + if s.last() == '\n' {
            1nat
        } else {
            0nat
        }
    }
}

pub open spec fn single_char_kind(c: char) -> Option<SpecTokenType> {
    if c == '(' {
        Some(SpecTokenType::LeftParen)
    } else if c == ')' {
        Some(SpecTokenType::RightParen)
    } else if c == '{' {
        Some(SpecTokenType::LeftBrace)
    } else if c == '}' {
        Some(SpecTokenType::RightBrace)
    } else if c == ',' {
        Some(SpecTokenType::Comma)
    } else if c == '.' {
        Some(SpecTokenType::Dot)
    } else if c == '-' {
        Some(SpecTokenType::Minus)
    } else if c == '+' {
        Some(SpecTokenType::Plus)
    } else if c == ';' {
        Some(SpecTokenType::Semicolon)
    } else if c == '*' {
        Some(SpecTokenType::Star)
    } else {
        None
    }
}

/// For `!`, `=`, `<` and `>`: the kind when `=` follows, and the kind otherwise.
pub open spec fn compound_kinds(c: char) -> Option<(SpecTokenType, SpecTokenType)> {
    if c == '!' {
        Some((SpecTokenType::BangEqual, SpecTokenType::Bang))
    } else if c == '=' {
        Some((SpecTokenType::EqualEqual, SpecTokenType::Equal))
    } else if c == '<' {
        Some((SpecTokenType::LessThanEqual, SpecTokenType::LessThan))
    } else if c == '>' {
        Some((SpecTokenType::GreaterThanEqual, SpecTokenType::GreaterThan))
    } else {
        None
    }
}

/// The keyword that a word spells, if any.
pub open spec fn keyword(w: Seq<char>) -> Option<SpecTokenType> {
    if w == seq!['a', 'n', 'd'] {
        Some(SpecTokenType::And)
    } else if w == seq!['c', 'l', 'a', 's', 's'] {
        Some(SpecTokenType::Class)
    } else if w == seq!['e', 'l', 's', 'e'] {
        Some(SpecTokenType::Else)
    } else if w == seq!['f', 'a', 'l', 's', 'e'] {
        Some(SpecTokenType::False)
    } else if w == seq!['f', 'o', 'r'] {
        Some(SpecTokenType::For)
    } else if w == seq!['f', 'u', 'n'] {
        Some(SpecTokenType::Fun)
    } else if w == seq!['i', 'f'] {
        Some(SpecTokenType::If)
    } else if w == seq!['n', 'i', 'l'] {
        Some(SpecTokenType::Nil)
    } else if w == seq!['o', 'r'] {
        Some(SpecTokenType::Or)
    } else if w == seq!['p', 'r', 'i', 'n', 't'] {
        Some(SpecTokenType::Print)
    } else if w == seq!['r', 'e', 't', 'u', 'r', 'n'] {
        Some(SpecTokenType::Return)
    } else if w == seq!['s', 'u', 'p', 'e', 'r'] {
        Some(SpecTokenType::Super)
    } else if w == seq!['t', 'h', 'i', 's'] {
        Some(SpecTokenType::This)
    } else if w == seq!['t', 'r', 'u', 'e'] {
        Some(SpecTokenType::True)
    } else if w == seq!['v', 'a', 'r'] {
        Some(SpecTokenType::Var)
    } else if w == seq!['w', 'h', 'i', 'l', 'e'] {
        Some(SpecTokenType::While)
    } else {
        None
    }
}

/// The text that writes a token of this kind in a program: an operator's
/// characters, a keyword's word, a name or a number as it stands, a string
/// between its quotes. `Eof` has no text.
pub open spec fn lexeme(t: SpecTokenType) -> Seq<char> {
    match t {
        SpecTokenType::LeftParen => seq!['('],
        SpecTokenType::RightParen => seq![')'],
        SpecTokenType::LeftBrace => seq!['{'],
        SpecTokenType::RightBrace => seq!['}'],
        SpecTokenType::Comma => seq![','],
        SpecTokenType::Dot => seq!['.'],
        SpecTokenType::Minus => seq!['-'],
        SpecTokenType::Plus => seq!['+'],
        SpecTokenType::Semicolon => seq![';'],
        SpecTokenType::Slash => seq!['/'],
        SpecTokenType::Star => seq!['*'],
        SpecTokenType::Bang => seq!['!'],
        SpecTokenType::BangEqual => seq!['!', '='],
        SpecTokenType::Equal => seq!['='],
        SpecTokenType::EqualEqual => seq!['=', '='],
        SpecTokenType::GreaterThan => seq!['>'],
        SpecTokenType::GreaterThanEqual => seq!['>', '='],
        SpecTokenType::LessThan => seq!['<'],
        SpecTokenType::LessThanEqual => seq!['<', '='],
        SpecTokenType::Identifier(w) => w,
        SpecTokenType::String(v) => seq!['"'] + v + seq!['"'],
        SpecTokenType::Number(d) => d,
        SpecTokenType::And => seq!['a', 'n', 'd'],
        SpecTokenType::Class => seq!['c', 'l', 'a', 's', 's'],
        SpecTokenType::Else => seq!['e', 'l', 's', 'e'],
        SpecTokenType::False => seq!['f', 'a', 'l', 's', 'e'],
        SpecTokenType::Fun => seq!['f', 'u', 'n'],
        SpecTokenType::For => seq!['f', 'o', 'r'],
        SpecTokenType::If => seq!['i', 'f'],
        SpecTokenType::Nil => seq!['n', 'i', 'l'],
        SpecTokenType::Or => seq!['o', 'r'],
        SpecTokenType::Print => seq!['p', 'r', 'i', 'n', 't'],
        SpecTokenType::Return => seq!['r', 'e', 't', 'u', 'r', 'n'],
        SpecTokenType::Super => seq!['s', 'u', 'p', 'e', 'r'],
        SpecTokenType::This => seq!['t', 'h', 'i', 's'],
        SpecTokenType::True => seq!['t', 'r', 'u', 'e'],
        SpecTokenType::Var => seq!['v', 'a', 'r'],
        SpecTokenType::While => seq!['w', 'h', 'i', 'l', 'e'],
        SpecTokenType::Eof => Seq::empty(),
    }
}

/// The kinds that are keywords.
pub open spec fn is_keyword_kind(t: SpecTokenType) -> bool {
    t is And || t is Class || t is Else || t is False || t is Fun || t is For || t is If
        || t is Nil || t is Or || t is Print || t is Return || t is Super || t is This
        || t is True || t is Var || t is While
}

/// A word is the keyword it spells: when `w` is a keyword, it is the keyword
/// whose text is `w`; and the text of every keyword is that keyword.
pub proof fn lemma_keyword_spelling(w: Seq<char>, k: SpecTokenType)
    ensures
        keyword(w) matches Some(found) ==> is_keyword_kind(found) && lexeme(found) == w,
        is_keyword_kind(k) ==> keyword(lexeme(k)) == Some(k),
{
}

/// What reading one lexeme does: the token or error it yields (if any),
/// where the next lexeme starts, and the line count afterwards.
pub struct Step {
    pub token: Option<SpecToken>,
    pub error: Option<SpecScanError>,
    pub next: int,
    pub line: nat,
}

pub open spec fn emit(value: SpecTokenType, line: nat, next: int) -> Step {
    Step { token: Some(SpecToken { value, line }), error: None, next, line }
}

pub open spec fn fail(error: SpecScanError, line: nat, next: int) -> Step {
    Step { token: None, error: Some(error), next, line }
}

pub open spec fn skip(line: nat, next: int) -> Step {
    Step { token: None, error: None, next, line }
}

/// Reads the lexeme that starts at `cs[pos]`, on line `line`.
pub open spec fn scan_step(cs: Seq<char>, pos: int, line: nat) -> Step {
    let c = cs[pos];
    let p = pos + 1;
    if single_char_kind(c) is Some {
        emit(single_char_kind(c)->0, line, p)
    } else if compound_kinds(c) is Some {
        if p < cs.len() && cs[p] == '=' {
            emit((compound_kinds(c)->0).0, line, p + 1)
        } else {
            emit((compound_kinds(c)->0).1, line, p)
        }
    } else if c == '/' {
        if p < cs.len() && cs[p] == '/' {
            // a comment runs to the end of the line, newline included
            let k = find_char(cs, p, '\n');
            if k < cs.len() {
                skip(line + 1, k + 1)
            } else {
                skip(line, cs.len() as int)
            }
        } else {
            emit(SpecTokenType::Slash, line, p)
        }
    } else if c == '"' {
        let q = find_char(cs, p, '"');
        if q < cs.len() {
            let value = cs.subrange(p, q);
            let end_line = line + count_newlines(value);
            emit(SpecTokenType::String(value), end_line, q + 1)
        } else {
            fail(SpecScanError::UnterminatedString { line }, line, cs.len() as int)
        }
    } else if is_digit(c) {
        let e1 = digits_end(cs, p);
        if e1 < cs.len() && cs[e1] == '.' {
            let e2 = digits_end(cs, e1 + 1);
            if e2 == e1 + 1 {
                fail(
                    SpecScanError::FloatWithoutDecimals { line, text: cs.subrange(pos, e2) },
                    line,
                    e2,
                )
            } else {
                emit(SpecTokenType::Number(cs.subrange(pos, e2)), line, e2)
            }
        } else {
            emit(SpecTokenType::Number(cs.subrange(pos, e1)), line, e1)
        }
    } else if is_ident_char(c) {
        let e = ident_end(cs, p);
        let word = cs.subrange(pos, e);
        match keyword(word) {
            Some(k) => emit(k, line, e),
            None => emit(SpecTokenType::Identifier(word), line, e),
        }
    } else if c == ' ' || c == '\r' || c == '\t' {
        skip(line, p)
    } else if c == '\n' {
        skip(line + 1, p)
    } else {
        fail(SpecScanError::UnexpectedCharacter { line, character: c }, line, p)
    }
}

pub open spec fn prepend_opt<A>(a: Option<A>, s: Seq<A>) -> Seq<A> {
    match a {
        Some(x) => seq![x] + s,
        None => s,
    }
}

/// Scans `cs[pos..]` starting on line `line`: the tokens, the errors and the final line.
pub open spec fn scan_from(cs: Seq<char>, pos: int, line: nat) -> (Seq<SpecToken>, Seq<SpecScanError>, nat)
    decreases cs.len() - pos,
    via scan_from_decreases
{
    if 0 <= pos < cs.len() {
        let step = scan_step(cs, pos, line);
        let rest = scan_from(cs, step.next, step.line);
        (prepend_opt(step.token, rest.0), prepend_opt(step.error, rest.1), rest.2)
    } else {
        (Seq::empty(), Seq::empty(), line)
    }
}

#[via_fn]
proof fn scan_from_decreases(cs: Seq<char>, pos: int, line: nat) {
    if 0 <= pos < cs.len() {
        lemma_step_advances(cs, pos, line);
    }
}

/// The whole scan of a text: all tokens (the last one `Eof`) and all errors.
pub open spec fn scan(cs: Seq<char>) -> (Seq<SpecToken>, Seq<SpecScanError>) {
    let r = scan_from(cs, 0, 1);
    (r.0.push(SpecToken { value: SpecTokenType::Eof, line: r.2 }), r.1)
}

proof fn lemma_digits_end(cs: Seq<char>, p: int)
    requires
        0 <= p <= cs.len(),
    ensures
        p <= digits_end(cs, p) <= cs.len(),
        forall|i: int| p <= i < digits_end(cs, p) ==> is_digit(#[trigger] cs[i]),
        digits_end(cs, p) < cs.len() ==> !is_digit(cs[digits_end(cs, p)]),
    decreases cs.len() - p,
{
    if p < cs.len() && is_digit(cs[p]) {
        lemma_digits_end(cs, p + 1);
    }
}

proof fn lemma_ident_end(cs: Seq<char>, p: int)
    requires
        0 <= p <= cs.len(),
    ensures
        p <= ident_end(cs, p) <= cs.len(),
        forall|i: int| p <= i < ident_end(cs, p) ==> is_ident_char(#[trigger] cs[i]),
        ident_end(cs, p) < cs.len() ==> !is_ident_char(cs[ident_end(cs, p)]),
    decreases cs.len() - p,
{
    if p < cs.len() && is_ident_char(cs[p]) {
        lemma_ident_end(cs, p + 1);
    }
}

proof fn lemma_find_char(cs: Seq<char>, p: int, c: char)
    requires
        0 <= p <= cs.len(),
    ensures
        p <= find_char(cs, p, c) <= cs.len(),
        forall|i: int| p <= i < find_char(cs, p, c) ==> #[trigger] cs[i] != c,
        find_char(cs, p, c) < cs.len() ==> cs[find_char(cs, p, c)] == c,
    decreases cs.len() - p,
{
    if p < cs.len() && cs[p] != c {
        lemma_find_char(cs, p + 1, c);
    }
}

proof fn lemma_count_newlines_bound(s: Seq<char>)
    ensures
        count_newlines(s) <= s.len(),
    decreases s.len(),
{
    if s.len() > 0 {
        lemma_count_newlines_bound(s.drop_last());
    }
}

/// Every lexeme is at least one character long, and none reaches past the end.
proof fn lemma_step_advances(cs: Seq<char>, pos: int, line: nat)
    requires
        0 <= pos < cs.len(),
    ensures
        pos < scan_step(cs, pos, line).next <= cs.len(),
        scan_step(cs, pos, line).line <= line + (scan_step(cs, pos, line).next - pos),
{
    let p = pos + 1;
    lemma_digits_end(cs, p);
    lemma_ident_end(cs, p);
    lemma_find_char(cs, p, '\n');
    lemma_find_char(cs, p, '"');
    let e1 = digits_end(cs, p);
    if e1 < cs.len() {
        lemma_digits_end(cs, e1 + 1);
    }
    let q = find_char(cs, p, '"');
    if q <= cs.len() {
        lemma_count_newlines_bound(cs.subrange(p, q));
    }
}

/// No lexeme reads as `Eof`.
proof fn lemma_scan_from_no_eof(cs: Seq<char>, pos: int, line: nat)
    ensures
        forall|i: int|
            0 <= i < scan_from(cs, pos, line).0.len() ==> !(#[trigger] scan_from(
                cs,
                pos,
                line,
            ).0[i].value is Eof),
    decreases cs.len() - pos,
{
    if 0 <= pos < cs.len() {
        lemma_step_advances(cs, pos, line);
        let step = scan_step(cs, pos, line);
        lemma_scan_from_no_eof(cs, step.next, step.line);
        let rest = scan_from(cs, step.next, step.line).0;
        let all = scan_from(cs, pos, line).0;
        assert(step.token is Some ==> !(step.token->0.value is Eof));
        assert forall|i: int| 0 <= i < all.len() implies !(#[trigger] all[i].value is Eof) by {
            if step.token is Some {
                if i > 0 {
                    assert(all[i] == rest[i - 1]);
                }
            } else {
                assert(all[i] == rest[i]);
            }
        }
    }
}

/// The tokens and the errors of a scan are on `line` or after it, each in
/// order, and on or before the line where the scan ends.
proof fn lemma_scan_from_lines(cs: Seq<char>, pos: int, line: nat)
    ensures
        line <= scan_from(cs, pos, line).2,
        forall|i: int, j: int|
            0 <= i <= j < scan_from(cs, pos, line).0.len() ==> line <= #[trigger] scan_from(
                cs,
                pos,
                line,
            ).0[i].line <= #[trigger] scan_from(cs, pos, line).0[j].line <= scan_from(
                cs,
                pos,
                line,
            ).2,
        forall|i: int, j: int|
            0 <= i <= j < scan_from(cs, pos, line).1.len() ==> line <= scan_error_line(
                #[trigger] scan_from(cs, pos, line).1[i],
            ) <= scan_error_line(#[trigger] scan_from(cs, pos, line).1[j]),
    decreases cs.len() - pos,
{
    if 0 <= pos < cs.len() {
        lemma_step_advances(cs, pos, line);
        let step = scan_step(cs, pos, line);
        lemma_scan_from_lines(cs, step.next, step.line);
        let rest = scan_from(cs, step.next, step.line);
        let all = scan_from(cs, pos, line);
        assert(line <= step.line);
        assert(step.token is Some ==> step.token->0.line == step.line);
        assert(step.error is Some ==> scan_error_line(step.error->0) == step.line);
        assert forall|i: int, j: int| 0 <= i <= j < all.0.len() implies line <= #[trigger] all.0[i].line
            <= #[trigger] all.0[j].line <= all.2 by {
            if step.token is Some {
                if i > 0 {
                    assert(all.0[i] == rest.0[i - 1]);
                }
                if j > 0 {
                    assert(all.0[j] == rest.0[j - 1]);
                }
            } else {
                assert(all.0[i] == rest.0[i]);
                assert(all.0[j] == rest.0[j]);
            }
        }
        assert forall|i: int, j: int| 0 <= i <= j < all.1.len() implies line <= scan_error_line(
            #[trigger] all.1[i],
        ) <= scan_error_line(#[trigger] all.1[j]) by {
            if step.error is Some {
                if i > 0 {
                    assert(all.1[i] == rest.1[i - 1]);
                }
                if j > 0 {
                    assert(all.1[j] == rest.1[j - 1]);
                }
            } else {
                assert(all.1[i] == rest.1[i]);
                assert(all.1[j] == rest.1[j]);
            }
        }
    }
}

/// Every scan ends with one `Eof` token, and no other token is `Eof`.
pub proof fn lemma_scan_ends_with_eof(cs: Seq<char>)
    ensures
        scan(cs).0.len() >= 1,
        scan(cs).0.last().value is Eof,
        forall|i: int| 0 <= i < scan(cs).0.len() - 1 ==> !(#[trigger] scan(cs).0[i].value is Eof),
{
    lemma_scan_from_no_eof(cs, 0, 1);
    let r = scan_from(cs, 0, 1);
    assert forall|i: int| 0 <= i < scan(cs).0.len() - 1 implies !(#[trigger] scan(
        cs,
    ).0[i].value is Eof) by {
        assert(scan(cs).0[i] == r.0[i]);
    }
}

/// Lines start at 1 and never go down: along the tokens, with `Eof` on the
/// last line, and along the errors.
pub proof fn lemma_scan_lines_ordered(cs: Seq<char>)
    ensures
        forall|i: int, j: int|
            0 <= i <= j < scan(cs).0.len() ==> 1 <= #[trigger] scan(cs).0[i].line
                <= #[trigger] scan(cs).0[j].line,
        forall|i: int, j: int|
            0 <= i <= j < scan(cs).1.len() ==> 1 <= scan_error_line(#[trigger] scan(cs).1[i])
                <= scan_error_line(#[trigger] scan(cs).1[j]),
{
    lemma_scan_from_lines(cs, 0, 1);
    let r = scan_from(cs, 0, 1);
    let all = scan(cs).0;
    assert forall|i: int, j: int| 0 <= i <= j < all.len() implies 1 <= #[trigger] all[i].line
        <= #[trigger] all[j].line by {
        if j < r.0.len() {
            assert(all[i] == r.0[i]);
            assert(all[j] == r.0[j]);
        } else if i < r.0.len() {
            assert(all[i] == r.0[i]);
        }
    }
}

/// The text of a number: digits, with at most one `.` that has digits on
/// both sides.
pub open spec fn is_number_text(s: Seq<char>) -> bool {
    &&& s.len() > 0
    &&& is_digit(s[0])
    &&& is_digit(s[s.len() - 1])
    &&& forall|i: int| 0 <= i < s.len() ==> is_digit(#[trigger] s[i]) || s[i] == '.'
    &&& forall|i: int, j: int| 0 <= i < j < s.len() && #[trigger] s[i] == '.' ==> #[trigger] s[j] != '.'
}

/// The shape of what a scan yields: numbers as above; names made of
/// identifier characters that are not keywords; strings without a `"`.
pub open spec fn well_formed_kind(t: SpecTokenType) -> bool {
    match t {
        SpecTokenType::Number(s) => is_number_text(s),
        SpecTokenType::Identifier(w) => w.len() > 0 && (forall|i: int|
            0 <= i < w.len() ==> is_ident_char(#[trigger] w[i])) && keyword(w) is None,
        SpecTokenType::String(v) => forall|i: int| 0 <= i < v.len() ==> #[trigger] v[i] != '"',
        _ => true,
    }
}

/// The lexeme at `pos`, when it yields a token, yields a well-formed one.
proof fn lemma_step_well_formed(cs: Seq<char>, pos: int, line: nat)
    requires
        0 <= pos < cs.len(),
    ensures
        scan_step(cs, pos, line).token is Some ==> well_formed_kind(
            scan_step(cs, pos, line).token->0.value,
        ),
{
    let c = cs[pos];
    let p = pos + 1;
    lemma_digits_end(cs, p);
    lemma_ident_end(cs, p);
    lemma_find_char(cs, p, '"');
    let e1 = digits_end(cs, p);
    if is_digit(c) {
        if e1 < cs.len() && cs[e1] == '.' {
            lemma_digits_end(cs, e1 + 1);
            let e2 = digits_end(cs, e1 + 1);
            let t = cs.subrange(pos, e2);
            if e2 != e1 + 1 {
                assert forall|i: int| 0 <= i < t.len() implies is_digit(#[trigger] t[i]) || t[i]
                    == '.' by {
                    assert(t[i] == cs[pos + i]);
                }
                assert forall|i: int, j: int|
                    0 <= i < j < t.len() && #[trigger] t[i] == '.' implies #[trigger] t[j]
                    != '.' by {
                    assert(t[i] == cs[pos + i]);
                    assert(t[j] == cs[pos + j]);
                    if pos + i < e1 {
                        assert(is_digit(cs[pos + i]));
                    }
                    assert(pos + i == e1);
                    assert(is_digit(cs[pos + j]));
                }
                assert(is_digit(t[t.len() - 1])) by {
                    assert(t[t.len() - 1] == cs[e2 - 1]);
                }
            }
        } else {
            let t = cs.subrange(pos, e1);
            assert forall|i: int| 0 <= i < t.len() implies is_digit(#[trigger] t[i]) by {
                assert(t[i] == cs[pos + i]);
            }
            assert(is_digit(t[t.len() - 1]));
        }
    } else if is_ident_char(c) && single_char_kind(c) is None && compound_kinds(c) is None {
        let e = ident_end(cs, p);
        let w = cs.subrange(pos, e);
        assert forall|i: int| 0 <= i < w.len() implies is_ident_char(#[trigger] w[i]) by {
            assert(w[i] == cs[pos + i]);
        }
    } else if c == '"' && single_char_kind(c) is None && compound_kinds(c) is None {
        let q = find_char(cs, p, '"');
        let v = cs.subrange(p, q);
        assert forall|i: int| 0 <= i < v.len() implies #[trigger] v[i] != '"' by {
            assert(v[i] == cs[p + i]);
        }
    }
}

proof fn lemma_scan_from_well_formed(cs: Seq<char>, pos: int, line: nat)
    ensures
        forall|i: int|
            0 <= i < scan_from(cs, pos, line).0.len() ==> well_formed_kind(
                #[trigger] scan_from(cs, pos, line).0[i].value,
            ),
    decreases cs.len() - pos,
{
    if 0 <= pos < cs.len() {
        lemma_step_advances(cs, pos, line);
        lemma_step_well_formed(cs, pos, line);
        let step = scan_step(cs, pos, line);
        lemma_scan_from_well_formed(cs, step.next, step.line);
        let rest = scan_from(cs, step.next, step.line).0;
        let all = scan_from(cs, pos, line).0;
        assert forall|i: int| 0 <= i < all.len() implies well_formed_kind(
            #[trigger] all[i].value,
        ) by {
            if step.token is Some {
                if i > 0 {
                    assert(all[i] == rest[i - 1]);
                }
            } else {
                assert(all[i] == rest[i]);
            }
        }
    }
}

/// Every token that a scan yields is well formed: above all, the text of a
/// number is digits with at most one `.` between digits.
pub proof fn lemma_scan_well_formed(cs: Seq<char>)
    ensures
        forall|i: int| 0 <= i < scan(cs).0.len() ==> well_formed_kind(#[trigger] scan(cs).0[i].value),
{
    lemma_scan_from_well_formed(cs, 0, 1);
    let r = scan_from(cs, 0, 1);
    assert forall|i: int| 0 <= i < scan(cs).0.len() implies well_formed_kind(
        #[trigger] scan(cs).0[i].value,
    ) by {
        if i < r.0.len() {
            assert(scan(cs).0[i] == r.0[i]);
        }
    }
}

proof fn lemma_count_newlines_concat(a: Seq<char>, b: Seq<char>)
    ensures
        count_newlines(a + b) == count_newlines(a) + count_newlines(b),
    decreases b.len(),
{
    if b.len() == 0 {
        assert(a + b =~= a);
    } else {
        assert((a + b).drop_last() =~= a + b.drop_last());
        lemma_count_newlines_concat(a, b.drop_last());
    }
}

proof fn lemma_count_newlines_none(s: Seq<char>)
    requires
        forall|i: int| 0 <= i < s.len() ==> #[trigger] s[i] != '\n',
    ensures
        count_newlines(s) == 0,
    decreases s.len(),
{
    if s.len() > 0 {
        assert forall|i: int| 0 <= i < s.drop_last().len() implies #[trigger] s.drop_last()[i]
            != '\n' by {
            assert(s.drop_last()[i] == s[i]);
        }
        lemma_count_newlines_none(s.drop_last());
    }
}

/// No newline in `cs[from..to]`.
pub open spec fn no_newline(cs: Seq<char>, from: int, to: int) -> bool {
    forall|k: int| from <= k < to ==> #[trigger] cs[k] != '\n'
}

proof fn lemma_count_newlines_none_in(cs: Seq<char>, from: int, to: int)
    requires
        0 <= from <= to <= cs.len(),
        no_newline(cs, from, to),
    ensures
        count_newlines(cs.subrange(from, to)) == 0,
{
    let t = cs.subrange(from, to);
    assert forall|i: int| 0 <= i < t.len() implies #[trigger] t[i] != '\n' by {
        assert(t[i] == cs[from + i]);
    }
    lemma_count_newlines_none(t);
}

proof fn lemma_count_newlines_split(cs: Seq<char>, a: int, b: int, c: int)
    requires
        0 <= a <= b <= c <= cs.len(),
    ensures
        count_newlines(cs.subrange(a, c)) == count_newlines(cs.subrange(a, b)) + count_newlines(
            cs.subrange(b, c),
        ),
{
    assert(cs.subrange(a, c) =~= cs.subrange(a, b) + cs.subrange(b, c));
    lemma_count_newlines_concat(cs.subrange(a, b), cs.subrange(b, c));
}

/// Unless the lexeme at `pos` is a string that is never closed, the line
/// count goes up by the newlines the lexeme holds.
proof fn lemma_step_lines(cs: Seq<char>, pos: int, line: nat)
    requires
        0 <= pos < cs.len(),
        !(scan_step(cs, pos, line).error matches Some(e) && e is UnterminatedString),
    ensures
        scan_step(cs, pos, line).line == line + count_newlines(
            cs.subrange(pos, scan_step(cs, pos, line).next),
        ),
{
    let c = cs[pos];
    let p = pos + 1;
    lemma_step_advances(cs, pos, line);
    lemma_digits_end(cs, p);
    lemma_ident_end(cs, p);
    lemma_find_char(cs, p, '\n');
    lemma_find_char(cs, p, '"');
    let step = scan_step(cs, pos, line);
    if c == '\n' {
        lemma_count_newlines_none_in(cs, pos, pos);
        assert(cs.subrange(pos, p).drop_last() =~= cs.subrange(pos, pos));
    } else if c == '/' && single_char_kind(c) is None && compound_kinds(c) is None && p < cs.len()
        && cs[p] == '/' {
        let k = find_char(cs, p, '\n');
        if k < cs.len() {
            lemma_count_newlines_none_in(cs, pos, k);
            assert(cs.subrange(pos, k + 1).drop_last() =~= cs.subrange(pos, k));
        } else {
            lemma_count_newlines_none_in(cs, pos, k);
        }
    } else if c == '"' && single_char_kind(c) is None && compound_kinds(c) is None {
        let q = find_char(cs, p, '"');
        lemma_count_newlines_split(cs, pos, p, q + 1);
        lemma_count_newlines_split(cs, p, q, q + 1);
        lemma_count_newlines_none_in(cs, pos, p);
        lemma_count_newlines_none_in(cs, q, q + 1);
    } else if is_digit(c) && single_char_kind(c) is None && compound_kinds(c) is None {
        let e1 = digits_end(cs, p);
        if e1 < cs.len() && cs[e1] == '.' {
            lemma_digits_end(cs, e1 + 1);
            let e2 = digits_end(cs, e1 + 1);
            assert forall|k: int| pos <= k < e2 implies #[trigger] cs[k] != '\n' by {
                if k != pos && k != e1 {
                    assert(is_digit(cs[k]));
                }
            }
            lemma_count_newlines_none_in(cs, pos, e2);
        } else {
            assert forall|k: int| pos <= k < e1 implies #[trigger] cs[k] != '\n' by {
                if k != pos {
                    assert(is_digit(cs[k]));
                }
            }
            lemma_count_newlines_none_in(cs, pos, e1);
        }
    } else if is_ident_char(c) && single_char_kind(c) is None && compound_kinds(c) is None {
        let e = ident_end(cs, p);
        assert forall|k: int| pos <= k < e implies #[trigger] cs[k] != '\n' by {
            if k != pos {
                assert(is_ident_char(cs[k]));
            }
        }
        lemma_count_newlines_none_in(cs, pos, e);
    } else {
        assert forall|k: int| pos <= k < step.next implies #[trigger] cs[k] != '\n' by {
            if k == p {
                assert(compound_kinds(c) is Some);
            }
        }
        lemma_count_newlines_none_in(cs, pos, step.next);
    }
}

proof fn lemma_scan_from_final_line(cs: Seq<char>, pos: int, line: nat)
    requires
        0 <= pos <= cs.len(),
        forall|i: int|
            0 <= i < scan_from(cs, pos, line).1.len() ==> !(#[trigger] scan_from(
                cs,
                pos,
                line,
            ).1[i] is UnterminatedString),
    ensures
        scan_from(cs, pos, line).2 == line + count_newlines(cs.subrange(pos, cs.len() as int)),
    decreases cs.len() - pos,
{
    if pos < cs.len() {
        lemma_step_advances(cs, pos, line);
        let step = scan_step(cs, pos, line);
        let rest = scan_from(cs, step.next, step.line);
        let all = scan_from(cs, pos, line);
        if let Some(e) = step.error {
            assert(all.1[0] == e);
        }
        assert forall|i: int| 0 <= i < rest.1.len() implies !(#[trigger] rest.1[i] is UnterminatedString) by {
            if step.error is Some {
                assert(all.1[i + 1] == rest.1[i]);
            } else {
                assert(all.1[i] == rest.1[i]);
            }
        }
        lemma_step_lines(cs, pos, line);
        lemma_scan_from_final_line(cs, step.next, step.line);
        lemma_count_newlines_split(cs, pos, step.next, cs.len() as int);
    } else {
        assert(cs.subrange(pos, cs.len() as int).len() == 0);
    }
}

/// The `Eof` token is on line 1 plus the number of newlines in the text,
/// unless a string is left open: the newlines inside an unclosed string are
/// not counted.
pub proof fn lemma_eof_line(cs: Seq<char>)
    requires
        forall|i: int| 0 <= i < scan(cs).1.len() ==> !(#[trigger] scan(cs).1[i] is UnterminatedString),
    ensures
        scan(cs).0.last().line == 1 + count_newlines(cs),
{
    let r = scan_from(cs, 0, 1);
    assert forall|i: int| 0 <= i < r.1.len() implies !(#[trigger] r.1[i] is UnterminatedString) by {
        assert(scan(cs).1[i] == r.1[i]);
    }
    lemma_scan_from_final_line(cs, 0, 1);
    assert(cs.subrange(0, cs.len() as int) =~= cs);
}

/// The text of an operator or a keyword scans as exactly that one token,
/// with no error: a scan reads each kind from the text that writes it.
pub proof fn lemma_scan_lexeme(t: SpecTokenType)
    requires
        !(t is Identifier || t is String || t is Number || t is Eof),
    ensures
        scan(lexeme(t)).1.len() == 0,
        scan(lexeme(t)).0.len() == 2,
        scan(lexeme(t)).0[0].value == t,
        scan(lexeme(t)).0[1].value is Eof,
{
    let cs = lexeme(t);
    assert(cs.len() >= 1);
    lemma_step_advances(cs, 0, 1);
    let step = scan_step(cs, 0, 1);
    if is_keyword_kind(t) {
        lemma_ident_end(cs, 1);
        assert forall|i: int| 0 <= i < cs.len() implies is_ident_char(#[trigger] cs[i]) by {}
        assert(ident_end(cs, 1) == cs.len());
        assert(cs.subrange(0, cs.len() as int) =~= cs);
        lemma_keyword_spelling(cs, t);
    }
    assert(step.token == Some(SpecToken { value: t, line: 1 }));
    assert(step.error is None);
    assert(step.next == cs.len());
    let r = scan_from(cs, 0, 1);
    assert(scan_from(cs, cs.len() as int, 1).0.len() == 0);
    assert(r.0 =~= seq![SpecToken { value: t, line: 1 }]);
    assert(r.1.len() == 0);
}

/// Blanks between lexemes are ignored: a space, tab or carriage return at
/// `pos` leaves the rest of the scan as if it were not there.
pub proof fn lemma_blank_ignored(cs: Seq<char>, pos: int, line: nat)
    requires
        0 <= pos < cs.len(),
        cs[pos] == ' ' || cs[pos] == '\r' || cs[pos] == '\t',
    ensures
        scan_from(cs, pos, line) == scan_from(cs, pos + 1, line),
{
    let step = scan_step(cs, pos, line);
    assert(step.token is None && step.error is None && step.next == pos + 1 && step.line == line);
}

/// What is unexpected at `pos` is the character there, and it is never a
/// blank or a newline.
proof fn lemma_step_unexpected(cs: Seq<char>, pos: int, line: nat)
    requires
        0 <= pos < cs.len(),
    ensures
        scan_step(cs, pos, line).error matches Some(SpecScanError::UnexpectedCharacter {
            character,
            ..
        }) ==> character == cs[pos] && character != ' ' && character != '\r' && character
            != '\t' && character != '\n',
{
}

proof fn lemma_scan_from_unexpected(cs: Seq<char>, pos: int, line: nat)
    ensures
        forall|i: int|
            0 <= i < scan_from(cs, pos, line).1.len() && (#[trigger] scan_from(
                cs,
                pos,
                line,
            ).1[i]) is UnexpectedCharacter ==> {
                let c = scan_from(cs, pos, line).1[i]->character;
                c != ' ' && c != '\r' && c != '\t' && c != '\n'
            },
    decreases cs.len() - pos,
{
    if 0 <= pos < cs.len() {
        lemma_step_advances(cs, pos, line);
        lemma_step_unexpected(cs, pos, line);
        let step = scan_step(cs, pos, line);
        lemma_scan_from_unexpected(cs, step.next, step.line);
        let rest = scan_from(cs, step.next, step.line).1;
        let all = scan_from(cs, pos, line).1;
        assert forall|i: int| 0 <= i < all.len() && (#[trigger] all[i]) is UnexpectedCharacter implies {
            let c = all[i]->character;
            c != ' ' && c != '\r' && c != '\t' && c != '\n'
        } by {
            if step.error is Some {
                if i > 0 {
                    assert(all[i] == rest[i - 1]);
                }
            } else {
                assert(all[i] == rest[i]);
            }
        }
    }
}

/// No space, tab, carriage return or newline is ever reported as an
/// unexpected character: text with any line endings and indentation scans.
pub proof fn lemma_blanks_never_unexpected(cs: Seq<char>)
    ensures
        forall|i: int|
            0 <= i < scan(cs).1.len() && (#[trigger] scan(cs).1[i]) is UnexpectedCharacter ==> {
                let c = scan(cs).1[i]->character;
                c != ' ' && c != '\r' && c != '\t' && c != '\n'
            },
{
    lemma_scan_from_unexpected(cs, 0, 1);
}

/// A string that is never closed takes the rest of the text with it: its
/// error is the last error, and no token follows it.
pub proof fn lemma_unterminated_string_ends_scan(cs: Seq<char>, pos: int, line: nat)
    requires
        0 <= pos < cs.len(),
        cs[pos] == '"',
        forall|k: int| pos < k < cs.len() ==> cs[k] != '"',
    ensures
        scan_from(cs, pos, line) == (
            Seq::<SpecToken>::empty(),
            seq![SpecScanError::UnterminatedString { line }],
            line,
        ),
{
    lemma_find_char(cs, pos + 1, '"');
    let r = scan_from(cs, pos, line);
    assert(scan_from(cs, cs.len() as int, line).0 =~= Seq::<SpecToken>::empty());
    assert(r.1 =~= seq![SpecScanError::UnterminatedString { line }]);
}

// ---------------------------------------------------------------------------
// The scanner as code.
/// The state of a scan in progress.
pub struct Scanner {
    chars: Vec<char>,
    pos: usize,
    tokens: Vec<Token>,
    errors: Vec<ScanError>,
    line: usize,
}

fn single_char_token(c: char) -> (r: Option<TokenType>)
    ensures
        match r {
            Some(t) => single_char_kind(c) == Some(t@),
            None => single_char_kind(c) is None,
        },
{
    if c == '(' {
        Some(TokenType::LeftParen)
    } else if c == ')' {
        Some(TokenType::RightParen)
    } else if c == '{' {
        Some(TokenType::LeftBrace)
    } else if c == '}' {
        Some(TokenType::RightBrace)
    } else if c == ',' {
        Some(TokenType::Comma)
    } else if c == '.' {
        Some(TokenType::Dot)
    } else if c == '-' {
        Some(TokenType::Minus)
    } else if c == '+' {
        Some(TokenType::Plus)
    } else if c == ';' {
        Some(TokenType::Semicolon)
    } else if c == '*' {
        Some(TokenType::Star)
    } else {
        None
    }
}

/// Whether `cs[start..end]` spells `word`.
fn spells(cs: &Vec<char>, start: usize, end: usize, word: &[char]) -> (r: bool)
    requires
        start <= end <= cs@.len(),
    ensures
        r == (cs@.subrange(start as int, end as int) == word@),
{
    if end - start != word.len() {
        return false;
    }
    let mut i: usize = 0;
    while i < word.len()
        invariant
            start <= end <= cs@.len(),
            end - start == word@.len(),
            i <= word@.len(),
            forall|j: int| 0 <= j < i ==> cs@[start + j] == word@[j],
        decreases word@.len() - i,
    {
        if cs[start + i] != word[i] {
            assert(cs@.subrange(start as int, end as int)[i as int] != word@[i as int]);
            return false;
        }
        i = i + 1;
    }
    assert(cs@.subrange(start as int, end as int) =~= word@);
    true
}

/// The keyword that `cs[start..end]` spells, if any.
fn keyword_token(cs: &Vec<char>, start: usize, end: usize) -> (r: Option<TokenType>)
    requires
        start <= end <= cs@.len(),
    ensures
        match r {
            Some(t) => keyword(cs@.subrange(start as int, end as int)) == Some(t@),
            None => keyword(cs@.subrange(start as int, end as int)) is None,
        },
{
    let and = ['a', 'n', 'd'];
    assert(and@ =~= seq!['a', 'n', 'd']);
    if spells(cs, start, end, &and) {
        return Some(TokenType::And);
    }
    let class = ['c', 'l', 'a', 's', 's'];
    assert(class@ =~= seq!['c', 'l', 'a', 's', 's']);
    if spells(cs, start, end, &class) {
        return Some(TokenType::Class);
    }
    let else_ = ['e', 'l', 's', 'e'];
    assert(else_@ =~= seq!['e', 'l', 's', 'e']);
    if spells(cs, start, end, &else_) {
        return Some(TokenType::Else);
    }
    let false_ = ['f', 'a', 'l', 's', 'e'];
    assert(false_@ =~= seq!['f', 'a', 'l', 's', 'e']);
    if spells(cs, start, end, &false_) {
        return Some(TokenType::False);
    }
    let for_ = ['f', 'o', 'r'];
    assert(for_@ =~= seq!['f', 'o', 'r']);
    if spells(cs, start, end, &for_) {
        return Some(TokenType::For);
    }
    let fun = ['f', 'u', 'n'];
    assert(fun@ =~= seq!['f', 'u', 'n']);
    if spells(cs, start, end, &fun) {
        return Some(TokenType::Fun);
    }
    let if_ = ['i', 'f'];
    assert(if_@ =~= seq!['i', 'f']);
    if spells(cs, start, end, &if_) {
        return Some(TokenType::If);
    }
    let nil = ['n', 'i', 'l'];
    assert(nil@ =~= seq!['n', 'i', 'l']);
    if spells(cs, start, end, &nil) {
        return Some(TokenType::Nil);
    }
    let or = ['o', 'r'];
    assert(or@ =~= seq!['o', 'r']);
    if spells(cs, start, end, &or) {
        return Some(TokenType::Or);
    }
    let print = ['p', 'r', 'i', 'n', 't'];
    assert(print@ =~= seq!['p', 'r', 'i', 'n', 't']);
    if spells(cs, start, end, &print) {
        return Some(TokenType::Print);
    }
    let return_ = ['r', 'e', 't', 'u', 'r', 'n'];
    assert(return_@ =~= seq!['r', 'e', 't', 'u', 'r', 'n']);
    if spells(cs, start, end, &return_) {
        return Some(TokenType::Return);
    }
    let super_ = ['s', 'u', 'p', 'e', 'r'];
    assert(super_@ =~= seq!['s', 'u', 'p', 'e', 'r']);
    if spells(cs, start, end, &super_) {
        return Some(TokenType::Super);
    }
    let this = ['t', 'h', 'i', 's'];
    assert(this@ =~= seq!['t', 'h', 'i', 's']);
    if spells(cs, start, end, &this) {
        return Some(TokenType::This);
    }
    let true_ = ['t', 'r', 'u', 'e'];
    assert(true_@ =~= seq!['t', 'r', 'u', 'e']);
    if spells(cs, start, end, &true_) {
        return Some(TokenType::True);
    }
    let var = ['v', 'a', 'r'];
    assert(var@ =~= seq!['v', 'a', 'r']);
    if spells(cs, start, end, &var) {
        return Some(TokenType::Var);
    }
    let while_ = ['w', 'h', 'i', 'l', 'e'];
    assert(while_@ =~= seq!['w', 'h', 'i', 'l', 'e']);
    if spells(cs, start, end, &while_) {
        return Some(TokenType::While);
    }
    None
}

/// Whether `c` can start or continue an identifier.
pub fn is_ident(c: char) -> (r: bool)
    ensures
        r == is_ident_char(c),
{
    ('a' <= c && c <= 'z') || ('A' <= c && c <= 'Z') || c == '_'
}

fn is_ascii_digit(c: char) -> (r: bool)
    ensures
        r == is_digit(c),
{
    '0' <= c && c <= '9'
}

pub open spec fn append_opt<A>(s: Seq<A>, a: Option<A>) -> Seq<A> {
    match a {
        Some(x) => s.push(x),
        None => s,
    }
}

impl Scanner {
    /// The bounds that every scan state keeps.
    pub closed spec fn wf(&self) -> bool {
        &&& self.pos <= self.chars@.len()
        &&& self.chars@.len() < usize::MAX
        &&& 1 <= self.line <= self.pos + 1
    }

    /// What the scan yields when it runs on from this state to the end of the text.
    pub closed spec fn outcome(&self) -> (Seq<SpecToken>, Seq<SpecScanError>) {
        let rest = scan_from(self.chars@, self.pos as int, self.line as nat);
        (
            tokens_view(self.tokens@) + rest.0.push(
                SpecToken { value: SpecTokenType::Eof, line: rest.2 },
            ),
            errors_view(self.errors@) + rest.1,
        )
    }

    /// A scanner at the start of `source`, on line 1.
    pub fn new(source: &Source) -> (s: Scanner)
        requires
            source.text@.len() < usize::MAX,
        ensures
            s.wf(),
            s.outcome() == scan(source.text@),
    {
        let s = Scanner {
            chars: chars_of(source.text.as_str()),
            pos: 0,
            tokens: Vec::new(),
            errors: Vec::new(),
            line: 1,
        };
        assert(tokens_view(s.tokens@) =~= Seq::<SpecToken>::empty());
        assert(errors_view(s.errors@) =~= Seq::<SpecScanError>::empty());
        assert(s.outcome().0 =~= scan(source.text@).0);
        assert(s.outcome().1 =~= scan(source.text@).1);
        s
    }

    /// Scans the rest of the text. All tokens, ending with `Eof`, when no
    /// lexeme was in error; otherwise every error, in the order found.
    pub fn scan_tokens(self) -> (r: Result<Tokens, Vec<ScanError>>)
        requires
            self.wf(),
        ensures
            match r {
                Ok(t) => self.outcome().1.len() == 0 && t@ == self.outcome().0,
                Err(es) => self.outcome().1.len() > 0 && errors_view(es@) == self.outcome().1,
            },
    {
        let mut s = self;
        s.run_to_end();
        s.finish()
    }

    fn run_to_end(&mut self)
        requires
            old(self).wf(),
        ensures
            final(self).wf(),
            final(self).outcome() == old(self).outcome(),
            final(self).pos == final(self).chars@.len(),
    {
        while self.pos < self.chars.len()
            invariant
                self.wf(),
                self.outcome() == old(self).outcome(),
            decreases self.chars@.len() - self.pos,
        {
            let ghost cs = self.chars@;
            let ghost pos0 = self.pos as int;
            let ghost line0 = self.line as nat;
            let ghost toks0 = tokens_view(self.tokens@);
            let ghost errs0 = errors_view(self.errors@);
            proof {
                lemma_step_advances(cs, pos0, line0);
            }
            self.scan_one();
            proof {
                let step = scan_step(cs, pos0, line0);
                let rest = scan_from(cs, step.next, step.line);
                assert(scan_from(cs, pos0, line0) == (
                    prepend_opt(step.token, rest.0),
                    prepend_opt(step.error, rest.1),
                    rest.2,
                ));
                let eof = SpecToken { value: SpecTokenType::Eof, line: rest.2 };
                assert(append_opt(toks0, step.token) + rest.0.push(eof) =~= toks0 + prepend_opt(
                    step.token,
                    rest.0,
                ).push(eof));
                assert(append_opt(errs0, step.error) + rest.1 =~= errs0 + prepend_opt(
                    step.error,
                    rest.1,
                ));
            }
        }
    }

    fn finish(self) -> (r: Result<Tokens, Vec<ScanError>>)
        requires
            self.wf(),
            self.pos == self.chars@.len(),
        ensures
            match r {
                Ok(t) => self.outcome().1.len() == 0 && t@ == self.outcome().0,
                Err(es) => self.outcome().1.len() > 0 && errors_view(es@) == self.outcome().1,
            },
    {
        let ghost outcome0 = self.outcome();
        let mut s = self;
        let ghost toks0 = tokens_view(s.tokens@);
        s.tokens.push(Token { value: TokenType::Eof, line: s.line });
        assert(tokens_view(s.tokens@) =~= toks0.push(
            SpecToken { value: SpecTokenType::Eof, line: s.line as nat },
        ));
        assert(outcome0.0 =~= tokens_view(s.tokens@));
        assert(outcome0.1 =~= errors_view(s.errors@));
        if s.errors.len() == 0 {
            Ok(Tokens { tokens: s.tokens })
        } else {
            Err(s.errors)
        }
    }

    /// Reads one lexeme.
    fn scan_one(&mut self)
        requires
            old(self).wf(),
            old(self).pos < old(self).chars@.len(),
        ensures
            final(self).wf(),
            final(self).chars@ == old(self).chars@,
            ({
                let step = scan_step(old(self).chars@, old(self).pos as int, old(self).line as nat);
                &&& final(self).pos == step.next
                &&& final(self).line == step.line
                &&& tokens_view(final(self).tokens@) == append_opt(
                    tokens_view(old(self).tokens@),
                    step.token,
                )
                &&& errors_view(final(self).errors@) == append_opt(
                    errors_view(old(self).errors@),
                    step.error,
                )
            }),
    {
        proof {
            lemma_step_advances(self.chars@, self.pos as int, self.line as nat);
        }
        let start = self.pos;
        let c = self.chars[start];
        self.pos = start + 1;
        if let Some(t) = single_char_token(c) {
            self.add_token(t);
        } else if c == '!' {
            self.add_compound_token('=', TokenType::BangEqual, TokenType::Bang);
        } else if c == '=' {
            self.add_compound_token('=', TokenType::EqualEqual, TokenType::Equal);
        } else if c == '<' {
            self.add_compound_token('=', TokenType::LessThanEqual, TokenType::LessThan);
        } else if c == '>' {
            self.add_compound_token('=', TokenType::GreaterThanEqual, TokenType::GreaterThan);
        } else if c == '/' {
            if self.pos < self.chars.len() && self.chars[self.pos] == '/' {
                self.skip_comment();
            } else {
                self.add_token(TokenType::Slash);
            }
        } else if c == '"' {
            self.add_string();
        } else if is_ascii_digit(c) {
            self.add_number(start);
        } else if is_ident(c) {
            self.add_word(start);
        } else if c == ' ' || c == '\r' || c == '\t' {
        } else if c == '\n' {
            self.line = self.line + 1;
        } else {
            let e = ScanError::UnexpectedCharacter { line: self.line, character: c };
            self.new_err(e);
        }
    }

    fn add_token(&mut self, value: TokenType)
        ensures
            final(self).chars == old(self).chars,
            final(self).pos == old(self).pos,
            final(self).line == old(self).line,
            final(self).errors == old(self).errors,
            tokens_view(final(self).tokens@) == tokens_view(old(self).tokens@).push(
                SpecToken { value: value@, line: old(self).line as nat },
            ),
    {
        let ghost before = tokens_view(self.tokens@);
        self.tokens.push(Token { value, line: self.line });
        assert(tokens_view(self.tokens@) =~= before.push(
            SpecToken { value: value@, line: self.line as nat },
        ));
    }

    /// Adds `then` and consumes the next character when it is `if_next_is`;
    /// adds `otherwise` and consumes nothing more when not.
    fn add_compound_token(&mut self, if_next_is: char, then: TokenType, otherwise: TokenType)
        requires
            old(self).pos <= old(self).chars@.len(),
        ensures
            final(self).chars == old(self).chars,
            final(self).line == old(self).line,
            final(self).errors == old(self).errors,
            ({
                let p = old(self).pos as int;
                let cs = old(self).chars@;
                if p < cs.len() && cs[p] == if_next_is {
                    &&& final(self).pos == p + 1
                    &&& tokens_view(final(self).tokens@) == tokens_view(old(self).tokens@).push(
                        SpecToken { value: then@, line: old(self).line as nat },
                    )
                } else {
                    &&& final(self).pos == p
                    &&& tokens_view(final(self).tokens@) == tokens_view(old(self).tokens@).push(
                        SpecToken { value: otherwise@, line: old(self).line as nat },
                    )
                }
            }),
    {
        if self.pos < self.chars.len() && self.chars[self.pos] == if_next_is {
            self.add_token(then);
            self.pos = self.pos + 1;
        } else {
            self.add_token(otherwise);
        }
    }

    /// Skips a comment: everything up to and including the next newline.
    fn skip_comment(&mut self)
        requires
            old(self).wf(),
            old(self).pos < old(self).chars@.len(),
        ensures
            final(self).chars == old(self).chars,
            final(self).tokens == old(self).tokens,
            final(self).errors == old(self).errors,
            ({
                let cs = old(self).chars@;
                let k = find_char(cs, old(self).pos as int, '\n');
                if k < cs.len() {
                    final(self).pos == k + 1 && final(self).line == old(self).line + 1
                } else {
                    final(self).pos == cs.len() && final(self).line == old(self).line
                }
            }),
    {
        let ghost k = find_char(self.chars@, self.pos as int, '\n');
        proof {
            lemma_find_char(self.chars@, self.pos as int, '\n');
        }
        while self.pos < self.chars.len() && self.chars[self.pos] != '\n'
            invariant
                self.chars == old(self).chars,
                self.tokens == old(self).tokens,
                self.errors == old(self).errors,
                self.line == old(self).line,
                old(self).pos <= self.pos <= self.chars@.len(),
                find_char(self.chars@, self.pos as int, '\n') == k,
            decreases self.chars@.len() - self.pos,
        {
            self.pos = self.pos + 1;
        }
        if self.pos < self.chars.len() {
            self.pos = self.pos + 1;
            self.line = self.line + 1;
        }
    }

    /// Moves past the digits that follow.
    fn take_digits(&mut self)
        requires
            old(self).pos <= old(self).chars@.len(),
        ensures
            final(self).chars == old(self).chars,
            final(self).tokens == old(self).tokens,
            final(self).errors == old(self).errors,
            final(self).line == old(self).line,
            final(self).pos == digits_end(old(self).chars@, old(self).pos as int),
    {
        while self.pos < self.chars.len() && is_ascii_digit(self.chars[self.pos])
            invariant
                self.chars == old(self).chars,
                self.tokens == old(self).tokens,
                self.errors == old(self).errors,
                self.line == old(self).line,
                old(self).pos <= self.pos <= self.chars@.len(),
                digits_end(self.chars@, self.pos as int) == digits_end(
                    old(self).chars@,
                    old(self).pos as int,
                ),
            decreases self.chars@.len() - self.pos,
        {
            self.pos = self.pos + 1;
        }
    }

    /// Moves past the identifier characters that follow.
    fn take_ident(&mut self)
        requires
            old(self).pos <= old(self).chars@.len(),
        ensures
            final(self).chars == old(self).chars,
            final(self).tokens == old(self).tokens,
            final(self).errors == old(self).errors,
            final(self).line == old(self).line,
            final(self).pos == ident_end(old(self).chars@, old(self).pos as int),
    {
        while self.pos < self.chars.len() && is_ident(self.chars[self.pos])
            invariant
                self.chars == old(self).chars,
                self.tokens == old(self).tokens,
                self.errors == old(self).errors,
                self.line == old(self).line,
                old(self).pos <= self.pos <= self.chars@.len(),
                ident_end(self.chars@, self.pos as int) == ident_end(
                    old(self).chars@,
                    old(self).pos as int,
                ),
            decreases self.chars@.len() - self.pos,
        {
            self.pos = self.pos + 1;
        }
    }

    /// Adds a number token (or the error for a number that ends in `.`);
    /// its first digit is at `start`.
    fn add_number(&mut self, start: usize)
        requires
            old(self).wf(),
            old(self).pos == start + 1,
            start < old(self).chars@.len(),
            is_digit(old(self).chars@[start as int]),
        ensures
            final(self).wf(),
            final(self).chars == old(self).chars,
            ({
                let step = scan_step(old(self).chars@, start as int, old(self).line as nat);
                &&& final(self).pos == step.next
                &&& final(self).line == step.line
                &&& tokens_view(final(self).tokens@) == append_opt(
                    tokens_view(old(self).tokens@),
                    step.token,
                )
                &&& errors_view(final(self).errors@) == append_opt(
                    errors_view(old(self).errors@),
                    step.error,
                )
            }),
    {
        let ghost cs = self.chars@;
        proof {
            lemma_digits_end(cs, start + 1);
        }
        self.take_digits();
        let e1 = self.pos;
        if self.pos < self.chars.len() && self.chars[self.pos] == '.' {
            self.pos = self.pos + 1;
            proof {
                lemma_digits_end(cs, e1 + 1);
            }
            self.take_digits();
            let text = string_from_chars(&self.chars, start, self.pos);
            if self.chars[self.pos - 1] == '.' {
                let e = ScanError::FloatWithoutDecimals { line: self.line, text };
                self.new_err(e);
            } else {
                self.add_token(TokenType::Number(text));
            }
        } else {
            let text = string_from_chars(&self.chars, start, self.pos);
            self.add_token(TokenType::Number(text));
        }
    }

    /// Adds a keyword or identifier token; its first character is at `start`.
    fn add_word(&mut self, start: usize)
        requires
            old(self).wf(),
            old(self).pos == start + 1,
            start < old(self).chars@.len(),
        ensures
            final(self).wf(),
            final(self).chars == old(self).chars,
            final(self).line == old(self).line,
            final(self).errors == old(self).errors,
            final(self).pos == ident_end(old(self).chars@, start + 1),
            ({
                let word = old(self).chars@.subrange(start as int, final(self).pos as int);
                let kind = match keyword(word) {
                    Some(k) => k,
                    None => SpecTokenType::Identifier(word),
                };
                tokens_view(final(self).tokens@) == tokens_view(old(self).tokens@).push(
                    SpecToken { value: kind, line: old(self).line as nat },
                )
            }),
    {
        proof {
            lemma_ident_end(self.chars@, start + 1);
        }
        self.take_ident();
        match keyword_token(&self.chars, start, self.pos) {
            Some(k) => self.add_token(k),
            None => {
                let name = string_from_chars(&self.chars, start, self.pos);
                self.add_token(TokenType::Identifier(name));
            },
        }
    }

    /// Adds a string token, which may span lines (or the error for a string
    /// that never ends); the opening quote has been consumed.
    fn add_string(&mut self)
        requires
            old(self).wf(),
            1 <= old(self).pos <= old(self).chars@.len(),
        ensures
            final(self).wf(),
            final(self).chars == old(self).chars,
            ({
                let step = scan_step(old(self).chars@, old(self).pos - 1, old(self).line as nat);
                &&& old(self).chars@[old(self).pos - 1] == '"' ==> {
                    &&& final(self).pos == step.next
                    &&& final(self).line == step.line
                    &&& tokens_view(final(self).tokens@) == append_opt(
                        tokens_view(old(self).tokens@),
                        step.token,
                    )
                    &&& errors_view(final(self).errors@) == append_opt(
                        errors_view(old(self).errors@),
                        step.error,
                    )
                }
            }),
    {
        let ghost cs = self.chars@;
        let begin = self.pos;
        let ghost q = find_char(cs, begin as int, '"');
        proof {
            lemma_find_char(cs, begin as int, '"');
        }
        let mut newlines: usize = 0;
        while self.pos < self.chars.len() && self.chars[self.pos] != '"'
            invariant
                self.chars == old(self).chars,
                self.tokens == old(self).tokens,
                self.errors == old(self).errors,
                self.line == old(self).line,
                cs == self.chars@,
                begin <= self.pos <= self.chars@.len(),
                find_char(self.chars@, self.pos as int, '"') == q,
                newlines == count_newlines(cs.subrange(begin as int, self.pos as int)),
                newlines <= self.pos - begin,
            decreases self.chars@.len() - self.pos,
        {
            let ghost before = cs.subrange(begin as int, self.pos as int);
            if self.chars[self.pos] == '\n' {
                newlines = newlines + 1;
            }
            self.pos = self.pos + 1;
            assert(cs.subrange(begin as int, self.pos as int).drop_last() =~= before);
        }
        if self.pos < self.chars.len() {
            let text = string_from_chars(&self.chars, begin, self.pos);
            self.pos = self.pos + 1;
            self.line = self.line + newlines;
            self.add_token(TokenType::String(text));
        } else {
            let e = ScanError::UnterminatedString { line: self.line };
            self.new_err(e);
        }
    }

    fn new_err(&mut self, error: ScanError)
        ensures
            final(self).chars == old(self).chars,
            final(self).pos == old(self).pos,
            final(self).line == old(self).line,
            final(self).tokens == old(self).tokens,
            errors_view(final(self).errors@) == errors_view(old(self).errors@).push(error@),
    {
        let ghost before = errors_view(self.errors@);
        self.errors.push(error);
        assert(errors_view(self.errors@) =~= before.push(error@));
    }
}

} // verus!

verus! {

/// The texts of scan errors, in order.
pub open spec fn scan_error_texts(es: Seq<SpecScanError>) -> Seq<Seq<char>> {
    es.map_values(|e: SpecScanError| scan_error_text(e))
}

/// Scans a whole program. Its tokens, ending with `Eof`, when no lexeme is in
/// error; otherwise one error that lists every scan error, a line each.
pub fn tokenize(source: &Source) -> (r: Result<Tokens, LoxError>)
    requires
        source.text@.len() < usize::MAX,
    ensures
        match r {
            Ok(t) => scan(source.text@).1.len() == 0 && t@ == scan(source.text@).0,
            Err(e) => scan(source.text@).1.len() > 0 && e.message@ == joined(
                scan_error_texts(scan(source.text@).1),
            ),
        },
{
    match Scanner::new(source).scan_tokens() {
        Ok(tokens) => Ok(tokens),
        Err(errors) => {
            let mut messages: Vec<String> = Vec::new();
            let mut i: usize = 0;
            while i < errors.len()
                invariant
                    i <= errors@.len(),
                    texts(messages@) == scan_error_texts(errors_view(errors@)).take(i as int),
                decreases errors@.len() - i,
            {
                let m = errors[i].message();
                let ghost before = texts(messages@);
                messages.push(m);
                assert(texts(messages@) =~= before.push(m@));
                assert(scan_error_texts(errors_view(errors@)).take(i + 1) =~= before.push(m@));
                i = i + 1;
            }
            assert(texts(messages@) =~= scan_error_texts(errors_view(errors@)));
            Err(join_errors(messages))
        },
    }
}

} // verus!

verus! {

/// A number for each kind of token, the same for all texts.
pub open spec fn kind_tag(t: SpecTokenType) -> u8 {
    match t {
        SpecTokenType::LeftParen => 0u8,
        SpecTokenType::RightParen => 1u8,
        SpecTokenType::LeftBrace => 2u8,
        SpecTokenType::RightBrace => 3u8,
        SpecTokenType::Comma => 4u8,
        SpecTokenType::Dot => 5u8,
        SpecTokenType::Minus => 6u8,
        SpecTokenType::Plus => 7u8,
        SpecTokenType::Semicolon => 8u8,
        SpecTokenType::Slash => 9u8,
        SpecTokenType::Star => 10u8,
        SpecTokenType::Bang => 11u8,
        SpecTokenType::BangEqual => 12u8,
        SpecTokenType::Equal => 13u8,
        SpecTokenType::EqualEqual => 14u8,
        SpecTokenType::GreaterThan => 15u8,
        SpecTokenType::GreaterThanEqual => 16u8,
        SpecTokenType::LessThan => 17u8,
        SpecTokenType::LessThanEqual => 18u8,
        SpecTokenType::Identifier(_) => 19u8,
        SpecTokenType::String(_) => 20u8,
        SpecTokenType::Number(_) => 21u8,
        SpecTokenType::And => 22u8,
        SpecTokenType::Class => 23u8,
        SpecTokenType::Else => 24u8,
        SpecTokenType::False => 25u8,
        SpecTokenType::Fun => 26u8,
        SpecTokenType::For => 27u8,
        SpecTokenType::If => 28u8,
        SpecTokenType::Nil => 29u8,
        SpecTokenType::Or => 30u8,
        SpecTokenType::Print => 31u8,
        SpecTokenType::Return => 32u8,
        SpecTokenType::Super => 33u8,
        SpecTokenType::This => 34u8,
        SpecTokenType::True => 35u8,
        SpecTokenType::Var => 36u8,
        SpecTokenType::While => 37u8,
        SpecTokenType::Eof => 38u8,
    }
}

/// Kinds that carry no text.
pub open spec fn is_plain(t: SpecTokenType) -> bool {
    !(t is Identifier) && !(t is String) && !(t is Number)
}

/// Two kinds, one of which carries no text, are equal exactly when their numbers are.
pub proof fn lemma_plain_tag(a: SpecTokenType, b: SpecTokenType)
    requires
        is_plain(b),
    ensures
        (kind_tag(a) == kind_tag(b)) == (a == b),
{
}

impl TokenType {
    /// The number of this kind of token.
    pub fn tag(&self) -> (n: u8)
        ensures
            n == kind_tag(self@),
    {
        match self {
            TokenType::LeftParen => 0,
            TokenType::RightParen => 1,
            TokenType::LeftBrace => 2,
            TokenType::RightBrace => 3,
            TokenType::Comma => 4,
            TokenType::Dot => 5,
            TokenType::Minus => 6,
            TokenType::Plus => 7,
            TokenType::Semicolon => 8,
            TokenType::Slash => 9,
            TokenType::Star => 10,
            TokenType::Bang => 11,
            TokenType::BangEqual => 12,
            TokenType::Equal => 13,
            TokenType::EqualEqual => 14,
            TokenType::GreaterThan => 15,
            TokenType::GreaterThanEqual => 16,
            TokenType::LessThan => 17,
            TokenType::LessThanEqual => 18,
            TokenType::Identifier(_) => 19,
            TokenType::String(_) => 20,
            TokenType::Number(_) => 21,
            TokenType::And => 22,
            TokenType::Class => 23,
            TokenType::Else => 24,
            TokenType::False => 25,
            TokenType::Fun => 26,
            TokenType::For => 27,
            TokenType::If => 28,
            TokenType::Nil => 29,
            TokenType::Or => 30,
            TokenType::Print => 31,
            TokenType::Return => 32,
            TokenType::Super => 33,
            TokenType::This => 34,
            TokenType::True => 35,
            TokenType::Var => 36,
            TokenType::While => 37,
            TokenType::Eof => 38,
        }
    }

    /// A copy of this token kind.
    pub fn duplicate(&self) -> (r: TokenType)
        ensures
            r@ == self@,
    {
        match self {
            TokenType::LeftParen => TokenType::LeftParen,
            TokenType::RightParen => TokenType::RightParen,
            TokenType::LeftBrace => TokenType::LeftBrace,
            TokenType::RightBrace => TokenType::RightBrace,
            TokenType::Comma => TokenType::Comma,
            TokenType::Dot => TokenType::Dot,
            TokenType::Minus => TokenType::Minus,
            TokenType::Plus => TokenType::Plus,
            TokenType::Semicolon => TokenType::Semicolon,
            TokenType::Slash => TokenType::Slash,
            TokenType::Star => TokenType::Star,
            TokenType::Bang => TokenType::Bang,
            TokenType::BangEqual => TokenType::BangEqual,
            TokenType::Equal => TokenType::Equal,
            TokenType::EqualEqual => TokenType::EqualEqual,
            TokenType::GreaterThan => TokenType::GreaterThan,
            TokenType::GreaterThanEqual => TokenType::GreaterThanEqual,
            TokenType::LessThan => TokenType::LessThan,
            TokenType::LessThanEqual => TokenType::LessThanEqual,
            TokenType::Identifier(s) => TokenType::Identifier(s.clone()),
            TokenType::String(s) => TokenType::String(s.clone()),
            TokenType::Number(s) => TokenType::Number(s.clone()),
            TokenType::And => TokenType::And,
            TokenType::Class => TokenType::Class,
            TokenType::Else => TokenType::Else,
            TokenType::False => TokenType::False,
            TokenType::Fun => TokenType::Fun,
            TokenType::For => TokenType::For,
            TokenType::If => TokenType::If,
            TokenType::Nil => TokenType::Nil,
            TokenType::Or => TokenType::Or,
            TokenType::Print => TokenType::Print,
            TokenType::Return => TokenType::Return,
            TokenType::Super => TokenType::Super,
            TokenType::This => TokenType::This,
            TokenType::True => TokenType::True,
            TokenType::Var => TokenType::Var,
            TokenType::While => TokenType::While,
            TokenType::Eof => TokenType::Eof,
        }
    }
}

} // verus!
