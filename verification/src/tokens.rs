//! The tokenizer: it reads UTF-8 TOML source and yields, one at a time, the
//! tokens of the text with the span of each. Numbers, booleans and bare keys
//! all come out as `Keylike`; only the parser knows which is meant where.

use crate::span::Span;
use crate::strings::read_string;
use crate::text::{
    char_at, cow_bytes, decode_at, lemma_ascii_boundary, lemma_boundary, lemma_next_boundary,
    lemma_str_valid, len_utf8, substr, suffix, utf8_len,
};
use std::borrow::Cow;
use vstd::prelude::*;
use vstd::slice::*;
use vstd::string::*;
use vstd::utf8::*;

verus! {

/// What the tokenizer can reject. The first number is the byte offset that
/// the error is about.
#[derive(Copy, Clone, PartialEq, Eq, Structural, Debug)]
pub enum Error {
    /// A control character other than tab inside a string.
    InvalidCharInString(usize, char),
    /// A character after `\` that starts no escape.
    InvalidEscape(usize, char),
    /// A character that is no hexadecimal digit inside `\u` or `\U`.
    InvalidHexEscape(usize, char),
    /// `\u` or `\U` with a value that is no Unicode scalar value: the offset
    /// of the `u`, the number of digits, and the value.
    InvalidEscapeValue(usize, usize, u32),
    /// A line break inside a single-line string.
    NewlineInString(usize),
    /// A character that starts no token.
    Unexpected(usize, char),
    /// The input ended inside the string that starts at the offset.
    UnterminatedString(usize),
}

impl Error {
    /// The offset of the first byte that the error is about.
    pub open spec fn start(self) -> int {
        match self {
            Error::InvalidCharInString(at, _) => at as int,
            Error::InvalidEscape(at, _) => at as int,
            Error::InvalidHexEscape(at, _) => at as int,
            Error::InvalidEscapeValue(at, _, _) => at + 1,
            Error::NewlineInString(at) => at as int,
            Error::Unexpected(at, _) => at as int,
            Error::UnterminatedString(at) => at as int,
        }
    }

    /// The offset just after the last byte that the error is about: the end
    /// of the offending character, of the digits of an escape, or of the
    /// delimiter that opened an unterminated string.
    pub open spec fn end(self) -> int {
        match self {
            Error::InvalidCharInString(at, c) => at + utf8_len(c),
            Error::InvalidEscape(at, c) => at + utf8_len(c),
            Error::InvalidHexEscape(at, c) => at + utf8_len(c),
            Error::InvalidEscapeValue(at, n, _) => at + 1 + n,
            Error::NewlineInString(at) => at + 1,
            Error::Unexpected(at, c) => at + utf8_len(c),
            Error::UnterminatedString(at) => at + 1,
        }
    }
}

impl Error {
    /// The bytes of the source that the error is about.
    pub fn span(&self) -> (r: Span)
        requires
            self.end() <= usize::MAX,
        ensures
            r.start == self.start(),
            r.end == self.end(),
    {
        match self {
            Error::InvalidCharInString(at, c) => Span { start: *at, end: *at + len_utf8(*c) },
            Error::InvalidEscape(at, c) => Span { start: *at, end: *at + len_utf8(*c) },
            Error::InvalidHexEscape(at, c) => Span { start: *at, end: *at + len_utf8(*c) },
            Error::InvalidEscapeValue(at, n, _) => Span { start: *at + 1, end: *at + 1 + *n },
            Error::NewlineInString(at) => Span { start: *at, end: *at + 1 },
            Error::Unexpected(at, c) => Span { start: *at, end: *at + len_utf8(*c) },
            Error::UnterminatedString(at) => Span { start: *at, end: *at + 1 },
        }
    }
}

/// A token of TOML source.
#[derive(Debug, PartialEq, Eq)]
pub enum Token<'a> {
    /// A run of spaces and tabs.
    Whitespace(&'a str),
    /// A line feed, or a carriage return and a line feed.
    Newline,
    /// A comment, from its `#` up to the end of the line.
    Comment(&'a str),
    /// `=`
    Equals,
    /// `.`
    Period,
    /// `,`
    Comma,
    /// `:`
    Colon,
    /// `+`
    Plus,
    /// `{`
    LeftBrace,
    /// `}`
    RightBrace,
    /// `[`
    LeftBracket,
    /// `]`
    RightBracket,
    /// A run of ASCII letters, digits, `_` and `-`.
    Keylike(&'a str),
    /// A string of any of the four flavors.
    String {
        /// The text of the token, delimiters included.
        src: &'a str,
        /// What the string stands for: borrowed from the source unless an
        /// escape or a carriage return had to be resolved.
        val: Cow<'a, str>,
        /// Whether the string is delimited by three quotes.
        multiline: bool,
        /// Whether the string is delimited by `'`, and so resolves no escape.
        literal: bool,
    },
}

/// What a [`Token`] holds, with every text as its bytes.
pub enum TokenView {
    Whitespace(Seq<u8>),
    Newline,
    Comment(Seq<u8>),
    Equals,
    Period,
    Comma,
    Colon,
    Plus,
    LeftBrace,
    RightBrace,
    LeftBracket,
    RightBracket,
    Keylike(Seq<u8>),
    String { src: Seq<u8>, val: Seq<u8>, multiline: bool, literal: bool },
}

impl<'a> View for Token<'a> {
    type V = TokenView;

    open spec fn view(&self) -> TokenView {
        match self {
            Token::Whitespace(s) => TokenView::Whitespace(s.spec_bytes()),
            Token::Newline => TokenView::Newline,
            Token::Comment(s) => TokenView::Comment(s.spec_bytes()),
            Token::Equals => TokenView::Equals,
            Token::Period => TokenView::Period,
            Token::Comma => TokenView::Comma,
            Token::Colon => TokenView::Colon,
            Token::Plus => TokenView::Plus,
            Token::LeftBrace => TokenView::LeftBrace,
            Token::RightBrace => TokenView::RightBrace,
            Token::LeftBracket => TokenView::LeftBracket,
            Token::RightBracket => TokenView::RightBracket,
            Token::Keylike(s) => TokenView::Keylike(s.spec_bytes()),
            Token::String { src, val, multiline, literal } => TokenView::String {
                src: src.spec_bytes(),
                val: cow_bytes(*val),
                multiline: *multiline,
                literal: *literal,
            },
        }
    }
}

/// What stands at an offset of the source: the end of the input, a token
/// that reaches up to `end`, or an error.
pub enum Lexed {
    End,
    Token { token: TokenView, end: int, owned: bool },
    Error(Error),
}

/// Space or tab.
pub open spec fn is_blank(b: u8) -> bool {
    b == 0x20 || b == 0x09
}

/// A byte of a bare key: an ASCII letter or digit, `_` or `-`.
pub open spec fn is_keylike(b: u8) -> bool {
    (0x41 <= b <= 0x5a) || (0x61 <= b <= 0x7a) || (0x30 <= b <= 0x39) || b == 0x2d || b == 0x5f
}

/// A byte that may stand in a comment or a string as it is: a tab, or
/// anything that is no ASCII control character.
pub open spec fn is_text(b: u8) -> bool {
    b == 0x09 || (b >= 0x20 && b != 0x7f)
}

/// A byte of a bare value: a byte of a bare key, `+`, `.` or `:`.
pub open spec fn is_number_byte(b: u8) -> bool {
    is_keylike(b) || b == 0x2b || b == 0x2e || b == 0x3a
}

/// The classes of bytes of which maximal runs are read.
#[derive(Copy, Clone, PartialEq, Eq, Structural, Debug)]
pub enum Class {
    /// Spaces and tabs.
    Blank,
    /// The bytes of a bare key.
    Keylike,
    /// The bytes of a comment.
    Text,
    /// The bytes of a bare value, such as a number.
    Number,
}

/// Whether the byte `b` belongs to the class `c`.
pub open spec fn in_class(c: Class, b: u8) -> bool {
    match c {
        Class::Blank => is_blank(b),
        Class::Keylike => is_keylike(b),
        Class::Text => is_text(b),
        Class::Number => is_number_byte(b),
    }
}

/// The length of the run of bytes of class `c` that starts at `pos`.
pub open spec fn run_len(src: Seq<u8>, pos: int, c: Class) -> nat
    decreases src.len() - pos,
{
    if 0 <= pos < src.len() && in_class(c, src[pos]) {
        1 + run_len(src, pos + 1, c)
    } else {
        0
    }
}

/// Where the run of bytes of class `c` that starts at `pos` ends: the first
/// offset at or after `pos` whose byte is not of the class, or the end.
pub open spec fn run_end(src: Seq<u8>, pos: int, c: Class) -> int {
    pos + run_len(src, pos, c)
}

/// The number of bytes of the line break at `pos`: 1 for a line feed, 2 for a
/// carriage return and a line feed, 0 where there is none. A carriage return
/// alone is no line break.
pub open spec fn newline_width(src: Seq<u8>, pos: int) -> int {
    if 0 <= pos < src.len() && src[pos] == 0x0a {
        1
    } else if 0 <= pos && pos + 1 < src.len() && src[pos] == 0x0d && src[pos + 1] == 0x0a {
        2
    } else {
        0
    }
}

/// The character at `pos` as errors name it: a line feed for a line break of
/// either form, else the character itself.
pub open spec fn shown_char(src: Seq<u8>, pos: int) -> char {
    if newline_width(src, pos) > 0 {
        '\n'
    } else {
        char_at(src, pos)
    }
}

/// The value of the hexadecimal digit `b`, or `None`.
pub open spec fn hex_digit(b: u8) -> Option<u32> {
    if 0x30 <= b <= 0x39 {
        Some((b - 0x30) as u32)
    } else if 0x41 <= b <= 0x46 {
        Some((b - 0x41 + 10) as u32)
    } else if 0x61 <= b <= 0x66 {
        Some((b - 0x61 + 10) as u32)
    } else {
        None
    }
}

/// The string token that starts at `start` and ends just before `end`, with
/// the value `val`.
pub open spec fn string_token(
    src: Seq<u8>,
    start: int,
    end: int,
    val: Seq<u8>,
    delim: u8,
    multiline: bool,
    owned: bool,
) -> Lexed {
    Lexed::Token {
        token: TokenView::String {
            src: src.subrange(start, end),
            val,
            multiline,
            literal: delim == 0x27,
        },
        end,
        owned,
    }
}

/// Reads the body of the string that started at `start` with the delimiter
/// `delim`, from `pos` on, where `acc` is the value so far and `owned` says
/// whether it has departed from the text of the source.
///
/// A line break is an error in a single-line string; in a multi-line string
/// it stands for a line feed. A delimiter ends a single-line string; in a
/// multi-line string one or two of them are text, three end the string, and
/// up to two more right after them belong to the value. A backslash starts
/// an escape in a basic string. Every other byte must be text and stands for
/// itself.
pub open spec fn scan(
    src: Seq<u8>,
    start: int,
    delim: u8,
    multiline: bool,
    pos: int,
    acc: Seq<u8>,
    owned: bool,
) -> Lexed
    decreases src.len() - pos, 0int,
{
    if pos < 0 || pos >= src.len() {
        Lexed::Error(Error::UnterminatedString(start as usize))
    } else if newline_width(src, pos) > 0 {
        if multiline {
            scan(
                src,
                start,
                delim,
                multiline,
                pos + newline_width(src, pos),
                acc.push(0x0a),
                owned || newline_width(src, pos) == 2,
            )
        } else {
            Lexed::Error(Error::NewlineInString(pos as usize))
        }
    } else if src[pos] == delim {
        if !multiline {
            string_token(src, start, pos + 1, acc, delim, multiline, owned)
        } else if !(pos + 1 < src.len() && src[pos + 1] == delim) {
            scan(src, start, delim, multiline, pos + 1, acc.push(delim), owned)
        } else if !(pos + 2 < src.len() && src[pos + 2] == delim) {
            scan(src, start, delim, multiline, pos + 2, acc.push(delim).push(delim), owned)
        } else if !(pos + 3 < src.len() && src[pos + 3] == delim) {
            string_token(src, start, pos + 3, acc, delim, multiline, owned)
        } else if !(pos + 4 < src.len() && src[pos + 4] == delim) {
            string_token(src, start, pos + 4, acc.push(delim), delim, multiline, owned)
        } else {
            string_token(src, start, pos + 5, acc.push(delim).push(delim), delim, multiline, owned)
        }
    } else if src[pos] == 0x5c && delim == 0x22 {
        escape(src, start, multiline, pos + 1, acc)
    } else if is_text(src[pos]) {
        scan(src, start, delim, multiline, pos + 1, acc.push(src[pos]), owned)
    } else {
        Lexed::Error(Error::InvalidCharInString(pos as usize, src[pos] as char))
    }
}

/// Reads what follows the backslash of an escape in a basic string; `pos` is
/// the offset just after the backslash.
///
/// `\b \t \n \f \r \" \\` stand for one character each; `\u` and `\U` take
/// four and eight hexadecimal digits. In a multi-line string a backslash
/// before a line break, with nothing but spaces and tabs in between, joins
/// the lines: the line break and all spaces, tabs and line breaks after it
/// are dropped.
pub open spec fn escape(src: Seq<u8>, start: int, multiline: bool, pos: int, acc: Seq<u8>) -> Lexed
    decreases src.len() - pos, 3int,
{
    if pos < 0 || pos >= src.len() {
        Lexed::Error(Error::UnterminatedString(start as usize))
    } else {
        let b = src[pos];
        if b == 0x22 || b == 0x5c {
            scan(src, start, 0x22, multiline, pos + 1, acc.push(b), true)
        } else if b == 0x62 {
            scan(src, start, 0x22, multiline, pos + 1, acc.push(0x08), true)
        } else if b == 0x66 {
            scan(src, start, 0x22, multiline, pos + 1, acc.push(0x0c), true)
        } else if b == 0x6e {
            scan(src, start, 0x22, multiline, pos + 1, acc.push(0x0a), true)
        } else if b == 0x72 {
            scan(src, start, 0x22, multiline, pos + 1, acc.push(0x0d), true)
        } else if b == 0x74 {
            scan(src, start, 0x22, multiline, pos + 1, acc.push(0x09), true)
        } else if b == 0x75 {
            hex(src, start, multiline, pos, 4, pos + 1, 4, 0, acc)
        } else if b == 0x55 {
            hex(src, start, multiline, pos, 8, pos + 1, 8, 0, acc)
        } else if multiline && newline_width(src, pos) > 0 {
            join(src, start, pos + newline_width(src, pos), acc)
        } else if multiline && is_blank(b) {
            trail(src, start, pos, pos + 1, acc)
        } else {
            Lexed::Error(Error::InvalidEscape(pos as usize, shown_char(src, pos)))
        }
    }
}

/// Reads the hexadecimal digits of `\u` or `\U`: `at` is the offset of the
/// `u`, `total` the number of digits that it takes, `left` the number of
/// digits still to come, `value` what the digits so far spell. The value must
/// be a Unicode scalar value, and stands for the UTF-8 encoding of that
/// character.
pub open spec fn hex(
    src: Seq<u8>,
    start: int,
    multiline: bool,
    at: int,
    total: nat,
    pos: int,
    left: nat,
    value: nat,
    acc: Seq<u8>,
) -> Lexed
    decreases src.len() - pos, 1int + left,
{
    if left == 0 {
        if value <= 0x10ffff && is_scalar(value as u32) {
            scan(src, start, 0x22, multiline, pos, acc + encode_scalar(value as u32), true)
        } else {
            Lexed::Error(Error::InvalidEscapeValue(at as usize, total as usize, value as u32))
        }
    } else if pos < 0 || pos >= src.len() {
        Lexed::Error(Error::UnterminatedString(start as usize))
    } else {
        match hex_digit(src[pos]) {
            Some(d) => hex(
                src,
                start,
                multiline,
                at,
                total,
                pos + 1,
                (left - 1) as nat,
                value * 16 + d as nat,
                acc,
            ),
            None => Lexed::Error(Error::InvalidHexEscape(pos as usize, shown_char(src, pos))),
        }
    }
}

/// After a backslash and a space or tab in a multi-line string: only spaces
/// and tabs may come before the line break. `at` is the offset of the first
/// of them.
pub open spec fn trail(src: Seq<u8>, start: int, at: int, pos: int, acc: Seq<u8>) -> Lexed
    decreases src.len() - pos, 2int,
{
    if pos < 0 || pos >= src.len() {
        join(src, start, pos, acc)
    } else if is_blank(src[pos]) {
        trail(src, start, at, pos + 1, acc)
    } else if newline_width(src, pos) > 0 {
        join(src, start, pos + newline_width(src, pos), acc)
    } else {
        Lexed::Error(Error::InvalidEscape(at as usize, src[at] as char))
    }
}

/// After the line break of a line join: drops spaces, tabs and line breaks,
/// and goes on with the string at the first byte that is none of them.
pub open spec fn join(src: Seq<u8>, start: int, pos: int, acc: Seq<u8>) -> Lexed
    decreases src.len() - pos, 1int,
{
    if pos < 0 || pos >= src.len() {
        scan(src, start, 0x22, true, pos, acc, true)
    } else if is_blank(src[pos]) {
        join(src, start, pos + 1, acc)
    } else if newline_width(src, pos) > 0 {
        join(src, start, pos + newline_width(src, pos), acc)
    } else {
        scan(src, start, 0x22, true, pos, acc, true)
    }
}

/// Reads the string that starts with the delimiter at `start`. Two
/// delimiters not followed by a third are the empty string. Three open a
/// multi-line string, and a line break right after them is dropped.
pub open spec fn lex_string(src: Seq<u8>, start: int, delim: u8) -> Lexed {
    if start + 1 < src.len() && src[start + 1] == delim {
        if start + 2 < src.len() && src[start + 2] == delim {
            let body = start + 3 + newline_width(src, start + 3);
            scan(src, start, delim, true, body, Seq::empty(), false)
        } else {
            string_token(src, start, start + 2, Seq::empty(), delim, false, false)
        }
    } else {
        scan(src, start, delim, false, start + 1, Seq::empty(), false)
    }
}

/// The token that consists of the one byte at `pos`.
pub open spec fn single(token: TokenView, pos: int) -> Lexed {
    Lexed::Token { token, end: pos + 1, owned: false }
}

/// What stands at the offset `pos` of the source `src`.
#[verifier::opaque]
pub open spec fn lex(src: Seq<u8>, pos: int) -> Lexed {
    if pos < 0 || pos >= src.len() {
        Lexed::End
    } else {
        let b = src[pos];
        if newline_width(src, pos) > 0 {
            Lexed::Token {
                token: TokenView::Newline,
                end: pos + newline_width(src, pos),
                owned: false,
            }
        } else if is_blank(b) {
            let end = run_end(src, pos, Class::Blank);
            Lexed::Token { token: TokenView::Whitespace(src.subrange(pos, end)), end, owned: false }
        } else if b == 0x23 {
            let end = run_end(src, pos + 1, Class::Text);
            Lexed::Token { token: TokenView::Comment(src.subrange(pos, end)), end, owned: false }
        } else if b == 0x3d {
            single(TokenView::Equals, pos)
        } else if b == 0x2e {
            single(TokenView::Period, pos)
        } else if b == 0x2c {
            single(TokenView::Comma, pos)
        } else if b == 0x3a {
            single(TokenView::Colon, pos)
        } else if b == 0x2b {
            single(TokenView::Plus, pos)
        } else if b == 0x7b {
            single(TokenView::LeftBrace, pos)
        } else if b == 0x7d {
            single(TokenView::RightBrace, pos)
        } else if b == 0x5b {
            single(TokenView::LeftBracket, pos)
        } else if b == 0x5d {
            single(TokenView::RightBracket, pos)
        } else if b == 0x27 || b == 0x22 {
            lex_string(src, pos, b)
        } else if is_keylike(b) {
            let end = run_end(src, pos, Class::Keylike);
            Lexed::Token { token: TokenView::Keylike(src.subrange(pos, end)), end, owned: false }
        } else {
            Lexed::Error(Error::Unexpected(pos as usize, char_at(src, pos)))
        }
    }
}

impl<'a> Token<'a> {
    /// Whether the token holds no text of its own: every token but a string
    /// whose value had to be written anew.
    pub open spec fn borrows(&self) -> bool {
        match self {
            Token::String { val, .. } => val is Borrowed,
            _ => true,
        }
    }

    /// What kind of token this is, in words, for error messages.
    pub fn describe(&self) -> (r: &'static str)
        ensures
            r@ == describe_token(self@),
    {
        match self {
            Token::Keylike(_) => "an identifier",
            Token::Equals => "an equals",
            Token::Period => "a period",
            Token::Comment(_) => "a comment",
            Token::Newline => "a newline",
            Token::Whitespace(_) => "whitespace",
            Token::Comma => "a comma",
            Token::RightBrace => "a right brace",
            Token::LeftBrace => "a left brace",
            Token::RightBracket => "a right bracket",
            Token::LeftBracket => "a left bracket",
            Token::String { multiline, .. } => if *multiline {
                "a multiline string"
            } else {
                "a string"
            },
            Token::Colon => "a colon",
            Token::Plus => "a plus",
        }
    }
}

/// What kind of token this is, in words.
pub open spec fn describe_token(t: TokenView) -> Seq<char> {
    match t {
        TokenView::Keylike(_) => "an identifier"@,
        TokenView::Equals => "an equals"@,
        TokenView::Period => "a period"@,
        TokenView::Comment(_) => "a comment"@,
        TokenView::Newline => "a newline"@,
        TokenView::Whitespace(_) => "whitespace"@,
        TokenView::Comma => "a comma"@,
        TokenView::RightBrace => "a right brace"@,
        TokenView::LeftBrace => "a left brace"@,
        TokenView::RightBracket => "a right bracket"@,
        TokenView::LeftBracket => "a left bracket"@,
        TokenView::String { multiline, .. } => if multiline {
            "a multiline string"@
        } else {
            "a string"@
        },
        TokenView::Colon => "a colon"@,
        TokenView::Plus => "a plus"@,
    }
}

/// Whether `l` is what reading a string from `pos` on can give: an error,
/// or a string token that ends after `pos` and inside the source.
pub open spec fn string_or_error(l: Lexed, src: Seq<u8>, pos: int) -> bool {
    match l {
        Lexed::End => false,
        Lexed::Token { token, end, .. } => token is String && pos < end <= src.len(),
        Lexed::Error(_) => true,
    }
}

/// Reading the body of a string gives a string token that ends further on,
/// or an error.
pub proof fn lemma_scan_kind(
    src: Seq<u8>,
    start: int,
    delim: u8,
    multiline: bool,
    pos: int,
    acc: Seq<u8>,
    owned: bool,
)
    requires
        0 <= pos,
    ensures
        string_or_error(scan(src, start, delim, multiline, pos, acc, owned), src, pos),
    decreases src.len() - pos, 0int,
{
    if pos < 0 || pos >= src.len() {
    } else if newline_width(src, pos) > 0 {
        if multiline {
            lemma_scan_kind(
                src,
                start,
                delim,
                multiline,
                pos + newline_width(src, pos),
                acc.push(0x0a),
                owned || newline_width(src, pos) == 2,
            );
        }
    } else if src[pos] == delim {
        if !multiline {
        } else if !(pos + 1 < src.len() && src[pos + 1] == delim) {
            lemma_scan_kind(src, start, delim, multiline, pos + 1, acc.push(delim), owned);
        } else if !(pos + 2 < src.len() && src[pos + 2] == delim) {
            lemma_scan_kind(
                src,
                start,
                delim,
                multiline,
                pos + 2,
                acc.push(delim).push(delim),
                owned,
            );
        }
    } else if src[pos] == 0x5c && delim == 0x22 {
        lemma_escape_kind(src, start, multiline, pos + 1, acc);
    } else if is_text(src[pos]) {
        lemma_scan_kind(src, start, delim, multiline, pos + 1, acc.push(src[pos]), owned);
    }
}

/// Reading an escape and what follows it gives a string token that ends
/// further on, or an error.
pub proof fn lemma_escape_kind(src: Seq<u8>, start: int, multiline: bool, pos: int, acc: Seq<u8>)
    requires
        0 <= pos,
    ensures
        string_or_error(escape(src, start, multiline, pos, acc), src, pos),
    decreases src.len() - pos, 3int,
{
    if !(pos < 0 || pos >= src.len()) {
        let b = src[pos];
        if b == 0x22 || b == 0x5c {
            lemma_scan_kind(src, start, 0x22, multiline, pos + 1, acc.push(b), true);
        } else if b == 0x62 {
            lemma_scan_kind(src, start, 0x22, multiline, pos + 1, acc.push(0x08), true);
        } else if b == 0x66 {
            lemma_scan_kind(src, start, 0x22, multiline, pos + 1, acc.push(0x0c), true);
        } else if b == 0x6e {
            lemma_scan_kind(src, start, 0x22, multiline, pos + 1, acc.push(0x0a), true);
        } else if b == 0x72 {
            lemma_scan_kind(src, start, 0x22, multiline, pos + 1, acc.push(0x0d), true);
        } else if b == 0x74 {
            lemma_scan_kind(src, start, 0x22, multiline, pos + 1, acc.push(0x09), true);
        } else if b == 0x75 {
            lemma_hex_kind(src, start, multiline, pos, 4, pos + 1, 4, 0, acc);
        } else if b == 0x55 {
            lemma_hex_kind(src, start, multiline, pos, 8, pos + 1, 8, 0, acc);
        } else if multiline && newline_width(src, pos) > 0 {
            lemma_join_kind(src, start, pos + newline_width(src, pos), acc);
        } else if multiline && is_blank(b) {
            lemma_trail_kind(src, start, pos, pos + 1, acc);
        }
    }
}

/// Reading the digits of an escape and what follows them gives a string
/// token that ends further on, or an error.
pub proof fn lemma_hex_kind(
    src: Seq<u8>,
    start: int,
    multiline: bool,
    at: int,
    total: nat,
    pos: int,
    left: nat,
    value: nat,
    acc: Seq<u8>,
)
    requires
        0 <= pos,
    ensures
        string_or_error(hex(src, start, multiline, at, total, pos, left, value, acc), src, pos),
    decreases src.len() - pos, 1int + left,
{
    if left == 0 {
        if value <= 0x10ffff && is_scalar(value as u32) {
            lemma_scan_kind(
                src,
                start,
                0x22,
                multiline,
                pos,
                acc + encode_scalar(value as u32),
                true,
            );
        }
    } else if !(pos < 0 || pos >= src.len()) {
        match hex_digit(src[pos]) {
            Some(d) => {
                lemma_hex_kind(
                    src,
                    start,
                    multiline,
                    at,
                    total,
                    pos + 1,
                    (left - 1) as nat,
                    value * 16 + d as nat,
                    acc,
                );
            },
            None => {},
        }
    }
}

/// Reading up to the line break of a line join and what follows gives a
/// string token that ends further on, or an error.
pub proof fn lemma_trail_kind(src: Seq<u8>, start: int, at: int, pos: int, acc: Seq<u8>)
    requires
        0 <= pos,
    ensures
        string_or_error(trail(src, start, at, pos, acc), src, pos),
    decreases src.len() - pos, 2int,
{
    if pos < 0 || pos >= src.len() {
        lemma_join_kind(src, start, pos, acc);
    } else if is_blank(src[pos]) {
        lemma_trail_kind(src, start, at, pos + 1, acc);
    } else if newline_width(src, pos) > 0 {
        lemma_join_kind(src, start, pos + newline_width(src, pos), acc);
    }
}

/// Reading on after a line join gives a string token that ends further on,
/// or an error.
pub proof fn lemma_join_kind(src: Seq<u8>, start: int, pos: int, acc: Seq<u8>)
    requires
        0 <= pos,
    ensures
        string_or_error(join(src, start, pos, acc), src, pos),
    decreases src.len() - pos, 1int,
{
    if pos < 0 || pos >= src.len() {
        lemma_scan_kind(src, start, 0x22, true, pos, acc, true);
    } else if is_blank(src[pos]) {
        lemma_join_kind(src, start, pos + 1, acc);
    } else if newline_width(src, pos) > 0 {
        lemma_join_kind(src, start, pos + newline_width(src, pos), acc);
    } else {
        lemma_scan_kind(src, start, 0x22, true, pos, acc, true);
    }
}

/// A run of bytes of one class that starts in the source ends in it.
pub proof fn lemma_run_bounds(src: Seq<u8>, pos: int, c: Class)
    requires
        0 <= pos <= src.len(),
    ensures
        pos <= run_end(src, pos, c) <= src.len(),
        pos < src.len() && in_class(c, src[pos]) ==> pos < run_end(src, pos, c),
    decreases src.len() - pos,
{
    if pos < src.len() && in_class(c, src[pos]) {
        lemma_run_bounds(src, pos + 1, c);
    }
}

/// How a token shows in its first byte: the end of the input is reached only
/// at the end of the source, a token of punctuation is the one byte that
/// names it, and a bare key begins with a byte of a bare key. Every token
/// is at least one byte long and ends inside the source.
pub proof fn lemma_lex_first_byte(src: Seq<u8>, pos: int)
    ensures
        lex(src, pos) is End <==> (pos < 0 || pos >= src.len()),
        match lex(src, pos) {
            Lexed::Token { token, end, .. } => pos < end <= src.len() && match token {
                TokenView::Equals => src[pos] == 0x3d && end == pos + 1,
                TokenView::Period => src[pos] == 0x2e && end == pos + 1,
                TokenView::Comma => src[pos] == 0x2c && end == pos + 1,
                TokenView::Colon => src[pos] == 0x3a && end == pos + 1,
                TokenView::Plus => src[pos] == 0x2b && end == pos + 1,
                TokenView::LeftBrace => src[pos] == 0x7b && end == pos + 1,
                TokenView::RightBrace => src[pos] == 0x7d && end == pos + 1,
                TokenView::LeftBracket => src[pos] == 0x5b && end == pos + 1,
                TokenView::RightBracket => src[pos] == 0x5d && end == pos + 1,
                TokenView::Keylike(_) => is_keylike(src[pos]),
                _ => true,
            },
            _ => true,
        },
{
    reveal(lex);
    if 0 <= pos < src.len() {
        lemma_run_bounds(src, pos, Class::Blank);
        lemma_run_bounds(src, pos, Class::Keylike);
        lemma_run_bounds(src, pos + 1, Class::Text);
        if src[pos] == 0x27 || src[pos] == 0x22 {
            let delim = src[pos];
            if pos + 1 < src.len() && src[pos + 1] == delim {
                if pos + 2 < src.len() && src[pos + 2] == delim {
                    let body = pos + 3 + newline_width(src, pos + 3);
                    lemma_scan_kind(src, pos, delim, true, body, Seq::empty(), false);
                }
            } else {
                lemma_scan_kind(src, pos, delim, false, pos + 1, Seq::empty(), false);
            }
        }
    }
}

/// Whether the result `r` of reading at `pos` is what [`lex`] says stands
/// there: the same token with the same span and texts, or the same error.
pub open spec fn lexed_as(
    src: Seq<u8>,
    pos: int,
    r: Result<Option<(Span, Token<'_>)>, Error>,
) -> bool {
    match lex(src, pos) {
        Lexed::End => r == Ok::<Option<(Span, Token<'_>)>, Error>(None),
        Lexed::Token { token, end, owned } => {
            &&& r matches Ok(Some(found))
            &&& found.0.start == pos
            &&& found.0.end == end
            &&& found.1@ == token
            &&& found.1.borrows() == !owned
            &&& pos < end <= src.len()
            &&& is_char_boundary(src, end)
        },
        Lexed::Error(e) => r == Err::<Option<(Span, Token<'_>)>, Error>(e) && e.end() <= src.len(),
    }
}

/// Whether the byte `b` belongs to the class `c`.
fn class_has(c: Class, b: u8) -> (r: bool)
    ensures
        r == in_class(c, b),
{
    match c {
        Class::Blank => b == 0x20 || b == 0x09,
        Class::Keylike => (0x41 <= b && b <= 0x5a) || (0x61 <= b && b <= 0x7a) || (0x30 <= b && b
            <= 0x39) || b == 0x2d || b == 0x5f,
        Class::Text => b == 0x09 || (b >= 0x20 && b != 0x7f),
        Class::Number => (0x41 <= b && b <= 0x5a) || (0x61 <= b && b <= 0x7a) || (0x30 <= b && b
            <= 0x39) || b == 0x2d || b == 0x5f || b == 0x2b || b == 0x2e || b == 0x3a,
    }
}

/// The end of the run of bytes of class `c` that starts at `pos`.
pub fn run_to(bytes: &[u8], pos: usize, c: Class) -> (end: usize)
    requires
        pos <= bytes.len(),
    ensures
        end == run_end(bytes@, pos as int, c),
        pos <= end <= bytes.len(),
        forall|i: int| pos <= i < end ==> in_class(c, #[trigger] bytes@[i]),
        end < bytes.len() ==> !in_class(c, bytes@[end as int]),
{
    let mut end = pos;
    while end < bytes.len() && class_has(c, bytes[end])
        invariant
            pos <= end <= bytes.len(),
            run_end(bytes@, end as int, c) == run_end(bytes@, pos as int, c),
            forall|i: int| pos <= i < end ==> in_class(c, #[trigger] bytes@[i]),
        decreases bytes.len() - end,
    {
        end += 1;
    }
    end
}

/// The number of bytes of the line break at `pos`, 0 where there is none.
pub fn newline_len(bytes: &[u8], pos: usize) -> (w: usize)
    requires
        pos <= bytes.len(),
    ensures
        w == newline_width(bytes@, pos as int),
        pos + w <= bytes.len(),
{
    if pos < bytes.len() && bytes[pos] == 0x0a {
        1
    } else if pos < bytes.len() && bytes[pos] == 0x0d && pos + 1 < bytes.len() && bytes[pos + 1]
        == 0x0a {
        2
    } else {
        0
    }
}

/// Reads the token that starts at the offset `pos` of `input`, a character
/// boundary: `Ok(None)` at the end of the input, else the token with its
/// span, or the error that [`lex`] gives.
pub fn token_at<'a>(input: &'a str, pos: usize) -> (r: Result<Option<(Span, Token<'a>)>, Error>)
    requires
        pos <= input.spec_bytes().len(),
        is_char_boundary(input.spec_bytes(), pos as int),
    ensures
        lexed_as(input.spec_bytes(), pos as int, r),
{
    let bytes = input.as_bytes();
    let ghost src = bytes@;
    let n = bytes.len();
    proof {
        reveal(lex);
        lemma_str_valid(input);
    }
    if pos >= n {
        return Ok(None);
    }
    let b = bytes[pos];
    let w = newline_len(bytes, pos);
    if w > 0 {
        proof {
            lemma_ascii_boundary(src, pos + w - 1);
        }
        return Ok(Some((Span { start: pos, end: pos + w }, Token::Newline)));
    }
    if b == 0x20 || b == 0x09 {
        let end = run_to(bytes, pos, Class::Blank);
        proof {
            assert(in_class(Class::Blank, src[end - 1]));
            lemma_ascii_boundary(src, end - 1);
        }
        return Ok(Some((Span { start: pos, end }, Token::Whitespace(substr(input, pos, end)))));
    }
    if b == 0x23 {
        proof {
            lemma_ascii_boundary(src, pos as int);
        }
        let end = run_to(bytes, pos + 1, Class::Text);
        proof {
            lemma_boundary(src, end as int);
        }
        return Ok(Some((Span { start: pos, end }, Token::Comment(substr(input, pos, end)))));
    }
    let punct: Option<Token<'a>> = if b == 0x3d {
        Some(Token::Equals)
    } else if b == 0x2e {
        Some(Token::Period)
    } else if b == 0x2c {
        Some(Token::Comma)
    } else if b == 0x3a {
        Some(Token::Colon)
    } else if b == 0x2b {
        Some(Token::Plus)
    } else if b == 0x7b {
        Some(Token::LeftBrace)
    } else if b == 0x7d {
        Some(Token::RightBrace)
    } else if b == 0x5b {
        Some(Token::LeftBracket)
    } else if b == 0x5d {
        Some(Token::RightBracket)
    } else {
        None
    };
    match punct {
        Some(t) => {
            proof {
                lemma_ascii_boundary(src, pos as int);
            }
            return Ok(Some((Span { start: pos, end: pos + 1 }, t)));
        },
        None => {},
    }
    if b == 0x27 || b == 0x22 {
        return match read_string(input, pos, b) {
            Ok(found) => Ok(Some(found)),
            Err(e) => Err(e),
        };
    }
    if class_has(Class::Keylike, b) {
        let end = run_to(bytes, pos, Class::Keylike);
        proof {
            assert(in_class(Class::Keylike, src[end - 1]));
            lemma_ascii_boundary(src, end - 1);
        }
        return Ok(Some((Span { start: pos, end }, Token::Keylike(substr(input, pos, end)))));
    }
    Err(Error::Unexpected(pos, decode_at(bytes, pos).0))
}

/// The offset at which reading starts: after a byte order mark, where the
/// source begins with one.
pub open spec fn first_offset(src: Seq<u8>) -> int {
    if src.len() >= 3 && src[0] == 0xef && src[1] == 0xbb && src[2] == 0xbf {
        3
    } else {
        0
    }
}

/// A reader of the tokens of one source text, from front to back.
pub struct Tokenizer<'a> {
    input: &'a str,
    pos: usize,
    failed: bool,
}

impl<'a> Tokenizer<'a> {
    /// The bytes of the source.
    pub closed spec fn source(&self) -> Seq<u8> {
        self.input.spec_bytes()
    }

    /// The offset of the next token.
    pub closed spec fn offset(&self) -> int {
        self.pos as int
    }

    /// Whether an error has been reported, after which nothing more is read.
    pub closed spec fn has_failed(&self) -> bool {
        self.failed
    }

    /// The offset lies in the source, on a character boundary.
    pub closed spec fn wf(&self) -> bool {
        &&& self.pos <= self.input.spec_bytes().len()
        &&& is_char_boundary(self.input.spec_bytes(), self.pos as int)
    }

    /// A tokenizer at the start of `input`, after the byte order mark if
    /// there is one.
    pub fn new(input: &'a str) -> (t: Tokenizer<'a>)
        ensures
            t.wf(),
            t.source() == input.spec_bytes(),
            t.offset() == first_offset(input.spec_bytes()),
            !t.has_failed(),
    {
        let bytes = input.as_bytes();
        proof {
            lemma_str_valid(input);
            is_char_boundary_start_end_of_seq(bytes@);
        }
        let mut pos: usize = 0;
        if bytes.len() >= 3 && bytes[0] == 0xef && bytes[1] == 0xbb && bytes[2] == 0xbf {
            pos = 3;
            proof {
                lemma_bom_boundary(bytes@);
            }
        }
        Tokenizer { input, pos, failed: false }
    }

    /// The offset of the next token.
    pub fn current(&self) -> (pos: usize)
        ensures
            pos == self.offset(),
    {
        self.pos
    }

    /// Reads the next token and moves past it. At the end of the input, and
    /// after an error has been returned once, the result is `Ok(None)` and
    /// nothing changes.
    pub fn next(&mut self) -> (r: Result<Option<(Span, Token<'a>)>, Error>)
        requires
            old(self).wf(),
        ensures
            final(self).wf(),
            final(self).source() == old(self).source(),
            old(self).has_failed() ==> r == Ok::<Option<(Span, Token<'a>)>, Error>(None)
                && *final(self) == *old(self),
            !old(self).has_failed() ==> {
                &&& lexed_as(old(self).source(), old(self).offset(), r)
                &&& final(self).has_failed() == (r is Err)
                &&& final(self).offset() == match r {
                    Ok(Some(found)) => found.0.end as int,
                    _ => old(self).offset(),
                }
            },
    {
        if self.failed {
            return Ok(None);
        }
        let r = token_at(self.input, self.pos);
        match &r {
            Ok(Some(found)) => {
                self.pos = found.0.end;
            },
            Ok(None) => {},
            Err(_) => {
                self.failed = true;
            },
        }
        r
    }
}

/// The offset after a byte order mark at the start of valid UTF-8 is a
/// character boundary.
pub proof fn lemma_bom_boundary(src: Seq<u8>)
    requires
        valid_utf8(src),
        src.len() >= 3,
        src[0] == 0xef,
        src[1] == 0xbb,
        src[2] == 0xbf,
    ensures
        is_char_boundary(src, 3),
{
    is_char_boundary_start_end_of_seq(src);
    lemma_next_boundary(src, 0);
    assert(suffix(src, 0) =~= src);
}

} // verus!
