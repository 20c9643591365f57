//! The grammar of a document, written down as functions from the source and
//! an offset to what is read there.
//!
//! Dates and times are not part of the value tree: a bare value that is
//! written like one is rejected as an invalid number. A byte order mark at
//! the start of the source is passed over.
//!
//! Where a rule goes on with the rest of the source, it says what happens if
//! nothing was read in between, with [`forward`] or a test of the offset;
//! nothing ever is, as [`crate::progress`] shows, where the rules are stated
//! without that provision.

use crate::assemble::{array_value, empty_table, open_header, put, put_in_section, table_value};
use crate::error::{error_at, ErrorKindView, ErrorView};
use crate::number::{literal, without_underscores, Literal};
use crate::span::Span;
use crate::tokens;
use crate::tokens::{
    describe_token, first_offset, is_blank, is_keylike, lex, newline_width, run_end, run_len, Class,
    Lexed, TokenView,
};
use crate::value::{InnerView, KeyView, TableKind, TableView, TextView, ValueView};
use vstd::prelude::*;

verus! {

/// What reading a construct at some offset gives: what was read and the
/// offset after it, or an error.
pub enum Parsed<T> {
    Done { value: T, pos: int },
    Failed(ErrorView),
}

/// The span from the offset `start` up to `end`.
pub open spec fn span_of(start: int, end: int) -> Span {
    Span { start: start as usize, end: end as usize }
}

/// The error of the parser for an error of the tokenizer: the same kind with
/// the span of what the tokenizer points at. A line break in a single-line
/// string is reported as an invalid character.
pub open spec fn lex_error(e: tokens::Error) -> ErrorView {
    let kind = match e {
        tokens::Error::InvalidCharInString(_, c) => ErrorKindView::InvalidCharInString(c),
        tokens::Error::InvalidEscape(_, c) => ErrorKindView::InvalidEscape(c),
        tokens::Error::InvalidHexEscape(_, c) => ErrorKindView::InvalidHexEscape(c),
        tokens::Error::InvalidEscapeValue(_, _, v) => ErrorKindView::InvalidEscapeValue(v),
        tokens::Error::NewlineInString(_) => ErrorKindView::InvalidCharInString('\n'),
        tokens::Error::Unexpected(_, c) => ErrorKindView::Unexpected(c),
        tokens::Error::UnterminatedString(_) => ErrorKindView::UnterminatedString,
    };
    error_at(kind, span_of(e.start(), e.end()))
}

/// The error for finding, at `pos`, something else than what was expected
/// there: it names the token that stands there, or `eof`; where no token can
/// be read there, it is the error of the tokenizer.
pub open spec fn unexpected(src: Seq<u8>, pos: int, expected: Seq<char>) -> ErrorView {
    match lex(src, pos) {
        Lexed::End => error_at(
            ErrorKindView::Wanted { expected, found: "eof"@ },
            span_of(pos, pos),
        ),
        Lexed::Token { token, end, .. } => error_at(
            ErrorKindView::Wanted { expected, found: describe_token(token) },
            span_of(pos, end),
        ),
        Lexed::Error(e) => lex_error(e),
    }
}

/// The number of bytes from `pos` to the end of the source.
pub open spec fn left(src: Seq<u8>, pos: int) -> int {
    if pos < src.len() {
        src.len() - pos
    } else {
        0
    }
}

/// Whether the byte at `pos` is `b`.
pub open spec fn byte_is(src: Seq<u8>, pos: int, b: u8) -> bool {
    0 <= pos < src.len() && src[pos] == b
}

/// The offset after the spaces and tabs at `pos`.
pub open spec fn skip_blank(src: Seq<u8>, pos: int) -> int {
    run_end(src, pos, Class::Blank)
}

/// The number of bytes of spaces, tabs, line breaks and comments at `pos`.
pub open spec fn trivia_len(src: Seq<u8>, pos: int) -> nat
    decreases left(src, pos),
{
    if pos < 0 || pos >= src.len() {
        0
    } else if is_blank(src[pos]) {
        1 + trivia_len(src, pos + 1)
    } else if newline_width(src, pos) > 0 {
        newline_width(src, pos) as nat + trivia_len(src, pos + newline_width(src, pos))
    } else if src[pos] == 0x23 {
        let n = 1 + run_len(src, pos + 1, Class::Text);
        n + trivia_len(src, pos + n)
    } else {
        0
    }
}

/// The offset after the spaces, tabs, line breaks and comments at `pos`.
pub open spec fn skip_trivia(src: Seq<u8>, pos: int) -> int {
    pos + trivia_len(src, pos)
}

/// Where reading goes on after something that began at `pos` and ended at
/// `next`. Everything that is read is at least one byte long, so this is
/// `next`; the definition only makes plain that reading never stands still.
pub open spec fn forward(src: Seq<u8>, pos: int, next: int) -> int {
    if next > pos {
        next
    } else {
        src.len() as int
    }
}

/// One part of a key at `pos`: a bare key, or a single-line string of either
/// flavor. The name is borrowed from the source unless the string had to be
/// rewritten.
pub open spec fn key_part(src: Seq<u8>, pos: int) -> Parsed<KeyView> {
    match lex(src, pos) {
        Lexed::Token { token: TokenView::Keylike(text), end, .. } => Parsed::Done {
            value: KeyView { name: text, span: span_of(pos, end), borrowed: true },
            pos: end,
        },
        Lexed::Token { token: TokenView::String { val, multiline, .. }, end, owned } => if multiline {
            Parsed::Failed(error_at(ErrorKindView::MultilineStringKey, span_of(pos, end)))
        } else {
            Parsed::Done {
                value: KeyView { name: val, span: span_of(pos, end), borrowed: !owned },
                pos: end,
            }
        },
        Lexed::Token { token: TokenView::Newline, end, .. } => Parsed::Failed(
            error_at(ErrorKindView::NewlineInTableKey, span_of(pos, end)),
        ),
        _ => Parsed::Failed(unexpected(src, pos, "a table key"@)),
    }
}

/// A dotted key at `pos`, after the parts `acc`: parts with `.` between
/// them, and spaces and tabs around the `.`. The offset after it is that
/// after the spaces and tabs that follow the last part.
pub open spec fn dotted_key(src: Seq<u8>, pos: int, acc: Seq<KeyView>) -> Parsed<Seq<KeyView>>
    decreases left(src, pos),
{
    match key_part(src, pos) {
        Parsed::Failed(e) => Parsed::Failed(e),
        Parsed::Done { value: k, pos: p1 } => {
            let p2 = skip_blank(src, p1);
            if byte_is(src, p2, 0x2e) && pos < src.len() {
                dotted_key(src, forward(src, pos, skip_blank(src, p2 + 1)), acc.push(k))
            } else {
                Parsed::Done { value: acc.push(k), pos: p2 }
            }
        },
    }
}

/// Whether no underscore stands in the text.
pub open spec fn plain(text: Seq<u8>) -> bool {
    forall|i: int| 0 <= i < text.len() ==> text[i] != 0x5f
}

/// A bare value at `pos`: the run of bytes that can stand in a number, read
/// as a boolean, an integer or a floating-point number. The text of a
/// floating-point number is borrowed from the source unless underscores had
/// to be taken out of it.
pub open spec fn scalar(src: Seq<u8>, pos: int) -> Parsed<ValueView> {
    let end = run_end(src, pos, Class::Number);
    let text = src.subrange(pos, end);
    let span = span_of(pos, end);
    match literal(text) {
        Literal::Boolean(b) => Parsed::Done {
            value: ValueView { inner: Some(InnerView::Boolean(b)), span },
            pos: end,
        },
        Literal::Integer(i) => Parsed::Done {
            value: ValueView { inner: Some(InnerView::Integer(i)), span },
            pos: end,
        },
        Literal::Float => Parsed::Done {
            value: ValueView {
                inner: Some(
                    InnerView::Float(
                        TextView { bytes: without_underscores(text), borrowed: plain(text) },
                    ),
                ),
                span,
            },
            pos: end,
        },
        Literal::Invalid => Parsed::Failed(error_at(ErrorKindView::InvalidNumber, span)),
        Literal::Unquoted => Parsed::Failed(error_at(ErrorKindView::UnquotedString, span)),
    }
}

/// A value at `pos`: a string of any flavor, a bare value, an array or an
/// inline table. The span of the value is that of its text, delimiters
/// included. A string is borrowed from the source unless it had to be
/// rewritten, because an escape, a line join or a carriage return before a
/// line feed had to be resolved.
pub open spec fn value(src: Seq<u8>, pos: int) -> Parsed<ValueView>
    decreases left(src, pos), 0int,
{
    match lex(src, pos) {
        Lexed::End => Parsed::Failed(error_at(ErrorKindView::UnexpectedEof, span_of(pos, pos))),
        Lexed::Error(e) => Parsed::Failed(lex_error(e)),
        Lexed::Token { token, end, owned } => match token {
            TokenView::String { val, .. } => Parsed::Done {
                value: ValueView {
                    inner: Some(InnerView::String(TextView { bytes: val, borrowed: !owned })),
                    span: span_of(pos, end),
                },
                pos: end,
            },
            TokenView::Keylike(_) => scalar(src, pos),
            TokenView::Plus => scalar(src, pos),
            TokenView::LeftBracket => if pos < src.len() {
                array_items(src, pos, pos + 1, Seq::empty())
            } else {
                Parsed::Failed(error_at(ErrorKindView::UnexpectedEof, span_of(pos, pos)))
            },
            TokenView::LeftBrace => if pos < src.len() {
                inline_items(src, pos, pos + 1, empty_table(TableKind::Inline), true)
            } else {
                Parsed::Failed(error_at(ErrorKindView::UnexpectedEof, span_of(pos, pos)))
            },
            _ => Parsed::Failed(
                error_at(
                    ErrorKindView::Wanted { expected: "a value"@, found: describe_token(token) },
                    span_of(pos, end),
                ),
            ),
        },
    }
}

/// The rest of the array that began with `[` at `start`, from `pos` on,
/// after the elements `acc`. Elements are values of any type with `,`
/// between them; spaces, tabs, line breaks and comments may stand around
/// them, and a `,` may follow the last.
pub open spec fn array_items(src: Seq<u8>, start: int, pos: int, acc: Seq<ValueView>) -> Parsed<
    ValueView,
>
    decreases left(src, pos), 1int,
{
    let p1 = skip_trivia(src, pos);
    if byte_is(src, p1, 0x5d) {
        Parsed::Done { value: array_value(acc, span_of(start, p1 + 1)), pos: p1 + 1 }
    } else if pos >= src.len() {
        Parsed::Failed(error_at(ErrorKindView::UnexpectedEof, span_of(p1, p1)))
    } else {
        match value(src, p1) {
            Parsed::Failed(e) => Parsed::Failed(e),
            Parsed::Done { value: v, pos: p2 } => {
                let p3 = skip_trivia(src, p2);
                if byte_is(src, p3, 0x2c) {
                    array_items(src, start, forward(src, pos, p3 + 1), acc.push(v))
                } else if byte_is(src, p3, 0x5d) {
                    Parsed::Done {
                        value: array_value(acc.push(v), span_of(start, p3 + 1)),
                        pos: p3 + 1,
                    }
                } else {
                    Parsed::Failed(unexpected(src, p3, "a right bracket"@))
                }
            },
        }
    }
}

/// A key, `=` and a value at `pos`, with spaces and tabs around the `=`.
pub open spec fn key_value(src: Seq<u8>, pos: int) -> Parsed<(Seq<KeyView>, ValueView)>
    decreases left(src, pos), 1int,
{
    match dotted_key(src, pos, Seq::empty()) {
        Parsed::Failed(e) => Parsed::Failed(e),
        Parsed::Done { value: keys, pos: p1 } => if !byte_is(src, p1, 0x3d) || pos >= src.len() {
            Parsed::Failed(unexpected(src, p1, "an equals"@))
        } else {
            match value(src, forward(src, pos, skip_blank(src, p1 + 1))) {
                Parsed::Failed(e) => Parsed::Failed(e),
                Parsed::Done { value: v, pos: p2 } => Parsed::Done { value: (keys, v), pos: p2 },
            }
        },
    }
}

/// The rest of the inline table that began with `{` at `start`, from `pos`
/// on, where `t` holds the entries so far and `first` says that none has
/// been read. Entries are keys with values, with `,` between them and none
/// after the last; only spaces and tabs may stand around them, no line
/// break. No key may come twice.
pub open spec fn inline_items(src: Seq<u8>, start: int, pos: int, t: TableView, first: bool) -> Parsed<
    ValueView,
>
    decreases left(src, pos), 2int,
{
    let p1 = skip_blank(src, pos);
    if first && byte_is(src, p1, 0x7d) {
        Parsed::Done { value: table_value(t, span_of(start, p1 + 1)), pos: p1 + 1 }
    } else if pos >= src.len() {
        Parsed::Failed(unexpected(src, p1, "a table key"@))
    } else {
        match key_value(src, p1) {
            Parsed::Failed(e) => Parsed::Failed(e),
            Parsed::Done { value: entry, pos: p2 } => match put(t, entry.0, 0, entry.1) {
                Err(e) => Parsed::Failed(e),
                Ok(t2) => {
                    let p3 = skip_blank(src, p2);
                    if byte_is(src, p3, 0x2c) {
                        inline_items(src, start, forward(src, pos, p3 + 1), t2, false)
                    } else if byte_is(src, p3, 0x7d) {
                        Parsed::Done { value: table_value(t2, span_of(start, p3 + 1)), pos: p3 + 1 }
                    } else {
                        Parsed::Failed(unexpected(src, p3, "a right brace"@))
                    }
                },
            },
        }
    }
}

/// A header at `pos`, where a `[` stands: `[key]` for a table, `[[key]]` for
/// an array of tables, with spaces and tabs allowed around the key, and no
/// line break before the closing bracket. The result says whether it is the
/// second form, and holds the key.
pub open spec fn header(src: Seq<u8>, pos: int) -> Parsed<(bool, Seq<KeyView>)> {
    let array = byte_is(src, pos + 1, 0x5b);
    let p1 = if array {
        pos + 2
    } else {
        pos + 1
    };
    match dotted_key(src, skip_blank(src, p1), Seq::empty()) {
        Parsed::Failed(e) => Parsed::Failed(e),
        Parsed::Done { value: keys, pos: p2 } => if newline_width(src, p2) > 0 {
            Parsed::Failed(
                error_at(
                    ErrorKindView::NewlineInTableKey,
                    span_of(p2, p2 + newline_width(src, p2)),
                ),
            )
        } else if !byte_is(src, p2, 0x5d) {
            Parsed::Failed(unexpected(src, p2, "a right bracket"@))
        } else if !array {
            Parsed::Done { value: (false, keys), pos: p2 + 1 }
        } else if byte_is(src, p2 + 1, 0x5d) {
            Parsed::Done { value: (true, keys), pos: p2 + 2 }
        } else {
            Parsed::Failed(unexpected(src, p2 + 1, "a right bracket"@))
        },
    }
}

/// The end of a statement at `pos`: after spaces and tabs, a line break,
/// which is passed over, or a comment, or the end of the input.
pub open spec fn line_end(src: Seq<u8>, pos: int) -> Parsed<()> {
    let p1 = skip_blank(src, pos);
    if p1 >= src.len() {
        Parsed::Done { value: (), pos: p1 }
    } else if newline_width(src, p1) > 0 {
        Parsed::Done { value: (), pos: p1 + newline_width(src, p1) }
    } else if src[p1] == 0x23 {
        Parsed::Done { value: (), pos: p1 }
    } else {
        Parsed::Failed(unexpected(src, p1, "newline"@))
    }
}

/// Whether a key can begin with the byte `b`: a byte of a bare key, or a
/// quote.
pub open spec fn starts_key(b: u8) -> bool {
    is_keylike(b) || b == 0x22 || b == 0x27
}

/// The error for what stands at `pos` where a statement should begin and
/// begins none: the character there is unexpected.
pub open spec fn stray(src: Seq<u8>, pos: int) -> ErrorView {
    match lex(src, pos) {
        Lexed::Error(e) => lex_error(e),
        _ => error_at(ErrorKindView::Unexpected(src[pos] as char), span_of(pos, pos + 1)),
    }
}

/// The root table after the statements from `pos` on have been applied to
/// `root`, where `path` is the key of the header of the current section,
/// empty before the first header. A statement is a header, which begins with
/// `[`, or a key with a value, and ends with its line; anything else is
/// unexpected.
pub open spec fn document(src: Seq<u8>, pos: int, root: TableView, path: Seq<KeyView>) -> Result<
    TableView,
    ErrorView,
>
    decreases left(src, pos),
{
    let p1 = skip_trivia(src, pos);
    if p1 >= src.len() || pos < 0 {
        Ok(root)
    } else if byte_is(src, p1, 0x5b) {
        match header(src, p1) {
            Parsed::Failed(e) => Err(e),
            Parsed::Done { value: h, pos: p2 } => match line_end(src, p2) {
                Parsed::Failed(e) => Err(e),
                Parsed::Done { pos: p3, .. } => match open_header(root, h.1, 0, h.0) {
                    Err(e) => Err(e),
                    Ok(next) => document(src, forward(src, pos, p3), next, h.1),
                },
            },
        }
    } else if starts_key(src[p1]) {
        match key_value(src, p1) {
            Parsed::Failed(e) => Err(e),
            Parsed::Done { value: entry, pos: p2 } => match line_end(src, p2) {
                Parsed::Failed(e) => Err(e),
                Parsed::Done { pos: p3, .. } => match put_in_section(
                    root,
                    path,
                    0,
                    entry.0,
                    entry.1,
                ) {
                    Err(e) => Err(e),
                    Ok(next) => document(src, forward(src, pos, p3), next, path),
                },
            },
        }
    } else {
        Err(stray(src, p1))
    }
}

/// What the document `src` stands for: the root table with the span of the
/// whole source, or the first error.
pub open spec fn parsed(src: Seq<u8>) -> Result<ValueView, ErrorView> {
    match document(src, first_offset(src), empty_table(TableKind::Defined), Seq::empty()) {
        Ok(root) => Ok(table_value(root, span_of(0, src.len() as int))),
        Err(e) => Err(e),
    }
}

} // verus!
