//! The parser: it reads a whole TOML document and builds the value tree, or
//! reports the first thing that is wrong with it, as [`crate::grammar`] says.

use crate::assemble::{
    array_value, empty_table, is_table_array, key_views, lemma_put_kind, open_section,
    put_into_section, put_value, table_value,
};
use crate::coverage::{
    covers, elements_sourced, entries_sourced, key_sourced, keys_sourced, law_trees_are_whole,
    lemma_open_header_sourced, lemma_put_in_section_sourced, lemma_put_sourced, lemma_sourced,
    sourced,
};
use crate::error::{Error, ErrorKind};
use crate::grammar::{
    array_items, byte_is, document, dotted_key, header, inline_items, key_part, key_value, left,
    lex_error, line_end, parsed, plain, scalar, skip_blank, skip_trivia, span_of, starts_key,
    unexpected, value, Parsed,
};
use crate::number::{
    has_underscore, lemma_without_underscores_ascii, lemma_without_underscores_same, read_literal,
    strip_underscores, Literal,
};
use crate::span::Span;
use crate::text::{
    lemma_ascii_boundary, lemma_ascii_valid, lemma_boundary, lemma_str_valid, string_from_utf8,
    substr,
};
use crate::tokens;
use crate::tokens::{
    first_offset, in_class, is_number_byte, lemma_bom_boundary, lemma_lex_first_byte, newline_len,
    run_to, token_at, Class, Token,
};
use crate::value::{
    array_view, lemma_array_view, lemma_value_wf, InnerView, Key, Table, TableKind, Value,
    ValueInner, ValueView,
};
use std::borrow::Cow;
use vstd::prelude::*;
use vstd::slice::*;
use vstd::string::*;
use vstd::utf8::*;

verus! {

/// Whether `pos` is an offset at which reading can go on: in the source and
/// on a character boundary.
pub open spec fn readable(src: Seq<u8>, pos: int) -> bool {
    0 <= pos <= src.len() && is_char_boundary(src, pos)
}

/// The error of the parser for the error `e` of the tokenizer.
fn from_token_error(e: tokens::Error) -> (r: Error)
    requires
        e.end() <= usize::MAX,
    ensures
        r@ == lex_error(e),
{
    let span = e.span();
    let kind = match e {
        tokens::Error::InvalidCharInString(_, c) => ErrorKind::InvalidCharInString(c),
        tokens::Error::InvalidEscape(_, c) => ErrorKind::InvalidEscape(c),
        tokens::Error::InvalidHexEscape(_, c) => ErrorKind::InvalidHexEscape(c),
        tokens::Error::InvalidEscapeValue(_, _, v) => ErrorKind::InvalidEscapeValue(v),
        tokens::Error::NewlineInString(_) => ErrorKind::InvalidCharInString('\n'),
        tokens::Error::Unexpected(_, c) => ErrorKind::Unexpected(c),
        tokens::Error::UnterminatedString(_) => ErrorKind::UnterminatedString,
    };
    Error::new(kind, span)
}

/// The error for finding at `pos` something else than `expected`.
fn unexpected_at(input: &str, pos: usize, expected: &'static str) -> (r: Error)
    requires
        readable(input.spec_bytes(), pos as int),
    ensures
        r@ == unexpected(input.spec_bytes(), pos as int, expected@),
{
    let n = input.as_bytes().len();
    match token_at(input, pos) {
        Ok(None) => Error::new(
            ErrorKind::Wanted { expected, found: "eof" },
            Span { start: pos, end: pos },
        ),
        Ok(Some(found)) => Error::new(
            ErrorKind::Wanted { expected, found: found.1.describe() },
            found.0,
        ),
        Err(e) => from_token_error(e),
    }
}

/// Whether the byte at `pos` is `b`.
fn is_byte(bytes: &[u8], pos: usize, b: u8) -> (r: bool)
    ensures
        r == byte_is(bytes@, pos as int, b),
{
    pos < bytes.len() && bytes[pos] == b
}

/// The offset after the spaces and tabs at `pos`.
fn skip_blank_at(bytes: &[u8], pos: usize) -> (end: usize)
    requires
        valid_utf8(bytes@),
        readable(bytes@, pos as int),
    ensures
        end == skip_blank(bytes@, pos as int),
        pos <= end,
        readable(bytes@, end as int),
{
    let end = run_to(bytes, pos, Class::Blank);
    proof {
        if end > pos {
            assert(in_class(Class::Blank, bytes@[end - 1]));
            lemma_ascii_boundary(bytes@, end - 1);
        }
    }
    end
}

/// The offset after the spaces, tabs, line breaks and comments at `pos`.
fn skip_trivia_at(bytes: &[u8], pos: usize) -> (end: usize)
    requires
        valid_utf8(bytes@),
        readable(bytes@, pos as int),
    ensures
        end == skip_trivia(bytes@, pos as int),
        pos <= end,
        readable(bytes@, end as int),
{
    let ghost src = bytes@;
    let mut end = pos;
    loop
        invariant
            src == bytes@,
            valid_utf8(src),
            pos <= end,
            readable(src, end as int),
            skip_trivia(src, end as int) == skip_trivia(src, pos as int),
        decreases bytes.len() - end,
    {
        if end >= bytes.len() {
            return end;
        }
        let b = bytes[end];
        let w = newline_len(bytes, end);
        if b == 0x20 || b == 0x09 {
            proof {
                lemma_ascii_boundary(src, end as int);
            }
            end += 1;
        } else if w > 0 {
            proof {
                lemma_ascii_boundary(src, end + w - 1);
            }
            end += w;
        } else if b == 0x23 {
            let stop = run_to(bytes, end + 1, Class::Text);
            proof {
                lemma_boundary(src, stop as int);
            }
            end = stop;
        } else {
            return end;
        }
    }
}

/// Reads one part of a key at `pos`.
fn read_key_part<'a>(input: &'a str, pos: usize) -> (r: Result<(Key<'a>, usize), Error>)
    requires
        readable(input.spec_bytes(), pos as int),
    ensures
        match key_part(input.spec_bytes(), pos as int) {
            Parsed::Done { value, pos: end } => r matches Ok(found) && found.0@ == value
                && found.1 == end && pos < end && readable(input.spec_bytes(), end)
                && key_sourced(input.spec_bytes(), value),
            Parsed::Failed(e) => r matches Err(x) && x@ == e,
        },
{
    match token_at(input, pos) {
        Ok(Some(found)) => {
            let (span, token) = found;
            match token {
                Token::Keylike(text) => Ok((Key { name: Cow::Borrowed(text), span }, span.end)),
                Token::String { val, multiline, .. } => {
                    if multiline {
                        Err(Error::new(ErrorKind::MultilineStringKey, span))
                    } else {
                        Ok((Key { name: val, span }, span.end))
                    }
                },
                Token::Newline => Err(Error::new(ErrorKind::NewlineInTableKey, span)),
                _ => Err(unexpected_at(input, pos, "a table key")),
            }
        },
        _ => Err(unexpected_at(input, pos, "a table key")),
    }
}

/// Reads a dotted key at `pos`.
fn read_dotted_key<'a>(input: &'a str, pos: usize) -> (r: Result<(Vec<Key<'a>>, usize), Error>)
    requires
        readable(input.spec_bytes(), pos as int),
    ensures
        match dotted_key(input.spec_bytes(), pos as int, Seq::empty()) {
            Parsed::Done { value, pos: end } => r matches Ok(found) && key_views(found.0@) == value
                && found.0.len() > 0 && found.1 == end && pos < end && readable(
                input.spec_bytes(),
                end,
            ) && keys_sourced(input.spec_bytes(), value),
            Parsed::Failed(e) => r matches Err(x) && x@ == e,
        },
{
    let bytes = input.as_bytes();
    let ghost src = bytes@;
    proof {
        lemma_str_valid(input);
    }
    let mut keys: Vec<Key<'a>> = Vec::new();
    let mut at = pos;
    assert(key_views(keys@) =~= Seq::empty());
    loop
        invariant
            src == bytes@,
            src == input.spec_bytes(),
            valid_utf8(src),
            pos <= at,
            at == pos ==> keys.len() == 0,
            readable(src, at as int),
            keys_sourced(src, key_views(keys@)),
            dotted_key(src, at as int, key_views(keys@)) == dotted_key(
                src,
                pos as int,
                Seq::empty(),
            ),
        decreases bytes.len() - at,
    {
        let ghost before = key_views(keys@);
        match read_key_part(input, at) {
            Err(e) => {
                return Err(e);
            },
            Ok(found) => {
                let (key, p1) = found;
                let p2 = skip_blank_at(bytes, p1);
                keys.push(key);
                assert(key_views(keys@) =~= before.push(key@));
                assert(keys_sourced(src, key_views(keys@))) by {
                    assert forall|i: int| 0 <= i < before.push(key@).len() implies key_sourced(
                        src,
                        #[trigger] before.push(key@)[i],
                    ) by {
                        if i < before.len() {
                            assert(before.push(key@)[i] == before[i]);
                        }
                    }
                }
                if is_byte(bytes, p2, 0x2e) {
                    proof {
                        lemma_ascii_boundary(src, p2 as int);
                    }
                    at = skip_blank_at(bytes, p2 + 1);
                } else {
                    return Ok((keys, p2));
                }
            },
        }
    }
}

/// Reads the bare value at `pos`, where a byte of a bare key or a `+`
/// stands.
fn read_scalar<'a>(input: &'a str, pos: usize) -> (r: Result<(Value<'a>, usize), Error>)
    requires
        readable(input.spec_bytes(), pos as int),
        pos < input.spec_bytes().len(),
        is_number_byte(input.spec_bytes()[pos as int]),
    ensures
        match scalar(input.spec_bytes(), pos as int) {
            Parsed::Done { value, pos: end } => r matches Ok(found) && found.0@ == value
                && found.1 == end && pos < end && readable(input.spec_bytes(), end) && value.wf()
                && value.span == (Span { start: pos, end: end as usize }) && !(value.inner
                matches Some(InnerView::Table(_))) && !(value.inner matches Some(
                InnerView::Array(_),
            )) && value.inner is Some,
            Parsed::Failed(e) => r matches Err(x) && x@ == e,
        },
{
    let bytes = input.as_bytes();
    let ghost src = bytes@;
    proof {
        lemma_str_valid(input);
    }
    let end = run_to(bytes, pos, Class::Number);
    proof {
        assert(in_class(Class::Number, src[pos as int]));
        assert(end > pos);
        assert(in_class(Class::Number, src[end - 1]));
        lemma_ascii_boundary(src, end - 1);
    }
    let span = Span { start: pos, end };
    let text = slice_subrange(bytes, pos, end);
    match read_literal(text) {
        Literal::Boolean(b) => Ok((Value::with_span(ValueInner::Boolean(b), span), end)),
        Literal::Integer(i) => Ok((Value::with_span(ValueInner::Integer(i), span), end)),
        Literal::Float => {
            let number: Cow<'a, str> = if has_underscore(bytes, pos, end) {
                let stripped = strip_underscores(bytes, pos, end);
                proof {
                    assert forall|i: int| 0 <= i < text@.len() implies text@[i] < 0x80 by {
                        assert(in_class(Class::Number, src[pos + i]));
                    }
                    lemma_without_underscores_ascii(text@);
                    lemma_ascii_valid(stripped@);
                    let k = choose|k: int| pos <= k < end && bytes@[k] == 0x5f;
                    assert(text@[k - pos] == 0x5f);
                    assert(!plain(text@));
                }
                match string_from_utf8(stripped) {
                    Some(s) => Cow::Owned(s),
                    // ASCII is valid UTF-8, so this arm is never taken.
                    None => Cow::Borrowed(""),
                }
            } else {
                proof {
                    assert forall|i: int| 0 <= i < text@.len() implies text@[i] != 0x5f by {
                        assert(text@[i] == bytes@[pos + i]);
                    }
                    lemma_without_underscores_same(text@);
                }
                Cow::Borrowed(substr(input, pos, end))
            };
            Ok((Value::with_span(ValueInner::Float(number), span), end))
        },
        Literal::Invalid => Err(Error::new(ErrorKind::InvalidNumber, span)),
        Literal::Unquoted => Err(Error::new(ErrorKind::UnquotedString, span)),
    }
}

/// Whether the value is one that is written as a value: if it is a table,
/// it is an inline table.
pub open spec fn written(v: ValueView) -> bool {
    v.inner matches Some(InnerView::Table(t)) ==> t.kind == TableKind::Inline
}

/// Reads a value at `pos`.
fn read_value<'a>(input: &'a str, pos: usize) -> (r: Result<(Value<'a>, usize), Error>)
    requires
        readable(input.spec_bytes(), pos as int),
    ensures
        match value(input.spec_bytes(), pos as int) {
            Parsed::Done { value, pos: end } => r matches Ok(found) && found.0@ == value
                && found.1 == end && pos < end && readable(input.spec_bytes(), end) && value.wf()
                && sourced(input.spec_bytes(), value) && written(value),
            Parsed::Failed(e) => r matches Err(x) && x@ == e,
        },
    decreases left(input.spec_bytes(), pos as int), 1int,
{
    proof {
        lemma_lex_first_byte(input.spec_bytes(), pos as int);
    }
    let n = input.as_bytes().len();
    match token_at(input, pos) {
        Ok(None) => Err(Error::new(ErrorKind::UnexpectedEof, Span { start: pos, end: pos })),
        Err(e) => Err(from_token_error(e)),
        Ok(Some(found)) => {
            let (span, token) = found;
            match token {
                Token::String { val, .. } => {
                    let v = Value::with_span(ValueInner::String(val), span);
                    proof {
                        lemma_sourced(input.spec_bytes(), v@);
                    }
                    Ok((v, span.end))
                },
                Token::Keylike(_) => {
                    let r = read_scalar(input, pos);
                    proof {
                        if r is Ok {
                            lemma_sourced(input.spec_bytes(), r->Ok_0.0@);
                        }
                    }
                    r
                },
                Token::Plus => {
                    let r = read_scalar(input, pos);
                    proof {
                        if r is Ok {
                            lemma_sourced(input.spec_bytes(), r->Ok_0.0@);
                        }
                    }
                    r
                },
                Token::LeftBracket => {
                    let r = read_array(input, pos);
                    proof {
                        if r is Ok {
                            lemma_sourced(input.spec_bytes(), r->Ok_0.0@);
                        }
                    }
                    r
                },
                Token::LeftBrace => {
                    let r = read_inline_table(input, pos);
                    proof {
                        if r is Ok {
                            lemma_sourced(input.spec_bytes(), r->Ok_0.0@);
                        }
                    }
                    r
                },
                other => Err(
                    Error::new(
                        ErrorKind::Wanted { expected: "a value", found: other.describe() },
                        span,
                    ),
                ),
            }
        },
    }
}

/// Reads the array that begins with `[` at `start`.
fn read_array<'a>(input: &'a str, start: usize) -> (r: Result<(Value<'a>, usize), Error>)
    requires
        readable(input.spec_bytes(), start as int),
        byte_is(input.spec_bytes(), start as int, 0x5b),
    ensures
        match array_items(input.spec_bytes(), start as int, start + 1, Seq::empty()) {
            Parsed::Done { value, pos: end } => r matches Ok(found) && found.0@ == value
                && found.1 == end && start < end && readable(input.spec_bytes(), end)
                && value.wf() && value.span == (Span { start, end: end as usize }) && (
            value.inner matches Some(InnerView::Array(a)) && !is_table_array(a)
                && elements_sourced(input.spec_bytes(), a)),
            Parsed::Failed(e) => r matches Err(x) && x@ == e,
        },
    decreases left(input.spec_bytes(), start as int), 0int,
{
    let bytes = input.as_bytes();
    let ghost src = bytes@;
    proof {
        lemma_str_valid(input);
        lemma_ascii_boundary(src, start as int);
    }
    let mut items: Vec<Value<'a>> = Vec::new();
    assert(start < bytes.len());
    let mut at = start + 1;
    assert(array_view(items@) =~= Seq::empty());
    loop
        invariant
            src == bytes@,
            src == input.spec_bytes(),
            valid_utf8(src),
            start < at,
            readable(src, at as int),
            forall|i: int| 0 <= i < items.len() ==> (#[trigger] items@[i])@.wf(),
            forall|i: int|
                0 <= i < items.len() ==> sourced(src, (#[trigger] items@[i])@) && written(
                    items@[i]@,
                ),
            array_items(src, start as int, at as int, array_view(items@)) == array_items(
                src,
                start as int,
                start + 1,
                Seq::empty(),
            ),
        decreases bytes.len() - at,
    {
        let ghost before = array_view(items@);
        let p1 = skip_trivia_at(bytes, at);
        if is_byte(bytes, p1, 0x5d) {
            proof {
                lemma_ascii_boundary(src, p1 as int);
                lemma_array_view(items);
                lemma_value_wf(array_value(before, span_of(start as int, p1 + 1)));
                assert(elements_sourced(src, before)) by {
                    assert forall|i: int| 0 <= i < before.len() implies sourced(
                        src,
                        #[trigger] before[i],
                    ) by {
                        assert(before[i] == items@[i]@);
                    }
                }
                if before.len() > 0 {
                    assert(before.last() == items@[items.len() - 1]@);
                }
            }
            return Ok(
                (
                    Value::with_span(ValueInner::Array(items), Span { start, end: p1 + 1 }),
                    p1 + 1,
                ),
            );
        }
        if at >= bytes.len() {
            return Err(Error::new(ErrorKind::UnexpectedEof, Span { start: p1, end: p1 }));
        }
        match read_value(input, p1) {
            Err(e) => {
                return Err(e);
            },
            Ok(found) => {
                let (v, p2) = found;
                items.push(v);
                assert(array_view(items@) =~= before.push(v@));
                let p3 = skip_trivia_at(bytes, p2);
                if is_byte(bytes, p3, 0x2c) {
                    proof {
                        lemma_ascii_boundary(src, p3 as int);
                    }
                    at = p3 + 1;
                } else if is_byte(bytes, p3, 0x5d) {
                    proof {
                        lemma_ascii_boundary(src, p3 as int);
                        lemma_array_view(items);
                        lemma_value_wf(
                            array_value(array_view(items@), span_of(start as int, p3 + 1)),
                        );
                        let all = array_view(items@);
                        assert(elements_sourced(src, all)) by {
                            assert forall|i: int| 0 <= i < all.len() implies sourced(
                                src,
                                #[trigger] all[i],
                            ) by {
                                assert(all[i] == items@[i]@);
                            }
                        }
                        assert(all.last() == items@[items.len() - 1]@);
                    }
                    return Ok(
                        (
                            Value::with_span(ValueInner::Array(items), Span { start, end: p3 + 1 }),
                            p3 + 1,
                        ),
                    );
                } else {
                    return Err(unexpected_at(input, p3, "a right bracket"));
                }
            },
        }
    }
}

/// Reads a key, `=` and a value at `pos`.
fn read_key_value<'a>(input: &'a str, pos: usize) -> (r: Result<
    (Vec<Key<'a>>, Value<'a>, usize),
    Error,
>)
    requires
        readable(input.spec_bytes(), pos as int),
    ensures
        match key_value(input.spec_bytes(), pos as int) {
            Parsed::Done { value, pos: end } => r matches Ok(found) && key_views(found.0@)
                == value.0 && found.0.len() > 0 && found.1@ == value.1 && found.2 == end && pos
                < end && readable(input.spec_bytes(), end) && value.1.wf() && keys_sourced(
                input.spec_bytes(),
                value.0,
            ) && sourced(input.spec_bytes(), value.1),
            Parsed::Failed(e) => r matches Err(x) && x@ == e,
        },
    decreases left(input.spec_bytes(), pos as int), 2int,
{
    let bytes = input.as_bytes();
    let ghost src = bytes@;
    proof {
        lemma_str_valid(input);
    }
    match read_dotted_key(input, pos) {
        Err(e) => Err(e),
        Ok(found) => {
            let (keys, p1) = found;
            if !is_byte(bytes, p1, 0x3d) || pos >= bytes.len() {
                return Err(unexpected_at(input, p1, "an equals"));
            }
            proof {
                lemma_ascii_boundary(src, p1 as int);
            }
            let p2 = skip_blank_at(bytes, p1 + 1);
            match read_value(input, p2) {
                Err(e) => Err(e),
                Ok(read) => Ok((keys, read.0, read.1)),
            }
        },
    }
}

/// Reads the inline table that begins with `{` at `start`.
fn read_inline_table<'a>(input: &'a str, start: usize) -> (r: Result<(Value<'a>, usize), Error>)
    requires
        readable(input.spec_bytes(), start as int),
        byte_is(input.spec_bytes(), start as int, 0x7b),
    ensures
        match inline_items(
            input.spec_bytes(),
            start as int,
            start + 1,
            empty_table(TableKind::Inline),
            true,
        ) {
            Parsed::Done { value, pos: end } => r matches Ok(found) && found.0@ == value
                && found.1 == end && start < end && readable(input.spec_bytes(), end)
                && value.wf() && value.span == (Span { start, end: end as usize }) && (
            value.inner matches Some(InnerView::Table(t)) && t.kind == TableKind::Inline
                && entries_sourced(input.spec_bytes(), t.entries)),
            Parsed::Failed(e) => r matches Err(x) && x@ == e,
        },
    decreases left(input.spec_bytes(), start as int), 0int,
{
    let bytes = input.as_bytes();
    let ghost src = bytes@;
    proof {
        lemma_str_valid(input);
        lemma_ascii_boundary(src, start as int);
    }
    let mut table: Table<'a> = Table::with_kind(TableKind::Inline);
    let mut first = true;
    assert(start < bytes.len());
    let mut at = start + 1;
    loop
        invariant
            src == bytes@,
            src == input.spec_bytes(),
            valid_utf8(src),
            start < at,
            readable(src, at as int),
            table@.wf(),
            table@.kind == TableKind::Inline,
            entries_sourced(src, table@.entries),
            inline_items(src, start as int, at as int, table@, first) == inline_items(
                src,
                start as int,
                start + 1,
                empty_table(TableKind::Inline),
                true,
            ),
        decreases bytes.len() - at,
    {
        let p1 = skip_blank_at(bytes, at);
        if first && is_byte(bytes, p1, 0x7d) {
            proof {
                lemma_ascii_boundary(src, p1 as int);
                lemma_value_wf(table_value(table@, span_of(start as int, p1 + 1)));
            }
            return Ok(
                (
                    Value::with_span(ValueInner::Table(table), Span { start, end: p1 + 1 }),
                    p1 + 1,
                ),
            );
        }
        if at >= bytes.len() {
            return Err(unexpected_at(input, p1, "a table key"));
        }
        match read_key_value(input, p1) {
            Err(e) => {
                return Err(e);
            },
            Ok(found) => {
                let (keys, v, p2) = found;
                proof {
                    lemma_put_sourced(src, table@, key_views(keys@), 0, v@);
                    lemma_put_kind(table@, key_views(keys@), 0, v@);
                }
                match put_value(&mut table, &keys, 0, v) {
                    Err(e) => {
                        return Err(e);
                    },
                    Ok(()) => {},
                }
                let p3 = skip_blank_at(bytes, p2);
                if is_byte(bytes, p3, 0x2c) {
                    proof {
                        lemma_ascii_boundary(src, p3 as int);
                    }
                    at = p3 + 1;
                    first = false;
                } else if is_byte(bytes, p3, 0x7d) {
                    proof {
                        lemma_ascii_boundary(src, p3 as int);
                        lemma_value_wf(
                            table_value(table@, span_of(start as int, p3 + 1)),
                        );
                    }
                    return Ok(
                        (
                            Value::with_span(ValueInner::Table(table), Span { start, end: p3 + 1 }),
                            p3 + 1,
                        ),
                    );
                } else {
                    return Err(unexpected_at(input, p3, "a right brace"));
                }
            },
        }
    }
}

/// Whether a key can begin with the byte `b`.
fn starts_key_byte(b: u8) -> (r: bool)
    ensures
        r == starts_key(b),
{
    (0x41 <= b && b <= 0x5a) || (0x61 <= b && b <= 0x7a) || (0x30 <= b && b <= 0x39) || b == 0x2d
        || b == 0x5f || b == 0x22 || b == 0x27
}

/// Reads the header that begins with `[` at `pos`.
fn read_header<'a>(input: &'a str, pos: usize) -> (r: Result<(bool, Vec<Key<'a>>, usize), Error>)
    requires
        readable(input.spec_bytes(), pos as int),
        byte_is(input.spec_bytes(), pos as int, 0x5b),
    ensures
        match header(input.spec_bytes(), pos as int) {
            Parsed::Done { value, pos: end } => r matches Ok(found) && found.0 == value.0
                && key_views(found.1@) == value.1 && found.1.len() > 0 && found.2 == end && pos
                < end && readable(input.spec_bytes(), end) && keys_sourced(
                input.spec_bytes(),
                value.1,
            ),
            Parsed::Failed(e) => r matches Err(x) && x@ == e,
        },
{
    let bytes = input.as_bytes();
    let ghost src = bytes@;
    proof {
        lemma_str_valid(input);
        lemma_ascii_boundary(src, pos as int);
    }
    assert(pos < bytes.len());
    let array = is_byte(bytes, pos + 1, 0x5b);
    let p1 = if array {
        proof {
            lemma_ascii_boundary(src, pos + 1);
        }
        pos + 2
    } else {
        pos + 1
    };
    let p1 = skip_blank_at(bytes, p1);
    match read_dotted_key(input, p1) {
        Err(e) => Err(e),
        Ok(found) => {
            let (keys, p2) = found;
            let w = newline_len(bytes, p2);
            if w > 0 {
                return Err(
                    Error::new(ErrorKind::NewlineInTableKey, Span { start: p2, end: p2 + w }),
                );
            }
            if !is_byte(bytes, p2, 0x5d) {
                return Err(unexpected_at(input, p2, "a right bracket"));
            }
            proof {
                lemma_ascii_boundary(src, p2 as int);
            }
            if !array {
                return Ok((false, keys, p2 + 1));
            }
            if is_byte(bytes, p2 + 1, 0x5d) {
                proof {
                    lemma_ascii_boundary(src, p2 + 1);
                }
                Ok((true, keys, p2 + 2))
            } else {
                Err(unexpected_at(input, p2 + 1, "a right bracket"))
            }
        },
    }
}

/// Reads the end of a statement at `pos`.
fn read_line_end(input: &str, pos: usize) -> (r: Result<usize, Error>)
    requires
        readable(input.spec_bytes(), pos as int),
    ensures
        match line_end(input.spec_bytes(), pos as int) {
            Parsed::Done { pos: end, .. } => r == Ok::<usize, Error>(end as usize) && pos <= end
                && readable(input.spec_bytes(), end),
            Parsed::Failed(e) => r matches Err(x) && x@ == e,
        },
{
    let bytes = input.as_bytes();
    let ghost src = bytes@;
    proof {
        lemma_str_valid(input);
    }
    let p1 = skip_blank_at(bytes, pos);
    if p1 >= bytes.len() {
        return Ok(p1);
    }
    let w = newline_len(bytes, p1);
    if w > 0 {
        proof {
            lemma_ascii_boundary(src, p1 + w - 1);
        }
        return Ok(p1 + w);
    }
    if bytes[p1] == 0x23 {
        return Ok(p1);
    }
    Err(unexpected_at(input, p1, "newline"))
}

/// Parses a TOML document. The result is the root table, with the span of
/// the whole source, or the first error in the order of the text. In the
/// tree no table has a key twice, and every key and every value has the span
/// of the text that it came from; every value has its payload, so that the
/// tree can be read into records. A string, the text of a floating-point
/// number and the name of a key are borrowed from the source unless they had
/// to be rewritten: the view of the tree says of each which it is.
pub fn parse<'a>(source: &'a str) -> (r: Result<Value<'a>, Error>)
    ensures
        match parsed(source.spec_bytes()) {
            Ok(v) => r matches Ok(x) && x@ == v && v.wf() && covers(source.spec_bytes(), v)
                && v.whole(),
            Err(e) => r matches Err(x) && x@ == e,
        },
{
    let bytes = source.as_bytes();
    let ghost src = bytes@;
    let n = bytes.len();
    proof {
        lemma_str_valid(source);
        is_char_boundary_start_end_of_seq(src);
    }
    let mut pos: usize = 0;
    if n >= 3 && bytes[0] == 0xef && bytes[1] == 0xbb && bytes[2] == 0xbf {
        pos = 3;
        proof {
            lemma_bom_boundary(src);
        }
    }
    let mut root: Table<'a> = Table::new();
    let mut path: Vec<Key<'a>> = Vec::new();
    assert(key_views(path@) =~= Seq::empty());
    loop
        invariant
            src == bytes@,
            src == source.spec_bytes(),
            n == src.len(),
            valid_utf8(src),
            readable(src, pos as int),
            root@.wf(),
            entries_sourced(src, root@.entries),
            document(src, pos as int, root@, key_views(path@)) == document(
                src,
                first_offset(src),
                empty_table(TableKind::Defined),
                Seq::empty(),
            ),
        decreases n - pos,
    {
        let p1 = skip_trivia_at(bytes, pos);
        if p1 >= n {
            proof {
                lemma_value_wf(table_value(root@, span_of(0, n as int)));
                law_trees_are_whole(src, table_value(root@, span_of(0, n as int)));
            }
            return Ok(Value::with_span(ValueInner::Table(root), Span { start: 0, end: n }));
        }
        if is_byte(bytes, p1, 0x5b) {
            match read_header(source, p1) {
                Err(e) => {
                    return Err(e);
                },
                Ok(found) => {
                    let (array, keys, p2) = found;
                    match read_line_end(source, p2) {
                        Err(e) => {
                            return Err(e);
                        },
                        Ok(p3) => {
                            proof {
                                lemma_open_header_sourced(
                                    src,
                                    root@,
                                    key_views(keys@),
                                    0,
                                    array,
                                );
                            }
                            match open_section(&mut root, &keys, 0, array) {
                                Err(e) => {
                                    return Err(e);
                                },
                                Ok(()) => {},
                            }
                            path = keys;
                            pos = p3;
                        },
                    }
                },
            }
        } else if !starts_key_byte(bytes[p1]) {
            return Err(
                match token_at(source, p1) {
                    Err(e) => from_token_error(e),
                    _ => Error::new(
                        ErrorKind::Unexpected(bytes[p1] as char),
                        Span { start: p1, end: p1 + 1 },
                    ),
                },
            );
        } else {
            match read_key_value(source, p1) {
                Err(e) => {
                    return Err(e);
                },
                Ok(found) => {
                    let (keys, v, p2) = found;
                    match read_line_end(source, p2) {
                        Err(e) => {
                            return Err(e);
                        },
                        Ok(p3) => {
                            proof {
                                lemma_put_in_section_sourced(
                                    src,
                                    root@,
                                    key_views(path@),
                                    0,
                                    key_views(keys@),
                                    v@,
                                );
                            }
                            match put_into_section(&mut root, &path, 0, &keys, v) {
                                Err(e) => {
                                    return Err(e);
                                },
                                Ok(()) => {},
                            }
                            pos = p3;
                        },
                    }
                },
            }
        }
    }
}

} // verus!
