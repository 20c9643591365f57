//! When a string is borrowed from the source: a string that is borrowed
//! stands in the source as it is, and a string is written anew only where a
//! backslash or a carriage return stands in its text.

use crate::assemble::empty_table;
use crate::coverage::{
    key_sourced, lemma_array_items_kind, lemma_inline_items_kind, lemma_sourced, sourced,
};
use crate::grammar::{scalar, Parsed};
use crate::number::lemma_without_underscores_same;
use crate::span::Span;
use crate::tokens::{
    escape, hex, hex_digit, is_blank, is_text, join, lemma_escape_kind, lemma_lex_first_byte,
    lemma_scan_kind, lex, newline_width, scan, trail, Lexed, TokenView,
};
use crate::value::{InnerView, KeyView, TableKind, ValueView};
use vstd::prelude::*;

verus! {

/// Whether `l`, if it is a token, holds text that was written anew.
pub open spec fn rewritten(l: Lexed) -> bool {
    l matches Lexed::Token { owned, .. } ==> owned
}

/// The body of a string whose value has departed from the source stays so.
pub proof fn lemma_scan_rewritten(
    src: Seq<u8>,
    start: int,
    delim: u8,
    multiline: bool,
    pos: int,
    acc: Seq<u8>,
)
    ensures
        rewritten(scan(src, start, delim, multiline, pos, acc, true)),
    decreases src.len() - pos, 0int,
{
    if pos < 0 || pos >= src.len() {
    } else if newline_width(src, pos) > 0 {
        if multiline {
            lemma_scan_rewritten(
                src,
                start,
                delim,
                multiline,
                pos + newline_width(src, pos),
                acc.push(0x0a),
            );
        }
    } else if src[pos] == delim {
        if !multiline {
        } else if !(pos + 1 < src.len() && src[pos + 1] == delim) {
            lemma_scan_rewritten(src, start, delim, multiline, pos + 1, acc.push(delim));
        } else if !(pos + 2 < src.len() && src[pos + 2] == delim) {
            lemma_scan_rewritten(src, start, delim, multiline, pos + 2, acc.push(delim).push(delim));
        }
    } else if src[pos] == 0x5c && delim == 0x22 {
        lemma_escape_rewritten(src, start, multiline, pos + 1, acc);
    } else if is_text(src[pos]) {
        lemma_scan_rewritten(src, start, delim, multiline, pos + 1, acc.push(src[pos]));
    }
}

/// A string with an escape is written anew.
pub proof fn lemma_escape_rewritten(
    src: Seq<u8>,
    start: int,
    multiline: bool,
    pos: int,
    acc: Seq<u8>,
)
    ensures
        rewritten(escape(src, start, multiline, pos, acc)),
    decreases src.len() - pos, 3int,
{
    if pos < 0 || pos >= src.len() {
    } else {
        let b = src[pos];
        if b == 0x22 || b == 0x5c {
            lemma_scan_rewritten(src, start, 0x22, multiline, pos + 1, acc.push(b));
        } else if b == 0x62 {
            lemma_scan_rewritten(src, start, 0x22, multiline, pos + 1, acc.push(0x08));
        } else if b == 0x66 {
            lemma_scan_rewritten(src, start, 0x22, multiline, pos + 1, acc.push(0x0c));
        } else if b == 0x6e {
            lemma_scan_rewritten(src, start, 0x22, multiline, pos + 1, acc.push(0x0a));
        } else if b == 0x72 {
            lemma_scan_rewritten(src, start, 0x22, multiline, pos + 1, acc.push(0x0d));
        } else if b == 0x74 {
            lemma_scan_rewritten(src, start, 0x22, multiline, pos + 1, acc.push(0x09));
        } else if b == 0x75 {
            lemma_hex_rewritten(src, start, multiline, pos, 4, pos + 1, 4, 0, acc);
        } else if b == 0x55 {
            lemma_hex_rewritten(src, start, multiline, pos, 8, pos + 1, 8, 0, acc);
        } else if multiline && newline_width(src, pos) > 0 {
            lemma_join_rewritten(src, start, pos + newline_width(src, pos), acc);
        } else if multiline && is_blank(b) {
            lemma_trail_rewritten(src, start, pos, pos + 1, acc);
        }
    }
}

/// A string with an escape that names a character by its number is written
/// anew.
pub proof fn lemma_hex_rewritten(
    src: Seq<u8>,
    start: int,
    multiline: bool,
    at: int,
    total: nat,
    pos: int,
    left: nat,
    value: nat,
    acc: Seq<u8>,
)
    ensures
        rewritten(hex(src, start, multiline, at, total, pos, left, value, acc)),
    decreases src.len() - pos, 1int + left,
{
    if left == 0 {
        if value <= 0x10ffff && vstd::utf8::is_scalar(value as u32) {
            lemma_scan_rewritten(
                src,
                start,
                0x22,
                multiline,
                pos,
                acc + vstd::utf8::encode_scalar(value as u32),
            );
        }
    } else if pos < 0 || pos >= src.len() {
    } else {
        match hex_digit(src[pos]) {
            Some(d) => {
                lemma_hex_rewritten(
                    src,
                    start,
                    multiline,
                    at,
                    total,
                    pos + 1,
                    (left - 1) as nat,
                    value * 16 + d as nat,
                    acc,
                );
            },
            None => {},
        }
    }
}

/// A string with a line join is written anew.
pub proof fn lemma_trail_rewritten(src: Seq<u8>, start: int, at: int, pos: int, acc: Seq<u8>)
    ensures
        rewritten(trail(src, start, at, pos, acc)),
    decreases src.len() - pos, 2int,
{
    if pos < 0 || pos >= src.len() {
        lemma_join_rewritten(src, start, pos, acc);
    } else if is_blank(src[pos]) {
        lemma_trail_rewritten(src, start, at, pos + 1, acc);
    } else if newline_width(src, pos) > 0 {
        lemma_join_rewritten(src, start, pos + newline_width(src, pos), acc);
    }
}

/// A string with a line join is written anew.
pub proof fn lemma_join_rewritten(src: Seq<u8>, start: int, pos: int, acc: Seq<u8>)
    ensures
        rewritten(join(src, start, pos, acc)),
    decreases src.len() - pos, 1int,
{
    if pos < 0 || pos >= src.len() {
        lemma_scan_rewritten(src, start, 0x22, true, pos, acc);
    } else if is_blank(src[pos]) {
        lemma_join_rewritten(src, start, pos + 1, acc);
    } else if newline_width(src, pos) > 0 {
        lemma_join_rewritten(src, start, pos + newline_width(src, pos), acc);
    } else {
        lemma_scan_rewritten(src, start, 0x22, true, pos, acc);
    }
}

/// How many delimiters close a string.
pub open spec fn closing(multiline: bool) -> int {
    if multiline {
        3
    } else {
        1
    }
}

/// The value of a string that is borrowed is what was read before `pos`
/// followed by the source from `pos` up to the delimiters that close the
/// string; and nothing was rewritten before `pos` either.
pub proof fn lemma_scan_borrowed(
    src: Seq<u8>,
    start: int,
    delim: u8,
    multiline: bool,
    pos: int,
    acc: Seq<u8>,
    owned: bool,
)
    requires
        0 <= pos,
        scan(src, start, delim, multiline, pos, acc, owned) matches Lexed::Token { owned: o, .. }
            && !o,
    ensures
        !owned,
        scan(src, start, delim, multiline, pos, acc, owned) matches Lexed::Token {
            token: TokenView::String { val, multiline: m, .. },
            end,
            ..
        } && m == multiline && pos <= end - closing(multiline) && end <= src.len() && val == acc
            + src.subrange(pos, end - closing(multiline)),
    decreases src.len() - pos,
{
    lemma_scan_kind(src, start, delim, multiline, pos, acc, owned);
    let l = scan(src, start, delim, multiline, pos, acc, owned);
    let end = l->Token_end;
    let val = l->Token_token->String_val;
    let to = end - closing(multiline);
    if newline_width(src, pos) > 0 {
        let w = newline_width(src, pos);
        if w == 2 || owned {
            lemma_scan_rewritten(src, start, delim, multiline, pos + w, acc.push(0x0a));
        }
        lemma_scan_borrowed(src, start, delim, multiline, pos + w, acc.push(0x0a), false);
        assert(acc.push(0x0a) + src.subrange(pos + 1, to) =~= acc + src.subrange(pos, to));
    } else if src[pos] == delim {
        if !multiline {
            assert(acc =~= acc + src.subrange(pos, pos));
        } else if !(pos + 1 < src.len() && src[pos + 1] == delim) {
            lemma_scan_borrowed(src, start, delim, multiline, pos + 1, acc.push(delim), owned);
            assert(acc.push(delim) + src.subrange(pos + 1, to) =~= acc + src.subrange(pos, to));
        } else if !(pos + 2 < src.len() && src[pos + 2] == delim) {
            lemma_scan_borrowed(
                src,
                start,
                delim,
                multiline,
                pos + 2,
                acc.push(delim).push(delim),
                owned,
            );
            assert(acc.push(delim).push(delim) + src.subrange(pos + 2, to) =~= acc + src.subrange(
                pos,
                to,
            ));
        } else if !(pos + 3 < src.len() && src[pos + 3] == delim) {
            assert(acc =~= acc + src.subrange(pos, pos));
        } else if !(pos + 4 < src.len() && src[pos + 4] == delim) {
            assert(acc.push(delim) =~= acc + src.subrange(pos, pos + 1));
        } else {
            assert(acc.push(delim).push(delim) =~= acc + src.subrange(pos, pos + 2));
        }
    } else if src[pos] == 0x5c && delim == 0x22 {
        lemma_escape_rewritten(src, start, multiline, pos + 1, acc);
    } else {
        lemma_scan_borrowed(src, start, delim, multiline, pos + 1, acc.push(src[pos]), owned);
        assert(acc.push(src[pos]) + src.subrange(pos + 1, to) =~= acc + src.subrange(pos, to));
    }
}

/// Whether a backslash or a carriage return stands in the source from `from`
/// up to `to`.
pub open spec fn has_rewrite(src: Seq<u8>, from: int, to: int) -> bool {
    exists|i: int| from <= i < to && i < src.len() && (#[trigger] src[i] == 0x5c || src[i] == 0x0d)
}

/// A string is written anew only where a backslash or a carriage return
/// stands in its body.
pub proof fn lemma_scan_owned(
    src: Seq<u8>,
    start: int,
    delim: u8,
    multiline: bool,
    pos: int,
    acc: Seq<u8>,
)
    requires
        0 <= pos,
        scan(src, start, delim, multiline, pos, acc, false) matches Lexed::Token { owned: o, .. }
            && o,
    ensures
        has_rewrite(src, pos, scan(src, start, delim, multiline, pos, acc, false)->Token_end),
    decreases src.len() - pos,
{
    lemma_scan_kind(src, start, delim, multiline, pos, acc, false);
    let end = scan(src, start, delim, multiline, pos, acc, false)->Token_end;
    if newline_width(src, pos) > 0 {
        let w = newline_width(src, pos);
        lemma_scan_kind(src, start, delim, multiline, pos + w, acc.push(0x0a), w == 2);
        if w == 2 {
            assert(src[pos] == 0x0d);
        } else {
            lemma_scan_owned(src, start, delim, multiline, pos + w, acc.push(0x0a));
            let i = choose|i: int|
                pos + w <= i < end && i < src.len() && (#[trigger] src[i] == 0x5c || src[i]
                    == 0x0d);
            assert(src[i] == 0x5c || src[i] == 0x0d);
        }
    } else if src[pos] == delim {
        if !multiline {
        } else if !(pos + 1 < src.len() && src[pos + 1] == delim) {
            lemma_scan_owned(src, start, delim, multiline, pos + 1, acc.push(delim));
            let i = choose|i: int|
                pos + 1 <= i < end && i < src.len() && (#[trigger] src[i] == 0x5c || src[i]
                    == 0x0d);
            assert(src[i] == 0x5c || src[i] == 0x0d);
        } else if !(pos + 2 < src.len() && src[pos + 2] == delim) {
            lemma_scan_owned(src, start, delim, multiline, pos + 2, acc.push(delim).push(delim));
            let i = choose|i: int|
                pos + 2 <= i < end && i < src.len() && (#[trigger] src[i] == 0x5c || src[i]
                    == 0x0d);
            assert(src[i] == 0x5c || src[i] == 0x0d);
        }
    } else if src[pos] == 0x5c && delim == 0x22 {
        lemma_escape_kind(src, start, multiline, pos + 1, acc);
        assert(src[pos] == 0x5c);
    } else {
        lemma_scan_owned(src, start, delim, multiline, pos + 1, acc.push(src[pos]));
        let i = choose|i: int|
            pos + 1 <= i < end && i < src.len() && (#[trigger] src[i] == 0x5c || src[i] == 0x0d);
        assert(src[i] == 0x5c || src[i] == 0x0d);
    }
}

/// Where the body of the string that starts at `s` starts: after the
/// delimiter, or after three of them and the line break that follows them.
pub open spec fn body_start(src: Seq<u8>, s: int, multiline: bool) -> int {
    if multiline {
        s + 3 + newline_width(src, s + 3)
    } else {
        s + 1
    }
}

/// A string that is borrowed is the source between its delimiters, but for
/// a line break right after the three that open it; and a string is written
/// anew only where a backslash or a carriage return stands in it.
pub proof fn law_borrowed_strings_stand_in_the_source(src: Seq<u8>, s: int)
    requires
        lex(src, s) matches Lexed::Token { token, .. } && token is String,
    ensures
        lex(src, s) matches Lexed::Token {
            token: TokenView::String { val, multiline, .. },
            end,
            owned,
        } && if owned {
            has_rewrite(src, s, end)
        } else {
            body_start(src, s, multiline) <= end - closing(multiline) && val == src.subrange(
                body_start(src, s, multiline),
                end - closing(multiline),
            )
        },
{
    reveal(lex);
    lemma_lex_first_byte(src, s);
    let delim = src[s];
    let l = lex(src, s);
    let end = l->Token_end;
    let empty = Seq::<u8>::empty();
    assert(delim == 0x27 || delim == 0x22);
    if s + 1 < src.len() && src[s + 1] == delim {
        if s + 2 < src.len() && src[s + 2] == delim {
            let body = s + 3 + newline_width(src, s + 3);
            lemma_scan_kind(src, s, delim, true, body, empty, false);
            if l->Token_owned {
                lemma_scan_owned(src, s, delim, true, body, empty);
                let i = choose|i: int|
                    body <= i < end && i < src.len() && (#[trigger] src[i] == 0x5c || src[i]
                        == 0x0d);
                assert(src[i] == 0x5c || src[i] == 0x0d);
            } else {
                lemma_scan_borrowed(src, s, delim, true, body, empty, false);
                assert(empty + src.subrange(body, end - 3) =~= src.subrange(body, end - 3));
            }
        } else {
            assert(empty =~= src.subrange(s + 1, s + 1));
        }
    } else {
        lemma_scan_kind(src, s, delim, false, s + 1, empty, false);
        if l->Token_owned {
            lemma_scan_owned(src, s, delim, false, s + 1, empty);
            let i = choose|i: int|
                s + 1 <= i < end && i < src.len() && (#[trigger] src[i] == 0x5c || src[i]
                    == 0x0d);
            assert(src[i] == 0x5c || src[i] == 0x0d);
        } else {
            lemma_scan_borrowed(src, s, delim, false, s + 1, empty, false);
            assert(empty + src.subrange(s + 1, end - 1) =~= src.subrange(s + 1, end - 1));
        }
    }
}

/// Whether the bytes stand in the source as they are, inside the span.
pub open spec fn stands_in(src: Seq<u8>, span: Span, bytes: Seq<u8>) -> bool {
    exists|a: int, b: int|
        span.start <= a <= b <= span.end && b <= src.len() && #[trigger] src.subrange(a, b)
            == bytes
}

/// Whether an underscore stands in the source inside the span.
pub open spec fn has_underscore_in(src: Seq<u8>, span: Span) -> bool {
    exists|i: int| span.start <= i < span.end && i < src.len() && #[trigger] src[i] == 0x5f
}

/// What a tree borrows stands in the source as it is, and what it holds as
/// text of its own had to be written anew. A string that is borrowed stands
/// inside its span; in the span of one that is not there is a backslash or
/// a carriage return. The text of a floating-point number that is borrowed
/// is the text of its span; in the span of one that is not there is an
/// underscore.
pub proof fn law_borrowed_text_stands_in_the_source(src: Seq<u8>, v: ValueView)
    requires
        sourced(src, v),
    ensures
        match v.inner {
            Some(InnerView::String(t)) => if t.borrowed {
                stands_in(src, v.span, t.bytes)
            } else {
                has_rewrite(src, v.span.start as int, v.span.end as int)
            },
            Some(InnerView::Float(t)) => if t.borrowed {
                t.bytes == src.subrange(v.span.start as int, v.span.end as int)
            } else {
                has_underscore_in(src, v.span)
            },
            _ => true,
        },
{
    lemma_sourced(src, v);
    let s = v.span.start as int;
    let e = v.span.end as int;
    if v.inner matches Some(InnerView::String(_)) {
        let t = v.inner->0->String_0;
        lemma_lex_first_byte(src, s);
        lemma_array_items_kind(src, s, s + 1, Seq::empty());
        lemma_inline_items_kind(src, s, s + 1, empty_table(TableKind::Inline), true);
        law_borrowed_strings_stand_in_the_source(src, s);
        if t.borrowed {
            let multiline = lex(src, s)->Token_token->String_multiline;
            let a = body_start(src, s, multiline);
            let b = e - closing(multiline);
            assert(src.subrange(a, b) == t.bytes);
        }
    } else if v.inner matches Some(InnerView::Float(_)) {
        let t = v.inner->0->Float_0;
        lemma_lex_first_byte(src, s);
        lemma_array_items_kind(src, s, s + 1, Seq::empty());
        lemma_inline_items_kind(src, s, s + 1, empty_table(TableKind::Inline), true);
        assert(scalar(src, s) == (Parsed::Done { value: v, pos: e }));
        let text = src.subrange(s, e);
        if t.borrowed {
            lemma_without_underscores_same(text);
        } else {
            let i = choose|i: int| 0 <= i < text.len() && text[i] == 0x5f;
            assert(src[s + i] == 0x5f);
        }
    }
}

/// The name of a key that is borrowed stands in the source inside the span
/// of the key; in the span of one that is not there is a backslash.
pub proof fn law_borrowed_names_stand_in_the_source(src: Seq<u8>, k: KeyView)
    requires
        key_sourced(src, k),
    ensures
        if k.borrowed {
            stands_in(src, k.span, k.name)
        } else {
            has_rewrite(src, k.span.start as int, k.span.end as int)
        },
{
    let s = k.span.start as int;
    let e = k.span.end as int;
    lemma_lex_first_byte(src, s);
    if lex(src, s) matches Lexed::Token { token: TokenView::String { .. }, .. } {
        law_borrowed_strings_stand_in_the_source(src, s);
        if k.borrowed {
            assert(src.subrange(s + 1, e - 1) == k.name);
        }
    } else {
        reveal(lex);
        assert(src.subrange(s, e) == k.name);
    }
}

} // verus!
