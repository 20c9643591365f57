//! A string is read from its own text: what stands before and after the
//! token in the source plays no part in what the token is.

use crate::assemble::empty_table;
use crate::coverage::{lemma_array_items_kind, lemma_inline_items_kind, lemma_sourced, sourced};
use crate::grammar::{value, Parsed};
use crate::tokens::{
    escape, hex, hex_digit, is_blank, is_text, join, lemma_escape_kind, lemma_hex_kind,
    lemma_join_kind, lemma_lex_first_byte, lemma_scan_kind, lemma_trail_kind, lex, newline_width,
    scan, trail, Lexed,
};
use crate::value::{InnerView, TableKind, ValueView};
use vstd::prelude::*;
use vstd::utf8::*;

verus! {

/// Whether `l` is a string token that ends at `end`.
pub open spec fn ends_at(l: Lexed, end: int) -> bool {
    l matches Lexed::Token { token, end: e, .. } && e == end && token is String
}

/// The token `l`, as it is when read from the text that starts at the
/// offset `by` of the source.
pub open spec fn moved_back(l: Lexed, by: int) -> Lexed {
    match l {
        Lexed::Token { token, end, owned } => Lexed::Token { token, end: end - by, owned },
        other => other,
    }
}

/// Whether the text `t` is, from its offset `k` to its end, the part of the
/// source from `s` to `e`.
pub open spec fn holds_at(t: Seq<u8>, k: int, src: Seq<u8>, s: int, e: int) -> bool {
    &&& 0 <= k
    &&& 0 <= s <= e <= src.len()
    &&& t.len() == k + (e - s)
    &&& t.subrange(k, t.len() as int) == src.subrange(s, e)
}

/// A byte of the part stands in the text where the part was placed.
proof fn lemma_same_byte(src: Seq<u8>, s: int, e: int, t: Seq<u8>, k: int, pos: int)
    requires
        holds_at(t, k, src, s, e),
        s <= pos < e,
    ensures
        t[pos - s + k] == src[pos],
{
    assert(t.subrange(k, t.len() as int)[pos - s] == src.subrange(s, e)[pos - s]);
}

/// A line break inside the part is the same line break in the text.
proof fn lemma_newline_local(src: Seq<u8>, s: int, e: int, t: Seq<u8>, k: int, pos: int)
    requires
        holds_at(t, k, src, s, e),
        s <= pos < e,
        newline_width(src, pos) == 0 || pos + newline_width(src, pos) <= e,
    ensures
        newline_width(t, pos - s + k) == newline_width(src, pos),
{
    lemma_same_byte(src, s, e, t, k, pos);
    if pos + 1 < e {
        lemma_same_byte(src, s, e, t, k, pos + 1);
    }
}

/// The body of a string that ends at `e` is read alike from a text that
/// ends with the text of the token.
pub proof fn lemma_scan_local(
    src: Seq<u8>,
    s: int,
    e: int,
    t: Seq<u8>,
    k: int,
    delim: u8,
    multiline: bool,
    pos: int,
    acc: Seq<u8>,
    owned: bool,
)
    requires
        0 <= s <= pos,
        holds_at(t, k, src, s, e),
        ends_at(scan(src, s, delim, multiline, pos, acc, owned), e),
    ensures
        scan(t, k, delim, multiline, pos - s + k, acc, owned) == moved_back(
            scan(src, s, delim, multiline, pos, acc, owned),
            s - k,
        ),
    decreases src.len() - pos, 0int,
{
    lemma_scan_kind(src, s, delim, multiline, pos, acc, owned);
    assert(pos < e);
    lemma_same_byte(src, s, e, t, k, pos);
    assert(t.subrange(k, k + e - s) =~= src.subrange(s, e));
    if newline_width(src, pos) > 0 {
        let w = newline_width(src, pos);
        lemma_scan_kind(src, s, delim, multiline, pos + w, acc.push(0x0a), owned || w == 2);
        lemma_newline_local(src, s, e, t, k, pos);
        lemma_scan_local(src, s, e, t, k, delim, multiline, pos + w, acc.push(0x0a), owned || w == 2);
    } else {
        lemma_newline_local(src, s, e, t, k, pos);
        if src[pos] == delim {
            if !multiline {
            } else if !(pos + 1 < src.len() && src[pos + 1] == delim) {
                lemma_scan_kind(src, s, delim, multiline, pos + 1, acc.push(delim), owned);
                lemma_same_byte(src, s, e, t, k, pos + 1);
                lemma_scan_local(src, s, e, t, k, delim, multiline, pos + 1, acc.push(delim), owned);
            } else if !(pos + 2 < src.len() && src[pos + 2] == delim) {
                lemma_scan_kind(
                    src,
                    s,
                    delim,
                    multiline,
                    pos + 2,
                    acc.push(delim).push(delim),
                    owned,
                );
                lemma_same_byte(src, s, e, t, k, pos + 1);
                lemma_same_byte(src, s, e, t, k, pos + 2);
                lemma_scan_local(
                    src,
                    s,
                    e, t, k,
                    delim,
                    multiline,
                    pos + 2,
                    acc.push(delim).push(delim),
                    owned,
                );
            } else {
                lemma_same_byte(src, s, e, t, k, pos + 1);
                lemma_same_byte(src, s, e, t, k, pos + 2);
                if pos + 3 < e {
                    lemma_same_byte(src, s, e, t, k, pos + 3);
                }
                if pos + 4 < e {
                    lemma_same_byte(src, s, e, t, k, pos + 4);
                }
            }
        } else if src[pos] == 0x5c && delim == 0x22 {
            lemma_escape_local(src, s, e, t, k, multiline, pos + 1, acc);
        } else if is_text(src[pos]) {
            lemma_scan_kind(src, s, delim, multiline, pos + 1, acc.push(src[pos]), owned);
            lemma_scan_local(src, s, e, t, k, delim, multiline, pos + 1, acc.push(src[pos]), owned);
        }
    }
}

/// An escape in a string that ends at `e` is read alike from a text that
/// ends with the text of the token.
pub proof fn lemma_escape_local(
    src: Seq<u8>,
    s: int,
    e: int,
    t: Seq<u8>,
    k: int,
    multiline: bool,
    pos: int,
    acc: Seq<u8>,
)
    requires
        0 <= s <= pos,
        holds_at(t, k, src, s, e),
        ends_at(escape(src, s, multiline, pos, acc), e),
    ensures
        escape(t, k, multiline, pos - s + k, acc) == moved_back(
            escape(src, s, multiline, pos, acc),
            s - k,
        ),
    decreases src.len() - pos, 3int,
{
    lemma_escape_kind(src, s, multiline, pos, acc);
    assert(pos < e);
    lemma_same_byte(src, s, e, t, k, pos);
    let b = src[pos];
    if b == 0x22 || b == 0x5c {
        lemma_scan_local(src, s, e, t, k, 0x22, multiline, pos + 1, acc.push(b), true);
    } else if b == 0x62 {
        lemma_scan_local(src, s, e, t, k, 0x22, multiline, pos + 1, acc.push(0x08), true);
    } else if b == 0x66 {
        lemma_scan_local(src, s, e, t, k, 0x22, multiline, pos + 1, acc.push(0x0c), true);
    } else if b == 0x6e {
        lemma_scan_local(src, s, e, t, k, 0x22, multiline, pos + 1, acc.push(0x0a), true);
    } else if b == 0x72 {
        lemma_scan_local(src, s, e, t, k, 0x22, multiline, pos + 1, acc.push(0x0d), true);
    } else if b == 0x74 {
        lemma_scan_local(src, s, e, t, k, 0x22, multiline, pos + 1, acc.push(0x09), true);
    } else if b == 0x75 {
        lemma_hex_local(src, s, e, t, k, multiline, pos, 4, pos + 1, 4, 0, acc);
    } else if b == 0x55 {
        lemma_hex_local(src, s, e, t, k, multiline, pos, 8, pos + 1, 8, 0, acc);
    } else if multiline && newline_width(src, pos) > 0 {
        let w = newline_width(src, pos);
        lemma_join_kind(src, s, pos + w, acc);
        lemma_newline_local(src, s, e, t, k, pos);
        lemma_join_local(src, s, e, t, k, pos + w, acc);
    } else if multiline && is_blank(b) {
        lemma_newline_local(src, s, e, t, k, pos);
        lemma_trail_local(src, s, e, t, k, pos, pos + 1, acc);
    }
}

/// The digits of an escape in a string that ends at `e` are read alike from
/// a text that ends with the text of the token.
pub proof fn lemma_hex_local(
    src: Seq<u8>,
    s: int,
    e: int,
    t: Seq<u8>,
    k: int,
    multiline: bool,
    at: int,
    total: nat,
    pos: int,
    left: nat,
    value: nat,
    acc: Seq<u8>,
)
    requires
        0 <= s <= pos,
        holds_at(t, k, src, s, e),
        ends_at(hex(src, s, multiline, at, total, pos, left, value, acc), e),
    ensures
        hex(t, k, multiline, at - s + k, total, pos - s + k, left, value, acc)
            == moved_back(hex(src, s, multiline, at, total, pos, left, value, acc), s - k),
    decreases src.len() - pos, 1int + left,
{
    lemma_hex_kind(src, s, multiline, at, total, pos, left, value, acc);
    assert(pos < e);
    if left == 0 {
        lemma_scan_local(src, s, e, t, k, 0x22, multiline, pos, acc + encode_scalar(value as u32), true);
    } else {
        lemma_same_byte(src, s, e, t, k, pos);
        match hex_digit(src[pos]) {
            Some(d) => {
                lemma_hex_local(
                    src,
                    s,
                    e, t, k,
                    multiline,
                    at,
                    total,
                    pos + 1,
                    (left - 1) as nat,
                    value * 16 + d as nat,
                    acc,
                );
            },
            None => {},
        }
    }
}

/// What leads up to the line break of a line join in a string that ends at
/// `e` is read alike from a text that ends with the text of the token.
pub proof fn lemma_trail_local(src: Seq<u8>, s: int, e: int, t: Seq<u8>, k: int, at: int, pos: int, acc: Seq<u8>)
    requires
        0 <= s <= pos,
        holds_at(t, k, src, s, e),
        ends_at(trail(src, s, at, pos, acc), e),
    ensures
        trail(t, k, at - s + k, pos - s + k, acc) == moved_back(
            trail(src, s, at, pos, acc),
            s - k,
        ),
    decreases src.len() - pos, 2int,
{
    lemma_trail_kind(src, s, at, pos, acc);
    assert(pos < e);
    lemma_same_byte(src, s, e, t, k, pos);
    if is_blank(src[pos]) {
        lemma_trail_local(src, s, e, t, k, at, pos + 1, acc);
    } else if newline_width(src, pos) > 0 {
        let w = newline_width(src, pos);
        lemma_join_kind(src, s, pos + w, acc);
        lemma_newline_local(src, s, e, t, k, pos);
        lemma_join_local(src, s, e, t, k, pos + w, acc);
    }
}

/// What follows a line join in a string that ends at `e` is read alike from
/// a text that ends with the text of the token.
pub proof fn lemma_join_local(src: Seq<u8>, s: int, e: int, t: Seq<u8>, k: int, pos: int, acc: Seq<u8>)
    requires
        0 <= s <= pos,
        holds_at(t, k, src, s, e),
        ends_at(join(src, s, pos, acc), e),
    ensures
        join(t, k, pos - s + k, acc) == moved_back(join(src, s, pos, acc), s - k),
    decreases src.len() - pos, 1int,
{
    lemma_join_kind(src, s, pos, acc);
    assert(pos < e);
    lemma_same_byte(src, s, e, t, k, pos);
    if is_blank(src[pos]) {
        lemma_join_local(src, s, e, t, k, pos + 1, acc);
    } else if newline_width(src, pos) > 0 {
        let w = newline_width(src, pos);
        lemma_join_kind(src, s, pos + w, acc);
        lemma_newline_local(src, s, e, t, k, pos);
        lemma_join_local(src, s, e, t, k, pos + w, acc);
    } else {
        lemma_newline_local(src, s, e, t, k, pos);
        lemma_scan_local(src, s, e, t, k, 0x22, true, pos, acc, true);
    }
}

/// A string token is read alike from a text that ends with the text of the
/// token, whatever stands before it there.
pub proof fn lemma_string_placed(src: Seq<u8>, s: int, t: Seq<u8>, k: int)
    requires
        lex(src, s) matches Lexed::Token { token, end, .. } && token is String && holds_at(
            t,
            k,
            src,
            s,
            end,
        ),
    ensures
        lex(t, k) == moved_back(lex(src, s), s - k),
{
    reveal(lex);
    lemma_lex_first_byte(src, s);
    let e = lex(src, s)->Token_end;
    lemma_same_byte(src, s, e, t, k, s);
    assert(t.subrange(k, k + e - s) =~= src.subrange(s, e));
    let delim = src[s];
    assert(delim == 0x27 || delim == 0x22) by {
        lemma_newline_local(src, s, e, t, k, s);
    }
    lemma_newline_local(src, s, e, t, k, s);
    if s + 1 < src.len() && src[s + 1] == delim {
        if s + 2 < src.len() && src[s + 2] == delim {
            let body = s + 3 + newline_width(src, s + 3);
            lemma_scan_kind(src, s, delim, true, body, Seq::empty(), false);
            lemma_same_byte(src, s, e, t, k, s + 1);
            lemma_same_byte(src, s, e, t, k, s + 2);
            lemma_newline_local(src, s, e, t, k, s + 3);
            lemma_scan_local(src, s, e, t, k, delim, true, body, Seq::empty(), false);
        } else {
            lemma_same_byte(src, s, e, t, k, s + 1);
        }
    } else {
        lemma_scan_kind(src, s, delim, false, s + 1, Seq::empty(), false);
        if s + 1 < e {
            lemma_same_byte(src, s, e, t, k, s + 1);
        }
        lemma_scan_local(src, s, e, t, k, delim, false, s + 1, Seq::empty(), false);
    }
}

/// A string token is read from its own text: the text of the token, read as
/// a source of its own, is the same token.
pub proof fn law_strings_are_their_text(src: Seq<u8>, s: int)
    requires
        0 <= s,
        lex(src, s) matches Lexed::Token { token, .. } && token is String,
    ensures
        ({
            let e = lex(src, s)->Token_end;
            lex(src.subrange(s, e), 0) == moved_back(lex(src, s), s)
        }),
{
    lemma_lex_first_byte(src, s);
    let e = lex(src, s)->Token_end;
    let t = src.subrange(s, e);
    assert(t.subrange(0, t.len() as int) =~= t);
    lemma_string_placed(src, s, t, 0);
}

/// A string of the tree is what the text of its span spells, whatever stands
/// around it: reading that text as a source of its own gives a string with
/// the same payload.
pub proof fn law_strings_read_again_alone(src: Seq<u8>, v: ValueView)
    requires
        sourced(src, v),
        v.inner matches Some(InnerView::String(_)),
    ensures
        value(src.subrange(v.span.start as int, v.span.end as int), 0) matches Parsed::Done {
            value: again,
            pos,
        } && again.inner == v.inner && pos == v.span.end - v.span.start,
{
    lemma_sourced(src, v);
    let s = v.span.start as int;
    lemma_lex_first_byte(src, s);
    lemma_array_items_kind(src, s, s + 1, Seq::empty());
    lemma_inline_items_kind(src, s, s + 1, empty_table(TableKind::Inline), true);
    law_strings_are_their_text(src, s);
}

} // verus!
