//! What a document of one line is that gives a key a value: the text of the
//! value alone decides the outcome, and a string, a number or a boolean of a
//! tree reads again as the same value from such a line of its own.

use crate::assemble::{empty_table, nest, put, put_in_section, table_value};
use crate::coverage::{lemma_array_items_kind, lemma_inline_items_kind, lemma_sourced, sourced};
use crate::error::{error_at, ErrorKindView, ErrorView};
use crate::grammar::{
    document, dotted_key, forward, key_part, key_value, line_end, parsed, plain, scalar, skip_blank,
    skip_trivia, span_of, starts_key, trivia_len, value, Parsed,
};
use crate::locality::lemma_string_placed;
use crate::number::{literal, without_underscores, Literal};
use crate::table::lemma_position;
use crate::tokens::{
    first_offset, in_class, is_blank, is_keylike, is_number_byte, lemma_lex_first_byte,
    lemma_run_bounds, lex, run_end, run_len, Class, Lexed,
};
use crate::value::{InnerView, KeyView, TableKind, TableView, TextView, ValueView};
use vstd::prelude::*;

verus! {

/// The document `k = ` followed by the text `text`.
pub open spec fn line(text: Seq<u8>) -> Seq<u8> {
    seq![0x6bu8, 0x20u8, 0x3du8, 0x20u8] + text
}

/// Whether the text is that of a bare value: not empty, made of the bytes
/// that can stand in a number, and beginning with a byte of a bare key or
/// with `+`.
pub open spec fn bare(text: Seq<u8>) -> bool {
    &&& text.len() > 0
    &&& is_keylike(text[0]) || text[0] == 0x2b
    &&& forall|i: int| 0 <= i < text.len() ==> is_number_byte(#[trigger] text[i])
}

/// The key `k` as it stands at the start of [`line`].
pub open spec fn the_key() -> KeyView {
    KeyView { name: seq![0x6bu8], span: span_of(0, 1), borrowed: true }
}

/// The tree of the document [`line`] whose value has the payload `inner`:
/// a root with the one entry `k`, whose value has the span of the text.
pub open spec fn one_entry(inner: InnerView, text: Seq<u8>) -> ValueView {
    table_value(
        TableView {
            kind: TableKind::Defined,
            entries: seq![
                (the_key(), ValueView { inner: Some(inner), span: span_of(4, 4 + text.len() as int) }),
            ],
        },
        span_of(0, 4 + text.len() as int),
    )
}

/// A run of bytes of one class that reaches to the end of the source ends
/// there.
pub proof fn lemma_run_to_the_end(src: Seq<u8>, pos: int, c: Class)
    requires
        0 <= pos <= src.len(),
        forall|i: int| pos <= i < src.len() ==> in_class(c, #[trigger] src[i]),
    ensures
        run_end(src, pos, c) == src.len(),
    decreases src.len() - pos,
{
    if pos < src.len() {
        lemma_run_to_the_end(src, pos + 1, c);
    }
}

/// The document `k = ` followed by a text that does not begin with a blank
/// is what the value is that stands in it after the four bytes `k = `: where
/// that value fails, its error; where it ends with the text, the tree with
/// the one entry `k` that holds it.
pub proof fn lemma_one_line(text: Seq<u8>)
    requires
        text.len() > 0,
        !is_blank(text[0]),
    ensures
        match value(line(text), 4) {
            Parsed::Failed(e) => parsed(line(text)) == Err::<ValueView, ErrorView>(e),
            Parsed::Done { value: v, pos } => pos == 4 + text.len() && v.inner is Some && v.span
                == span_of(4, 4 + text.len() as int) ==> parsed(line(text)) == Ok::<
                ValueView,
                ErrorView,
            >(one_entry(v.inner->0, text)),
        },
{
    let src = line(text);
    let n = src.len() as int;
    assert(n == 4 + text.len());
    assert(src[0] == 0x6b && src[1] == 0x20 && src[2] == 0x3d && src[3] == 0x20);
    assert(src[4] == text[0]);
    assert(src.subrange(0, 1) =~= seq![0x6bu8]);
    reveal(lex);
    reveal_with_fuel(run_len, 3);
    // The key.
    assert(run_end(src, 0, Class::Keylike) == 1);
    assert(key_part(src, 0) == (Parsed::Done { value: the_key(), pos: 1 }));
    assert(skip_blank(src, 1) == 2);
    let keys = Seq::<KeyView>::empty().push(the_key());
    assert(dotted_key(src, 0, Seq::empty()) == (Parsed::Done { value: keys, pos: 2 }));
    // The value.
    assert(skip_blank(src, 3) == 4);
    assert(forward(src, 0, 4) == 4);
    assert(key_value(src, 0) == match value(src, 4) {
        Parsed::Failed(e) => Parsed::Failed(e),
        Parsed::Done { value: v, pos: p2 } => Parsed::Done { value: (keys, v), pos: p2 },
    });
    // The line and the document.
    assert(run_len(src, n, Class::Blank) == 0);
    assert(skip_blank(src, n) == n);
    assert(line_end(src, n) == (Parsed::Done { value: (), pos: n }));
    assert(trivia_len(src, 0) == 0);
    assert(trivia_len(src, n) == 0);
    assert(skip_trivia(src, 0) == 0);
    assert(skip_trivia(src, n) == n);
    assert(first_offset(src) == 0);
    assert(starts_key(src[0]));
    let root = empty_table(TableKind::Defined);
    lemma_position(root, the_key().name);
    match value(src, 4) {
        Parsed::Failed(e) => {
            assert(document(src, 0, root, Seq::empty()) == Err::<TableView, ErrorView>(e));
        },
        Parsed::Done { value: v, pos: p2 } => {
            if p2 == n && v.inner is Some && v.span == span_of(4, n) {
                assert(nest(keys, 0, v) == v);
                let next = root.with_entry(the_key(), v);
                assert(put(root, keys, 0, v) == Ok::<TableView, ErrorView>(next));
                assert(put_in_section(root, Seq::empty(), 0, keys, v) == Ok::<
                    TableView,
                    ErrorView,
                >(next));
                assert(forward(src, 0, n) == n);
                assert(document(src, n, next, Seq::empty()) == Ok::<TableView, ErrorView>(next));
                assert(document(src, 0, root, Seq::empty()) == Ok::<TableView, ErrorView>(next));
                assert(next.entries =~= seq![(the_key(), v)]);
            }
        },
    }
}

/// What the document `k = ` followed by the text of a bare value is: the
/// tree with the one entry `k`, whose value is the boolean, the integer or
/// the floating-point number that the text spells; or the error that the
/// text is an invalid number, or an unquoted string, at the span of the text.
pub open spec fn bare_line(text: Seq<u8>) -> Result<ValueView, ErrorView> {
    let span = span_of(4, 4 + text.len() as int);
    match literal(text) {
        Literal::Boolean(b) => Ok(one_entry(InnerView::Boolean(b), text)),
        Literal::Integer(i) => Ok(one_entry(InnerView::Integer(i), text)),
        Literal::Float => Ok(
            one_entry(
                InnerView::Float(TextView { bytes: without_underscores(text), borrowed: plain(text) }),
                text,
            ),
        ),
        Literal::Invalid => Err(error_at(ErrorKindView::InvalidNumber, span)),
        Literal::Unquoted => Err(error_at(ErrorKindView::UnquotedString, span)),
    }
}

/// The document `k = ` followed by the text of a bare value is what the text
/// alone makes it.
pub proof fn law_one_bare_value(text: Seq<u8>)
    requires
        bare(text),
    ensures
        parsed(line(text)) == bare_line(text),
{
    let src = line(text);
    let n = src.len() as int;
    assert(src[4] == text[0]);
    assert forall|i: int| 4 <= i < n implies in_class(Class::Number, #[trigger] src[i]) by {
        assert(src[i] == text[i - 4]);
    }
    assert(src.subrange(4, n) =~= text);
    reveal(lex);
    lemma_run_to_the_end(src, 4, Class::Number);
    assert(value(src, 4) == scalar(src, 4));
    lemma_one_line(text);
}

/// The bytes of a run are of its class.
pub proof fn lemma_run_in_class(src: Seq<u8>, pos: int, c: Class)
    requires
        0 <= pos <= src.len(),
    ensures
        forall|i: int| pos <= i < run_end(src, pos, c) ==> in_class(c, #[trigger] src[i]),
    decreases src.len() - pos,
{
    if pos < src.len() && in_class(c, src[pos]) {
        lemma_run_in_class(src, pos + 1, c);
    }
}

/// A boolean, an integer or a floating-point number of the tree reads again
/// from the document `k = ` followed by the text of its span.
proof fn lemma_number_in_a_line(src: Seq<u8>, v: ValueView)
    requires
        sourced(src, v),
        v.inner matches Some(inner) && (inner is Boolean || inner is Integer || inner is Float),
    ensures
        ({
            let text = src.subrange(v.span.start as int, v.span.end as int);
            parsed(line(text)) == Ok::<ValueView, ErrorView>(one_entry(v.inner->0, text))
        }),
{
    let pos = v.span.start as int;
    let end = v.span.end as int;
    let text = src.subrange(pos, end);
    lemma_sourced(src, v);
    lemma_array_items_kind(src, pos, pos + 1, Seq::empty());
    lemma_inline_items_kind(src, pos, pos + 1, empty_table(TableKind::Inline), true);
    assert(scalar(src, pos) == (Parsed::Done { value: v, pos: end }));
    lemma_lex_first_byte(src, pos);
    assert(is_keylike(src[pos]) || src[pos] == 0x2b);
    lemma_run_bounds(src, pos, Class::Number);
    lemma_run_in_class(src, pos, Class::Number);
    assert(text[0] == src[pos]);
    assert forall|i: int| 0 <= i < text.len() implies is_number_byte(#[trigger] text[i]) by {
        assert(text[i] == src[pos + i]);
    }
    law_one_bare_value(text);
}

/// A string of the tree reads again from the document `k = ` followed by the
/// text of its span.
proof fn lemma_string_in_a_line(src: Seq<u8>, v: ValueView)
    requires
        sourced(src, v),
        v.inner matches Some(InnerView::String(_)),
    ensures
        ({
            let text = src.subrange(v.span.start as int, v.span.end as int);
            parsed(line(text)) == Ok::<ValueView, ErrorView>(one_entry(v.inner->0, text))
        }),
{
    let pos = v.span.start as int;
    let end = v.span.end as int;
    let text = src.subrange(pos, end);
    let t = line(text);
    lemma_sourced(src, v);
    lemma_lex_first_byte(src, pos);
    lemma_array_items_kind(src, pos, pos + 1, Seq::empty());
    lemma_inline_items_kind(src, pos, pos + 1, empty_table(TableKind::Inline), true);
    assert(lex(src, pos) matches Lexed::Token { token, end: e, .. } && token is String && e == end);
    assert(t.subrange(4, t.len() as int) =~= text);
    lemma_string_placed(src, pos, t, 4);
    assert(text[0] == src[pos]);
    assert(src[pos] == 0x22 || src[pos] == 0x27) by {
        reveal(lex);
    }
    lemma_one_line(text);
}

/// A string, a boolean, an integer or a floating-point number of the tree
/// reads again as the same value from a document of its own: the document
/// `k = ` followed by the text of its span is the tree with the one entry
/// `k` that holds the same payload, whatever stood around the text in the
/// source.
pub proof fn law_literals_read_again_in_a_line(src: Seq<u8>, v: ValueView)
    requires
        sourced(src, v),
        v.inner matches Some(inner) && (inner is String || inner is Boolean || inner is Integer
            || inner is Float),
    ensures
        ({
            let text = src.subrange(v.span.start as int, v.span.end as int);
            parsed(line(text)) == Ok::<ValueView, ErrorView>(one_entry(v.inner->0, text))
        }),
{
    if v.inner matches Some(InnerView::String(_)) {
        lemma_string_in_a_line(src, v);
    } else {
        lemma_number_in_a_line(src, v);
    }
}

} // verus!
