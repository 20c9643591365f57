//! What ties a parsed tree to the text it came from: the span of every key
//! and of every value covers the text that spells it, and reading that text
//! again gives the same key or value.

use crate::assemble::{
    array_value, empty_table, fresh, is_table_array, lemma_open_header_kind,
    lemma_put_in_section_kind, lemma_put_kind, nest, open_header, put, put_in_section, reopen,
    table_value,
};
use crate::grammar::{
    array_items, byte_is, forward, inline_items, key_part, key_value, left, scalar, skip_blank,
    skip_trivia, span_of, value, Parsed,
};
use crate::number::{literal, without_underscores, Literal};
use crate::span::Span;
use crate::table::lemma_position;
use crate::value::{lemma_whole, InnerView, KeyView, TableKind, TableView, ValueView};
use vstd::prelude::*;

verus! {

/// The key was read from the source at its span: reading a part of a key
/// where the span starts gives the key, and ends where the span ends.
pub open spec fn key_sourced(src: Seq<u8>, k: KeyView) -> bool {
    &&& k.span.start <= k.span.end <= src.len()
    &&& key_part(src, k.span.start as int) == (Parsed::Done { value: k, pos: k.span.end as int })
}

/// The span is that of a part of a key, which is what stands for a table or
/// an array of tables that headers or dotted keys made.
pub open spec fn at_key(src: Seq<u8>, span: Span) -> bool {
    &&& span.start <= span.end <= src.len()
    &&& key_part(src, span.start as int) matches Parsed::Done { value: k, pos }
    &&& k.span == span
    &&& pos == span.end
}

/// The value was read from the source at its span: reading a value where
/// the span starts gives this value, and ends where the span ends.
pub open spec fn reread(src: Seq<u8>, v: ValueView) -> bool {
    &&& v.span.start <= v.span.end <= src.len()
    &&& value(src, v.span.start as int) == (Parsed::Done { value: v, pos: v.span.end as int })
}

/// Every key of the entries and every value in them came from the source.
pub open spec fn entries_sourced(src: Seq<u8>, entries: Seq<(KeyView, ValueView)>) -> bool
    decreases entries,
{
    forall|i: int|
        0 <= i < entries.len() ==> key_sourced(src, (#[trigger] entries[i]).0) && sourced(
            src,
            entries[i].1,
        )
}

/// Every value of the array came from the source.
pub open spec fn elements_sourced(src: Seq<u8>, a: Seq<ValueView>) -> bool
    decreases a,
{
    forall|i: int| 0 <= i < a.len() ==> sourced(src, #[trigger] a[i])
}

/// The value and everything in it came from the source. A string, a number,
/// a boolean, an array that was written as a value and an inline table have
/// the span of their text, and reading that text again gives them. A table
/// that a header or a dotted key made, and an array of tables, have the span
/// of the part of the key that first named them.
pub open spec fn sourced(src: Seq<u8>, v: ValueView) -> bool
    decreases v,
{
    match v.inner {
        None => false,
        Some(InnerView::Table(t)) => {
            &&& if t.kind == TableKind::Inline {
                reread(src, v)
            } else {
                at_key(src, v.span)
            }
            &&& entries_sourced(src, t.entries)
        },
        Some(InnerView::Array(a)) => {
            &&& if is_table_array(a) {
                at_key(src, v.span)
            } else {
                reread(src, v)
            }
            &&& elements_sourced(src, a)
        },
        Some(_) => reread(src, v),
    }
}

/// The tree is the whole document: the root is a table with the span of the
/// whole source, and everything in it came from the source.
pub open spec fn covers(src: Seq<u8>, root: ValueView) -> bool {
    &&& root.span == span_of(0, src.len() as int)
    &&& root.inner matches Some(InnerView::Table(t))
    &&& entries_sourced(src, t.entries)
}

/// What it means for a value that holds a table or an array to have come
/// from the source, in one step.
pub proof fn lemma_sourced(src: Seq<u8>, v: ValueView)
    ensures
        v.inner matches Some(InnerView::Table(t)) ==> (sourced(src, v) <==> (if t.kind
            == TableKind::Inline {
            reread(src, v)
        } else {
            at_key(src, v.span)
        }) && entries_sourced(src, t.entries)),
        v.inner matches Some(InnerView::Array(a)) ==> (sourced(src, v) <==> (if is_table_array(a) {
            at_key(src, v.span)
        } else {
            reread(src, v)
        }) && elements_sourced(src, a)),
        v.inner matches Some(InnerView::String(_)) ==> (sourced(src, v) <==> reread(src, v)),
        v.inner matches Some(InnerView::Integer(_)) ==> (sourced(src, v) <==> reread(src, v)),
        v.inner matches Some(InnerView::Float(_)) ==> (sourced(src, v) <==> reread(src, v)),
        v.inner matches Some(InnerView::Boolean(_)) ==> (sourced(src, v) <==> reread(src, v)),
        v.inner is None ==> !sourced(src, v),
{
    reveal_with_fuel(sourced, 2);
}

/// Entries that came from the source, with one more that did.
pub proof fn lemma_entries_push(
    src: Seq<u8>,
    entries: Seq<(KeyView, ValueView)>,
    k: KeyView,
    v: ValueView,
)
    requires
        entries_sourced(src, entries),
        key_sourced(src, k),
        sourced(src, v),
    ensures
        entries_sourced(src, entries.push((k, v))),
{
    let n = entries.push((k, v));
    assert forall|i: int| 0 <= i < n.len() implies key_sourced(src, (#[trigger] n[i]).0) && sourced(
        src,
        n[i].1,
    ) by {
        if i < entries.len() {
            assert(n[i] == entries[i]);
        }
    }
}

/// Entries that came from the source, with another value that did in the
/// place of one.
pub proof fn lemma_entries_update(
    src: Seq<u8>,
    entries: Seq<(KeyView, ValueView)>,
    i: int,
    v: ValueView,
)
    requires
        entries_sourced(src, entries),
        0 <= i < entries.len(),
        sourced(src, v),
    ensures
        entries_sourced(src, entries.update(i, (entries[i].0, v))),
{
    let n = entries.update(i, (entries[i].0, v));
    assert forall|j: int| 0 <= j < n.len() implies key_sourced(src, (#[trigger] n[j]).0) && sourced(
        src,
        n[j].1,
    ) by {
        if j != i {
            assert(n[j] == entries[j]);
        } else {
            assert(key_sourced(src, entries[i].0));
        }
    }
}

/// A key that came from the source stands at the span of a part of a key.
pub proof fn lemma_key_at(src: Seq<u8>, k: KeyView)
    requires
        key_sourced(src, k),
    ensures
        at_key(src, k.span),
{
}

/// An empty table that a header or a dotted key made at the span of a key.
proof fn lemma_empty_sourced(src: Seq<u8>, kind: TableKind, span: Span)
    requires
        at_key(src, span),
        kind != TableKind::Inline,
    ensures
        sourced(src, table_value(empty_table(kind), span)),
{
    lemma_sourced(src, table_value(empty_table(kind), span));
}

/// A table with one entry that a header or a dotted key made at the span of
/// a key.
proof fn lemma_single_sourced(
    src: Seq<u8>,
    kind: TableKind,
    span: Span,
    k: KeyView,
    v: ValueView,
)
    requires
        at_key(src, span),
        kind != TableKind::Inline,
        key_sourced(src, k),
        sourced(src, v),
    ensures
        sourced(src, table_value(TableView { kind, entries: seq![(k, v)] }, span)),
{
    lemma_entries_push(src, Seq::empty(), k, v);
    assert(Seq::<(KeyView, ValueView)>::empty().push((k, v)) =~= seq![(k, v)]);
    lemma_sourced(src, table_value(TableView { kind, entries: seq![(k, v)] }, span));
}

/// All the keys came from the source.
pub open spec fn keys_sourced(src: Seq<u8>, keys: Seq<KeyView>) -> bool {
    forall|i: int| 0 <= i < keys.len() ==> key_sourced(src, #[trigger] keys[i])
}

/// What a header makes under a new key came from the source, if the keys of
/// the header did.
pub proof fn lemma_fresh_sourced(src: Seq<u8>, keys: Seq<KeyView>, i: int, array: bool)
    requires
        keys_sourced(src, keys),
        0 <= i < keys.len(),
    ensures
        sourced(src, fresh(keys, i, array)),
    decreases keys.len() - i,
{
    let k = keys[i];
    lemma_key_at(src, k);
    if i >= keys.len() - 1 {
        let t = table_value(empty_table(TableKind::Defined), k.span);
        lemma_empty_sourced(src, TableKind::Defined, k.span);
        if array {
            let a = seq![t];
            assert(a.last() == t);
            assert(elements_sourced(src, a)) by {
                assert forall|j: int| 0 <= j < a.len() implies sourced(src, #[trigger] a[j]) by {
                    assert(a[j] == t);
                }
            }
            lemma_sourced(src, array_value(a, k.span));
        }
    } else {
        lemma_fresh_sourced(src, keys, i + 1, array);
        lemma_single_sourced(
            src,
            TableKind::Implicit,
            k.span,
            keys[i + 1],
            fresh(keys, i + 1, array),
        );
    }
}

/// A header that is applied to entries that came from the source leaves
/// entries that came from the source, if its keys did.
pub proof fn lemma_open_header_sourced(
    src: Seq<u8>,
    t: TableView,
    keys: Seq<KeyView>,
    i: int,
    array: bool,
)
    requires
        keys_sourced(src, keys),
        entries_sourced(src, t.entries),
    ensures
        open_header(t, keys, i, array) matches Ok(t2) ==> entries_sourced(src, t2.entries),
    decreases keys.len() - i,
{
    if 0 <= i < keys.len() {
        let k = keys[i];
        let p = t.position(k.name);
        lemma_position(t, k.name);
        lemma_key_at(src, k);
        if !t.contains(k.name) {
            lemma_fresh_sourced(src, keys, i, array);
            lemma_entries_push(src, t.entries, k, fresh(keys, i, array));
        } else {
            let old = t.entries[p].1;
            assert(sourced(src, old));
            lemma_sourced(src, old);
            if i == keys.len() - 1 {
                match reopen(old, k, array) {
                    Ok(v) => {
                        match old.inner {
                            Some(InnerView::Table(c)) => {
                                lemma_sourced(src, v);
                            },
                            Some(InnerView::Array(a)) => {
                                let fresh_table = table_value(
                                    empty_table(TableKind::Defined),
                                    k.span,
                                );
                                lemma_empty_sourced(src, TableKind::Defined, k.span);
                                let b = a.push(fresh_table);
                                assert(b.last() == fresh_table);
                                assert(elements_sourced(src, b)) by {
                                    assert forall|j: int| 0 <= j < b.len() implies sourced(
                                        src,
                                        #[trigger] b[j],
                                    ) by {
                                        if j < a.len() {
                                            assert(b[j] == a[j]);
                                        }
                                    }
                                }
                                lemma_sourced(src, v);
                            },
                            _ => {},
                        }
                        lemma_entries_update(src, t.entries, p, v);
                    },
                    Err(_) => {},
                }
            } else {
                match old.inner {
                    Some(InnerView::Table(c)) => {
                        if !(c.kind == TableKind::Inline || c.kind == TableKind::Dotted) {
                            lemma_open_header_sourced(src, c, keys, i + 1, array);
                            match open_header(c, keys, i + 1, array) {
                                Ok(c2) => {
                                    lemma_open_header_kind(c, keys, i + 1, array);
                                    lemma_sourced(src, table_value(c2, old.span));
                                    lemma_entries_update(
                                        src,
                                        t.entries,
                                        p,
                                        table_value(c2, old.span),
                                    );
                                },
                                Err(_) => {},
                            }
                        }
                    },
                    Some(InnerView::Array(a)) => {
                        if is_table_array(a) {
                            let last = a.last();
                            assert(sourced(src, last));
                            lemma_sourced(src, last);
                            let c = last.inner->0->Table_0;
                            lemma_open_header_sourced(src, c, keys, i + 1, array);
                            match open_header(c, keys, i + 1, array) {
                                Ok(c2) => {
                                    lemma_open_header_kind(c, keys, i + 1, array);
                                    let put_back = table_value(c2, last.span);
                                    lemma_sourced(src, put_back);
                                    let b = a.update(a.len() - 1, put_back);
                                    assert(b.last() == put_back);
                                    assert(elements_sourced(src, b)) by {
                                        assert forall|j: int| 0 <= j < b.len() implies sourced(
                                            src,
                                            #[trigger] b[j],
                                        ) by {
                                            if j < a.len() - 1 {
                                                assert(b[j] == a[j]);
                                            }
                                        }
                                    }
                                    lemma_sourced(src, array_value(b, old.span));
                                    lemma_entries_update(
                                        src,
                                        t.entries,
                                        p,
                                        array_value(b, old.span),
                                    );
                                },
                                Err(_) => {},
                            }
                        }
                    },
                    _ => {},
                }
            }
        }
    }
}

/// What a dotted key makes under a new key came from the source, if the
/// keys and the value did.
pub proof fn lemma_nest_sourced(src: Seq<u8>, keys: Seq<KeyView>, i: int, v: ValueView)
    requires
        keys_sourced(src, keys),
        sourced(src, v),
        0 <= i < keys.len(),
    ensures
        sourced(src, nest(keys, i, v)),
    decreases keys.len() - i,
{
    if !(i >= keys.len() - 1) {
        lemma_nest_sourced(src, keys, i + 1, v);
        lemma_key_at(src, keys[i]);
        lemma_single_sourced(src, TableKind::Dotted, keys[i].span, keys[i + 1], nest(keys, i + 1, v));
    }
}

/// To put a value from the source under a key from the source, into entries
/// that came from the source, leaves entries that came from the source.
pub proof fn lemma_put_sourced(src: Seq<u8>, t: TableView, keys: Seq<KeyView>, i: int, v: ValueView)
    requires
        keys_sourced(src, keys),
        entries_sourced(src, t.entries),
        sourced(src, v),
    ensures
        put(t, keys, i, v) matches Ok(t2) ==> entries_sourced(src, t2.entries),
    decreases keys.len() - i,
{
    if 0 <= i < keys.len() {
        let k = keys[i];
        let p = t.position(k.name);
        lemma_position(t, k.name);
        if !t.contains(k.name) {
            lemma_nest_sourced(src, keys, i, v);
            lemma_entries_push(src, t.entries, k, nest(keys, i, v));
        } else if i != keys.len() - 1 {
            let old = t.entries[p].1;
            assert(sourced(src, old));
            lemma_sourced(src, old);
            match old.inner {
                Some(InnerView::Table(c)) => {
                    if c.kind == TableKind::Dotted || c.kind == TableKind::Implicit {
                        lemma_put_sourced(src, c, keys, i + 1, v);
                        match put(c, keys, i + 1, v) {
                            Ok(c2) => {
                                lemma_put_kind(c, keys, i + 1, v);
                                lemma_sourced(src, table_value(c2, old.span));
                                lemma_entries_update(src, t.entries, p, table_value(c2, old.span));
                            },
                            Err(_) => {},
                        }
                    }
                },
                _ => {},
            }
        }
    }
}

/// To put a value from the source into a section of a tree that came from
/// the source leaves a tree that came from the source.
pub proof fn lemma_put_in_section_sourced(
    src: Seq<u8>,
    t: TableView,
    path: Seq<KeyView>,
    j: int,
    keys: Seq<KeyView>,
    v: ValueView,
)
    requires
        keys_sourced(src, keys),
        entries_sourced(src, t.entries),
        sourced(src, v),
    ensures
        put_in_section(t, path, j, keys, v) matches Ok(t2) ==> entries_sourced(src, t2.entries),
    decreases path.len() - j,
{
    if j < 0 || j >= path.len() {
        lemma_put_sourced(src, t, keys, 0, v);
    } else {
        let k = path[j];
        let p = t.position(k.name);
        lemma_position(t, k.name);
        if t.contains(k.name) {
            let old = t.entries[p].1;
            assert(sourced(src, old));
            lemma_sourced(src, old);
            match old.inner {
                Some(InnerView::Table(c)) => {
                    if !(c.kind == TableKind::Inline || c.kind == TableKind::Dotted) {
                        lemma_put_in_section_sourced(src, c, path, j + 1, keys, v);
                        match put_in_section(c, path, j + 1, keys, v) {
                            Ok(c2) => {
                                lemma_put_in_section_kind(c, path, j + 1, keys, v);
                                lemma_sourced(src, table_value(c2, old.span));
                                lemma_entries_update(src, t.entries, p, table_value(c2, old.span));
                            },
                            Err(_) => {},
                        }
                    }
                },
                Some(InnerView::Array(a)) => {
                    if is_table_array(a) {
                        let last = a.last();
                        assert(sourced(src, last));
                        lemma_sourced(src, last);
                        let c = last.inner->0->Table_0;
                        lemma_put_in_section_sourced(src, c, path, j + 1, keys, v);
                        match put_in_section(c, path, j + 1, keys, v) {
                            Ok(c2) => {
                                lemma_put_in_section_kind(c, path, j + 1, keys, v);
                                let put_back = table_value(c2, last.span);
                                lemma_sourced(src, put_back);
                                let b = a.update(a.len() - 1, put_back);
                                assert(b.last() == put_back);
                                assert(elements_sourced(src, b)) by {
                                    assert forall|x: int| 0 <= x < b.len() implies sourced(
                                        src,
                                        #[trigger] b[x],
                                    ) by {
                                        if x < a.len() - 1 {
                                            assert(b[x] == a[x]);
                                        }
                                    }
                                }
                                lemma_sourced(src, array_value(b, old.span));
                                lemma_entries_update(src, t.entries, p, array_value(b, old.span));
                            },
                            Err(_) => {},
                        }
                    }
                },
                _ => {},
            }
        }
    }
}

/// What is read as the rest of an array is an array.
pub proof fn lemma_array_items_kind(src: Seq<u8>, start: int, pos: int, acc: Seq<ValueView>)
    ensures
        array_items(src, start, pos, acc) matches Parsed::Done { value: v, .. } ==> v.inner
            matches Some(InnerView::Array(_)),
    decreases left(src, pos),
{
    let p1 = skip_trivia(src, pos);
    if !byte_is(src, p1, 0x5d) && pos < src.len() {
        match value(src, p1) {
            Parsed::Done { value: v, pos: p2 } => {
                let p3 = skip_trivia(src, p2);
                if byte_is(src, p3, 0x2c) {
                    lemma_array_items_kind(src, start, forward(src, pos, p3 + 1), acc.push(v));
                }
            },
            Parsed::Failed(_) => {},
        }
    }
}

/// What is read as the rest of an inline table is a table.
pub proof fn lemma_inline_items_kind(src: Seq<u8>, start: int, pos: int, t: TableView, first: bool)
    ensures
        inline_items(src, start, pos, t, first) matches Parsed::Done { value: v, .. } ==> v.inner
            matches Some(InnerView::Table(_)),
    decreases left(src, pos),
{
    let p1 = skip_blank(src, pos);
    if !(first && byte_is(src, p1, 0x7d)) && pos < src.len() {
        match key_value(src, p1) {
            Parsed::Done { value: entry, pos: p2 } => match put(t, entry.0, 0, entry.1) {
                Ok(t2) => {
                    let p3 = skip_blank(src, p2);
                    if byte_is(src, p3, 0x2c) {
                        lemma_inline_items_kind(src, start, forward(src, pos, p3 + 1), t2, false);
                    }
                },
                Err(_) => {},
            },
            Parsed::Failed(_) => {},
        }
    }
}

/// Every key and every value of a tree that came from the source has its
/// span inside the source.
pub proof fn law_spans_lie_in_the_source(src: Seq<u8>, v: ValueView, k: KeyView)
    ensures
        sourced(src, v) ==> v.span.start <= v.span.end <= src.len(),
        key_sourced(src, k) ==> k.span.start <= k.span.end <= src.len(),
        covers(src, v) ==> v.span.start == 0 && v.span.end == src.len() as usize,
{
    lemma_sourced(src, v);
}

/// Reading the text of a string, a number or a boolean of the tree again,
/// where its span starts, gives the same value, and ends where the span
/// ends. The same holds of an array that was written as a value and of an
/// inline table.
pub proof fn law_literals_read_again(src: Seq<u8>, v: ValueView)
    requires
        sourced(src, v),
        v.inner matches Some(inner) && match inner {
            InnerView::Table(t) => t.kind == TableKind::Inline,
            InnerView::Array(a) => !is_table_array(a),
            _ => true,
        },
    ensures
        value(src, v.span.start as int) == (Parsed::Done { value: v, pos: v.span.end as int }),
{
    lemma_sourced(src, v);
}

/// A number or a boolean of the tree is what the text of its span spells,
/// whatever stands around it: the text alone decides the value. For a
/// floating-point number the payload is that text without its underscores.
pub proof fn law_numbers_are_their_text(src: Seq<u8>, v: ValueView)
    requires
        sourced(src, v),
    ensures
        ({
            let text = src.subrange(v.span.start as int, v.span.end as int);
            match v.inner {
                Some(InnerView::Integer(i)) => literal(text) == Literal::Integer(i),
                Some(InnerView::Boolean(b)) => literal(text) == Literal::Boolean(b),
                Some(InnerView::Float(f)) => literal(text) == Literal::Float && f.bytes
                    == without_underscores(text),
                _ => true,
            }
        }),
{
    lemma_sourced(src, v);
    let pos = v.span.start as int;
    if v.inner matches Some(InnerView::Integer(_)) || v.inner matches Some(InnerView::Boolean(_))
        || v.inner matches Some(InnerView::Float(_)) {
        lemma_array_items_kind(src, pos, pos + 1, Seq::empty());
        lemma_inline_items_kind(src, pos, pos + 1, empty_table(TableKind::Inline), true);
        assert(scalar(src, pos) == (Parsed::Done { value: v, pos: v.span.end as int }));
    }
}

/// Every entry of a table of the tree, and every element of an array, came
/// from the source if the table or the array did: what holds of the values
/// of the tree holds at every depth.
pub proof fn law_coverage_goes_down(src: Seq<u8>, v: ValueView, i: int)
    requires
        sourced(src, v) || covers(src, v),
    ensures
        match v.inner {
            Some(InnerView::Table(t)) => 0 <= i < t.entries.len() ==> key_sourced(
                src,
                t.entries[i].0,
            ) && sourced(src, t.entries[i].1),
            Some(InnerView::Array(a)) => 0 <= i < a.len() ==> sourced(src, a[i]),
            _ => true,
        },
{
    lemma_sourced(src, v);
}

/// A tree that came from the source is whole: every value in it has its
/// payload, so that it can be read into records.
pub proof fn law_trees_are_whole(src: Seq<u8>, v: ValueView)
    ensures
        sourced(src, v) ==> v.whole(),
        covers(src, v) ==> v.whole(),
    decreases v,
{
    lemma_sourced(src, v);
    lemma_whole(v);
    match v.inner {
        Some(InnerView::Table(t)) => {
            if entries_sourced(src, t.entries) {
                assert forall|i: int| 0 <= i < t.entries.len() implies (#[trigger] t.entries[i]).1.whole() by {
                    law_trees_are_whole(src, t.entries[i].1);
                }
            }
        },
        Some(InnerView::Array(a)) => {
            if elements_sourced(src, a) {
                assert forall|i: int| 0 <= i < a.len() implies (#[trigger] a[i]).whole() by {
                    law_trees_are_whole(src, a[i]);
                }
            }
        },
        _ => {},
    }
}

} // verus!
