//! How the statements of a document build the tree: a table header opens a
//! section, an array-of-tables header appends a table to an array, and a key
//! with its value is put into the current section. The rules on what may be
//! extended, and by whom, live here.

use crate::error::{error_at, Error, ErrorKind, ErrorKindView, ErrorView};
use crate::span::Span;
use crate::table::{
    lemma_position, lemma_table_view, lemma_wf_with_entry, lemma_wf_with_value, lemma_with_value,
    lemma_with_value_position,
};
use crate::text::cow_str;
use crate::value::{
    array_view, lemma_array_view, lemma_value_view, lemma_value_wf, InnerView, Key, KeyView, Table,
    TableKind, TableView, Value, ValueInner, ValueView,
};
use vstd::prelude::*;
use vstd::string::*;
use vstd::utf8::*;

verus! {

/// The views of a list of keys, in order.
pub open spec fn key_views(keys: Seq<Key<'_>>) -> Seq<KeyView> {
    keys.map_values(|k: Key<'_>| k@)
}

/// The name of a key as text.
pub open spec fn name_text(k: KeyView) -> Seq<char> {
    decode_utf8(k.name)
}

/// The empty table of the kind `kind`.
pub open spec fn empty_table(kind: TableKind) -> TableView {
    TableView { kind, entries: Seq::empty() }
}

/// The value that holds the table `t` and came from `span`.
pub open spec fn table_value(t: TableView, span: Span) -> ValueView {
    ValueView { inner: Some(InnerView::Table(t)), span }
}

/// The value that holds the array `a` and came from `span`.
pub open spec fn array_value(a: Seq<ValueView>, span: Span) -> ValueView {
    ValueView { inner: Some(InnerView::Array(a)), span }
}

/// Whether the array was made by array-of-tables headers, so that another
/// such header may append to it: its last element is a table that a header
/// defined. An array that was written as a value never is.
pub open spec fn is_table_array(a: Seq<ValueView>) -> bool {
    a.len() > 0 && (a.last().inner matches Some(InnerView::Table(t)) && t.kind
        == TableKind::Defined)
}

/// The error for a header that names a table that cannot be opened again;
/// `first` is where the table was defined.
pub open spec fn duplicate_table(k: KeyView, first: Span) -> ErrorView {
    error_at(ErrorKindView::DuplicateTable { name: name_text(k), first }, k.span)
}

/// The error for a key that the table has already; `first` is the span of
/// the key that is there.
pub open spec fn duplicate_key(k: KeyView, first: Span) -> ErrorView {
    error_at(ErrorKindView::DuplicateKey { key: name_text(k), first }, k.span)
}

/// What a header puts under a key that is not there yet: for the last key the
/// new table, or a new array with that table in it; for a key before the
/// last an implicit table that holds what the rest of the header makes.
/// Each gets the span of its key.
pub open spec fn fresh(keys: Seq<KeyView>, i: int, array: bool) -> ValueView
    decreases keys.len() - i,
{
    if i < 0 || i >= keys.len() - 1 {
        let span = if 0 <= i < keys.len() {
            keys[i].span
        } else {
            Span { start: 0, end: 0 }
        };
        if array {
            array_value(seq![table_value(empty_table(TableKind::Defined), span)], span)
        } else {
            table_value(empty_table(TableKind::Defined), span)
        }
    } else {
        table_value(
            TableView {
                kind: TableKind::Implicit,
                entries: seq![(keys[i + 1], fresh(keys, i + 1, array))],
            },
            keys[i].span,
        )
    }
}

/// What a header does to the value `old` that its last key `k` names
/// already. A table header defines an implicit table, once; an
/// array-of-tables header appends a new table to an array that such headers
/// made. Everything else is an error.
pub open spec fn reopen(old: ValueView, k: KeyView, array: bool) -> Result<ValueView, ErrorView> {
    match old.inner {
        Some(InnerView::Table(c)) => if array {
            Err(error_at(ErrorKindView::RedefineAsArray, k.span))
        } else if c.kind == TableKind::Implicit {
            Ok(table_value(TableView { kind: TableKind::Defined, entries: c.entries }, old.span))
        } else {
            Err(duplicate_table(k, old.span))
        },
        Some(InnerView::Array(a)) => if array && is_table_array(a) {
            Ok(
                array_value(
                    a.push(table_value(empty_table(TableKind::Defined), k.span)),
                    old.span,
                ),
            )
        } else {
            Err(error_at(ErrorKindView::RedefineAsArray, k.span))
        },
        _ => if array {
            Err(error_at(ErrorKindView::RedefineAsArray, k.span))
        } else {
            Err(error_at(ErrorKindView::DottedKeyInvalidType, k.span))
        },
    }
}

/// The table `t` after the header with the keys `keys`, read from the key
/// `i` on, has been applied to it. On its way to the last key the header
/// goes through tables that headers made and into the last table of an array
/// of tables; it cannot go through an inline table, a table that a dotted
/// key made, or anything that is no table.
pub open spec fn open_header(t: TableView, keys: Seq<KeyView>, i: int, array: bool) -> Result<
    TableView,
    ErrorView,
>
    decreases keys.len() - i,
{
    if i < 0 || i >= keys.len() {
        Ok(t)
    } else {
        let k = keys[i];
        let p = t.position(k.name);
        if !t.contains(k.name) {
            Ok(t.with_entry(k, fresh(keys, i, array)))
        } else {
            let old = t.entries[p].1;
            if i == keys.len() - 1 {
                match reopen(old, k, array) {
                    Ok(v) => Ok(t.with_value(p, v)),
                    Err(e) => Err(e),
                }
            } else {
                match old.inner {
                    Some(InnerView::Table(c)) => if c.kind == TableKind::Inline || c.kind
                        == TableKind::Dotted {
                        Err(duplicate_table(k, old.span))
                    } else {
                        match open_header(c, keys, i + 1, array) {
                            Ok(c2) => Ok(t.with_value(p, table_value(c2, old.span))),
                            Err(e) => Err(e),
                        }
                    },
                    Some(InnerView::Array(a)) => if is_table_array(a) {
                        match open_header(a.last().inner->0->Table_0, keys, i + 1, array) {
                            Ok(c2) => Ok(
                                t.with_value(
                                    p,
                                    array_value(
                                        a.update(a.len() - 1, table_value(c2, a.last().span)),
                                        old.span,
                                    ),
                                ),
                            ),
                            Err(e) => Err(e),
                        }
                    } else {
                        Err(error_at(ErrorKindView::DottedKeyInvalidType, k.span))
                    },
                    _ => Err(error_at(ErrorKindView::DottedKeyInvalidType, k.span)),
                }
            }
        }
    }
}

/// What a dotted key puts under a key that is not there yet: for the last
/// key the value; for a key before the last a table, marked as made by a
/// dotted key, that holds what the rest of the key makes.
pub open spec fn nest(keys: Seq<KeyView>, i: int, value: ValueView) -> ValueView
    decreases keys.len() - i,
{
    if i < 0 || i >= keys.len() - 1 {
        value
    } else {
        table_value(
            TableView {
                kind: TableKind::Dotted,
                entries: seq![(keys[i + 1], nest(keys, i + 1, value))],
            },
            keys[i].span,
        )
    }
}

/// The table `t` after `value` has been put under the dotted key `keys`,
/// read from the key `i` on. The last key must be new. A key before the last
/// may name a table that a dotted key made, or an implicit one; anything
/// else cannot be extended.
pub open spec fn put(t: TableView, keys: Seq<KeyView>, i: int, value: ValueView) -> Result<
    TableView,
    ErrorView,
>
    decreases keys.len() - i,
{
    if i < 0 || i >= keys.len() {
        Ok(t)
    } else {
        let k = keys[i];
        let p = t.position(k.name);
        if !t.contains(k.name) {
            Ok(t.with_entry(k, nest(keys, i, value)))
        } else if i == keys.len() - 1 {
            Err(duplicate_key(k, t.entries[p].0.span))
        } else {
            let old = t.entries[p].1;
            match old.inner {
                Some(InnerView::Table(c)) => if c.kind == TableKind::Dotted || c.kind
                    == TableKind::Implicit {
                    match put(c, keys, i + 1, value) {
                        Ok(c2) => Ok(t.with_value(p, table_value(c2, old.span))),
                        Err(e) => Err(e),
                    }
                } else {
                    Err(error_at(ErrorKindView::DottedKeyInvalidType, k.span))
                },
                _ => Err(error_at(ErrorKindView::DottedKeyInvalidType, k.span)),
            }
        }
    }
}

/// The table `t` after `value` has been put under the dotted key `keys` in
/// the section that the header `path` opened, found from the key `j` of the
/// header on, the way the header went: through tables that headers made, and
/// into the last table of an array of tables.
pub open spec fn put_in_section(
    t: TableView,
    path: Seq<KeyView>,
    j: int,
    keys: Seq<KeyView>,
    value: ValueView,
) -> Result<TableView, ErrorView>
    decreases path.len() - j,
{
    if j < 0 || j >= path.len() {
        put(t, keys, 0, value)
    } else {
        let k = path[j];
        let p = t.position(k.name);
        if !t.contains(k.name) {
            Err(error_at(ErrorKindView::DottedKeyInvalidType, k.span))
        } else {
            let old = t.entries[p].1;
            match old.inner {
                Some(InnerView::Table(c)) => if c.kind == TableKind::Inline || c.kind
                    == TableKind::Dotted {
                    Err(error_at(ErrorKindView::DottedKeyInvalidType, k.span))
                } else {
                    match put_in_section(c, path, j + 1, keys, value) {
                        Ok(c2) => Ok(t.with_value(p, table_value(c2, old.span))),
                        Err(e) => Err(e),
                    }
                },
                Some(InnerView::Array(a)) => if is_table_array(a) {
                    match put_in_section(a.last().inner->0->Table_0, path, j + 1, keys, value) {
                        Ok(c2) => Ok(
                            t.with_value(
                                p,
                                array_value(
                                    a.update(a.len() - 1, table_value(c2, a.last().span)),
                                    old.span,
                                ),
                            ),
                        ),
                        Err(e) => Err(e),
                    }
                } else {
                    Err(error_at(ErrorKindView::DottedKeyInvalidType, k.span))
                },
                _ => Err(error_at(ErrorKindView::DottedKeyInvalidType, k.span)),
            }
        }
    }
}

/// A table with one entry whose value is well formed is well formed.
proof fn lemma_single_wf(kind: TableKind, k: KeyView, v: ValueView)
    requires
        v.wf(),
    ensures
        (TableView { kind, entries: seq![(k, v)] }).wf(),
{
    let t = TableView { kind, entries: seq![(k, v)] };
    assert forall|i: int| 0 <= i < t.entries.len() implies (#[trigger] t.entries[i]).1.wf() by {
        assert(t.entries[i] == (k, v));
    }
}

/// An empty table is well formed, and so is the value that holds it.
proof fn lemma_empty_wf(kind: TableKind, span: Span)
    ensures
        empty_table(kind).wf(),
        table_value(empty_table(kind), span).wf(),
{
    lemma_value_wf(table_value(empty_table(kind), span));
}

/// An array of well-formed values with a well-formed value in the place of
/// one of them, or after them, is an array of well-formed values.
proof fn lemma_array_wf(a: Seq<ValueView>, v: ValueView, span: Span)
    requires
        forall|i: int| 0 <= i < a.len() ==> (#[trigger] a[i]).wf(),
        v.wf(),
    ensures
        array_value(a.push(v), span).wf(),
        forall|j: int| 0 <= j < a.len() ==> (#[trigger] array_value(a.update(j, v), span)).wf(),
{
    let b = a.push(v);
    assert forall|i: int| 0 <= i < b.len() implies (#[trigger] b[i]).wf() by {
        if i < a.len() {
            assert(a[i].wf());
        }
    }
    assert forall|j: int| 0 <= j < a.len() implies (#[trigger] array_value(a.update(j, v), span)).wf() by {
        let c = a.update(j, v);
        assert forall|i: int| 0 <= i < c.len() implies (#[trigger] c[i]).wf() by {
            if i != j {
                assert(a[i].wf());
            }
        }
    }
}

/// What a header makes under a new key is well formed.
pub proof fn lemma_fresh_wf(keys: Seq<KeyView>, i: int, array: bool)
    ensures
        fresh(keys, i, array).wf(),
    decreases keys.len() - i,
{
    if i < 0 || i >= keys.len() - 1 {
        let span = if 0 <= i < keys.len() {
            keys[i].span
        } else {
            Span { start: 0, end: 0 }
        };
        lemma_empty_wf(TableKind::Defined, span);
        lemma_array_wf(Seq::empty(), table_value(empty_table(TableKind::Defined), span), span);
        assert(Seq::<ValueView>::empty().push(table_value(empty_table(TableKind::Defined), span))
            =~= seq![table_value(empty_table(TableKind::Defined), span)]);
    } else {
        lemma_fresh_wf(keys, i + 1, array);
        lemma_single_wf(TableKind::Implicit, keys[i + 1], fresh(keys, i + 1, array));
    }
}

/// A header keeps every table that it touches well formed.
pub proof fn lemma_open_header_wf(t: TableView, keys: Seq<KeyView>, i: int, array: bool)
    requires
        t.wf(),
    ensures
        open_header(t, keys, i, array) matches Ok(t2) ==> t2.wf(),
    decreases keys.len() - i,
{
    if 0 <= i < keys.len() {
        let k = keys[i];
        let p = t.position(k.name);
        lemma_position(t, k.name);
        if !t.contains(k.name) {
            lemma_fresh_wf(keys, i, array);
            lemma_wf_with_entry(t, k, fresh(keys, i, array));
        } else {
            let old = t.entries[p].1;
            assert(old.wf());
            lemma_value_wf(old);
            if i == keys.len() - 1 {
                match reopen(old, k, array) {
                    Ok(v) => {
                        match old.inner {
                            Some(InnerView::Table(c)) => {
                                let d = TableView { kind: TableKind::Defined, entries: c.entries };
                                lemma_value_wf(table_value(d, old.span));
                            },
                            Some(InnerView::Array(a)) => {
                                lemma_empty_wf(TableKind::Defined, k.span);
                                lemma_array_wf(
                                    a,
                                    table_value(empty_table(TableKind::Defined), k.span),
                                    old.span,
                                );
                            },
                            _ => {},
                        }
                        lemma_wf_with_value(t, p, v);
                    },
                    Err(_) => {},
                }
            } else {
                match old.inner {
                    Some(InnerView::Table(c)) => {
                        if !(c.kind == TableKind::Inline || c.kind == TableKind::Dotted) {
                            lemma_open_header_wf(c, keys, i + 1, array);
                            match open_header(c, keys, i + 1, array) {
                                Ok(c2) => {
                                    lemma_wf_with_value(t, p, table_value(c2, old.span));
                                },
                                Err(_) => {},
                            }
                        }
                    },
                    Some(InnerView::Array(a)) => {
                        if is_table_array(a) {
                            let last = a.last();
                            assert(last.wf());
                            let c = last.inner->0->Table_0;
                            lemma_open_header_wf(c, keys, i + 1, array);
                            match open_header(c, keys, i + 1, array) {
                                Ok(c2) => {
                                    lemma_array_wf(a, table_value(c2, last.span), old.span);
                                    lemma_wf_with_value(
                                        t,
                                        p,
                                        array_value(
                                            a.update(a.len() - 1, table_value(c2, last.span)),
                                            old.span,
                                        ),
                                    );
                                },
                                Err(_) => {},
                            }
                        }
                    },
                    _ => {},
                }
            }
        }
    }
}

/// What a dotted key makes under a new key is well formed if the value is.
pub proof fn lemma_nest_wf(keys: Seq<KeyView>, i: int, value: ValueView)
    requires
        value.wf(),
    ensures
        nest(keys, i, value).wf(),
    decreases keys.len() - i,
{
    if !(i < 0 || i >= keys.len() - 1) {
        lemma_nest_wf(keys, i + 1, value);
        lemma_single_wf(TableKind::Dotted, keys[i + 1], nest(keys, i + 1, value));
    }
}

/// To put a well-formed value under a dotted key keeps a table well formed.
pub proof fn lemma_put_wf(t: TableView, keys: Seq<KeyView>, i: int, value: ValueView)
    requires
        t.wf(),
        value.wf(),
    ensures
        put(t, keys, i, value) matches Ok(t2) ==> t2.wf(),
    decreases keys.len() - i,
{
    if 0 <= i < keys.len() {
        let k = keys[i];
        let p = t.position(k.name);
        lemma_position(t, k.name);
        if !t.contains(k.name) {
            lemma_nest_wf(keys, i, value);
            lemma_wf_with_entry(t, k, nest(keys, i, value));
        } else if i != keys.len() - 1 {
            let old = t.entries[p].1;
            assert(old.wf());
            match old.inner {
                Some(InnerView::Table(c)) => {
                    if c.kind == TableKind::Dotted || c.kind == TableKind::Implicit {
                        lemma_put_wf(c, keys, i + 1, value);
                        match put(c, keys, i + 1, value) {
                            Ok(c2) => {
                                lemma_wf_with_value(t, p, table_value(c2, old.span));
                            },
                            Err(_) => {},
                        }
                    }
                },
                _ => {},
            }
        }
    }
}

/// To put a well-formed value into a section keeps the whole tree well
/// formed.
pub proof fn lemma_put_in_section_wf(
    t: TableView,
    path: Seq<KeyView>,
    j: int,
    keys: Seq<KeyView>,
    value: ValueView,
)
    requires
        t.wf(),
        value.wf(),
    ensures
        put_in_section(t, path, j, keys, value) matches Ok(t2) ==> t2.wf(),
    decreases path.len() - j,
{
    if j < 0 || j >= path.len() {
        lemma_put_wf(t, keys, 0, value);
    } else {
        let k = path[j];
        let p = t.position(k.name);
        lemma_position(t, k.name);
        if t.contains(k.name) {
            let old = t.entries[p].1;
            assert(old.wf());
            match old.inner {
                Some(InnerView::Table(c)) => {
                    lemma_put_in_section_wf(c, path, j + 1, keys, value);
                    match put_in_section(c, path, j + 1, keys, value) {
                        Ok(c2) => {
                            lemma_wf_with_value(t, p, table_value(c2, old.span));
                        },
                        Err(_) => {},
                    }
                },
                Some(InnerView::Array(a)) => {
                    if is_table_array(a) {
                        let last = a.last();
                        assert(last.wf());
                        let c = last.inner->0->Table_0;
                        lemma_put_in_section_wf(c, path, j + 1, keys, value);
                        match put_in_section(c, path, j + 1, keys, value) {
                            Ok(c2) => {
                                lemma_array_wf(a, table_value(c2, last.span), old.span);
                                lemma_wf_with_value(
                                    t,
                                    p,
                                    array_value(
                                        a.update(a.len() - 1, table_value(c2, last.span)),
                                        old.span,
                                    ),
                                );
                            },
                            Err(_) => {},
                        }
                    }
                },
                _ => {},
            }
        }
    }
}

/// A header leaves the kind of the table that it is applied to as it was.
pub proof fn lemma_open_header_kind(t: TableView, keys: Seq<KeyView>, i: int, array: bool)
    ensures
        open_header(t, keys, i, array) matches Ok(t2) ==> t2.kind == t.kind,
{
}

/// To put a value leaves the kind of the table as it was.
pub proof fn lemma_put_kind(t: TableView, keys: Seq<KeyView>, i: int, v: ValueView)
    ensures
        put(t, keys, i, v) matches Ok(t2) ==> t2.kind == t.kind,
{
}

/// To put a value into a section leaves the kind of the root as it was.
pub proof fn lemma_put_in_section_kind(
    t: TableView,
    path: Seq<KeyView>,
    j: int,
    keys: Seq<KeyView>,
    v: ValueView,
)
    ensures
        put_in_section(t, path, j, keys, v) matches Ok(t2) ==> t2.kind == t.kind,
{
    if j < 0 || j >= path.len() {
        lemma_put_kind(t, keys, 0, v);
    }
}

/// Whether the section that the header `path` names, looked up from the key
/// `j` on, is there to be found in `t`: every key leads on through a table
/// that headers made, or into the last table of an array of tables.
pub open spec fn section_open(t: TableView, path: Seq<KeyView>, j: int) -> bool
    decreases path.len() - j,
{
    if j < 0 || j >= path.len() {
        true
    } else {
        t.contains(path[j].name) && match t.entries[t.position(path[j].name)].1.inner {
            Some(InnerView::Table(c)) => c.kind != TableKind::Inline && c.kind != TableKind::Dotted
                && section_open(c, path, j + 1),
            Some(InnerView::Array(a)) => is_table_array(a) && section_open(
                a.last().inner->0->Table_0,
                path,
                j + 1,
            ),
            _ => false,
        }
    }
}

/// The table of the section that the header `path` names, looked up in `t`
/// from the key `j` on.
pub open spec fn section(t: TableView, path: Seq<KeyView>, j: int) -> TableView
    decreases path.len() - j,
{
    if j < 0 || j >= path.len() || !t.contains(path[j].name) {
        t
    } else {
        match t.entries[t.position(path[j].name)].1.inner {
            Some(InnerView::Table(c)) => section(c, path, j + 1),
            Some(InnerView::Array(a)) => if a.len() > 0 && a.last().inner matches Some(
                InnerView::Table(_),
            ) {
                section(a.last().inner->0->Table_0, path, j + 1)
            } else {
                t
            },
            _ => t,
        }
    }
}

/// What a header makes under a new key holds the section that the header
/// names.
proof fn lemma_fresh_open(keys: Seq<KeyView>, i: int, array: bool)
    requires
        0 <= i < keys.len(),
    ensures
        match fresh(keys, i, array).inner {
            Some(InnerView::Table(c)) => c.kind != TableKind::Inline && c.kind != TableKind::Dotted
                && section_open(c, keys, i + 1),
            Some(InnerView::Array(a)) => is_table_array(a) && section_open(
                a.last().inner->0->Table_0,
                keys,
                i + 1,
            ),
            _ => false,
        },
    decreases keys.len() - i,
{
    if i >= keys.len() - 1 {
        if array {
            let span = keys[i].span;
            let a = seq![table_value(empty_table(TableKind::Defined), span)];
            assert(a.last() == table_value(empty_table(TableKind::Defined), span));
        }
    } else {
        lemma_fresh_open(keys, i + 1, array);
        let c = TableView {
            kind: TableKind::Implicit,
            entries: seq![(keys[i + 1], fresh(keys, i + 1, array))],
        };
        lemma_position(c, keys[i + 1].name);
        assert(c.entries[0] == (keys[i + 1], fresh(keys, i + 1, array)));
        assert(c.position(keys[i + 1].name) == 0);
    }
}

/// A table that got one more entry under a new key finds that entry under
/// the key.
proof fn lemma_position_of_new(t: TableView, k: KeyView, v: ValueView)
    requires
        !t.contains(k.name),
    ensures
        t.with_entry(k, v).position(k.name) == t.entries.len(),
        t.with_entry(k, v).contains(k.name),
        t.with_entry(k, v).entries[t.entries.len() as int].1 == v,
{
    let t2 = t.with_entry(k, v);
    lemma_position(t, k.name);
    lemma_position(t2, k.name);
    assert(t2.entries[t.entries.len() as int] == (k, v));
    let q = t2.position(k.name);
    if q < t.entries.len() {
        assert(t2.entries[q] == t.entries[q]);
    }
}

/// After a header has been applied, the section that it names is there to
/// be found.
pub proof fn law_header_opens_its_section(t: TableView, keys: Seq<KeyView>, i: int, array: bool)
    requires
        t.wf(),
    ensures
        open_header(t, keys, i, array) matches Ok(t2) ==> section_open(t2, keys, i),
    decreases keys.len() - i,
{
    if 0 <= i < keys.len() {
        let k = keys[i];
        let p = t.position(k.name);
        lemma_position(t, k.name);
        if !t.contains(k.name) {
            lemma_fresh_open(keys, i, array);
            lemma_position_of_new(t, k, fresh(keys, i, array));
        } else {
            let old = t.entries[p].1;
            assert(old.wf());
            lemma_value_wf(old);
            if i == keys.len() - 1 {
                match reopen(old, k, array) {
                    Ok(v) => {
                        lemma_with_value_position(t, p, v, k.name);
                        let t2 = t.with_value(p, v);
                        assert(t2.entries[p].1 == v);
                        match old.inner {
                            Some(InnerView::Table(c)) => {
                                assert(section_open(
                                    TableView { kind: TableKind::Defined, entries: c.entries },
                                    keys,
                                    i + 1,
                                ));
                            },
                            Some(InnerView::Array(a)) => {
                                let b = a.push(table_value(empty_table(TableKind::Defined), k.span));
                                assert(b.last() == table_value(
                                    empty_table(TableKind::Defined),
                                    k.span,
                                ));
                                assert(section_open(empty_table(TableKind::Defined), keys, i + 1));
                            },
                            _ => {},
                        }
                        assert(section_open(t2, keys, i));
                    },
                    Err(_) => {},
                }
            } else {
                match old.inner {
                    Some(InnerView::Table(c)) => {
                        if !(c.kind == TableKind::Inline || c.kind == TableKind::Dotted) {
                            law_header_opens_its_section(c, keys, i + 1, array);
                            match open_header(c, keys, i + 1, array) {
                                Ok(c2) => {
                                    let v = table_value(c2, old.span);
                                    lemma_with_value_position(t, p, v, k.name);
                                    let t2 = t.with_value(p, v);
                                    assert(t2.entries[p].1 == v);
                                    assert(c2.kind == c.kind);
                                    assert(section_open(t2, keys, i));
                                },
                                Err(_) => {},
                            }
                        }
                    },
                    Some(InnerView::Array(a)) => {
                        if is_table_array(a) {
                            let last = a.last();
                            assert(last.wf());
                            lemma_value_wf(last);
                            let c = last.inner->0->Table_0;
                            law_header_opens_its_section(c, keys, i + 1, array);
                            match open_header(c, keys, i + 1, array) {
                                Ok(c2) => {
                                    let b = a.update(a.len() - 1, table_value(c2, last.span));
                                    assert(b.last() == table_value(c2, last.span));
                                    assert(c2.kind == c.kind);
                                    let v = array_value(b, old.span);
                                    lemma_with_value_position(t, p, v, k.name);
                                    let t2 = t.with_value(p, v);
                                    assert(t2.entries[p].1 == v);
                                    assert(section_open(t2, keys, i));
                                },
                                Err(_) => {},
                            }
                        }
                    },
                    _ => {},
                }
            }
        }
    }
}

/// In a section that is there to be found, a key with its value is put into
/// the table of the section: the outcome is an error exactly when putting
/// into that table gives one, and it is that error. And the section is
/// still there to be found afterwards.
pub proof fn law_values_go_into_the_section(
    t: TableView,
    path: Seq<KeyView>,
    j: int,
    keys: Seq<KeyView>,
    value: ValueView,
)
    requires
        t.wf(),
        section_open(t, path, j),
    ensures
        match put(section(t, path, j), keys, 0, value) {
            Ok(s2) => put_in_section(t, path, j, keys, value) matches Ok(t2) && section(
                t2,
                path,
                j,
            ) == s2 && section_open(t2, path, j),
            Err(e) => put_in_section(t, path, j, keys, value) == Err::<TableView, ErrorView>(e),
        },
    decreases path.len() - j,
{
    if !(j < 0 || j >= path.len()) {
        let k = path[j];
        let p = t.position(k.name);
        lemma_position(t, k.name);
        let old = t.entries[p].1;
        assert(old.wf());
        lemma_value_wf(old);
        match old.inner {
            Some(InnerView::Table(c)) => {
                law_values_go_into_the_section(c, path, j + 1, keys, value);
                match put_in_section(c, path, j + 1, keys, value) {
                    Ok(c2) => {
                        let t2 = t.with_value(p, table_value(c2, old.span));
                        lemma_with_value_position(t, p, table_value(c2, old.span), k.name);
                        assert(t2.position(k.name) == p);
                        lemma_put_in_section_kind(c, path, j + 1, keys, value);
                    },
                    Err(_) => {},
                }
            },
            Some(InnerView::Array(a)) => {
                let last = a.last();
                assert(last.wf());
                lemma_value_wf(last);
                let c = last.inner->0->Table_0;
                law_values_go_into_the_section(c, path, j + 1, keys, value);
                match put_in_section(c, path, j + 1, keys, value) {
                    Ok(c2) => {
                        let b = a.update(a.len() - 1, table_value(c2, last.span));
                        assert(b.last() == table_value(c2, last.span));
                        let t2 = t.with_value(p, array_value(b, old.span));
                        lemma_with_value_position(t, p, array_value(b, old.span), k.name);
                        assert(t2.position(k.name) == p);
                        lemma_put_in_section_kind(c, path, j + 1, keys, value);
                    },
                    Err(_) => {},
                }
            },
            _ => {},
        }
    }
}

/// The name of a key as an owned string.
fn name_string(key: &Key<'_>) -> (r: String)
    ensures
        r@ == name_text(key@),
{
    proof {
        encode_utf8_decode_utf8(key.name@);
    }
    cow_str(&key.name).to_owned()
}

/// The error of the kind `kind` at the key `key`.
fn error_at_key(kind: ErrorKind, key: &Key<'_>) -> (e: Error)
    ensures
        e@ == error_at(kind@, key.span),
{
    Error::new(kind, key.span)
}

/// Takes the value at the index `p` out of the table and leaves a value
/// without payload in its place.
fn take_slot<'a>(table: &mut Table<'a>, p: usize) -> (v: Value<'a>)
    requires
        p < old(table).entries.len(),
    ensures
        v == old(table).entries@[p as int].1,
        final(table).kind == old(table).kind,
        final(table).entries@.len() == old(table).entries@.len(),
        final(table).entries@[p as int].0 == old(table).entries@[p as int].0,
        forall|i: int|
            0 <= i < old(table).entries@.len() && i != p ==> final(table).entries@[i] == old(
                table,
            ).entries@[i],
{
    let mut v = Value { value: None, span: Span { start: 0, end: 0 } };
    core::mem::swap(&mut table.entries[p].1, &mut v);
    v
}

/// Puts `v` in the place of the value at the index `p`.
fn put_slot<'a>(table: &mut Table<'a>, p: usize, v: Value<'a>)
    requires
        p < old(table).entries.len(),
    ensures
        final(table).kind == old(table).kind,
        final(table).entries@ == old(table).entries@.update(
            p as int,
            (old(table).entries@[p as int].0, v),
        ),
{
    let mut v = v;
    core::mem::swap(&mut table.entries[p].1, &mut v);
}

/// The value that holds the table `t` and came from `span`.
fn table_in<'a>(t: Table<'a>, span: Span) -> (v: Value<'a>)
    ensures
        v@ == table_value(t@, span),
        v.value == Some(ValueInner::Table(t)),
        v.span == span,
{
    Value { value: Some(ValueInner::Table(t)), span }
}

/// The value that holds the array `a` and came from `span`.
fn array_in<'a>(a: Vec<Value<'a>>, span: Span) -> (v: Value<'a>)
    ensures
        v@ == array_value(array_view(a@), span),
{
    proof {
        lemma_array_view(a);
    }
    Value { value: Some(ValueInner::Array(a)), span }
}

/// The table of the kind `kind` with the one entry given.
fn single_table<'a>(kind: TableKind, key: Key<'a>, value: Value<'a>) -> (t: Table<'a>)
    ensures
        t@ == (TableView { kind, entries: seq![(key@, value@)] }),
{
    let mut entries: Vec<(Key<'a>, Value<'a>)> = Vec::new();
    entries.push((key, value));
    let t = Table { entries, kind };
    assert(t@.entries =~= seq![(key@, value@)]);
    t
}

/// Whether array-of-tables headers made the array.
fn made_by_headers(a: &Vec<Value<'_>>) -> (r: bool)
    ensures
        r == is_table_array(array_view(a@)),
{
    if a.len() == 0 {
        return false;
    }
    let last = &a[a.len() - 1];
    assert(array_view(a@).last() == last@);
    match &last.value {
        Some(ValueInner::Table(t)) => {
            assert(last@.inner == Some(InnerView::Table(t@)));
            t.kind == TableKind::Defined
        },
        Some(other) => {
            assert(last@.inner == Some(other@));
            false
        },
        None => false,
    }
}

/// What a header puts under the key `i`, which is not there yet.
fn fresh_value<'a>(keys: &Vec<Key<'a>>, i: usize, array: bool) -> (v: Value<'a>)
    requires
        i < keys.len(),
    ensures
        v@ == fresh(key_views(keys@), i as int, array),
    decreases keys.len() - i,
{
    let span = keys[i].span;
    if i + 1 >= keys.len() {
        let t = table_in(Table::with_kind(TableKind::Defined), span);
        if array {
            let mut a: Vec<Value<'a>> = Vec::new();
            a.push(t);
            assert(array_view(a@) =~= seq![table_value(empty_table(TableKind::Defined), span)]);
            array_in(a, span)
        } else {
            t
        }
    } else {
        let sub = fresh_value(keys, i + 1, array);
        table_in(single_table(TableKind::Implicit, keys[i + 1].clone(), sub), span)
    }
}

/// What a header does to the value `old` that its last key names already.
fn reopen_value<'a>(old: Value<'a>, key: &Key<'a>, array: bool) -> (r: Result<Value<'a>, Error>)
    ensures
        match reopen(old@, key@, array) {
            Ok(v) => r matches Ok(x) && x@ == v,
            Err(e) => r matches Err(x) && x@ == e,
        },
{
    proof {
        lemma_value_view(old);
    }
    let Value { value, span } = old;
    match value {
        Some(ValueInner::Table(c)) => {
            if array {
                Err(error_at_key(ErrorKind::RedefineAsArray, key))
            } else if c.kind == TableKind::Implicit {
                let d = Table { entries: c.entries, kind: TableKind::Defined };
                assert(d@.entries =~= c@.entries);
                Ok(table_in(d, span))
            } else {
                Err(
                    error_at_key(
                        ErrorKind::DuplicateTable { name: name_string(key), first: span },
                        key,
                    ),
                )
            }
        },
        Some(ValueInner::Array(a)) => {
            proof {
                lemma_array_view(a);
            }
            if array && made_by_headers(&a) {
                let mut a = a;
                let ghost before = a@;
                a.push(table_in(Table::with_kind(TableKind::Defined), key.span));
                assert(array_view(a@) =~= array_view(before).push(
                    table_value(empty_table(TableKind::Defined), key.span),
                ));
                Ok(array_in(a, span))
            } else {
                Err(error_at_key(ErrorKind::RedefineAsArray, key))
            }
        },
        _ => {
            if array {
                Err(error_at_key(ErrorKind::RedefineAsArray, key))
            } else {
                Err(error_at_key(ErrorKind::DottedKeyInvalidType, key))
            }
        },
    }
}

/// Applies the header with the keys `keys`, from the key `i` on, to the
/// table: opens the section that it names. On an error the table is left as
/// it is then, and is not to be used any more.
pub(crate) fn open_section<'a>(table: &mut Table<'a>, keys: &Vec<Key<'a>>, i: usize, array: bool) -> (r:
    Result<(), Error>)
    requires
        i < keys.len(),
    ensures
        match open_header(old(table)@, key_views(keys@), i as int, array) {
            Ok(t2) => r is Ok && final(table)@ == t2,
            Err(e) => r matches Err(x) && x@ == e,
        },
        old(table)@.wf() && r is Ok ==> final(table)@.wf(),
    decreases keys.len() - i,
{
    let ghost t0 = table@;
    let ghost kv = key_views(keys@);
    let key = &keys[i];
    let p = table.position(cow_str(&key.name));
    proof {
        lemma_position(t0, key@.name);
        lemma_table_view(*table);
        if t0.wf() {
            lemma_open_header_wf(t0, kv, i as int, array);
        }
    }
    if p >= table.entries.len() {
        let v = fresh_value(keys, i, array);
        table.entries.push((key.clone(), v));
        assert(table@.entries =~= t0.with_entry(key@, v@).entries);
        return Ok(());
    }
    let ghost before = *table;
    let held = take_slot(table, p);
    assert(held@ == t0.entries[p as int].1);
    proof {
        lemma_value_view(held);
    }
    let replaced: Value<'a> = if i + 1 == keys.len() {
        match reopen_value(held, key, array) {
            Ok(v) => v,
            Err(e) => {
                return Err(e);
            },
        }
    } else {
        let Value { value, span } = held;
        match value {
            Some(ValueInner::Table(c)) => {
                if c.kind == TableKind::Inline || c.kind == TableKind::Dotted {
                    return Err(
                        error_at_key(
                            ErrorKind::DuplicateTable { name: name_string(key), first: span },
                            key,
                        ),
                    );
                }
                let mut c = c;
                match open_section(&mut c, keys, i + 1, array) {
                    Ok(()) => table_in(c, span),
                    Err(e) => {
                        return Err(e);
                    },
                }
            },
            Some(ValueInner::Array(a)) => {
                proof {
                    lemma_array_view(a);
                }
                if !made_by_headers(&a) {
                    return Err(error_at_key(ErrorKind::DottedKeyInvalidType, key));
                }
                let mut a = a;
                let ghost a0 = a@;
                let last = a.pop().unwrap();
                let Value { value: inner, span: last_span } = last;
                match inner {
                    Some(ValueInner::Table(c)) => {
                        let mut c = c;
                        match open_section(&mut c, keys, i + 1, array) {
                            Ok(()) => {
                                a.push(table_in(c, last_span));
                                assert(array_view(a@) =~= array_view(a0).update(
                                    a0.len() - 1,
                                    table_value(c@, last_span),
                                ));
                                array_in(a, span)
                            },
                            Err(e) => {
                                return Err(e);
                            },
                        }
                    },
                    _ => {
                        return Err(error_at_key(ErrorKind::DottedKeyInvalidType, key));
                    },
                }
            },
            _ => {
                return Err(error_at_key(ErrorKind::DottedKeyInvalidType, key));
            },
        }
    };
    put_slot(table, p, replaced);
    proof {
        assert(table.entries@ =~= before.entries@.update(
            p as int,
            (before.entries@[p as int].0, replaced),
        ));
        lemma_with_value(before, *table, p as int, replaced);
    }
    Ok(())
}

/// What a dotted key puts under the key `i`, which is not there yet.
fn nest_value<'a>(keys: &Vec<Key<'a>>, i: usize, value: Value<'a>) -> (v: Value<'a>)
    requires
        i < keys.len(),
    ensures
        v@ == nest(key_views(keys@), i as int, value@),
    decreases keys.len() - i,
{
    if i + 1 >= keys.len() {
        value
    } else {
        let sub = nest_value(keys, i + 1, value);
        table_in(single_table(TableKind::Dotted, keys[i + 1].clone(), sub), keys[i].span)
    }
}

/// Puts `value` under the dotted key `keys`, from the key `i` on, into the
/// table. On an error the table is not to be used any more.
pub(crate) fn put_value<'a>(table: &mut Table<'a>, keys: &Vec<Key<'a>>, i: usize, value: Value<'a>) -> (r:
    Result<(), Error>)
    requires
        i < keys.len(),
    ensures
        match put(old(table)@, key_views(keys@), i as int, value@) {
            Ok(t2) => r is Ok && final(table)@ == t2,
            Err(e) => r matches Err(x) && x@ == e,
        },
        old(table)@.wf() && value@.wf() && r is Ok ==> final(table)@.wf(),
    decreases keys.len() - i,
{
    let ghost t0 = table@;
    let ghost kv = key_views(keys@);
    let key = &keys[i];
    let p = table.position(cow_str(&key.name));
    proof {
        lemma_position(t0, key@.name);
        lemma_table_view(*table);
        if t0.wf() && value@.wf() {
            lemma_put_wf(t0, kv, i as int, value@);
        }
    }
    if p >= table.entries.len() {
        let v = nest_value(keys, i, value);
        table.entries.push((key.clone(), v));
        assert(table@.entries =~= t0.with_entry(key@, v@).entries);
        return Ok(());
    }
    if i + 1 == keys.len() {
        let first = table.entries[p].0.span;
        return Err(
            error_at_key(ErrorKind::DuplicateKey { key: name_string(key), first }, key),
        );
    }
    let ghost before = *table;
    let held = take_slot(table, p);
    assert(held@ == t0.entries[p as int].1);
    proof {
        lemma_value_view(held);
    }
    let Value { value: inner, span } = held;
    let replaced: Value<'a> = match inner {
        Some(ValueInner::Table(c)) => {
            if !(c.kind == TableKind::Dotted || c.kind == TableKind::Implicit) {
                return Err(error_at_key(ErrorKind::DottedKeyInvalidType, key));
            }
            let mut c = c;
            match put_value(&mut c, keys, i + 1, value) {
                Ok(()) => table_in(c, span),
                Err(e) => {
                    return Err(e);
                },
            }
        },
        _ => {
            return Err(error_at_key(ErrorKind::DottedKeyInvalidType, key));
        },
    };
    put_slot(table, p, replaced);
    proof {
        assert(table.entries@ =~= before.entries@.update(
            p as int,
            (before.entries@[p as int].0, replaced),
        ));
        lemma_with_value(before, *table, p as int, replaced);
    }
    Ok(())
}

/// Puts `value` under the dotted key `keys` into the section that the header
/// `path` opened, which is looked up from the key `j` of the header on. With
/// an empty `path` the section is the table itself. On an error the table is
/// not to be used any more.
pub(crate) fn put_into_section<'a>(
    table: &mut Table<'a>,
    path: &Vec<Key<'a>>,
    j: usize,
    keys: &Vec<Key<'a>>,
    value: Value<'a>,
) -> (r: Result<(), Error>)
    requires
        0 < keys.len(),
        j <= path.len(),
    ensures
        match put_in_section(
            old(table)@,
            key_views(path@),
            j as int,
            key_views(keys@),
            value@,
        ) {
            Ok(t2) => r is Ok && final(table)@ == t2,
            Err(e) => r matches Err(x) && x@ == e,
        },
        old(table)@.wf() && value@.wf() && r is Ok ==> final(table)@.wf(),
    decreases path.len() - j,
{
    let ghost t0 = table@;
    proof {
        if t0.wf() && value@.wf() {
            lemma_put_in_section_wf(t0, key_views(path@), j as int, key_views(keys@), value@);
        }
    }
    if j >= path.len() {
        return put_value(table, keys, 0, value);
    }
    let key = &path[j];
    let p = table.position(cow_str(&key.name));
    proof {
        lemma_position(t0, key@.name);
        lemma_table_view(*table);
    }
    if p >= table.entries.len() {
        return Err(error_at_key(ErrorKind::DottedKeyInvalidType, key));
    }
    let ghost before = *table;
    let held = take_slot(table, p);
    assert(held@ == t0.entries[p as int].1);
    proof {
        lemma_value_view(held);
    }
    let Value { value: inner, span } = held;
    let replaced: Value<'a> = match inner {
        Some(ValueInner::Table(c)) => {
            if c.kind == TableKind::Inline || c.kind == TableKind::Dotted {
                return Err(error_at_key(ErrorKind::DottedKeyInvalidType, key));
            }
            let mut c = c;
            match put_into_section(&mut c, path, j + 1, keys, value) {
                Ok(()) => table_in(c, span),
                Err(e) => {
                    return Err(e);
                },
            }
        },
        Some(ValueInner::Array(a)) => {
            proof {
                lemma_array_view(a);
            }
            if !made_by_headers(&a) {
                return Err(error_at_key(ErrorKind::DottedKeyInvalidType, key));
            }
            let mut a = a;
            let ghost a0 = a@;
            let last = a.pop().unwrap();
            assert(array_view(a0).last() == last@);
            let Value { value: last_inner, span: last_span } = last;
            match last_inner {
                Some(ValueInner::Table(c)) => {
                    let mut c = c;
                    match put_into_section(&mut c, path, j + 1, keys, value) {
                        Ok(()) => {
                            a.push(table_in(c, last_span));
                            assert(array_view(a@) =~= array_view(a0).update(
                                a0.len() - 1,
                                table_value(c@, last_span),
                            ));
                            array_in(a, span)
                        },
                        Err(e) => {
                            return Err(e);
                        },
                    }
                },
                _ => {
                    return Err(error_at_key(ErrorKind::DottedKeyInvalidType, key));
                },
            }
        },
        _ => {
            return Err(error_at_key(ErrorKind::DottedKeyInvalidType, key));
        },
    };
    put_slot(table, p, replaced);
    proof {
        assert(table.entries@ =~= before.entries@.update(
            p as int,
            (before.entries@[p as int].0, replaced),
        ));
        lemma_with_value(before, *table, p as int, replaced);
    }
    Ok(())
}

} // verus!
