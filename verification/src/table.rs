//! Tables: ordered mappings from keys to values that keep their keys unique
//! and every entry where it was inserted.

use crate::span::Span;
use crate::text::{cow_str, str_eq};
use crate::value::{Key, KeyView, Table, TableKind, TableView, Value, ValueView};
use std::borrow::Cow;
use vstd::prelude::*;
use vstd::string::*;

verus! {

/// The first index at or after `from` whose key has the name `name`, or the
/// number of entries where there is none.
pub open spec fn position_from(entries: Seq<(KeyView, ValueView)>, name: Seq<u8>, from: int) -> int
    decreases entries.len() - from,
{
    if from < 0 || from >= entries.len() {
        entries.len() as int
    } else if entries[from].0.name == name {
        from
    } else {
        position_from(entries, name, from + 1)
    }
}

/// No two entries have the same key name.
pub open spec fn unique_keys(entries: Seq<(KeyView, ValueView)>) -> bool {
    forall|i: int, j: int|
        0 <= i < j < entries.len() ==> (#[trigger] entries[i]).0.name != (#[trigger] entries[j]).0.name
}

impl TableView {
    /// The index of the entry with the key `name`, or the number of entries
    /// where there is none.
    pub open spec fn position(self, name: Seq<u8>) -> int {
        position_from(self.entries, name, 0)
    }

    /// Whether an entry has the key `name`.
    pub open spec fn contains(self, name: Seq<u8>) -> bool {
        0 <= self.position(name) < self.entries.len()
    }

    /// Every value of the table is whole: it has its payload, and so has
    /// every value below it.
    pub open spec fn whole(self) -> bool {
        forall|i: int| 0 <= i < self.entries.len() ==> (#[trigger] self.entries[i]).1.whole()
    }

    /// The value under the key `name`.
    pub open spec fn get(self, name: Seq<u8>) -> Option<ValueView> {
        if self.contains(name) {
            Some(self.entries[self.position(name)].1)
        } else {
            None
        }
    }

    /// The table without the entry at index `i`.
    pub open spec fn without(self, i: int) -> TableView {
        TableView { kind: self.kind, entries: self.entries.remove(i) }
    }

    /// The table with one more entry at its end.
    pub open spec fn with_entry(self, key: KeyView, value: ValueView) -> TableView {
        TableView { kind: self.kind, entries: self.entries.push((key, value)) }
    }

    /// The table with the value at index `i` replaced.
    pub open spec fn with_value(self, i: int, value: ValueView) -> TableView {
        TableView { kind: self.kind, entries: self.entries.update(i, (self.entries[i].0, value)) }
    }
}

/// Where a search from `from` ends: at the first entry with the name, with
/// no such entry before it.
pub proof fn lemma_position_from(entries: Seq<(KeyView, ValueView)>, name: Seq<u8>, from: int)
    requires
        0 <= from <= entries.len(),
    ensures
        from <= position_from(entries, name, from) <= entries.len(),
        position_from(entries, name, from) < entries.len() ==> entries[position_from(
            entries,
            name,
            from,
        )].0.name == name,
        forall|k: int|
            from <= k < position_from(entries, name, from) ==> (#[trigger] entries[k]).0.name
                != name,
    decreases entries.len() - from,
{
    if from < entries.len() && entries[from].0.name != name {
        lemma_position_from(entries, name, from + 1);
    }
}

impl<'de> Table<'de> {
    /// The empty table.
    pub fn new() -> (t: Table<'de>)
        ensures
            t@ == (TableView { kind: TableKind::Defined, entries: Seq::empty() }),
            t@.wf(),
    {
        let t = Table { entries: Vec::new(), kind: TableKind::Defined };
        assert(t@.entries =~= Seq::empty());
        t
    }

    /// The empty table of the kind `kind`.
    pub fn with_kind(kind: TableKind) -> (t: Table<'de>)
        ensures
            t@ == (TableView { kind, entries: Seq::empty() }),
            t@.wf(),
    {
        let t = Table { entries: Vec::new(), kind };
        assert(t@.entries =~= Seq::empty());
        t
    }

    /// The number of entries.
    pub fn len(&self) -> (n: usize)
        ensures
            n == self@.entries.len(),
    {
        self.entries.len()
    }

    /// Whether the table has no entry.
    pub fn is_empty(&self) -> (r: bool)
        ensures
            r == (self@.entries.len() == 0),
    {
        self.entries.len() == 0
    }

    /// The index of the entry with the key `name`, or the number of entries
    /// where there is none.
    pub fn position(&self, name: &str) -> (i: usize)
        ensures
            i == self@.position(name.spec_bytes()),
            i <= self.entries.len(),
    {
        let ghost entries = self@.entries;
        let mut i: usize = 0;
        while i < self.entries.len()
            invariant
                i <= self.entries.len(),
                entries == self@.entries,
                position_from(entries, name.spec_bytes(), i as int) == position_from(
                    entries,
                    name.spec_bytes(),
                    0,
                ),
            decreases self.entries.len() - i,
        {
            if str_eq(cow_str(&self.entries[i].0.name), name) {
                return i;
            }
            i += 1;
        }
        i
    }

    /// Whether an entry has the key `name`.
    pub fn contains_key(&self, name: &str) -> (r: bool)
        ensures
            r == self@.contains(name.spec_bytes()),
    {
        self.position(name) < self.entries.len()
    }

    /// The value under the key `name`.
    pub fn get(&self, name: &str) -> (r: Option<&Value<'de>>)
        ensures
            r is Some == self@.contains(name.spec_bytes()),
            r matches Some(v) ==> Some(v@) == self@.get(name.spec_bytes()) && v
                == self.entries@[self@.position(name.spec_bytes())].1,
    {
        let i = self.position(name);
        if i < self.entries.len() {
            Some(&self.entries[i].1)
        } else {
            None
        }
    }
}

/// A table whose entry `i` got the value `v` has the view of the table before
/// with the view of `v` at `i`.
pub proof fn lemma_with_value(before: Table<'_>, after: Table<'_>, i: int, v: Value<'_>)
    requires
        0 <= i < before.entries.len(),
        after.kind == before.kind,
        after.entries@ == before.entries@.update(i, (before.entries@[i].0, v)),
    ensures
        after@ == before@.with_value(i, v@),
{
    assert(after@.entries =~= before@.with_value(i, v@).entries);
}

impl<'de> Table<'de> {
    /// The value under the key `name`, for changing.
    pub fn get_mut(&mut self, name: &str) -> (r: Option<&mut Value<'de>>)
        ensures
            r is Some == old(self)@.contains(name.spec_bytes()),
            match r {
                Some(v) => {
                    let i = old(self)@.position(name.spec_bytes());
                    &&& *v == old(self).entries@[i].1
                    &&& final(self).kind == old(self).kind
                    &&& final(self).entries@ == old(self).entries@.update(
                        i,
                        (old(self).entries@[i].0, *final(v)),
                    )
                    &&& final(self)@ == old(self)@.with_value(i, final(v)@)
                },
                None => *final(self) == *old(self),
            },
    {
        let i = self.position(name);
        if i < self.entries.len() {
            proof {
                let before = *self;
                assert forall|after: Table<'de>, v: Value<'de>|
                    after.kind == before.kind && after.entries@ == before.entries@.update(
                        i as int,
                        (before.entries@[i as int].0, v),
                    ) implies #[trigger] after@ == before@.with_value(i as int, #[trigger] v@) by {
                    lemma_with_value(before, after, i as int, v);
                }
            }
            let v = &mut self.entries[i].1;
            Some(v)
        } else {
            None
        }
    }
}

/// A table contains a name exactly when one of its entries has it, and the
/// search then finds the first such entry.
pub proof fn lemma_position(t: TableView, name: Seq<u8>)
    ensures
        0 <= t.position(name) <= t.entries.len(),
        t.contains(name) <==> exists|k: int|
            0 <= k < t.entries.len() && (#[trigger] t.entries[k]).0.name == name,
        t.contains(name) ==> t.entries[t.position(name)].0.name == name,
        forall|k: int| 0 <= k < t.position(name) ==> (#[trigger] t.entries[k]).0.name != name,
{
    lemma_position_from(t.entries, name, 0);
}

/// Adding an entry under a new name keeps a table well formed.
pub proof fn lemma_wf_with_entry(t: TableView, key: KeyView, value: ValueView)
    requires
        t.wf(),
        value.wf(),
        !t.contains(key.name),
    ensures
        t.with_entry(key, value).wf(),
{
    lemma_position(t, key.name);
    let n = t.with_entry(key, value);
    assert forall|i: int, j: int| 0 <= i < j < n.entries.len() implies (#[trigger] n.entries[i]).0.name
        != (#[trigger] n.entries[j]).0.name by {
        if j < t.entries.len() {
            assert(t.entries[i].0.name != t.entries[j].0.name);
        } else {
            assert(t.entries[i].0.name != key.name);
        }
    }
    assert forall|i: int| 0 <= i < n.entries.len() implies (#[trigger] n.entries[i]).1.wf() by {
        if i < t.entries.len() {
            assert(t.entries[i].1.wf());
        }
    }
}

/// Replacing the value of an entry keeps a table well formed.
pub proof fn lemma_wf_with_value(t: TableView, i: int, value: ValueView)
    requires
        t.wf(),
        value.wf(),
        0 <= i < t.entries.len(),
    ensures
        t.with_value(i, value).wf(),
        forall|name: Seq<u8>| t.with_value(i, value).position(name) == t.position(name),
{
    let n = t.with_value(i, value);
    assert forall|a: int, b: int| 0 <= a < b < n.entries.len() implies (#[trigger] n.entries[a]).0.name
        != (#[trigger] n.entries[b]).0.name by {
        assert(t.entries[a].0.name != t.entries[b].0.name);
    }
    assert forall|a: int| 0 <= a < n.entries.len() implies (#[trigger] n.entries[a]).1.wf() by {
        if a != i {
            assert(t.entries[a].1.wf());
        }
    }
    assert forall|name: Seq<u8>| n.position(name) == t.position(name) by {
        lemma_same_names_same_position(t.entries, n.entries, name, 0);
    }
}

/// Another value in the place of one changes nothing about where the keys
/// are.
pub proof fn lemma_with_value_position(t: TableView, i: int, value: ValueView, name: Seq<u8>)
    requires
        0 <= i < t.entries.len(),
    ensures
        t.with_value(i, value).position(name) == t.position(name),
        t.with_value(i, value).contains(name) == t.contains(name),
{
    lemma_same_names_same_position(t.entries, t.with_value(i, value).entries, name, 0);
}

/// Two lists of entries with the same key names are searched alike.
pub proof fn lemma_same_names_same_position(
    a: Seq<(KeyView, ValueView)>,
    b: Seq<(KeyView, ValueView)>,
    name: Seq<u8>,
    from: int,
)
    requires
        a.len() == b.len(),
        forall|k: int| 0 <= k < a.len() ==> (#[trigger] a[k]).0.name == (#[trigger] b[k]).0.name,
        0 <= from,
    ensures
        position_from(a, name, from) == position_from(b, name, from),
    decreases a.len() - from,
{
    if from < a.len() {
        assert(a[from].0.name == b[from].0.name);
        if a[from].0.name != name {
            lemma_same_names_same_position(a, b, name, from + 1);
        }
    }
}

/// Removing an entry keeps a table well formed, and its name is then absent.
pub proof fn lemma_wf_without(t: TableView, i: int)
    requires
        t.wf(),
        0 <= i < t.entries.len(),
    ensures
        t.without(i).wf(),
        !t.without(i).contains(t.entries[i].0.name),
{
    let n = t.without(i);
    assert forall|a: int, b: int| 0 <= a < b < n.entries.len() implies (#[trigger] n.entries[a]).0.name
        != (#[trigger] n.entries[b]).0.name by {
        let a0 = if a < i { a } else { a + 1 };
        let b0 = if b < i { b } else { b + 1 };
        assert(t.entries[a0].0.name != t.entries[b0].0.name);
    }
    assert forall|a: int| 0 <= a < n.entries.len() implies (#[trigger] n.entries[a]).1.wf() by {
        let a0 = if a < i { a } else { a + 1 };
        assert(t.entries[a0].1.wf());
    }
    lemma_position(n, t.entries[i].0.name);
    if n.contains(t.entries[i].0.name) {
        let k = n.position(t.entries[i].0.name);
        let k0 = if k < i { k } else { k + 1 };
        if k0 < i {
            assert(t.entries[k0].0.name != t.entries[i].0.name);
        } else {
            assert(t.entries[i].0.name != t.entries[k0].0.name);
        }
    }
}

/// A table and the views of its entries, one by one.
pub proof fn lemma_table_view(t: Table<'_>)
    ensures
        t@.kind == t.kind,
        t@.entries.len() == t.entries@.len(),
        forall|i: int|
            0 <= i < t.entries@.len() ==> (#[trigger] t@.entries[i]) == (
                t.entries@[i].0@,
                t.entries@[i].1@,
            ),
{
}

impl<'de> Table<'de> {
    /// Puts `value` under `key`. Where the table has the key already, the
    /// entry keeps its place and its key, and the value that it held is
    /// returned; else the entry is added at the end.
    pub fn insert(&mut self, key: Key<'de>, value: Value<'de>) -> (r: Option<Value<'de>>)
        ensures
            r is Some == old(self)@.contains(key@.name),
            match r {
                Some(v) => {
                    let i = old(self)@.position(key@.name);
                    v == old(self).entries@[i].1 && final(self)@ == old(self)@.with_value(i, value@)
                },
                None => final(self)@ == old(self)@.with_entry(key@, value@),
            },
            old(self)@.wf() && value@.wf() ==> final(self)@.wf(),
    {
        let i = self.position(cow_str(&key.name));
        proof {
            lemma_position(old(self)@, key@.name);
        }
        if i < self.entries.len() {
            let mut value = value;
            let ghost held = value;
            core::mem::swap(&mut self.entries[i].1, &mut value);
            proof {
                lemma_with_value(*old(self), *self, i as int, held);
                if old(self)@.wf() && held@.wf() {
                    lemma_wf_with_value(old(self)@, i as int, held@);
                }
            }
            Some(value)
        } else {
            self.entries.push((key, value));
            proof {
                assert(self@.entries =~= old(self)@.with_entry(key@, value@).entries);
                if old(self)@.wf() && value@.wf() {
                    lemma_wf_with_entry(old(self)@, key@, value@);
                }
            }
            None
        }
    }

    /// Takes the entry with the key `name` out of the table; the entries
    /// after it move up by one.
    pub fn remove_entry(&mut self, name: &str) -> (r: Option<(Key<'de>, Value<'de>)>)
        ensures
            r is Some == old(self)@.contains(name.spec_bytes()),
            match r {
                Some(e) => {
                    let i = old(self)@.position(name.spec_bytes());
                    &&& e == old(self).entries@[i]
                    &&& e.0@.name == name.spec_bytes()
                    &&& final(self)@ == old(self)@.without(i)
                    &&& !final(self)@.contains(name.spec_bytes()) || !old(self)@.wf()
                },
                None => *final(self) == *old(self),
            },
            old(self)@.wf() ==> final(self)@.wf(),
    {
        let i = self.position(name);
        proof {
            lemma_position(old(self)@, name.spec_bytes());
        }
        if i < self.entries.len() {
            let e = self.entries.remove(i);
            proof {
                assert(self@.entries =~= old(self)@.without(i as int).entries);
                if old(self)@.wf() {
                    lemma_wf_without(old(self)@, i as int);
                }
            }
            Some(e)
        } else {
            None
        }
    }

    /// Takes the value under the key `name` out of the table.
    pub fn remove(&mut self, name: &str) -> (r: Option<Value<'de>>)
        ensures
            r is Some == old(self)@.contains(name.spec_bytes()),
            match r {
                Some(v) => {
                    let i = old(self)@.position(name.spec_bytes());
                    v == old(self).entries@[i].1 && final(self)@ == old(self)@.without(i)
                },
                None => *final(self) == *old(self),
            },
            old(self)@.wf() ==> final(self)@.wf(),
    {
        match self.remove_entry(name) {
            Some(e) => Some(e.1),
            None => None,
        }
    }

    /// The keys of the table, in order.
    pub fn into_keys(self) -> (keys: Vec<Key<'de>>)
        ensures
            keys.len() == self@.entries.len(),
            forall|i: int| 0 <= i < keys.len() ==> (#[trigger] keys@[i]) == self.entries@[i].0,
    {
        let mut entries = self.entries;
        let ghost all = entries@;
        let mut keys: Vec<Key<'de>> = Vec::new();
        let mut i: usize = 0;
        while i < entries.len()
            invariant
                i <= entries.len(),
                entries.len() == all.len(),
                keys.len() == i,
                forall|k: int| 0 <= k < i ==> (#[trigger] keys@[k]) == all[k].0,
                forall|k: int| i <= k < entries.len() ==> (#[trigger] entries@[k]) == all[k],
            decreases entries.len() - i,
        {
            let mut key = Key { name: Cow::Borrowed(""), span: Span { start: 0, end: 0 } };
            core::mem::swap(&mut entries[i].0, &mut key);
            keys.push(key);
            i += 1;
        }
        keys
    }
}

} // verus!
