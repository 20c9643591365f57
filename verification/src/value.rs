//! The value tree: values with the span they came from, keys, and the
//! tables and arrays that hold them.

use crate::error::{error_at, Error, ErrorKind, ErrorKindView, ErrorView};
use crate::span::Span;
use crate::table::unique_keys;
use crate::text::{cow_bytes, cow_str, lemma_bytes_eq_iff, str_eq};
use std::borrow::Cow;
use vstd::prelude::*;
use vstd::string::*;

verus! {

/// A key of a table: its name, and where in the source it was written.
/// Two keys are the same key when their names are equal; the span plays no
/// part in that.
#[derive(Debug)]
pub struct Key<'de> {
    /// The name, borrowed from the source where no escape had to be resolved.
    pub name: Cow<'de, str>,
    /// The bytes of the source that spell the key; empty for a key that was
    /// made from a name alone.
    pub span: Span,
}

/// How a table came to be, which decides who may add to it later.
#[derive(Copy, Clone, PartialEq, Eq, Structural, Debug)]
pub enum TableKind {
    /// Created on the way to a deeper table header, not yet named by a
    /// header of its own.
    Implicit,
    /// Named by a table header or an array-of-tables header, or built by
    /// hand.
    Defined,
    /// Created by the left-hand side of a dotted key.
    Dotted,
    /// Written as `{ .. }`; nothing can be added to it afterwards.
    Inline,
}

/// An ordered mapping from keys to values. No two entries have the same key
/// name, and an entry stays where it was inserted.
#[derive(Debug)]
pub struct Table<'de> {
    /// The entries, in the order of insertion.
    pub entries: Vec<(Key<'de>, Value<'de>)>,
    /// How the table came to be.
    pub kind: TableKind,
}

/// An ordered sequence of values.
pub type Array<'de> = Vec<Value<'de>>;

/// A value and the span of the source it came from. The payload can be moved
/// out with [`Value::take`] and put back with [`Value::set`].
#[derive(Debug)]
pub struct Value<'de> {
    /// The payload; `None` once it has been taken.
    pub value: Option<ValueInner<'de>>,
    /// The bytes of the source that the value came from; the empty span for a
    /// value that was built by hand.
    pub span: Span,
}

/// The payload of a value.
#[derive(Debug)]
pub enum ValueInner<'de> {
    /// A string, borrowed from the source where no escape had to be resolved.
    String(Cow<'de, str>),
    /// A signed 64-bit integer.
    Integer(i64),
    /// A floating-point number, kept as the text of its literal without the
    /// underscores between digits: a decimal number with a fraction or an
    /// exponent, or `inf` or `nan`, with an optional sign.
    Float(Cow<'de, str>),
    /// A boolean.
    Boolean(bool),
    /// An array.
    Array(Array<'de>),
    /// A table.
    Table(Table<'de>),
}

/// What a [`Key`] holds: the bytes of its name, its span, and whether the
/// name is borrowed.
pub struct KeyView {
    pub name: Seq<u8>,
    pub span: Span,
    pub borrowed: bool,
}

/// What a borrowed-or-owned string holds: its bytes, and whether it is
/// borrowed.
pub struct TextView {
    pub bytes: Seq<u8>,
    pub borrowed: bool,
}

/// The view of a borrowed-or-owned string.
pub open spec fn text_view(c: Cow<'_, str>) -> TextView {
    TextView { bytes: cow_bytes(c), borrowed: c is Borrowed }
}

/// What a [`Table`] holds.
pub struct TableView {
    pub kind: TableKind,
    pub entries: Seq<(KeyView, ValueView)>,
}

/// What a [`Value`] holds.
pub struct ValueView {
    pub inner: Option<InnerView>,
    pub span: Span,
}

/// What a [`ValueInner`] holds, with every string as its bytes.
pub enum InnerView {
    String(TextView),
    Integer(i64),
    Float(TextView),
    Boolean(bool),
    Array(Seq<ValueView>),
    Table(TableView),
}

impl<'de> View for Key<'de> {
    type V = KeyView;

    open spec fn view(&self) -> KeyView {
        KeyView { name: cow_bytes(self.name), span: self.span, borrowed: self.name is Borrowed }
    }
}

impl<'de> Value<'de> {
    /// What the value holds, as [`View::view`] gives it.
    pub open spec fn model(&self) -> ValueView
        decreases self,
    {
        ValueView {
            inner: match self.value {
                Some(inner) => Some(inner.model()),
                None => None,
            },
            span: self.span,
        }
    }
}

impl<'de> ValueInner<'de> {
    /// What the payload holds, as [`View::view`] gives it.
    pub open spec fn model(&self) -> InnerView
        decreases self,
    {
        match self {
            ValueInner::String(s) => InnerView::String(text_view(*s)),
            ValueInner::Integer(i) => InnerView::Integer(*i),
            ValueInner::Float(f) => InnerView::Float(text_view(*f)),
            ValueInner::Boolean(b) => InnerView::Boolean(*b),
            ValueInner::Array(a) => InnerView::Array(
                Seq::new(
                    a@.len(),
                    |i: int|
                        if 0 <= i < a@.len() {
                            a@[i].model()
                        } else {
                            arbitrary()
                        },
                ),
            ),
            ValueInner::Table(t) => InnerView::Table(t.model()),
        }
    }
}

impl<'de> Table<'de> {
    /// What the table holds, as [`View::view`] gives it.
    pub open spec fn model(&self) -> TableView
        decreases self,
    {
        TableView {
            kind: self.kind,
            entries: Seq::new(
                self.entries@.len(),
                |i: int|
                    if 0 <= i < self.entries@.len() {
                        (self.entries@[i].0.view(), self.entries@[i].1.model())
                    } else {
                        arbitrary()
                    },
            ),
        }
    }
}

impl<'de> View for Value<'de> {
    type V = ValueView;

    open spec fn view(&self) -> ValueView {
        self.model()
    }
}

impl<'de> View for ValueInner<'de> {
    type V = InnerView;

    open spec fn view(&self) -> InnerView {
        self.model()
    }
}

impl<'de> View for Table<'de> {
    type V = TableView;

    open spec fn view(&self) -> TableView {
        self.model()
    }
}

/// The views of the values of an array, in order.
pub open spec fn array_view(a: Seq<Value<'_>>) -> Seq<ValueView> {
    Seq::new(a.len(), |i: int| a[i]@)
}

/// The view of an array payload holds the views of its values.
pub proof fn lemma_array_view(a: Array<'_>)
    ensures
        ValueInner::Array(a)@ == InnerView::Array(array_view(a@)),
{
    assert(ValueInner::Array(a)@->Array_0 =~= array_view(a@));
}

impl TableView {
    /// No two entries have the same key name, here and in every table below.
    pub open spec fn wf(self) -> bool
        decreases self,
    {
        &&& unique_keys(self.entries)
        &&& forall|i: int| 0 <= i < self.entries.len() ==> (#[trigger] self.entries[i]).1.wf()
    }
}

impl ValueView {
    /// Every table in the value keeps its keys unique.
    pub open spec fn wf(self) -> bool
        decreases self,
    {
        match self.inner {
            Some(InnerView::Array(a)) => forall|i: int| 0 <= i < a.len() ==> (#[trigger] a[i]).wf(),
            Some(InnerView::Table(t)) => t.wf(),
            _ => true,
        }
    }

    /// The value has its payload, and so has every value below it.
    pub open spec fn whole(self) -> bool
        decreases self,
    {
        match self.inner {
            None => false,
            Some(InnerView::Array(a)) => forall|i: int| 0 <= i < a.len() ==> (#[trigger] a[i]).whole(),
            Some(InnerView::Table(t)) => forall|i: int|
                0 <= i < t.entries.len() ==> (#[trigger] t.entries[i]).1.whole(),
            Some(_) => true,
        }
    }

    /// The value after its payload was taken.
    pub open spec fn taken(self) -> ValueView {
        ValueView { inner: None, span: self.span }
    }

    /// The value with `inner` as its payload.
    pub open spec fn with_inner(self, inner: InnerView) -> ValueView {
        ValueView { inner: Some(inner), span: self.span }
    }
}

/// How the payload of a value shows in its view: a table as the view of
/// the table, an array as the views of its elements, no payload as none.
pub proof fn lemma_value_view(v: Value<'_>)
    ensures
        v@.span == v.span,
        v.value is None <==> v@.inner is None,
        match v.value {
            Some(ValueInner::Table(t)) => v@.inner == Some(InnerView::Table(t@)),
            Some(ValueInner::Array(a)) => v@.inner == Some(InnerView::Array(array_view(a@))),
            Some(ValueInner::String(s)) => v@.inner == Some(InnerView::String(text_view(s))),
            Some(ValueInner::Integer(i)) => v@.inner == Some(InnerView::Integer(i)),
            Some(ValueInner::Float(f)) => v@.inner == Some(InnerView::Float(text_view(f))),
            Some(ValueInner::Boolean(b)) => v@.inner == Some(InnerView::Boolean(b)),
            None => true,
        },
{
    match v.value {
        Some(ValueInner::Array(a)) => {
            lemma_array_view(a);
        },
        _ => {},
    }
}

/// What it means for a value that holds an array or a table to be whole.
pub proof fn lemma_whole(v: ValueView)
    ensures
        v.inner matches Some(InnerView::Array(a)) ==> (v.whole() <==> forall|i: int|
            0 <= i < a.len() ==> (#[trigger] a[i]).whole()),
        v.inner matches Some(InnerView::Table(t)) ==> (v.whole() <==> forall|i: int|
            0 <= i < t.entries.len() ==> (#[trigger] t.entries[i]).1.whole()),
        v.whole() ==> v.inner is Some,
{
    reveal_with_fuel(ValueView::whole, 2);
}

/// The name of the type of a payload, as messages show it.
pub open spec fn kind_name(inner: InnerView) -> Seq<char> {
    match inner {
        InnerView::String(..) => "string"@,
        InnerView::Integer(..) => "integer"@,
        InnerView::Float(..) => "float"@,
        InnerView::Boolean(..) => "boolean"@,
        InnerView::Array(..) => "array"@,
        InnerView::Table(..) => "table"@,
    }
}

impl<'de> Clone for Key<'de> {
    /// A copy with the same name and span; a borrowed name stays borrowed.
    fn clone(&self) -> (k: Key<'de>)
        ensures
            k@ == self@,
            k.name@ == self.name@,
    {
        let name = match &self.name {
            Cow::Borrowed(b) => Cow::Borrowed(*b),
            Cow::Owned(o) => Cow::Owned(o.clone()),
        };
        Key { name, span: self.span }
    }
}

impl<'de> PartialEq for Key<'de> {
    /// Whether the two keys have the same name; the spans play no part.
    fn eq(&self, other: &Key<'de>) -> (r: bool) {
        proof {
            lemma_bytes_eq_iff(self.name@, other.name@);
        }
        str_eq(cow_str(&self.name), cow_str(&other.name))
    }
}

impl<'de> vstd::std_specs::cmp::PartialEqSpecImpl for Key<'de> {
    open spec fn obeys_eq_spec() -> bool {
        true
    }

    open spec fn eq_spec(&self, other: &Key<'de>) -> bool {
        self@.name == other@.name
    }
}

impl<'de> Eq for Key<'de> {

}

impl<'de> From<&'de str> for Key<'de> {
    /// The key with the name `name` and the empty span.
    fn from(name: &'de str) -> (k: Key<'de>)
        ensures
            k@ == (KeyView {
                name: name.spec_bytes(),
                span: Span { start: 0, end: 0 },
                borrowed: true,
            }),
    {
        Key { name: Cow::Borrowed(name), span: Span { start: 0, end: 0 } }
    }
}

impl<'de> vstd::std_specs::convert::FromSpecImpl<&'de str> for Key<'de> {
    open spec fn obeys_from_spec() -> bool {
        true
    }

    open spec fn from_spec(name: &'de str) -> Key<'de> {
        Key { name: Cow::Borrowed(name), span: Span { start: 0, end: 0 } }
    }
}

impl<'de> Key<'de> {
    /// The name of the key.
    pub fn as_str(&self) -> (r: &str)
        ensures
            r.spec_bytes() == self@.name,
    {
        cow_str(&self.name)
    }

    /// Whether the two keys have the same name.
    pub fn same_name(&self, other: &Key<'_>) -> (r: bool)
        ensures
            r == (self@.name == other@.name),
    {
        str_eq(cow_str(&self.name), cow_str(&other.name))
    }
}

impl<'de> ValueInner<'de> {
    /// The name of the type of the payload, as messages show it.
    pub fn type_str(&self) -> (r: &'static str)
        ensures
            r@ == kind_name(self@),
    {
        match self {
            ValueInner::String(..) => "string",
            ValueInner::Integer(..) => "integer",
            ValueInner::Float(..) => "float",
            ValueInner::Boolean(..) => "boolean",
            ValueInner::Array(..) => "array",
            ValueInner::Table(..) => "table",
        }
    }

    /// The string, where the payload is one.
    pub fn as_str(&self) -> (r: Option<&str>)
        ensures
            match r {
                Some(s) => self@ matches InnerView::String(t) && t.bytes == s.spec_bytes(),
                None => !(self@ is String),
            },
    {
        if let ValueInner::String(s) = self {
            Some(cow_str(s))
        } else {
            None
        }
    }

    /// The table, where the payload is one.
    pub fn as_table(&self) -> (r: Option<&Table<'de>>)
        ensures
            match r {
                Some(t) => *self == ValueInner::Table(*t),
                None => !(self@ is Table),
            },
    {
        if let ValueInner::Table(t) = self {
            Some(t)
        } else {
            None
        }
    }

    /// The array, where the payload is one.
    pub fn as_array(&self) -> (r: Option<&Array<'de>>)
        ensures
            match r {
                Some(a) => *self == ValueInner::Array(*a),
                None => !(self@ is Array),
            },
    {
        if let ValueInner::Array(a) = self {
            Some(a)
        } else {
            None
        }
    }

    /// The integer, where the payload is one.
    pub fn as_integer(&self) -> (r: Option<i64>)
        ensures
            match r {
                Some(i) => self@ == InnerView::Integer(i),
                None => !(self@ is Integer),
            },
    {
        if let ValueInner::Integer(i) = self {
            Some(*i)
        } else {
            None
        }
    }

    /// The text of the floating-point literal, where the payload is one.
    pub fn as_float(&self) -> (r: Option<&str>)
        ensures
            match r {
                Some(f) => self@ matches InnerView::Float(t) && t.bytes == f.spec_bytes(),
                None => !(self@ is Float),
            },
    {
        if let ValueInner::Float(f) = self {
            Some(cow_str(f))
        } else {
            None
        }
    }

    /// The boolean, where the payload is one.
    pub fn as_bool(&self) -> (r: Option<bool>)
        ensures
            match r {
                Some(b) => self@ == InnerView::Boolean(b),
                None => !(self@ is Boolean),
            },
    {
        if let ValueInner::Boolean(b) = self {
            Some(*b)
        } else {
            None
        }
    }
}

/// The error for a value of the wrong type: what was expected, the type that
/// was found, and the span of the value.
pub open spec fn wanted(expected: Seq<char>, found: InnerView, span: Span) -> ErrorView {
    error_at(ErrorKindView::Wanted { expected, found: kind_name(found) }, span)
}

impl<'de> Value<'de> {
    /// The value with the payload `value` and the empty span.
    pub fn new(value: ValueInner<'de>) -> (v: Value<'de>)
        ensures
            v.value == Some(value),
            v.span == (Span { start: 0, end: 0 }),
    {
        Value { value: Some(value), span: Span { start: 0, end: 0 } }
    }

    /// The value with the payload `value` that came from `span`.
    pub fn with_span(value: ValueInner<'de>, span: Span) -> (v: Value<'de>)
        ensures
            v.value == Some(value),
            v.span == span,
    {
        Value { value: Some(value), span }
    }

    /// Whether the payload has been taken and not put back.
    pub fn is_taken(&self) -> (r: bool)
        ensures
            r == (self.value is None),
            r == (self@.inner is None),
    {
        self.value.is_none()
    }

    /// Moves the payload out; the span stays. The payload must be there: to
    /// take twice without a `set` in between is a misuse.
    pub fn take(&mut self) -> (inner: ValueInner<'de>)
        requires
            old(self).value is Some,
        ensures
            Some(inner) == old(self).value,
            Some(inner@) == old(self)@.inner,
            final(self).value is None,
            final(self).span == old(self).span,
            final(self)@ == old(self)@.taken(),
    {
        self.value.take().unwrap()
    }

    /// Puts `value` in as the payload, over whatever was there.
    pub fn set(&mut self, value: ValueInner<'de>)
        ensures
            final(self).value == Some(value),
            final(self).span == old(self).span,
            final(self)@ == old(self)@.with_inner(value@),
    {
        self.value = Some(value);
    }

    /// The payload, which must not have been taken.
    pub fn as_ref(&self) -> (inner: &ValueInner<'de>)
        requires
            self.value is Some,
        ensures
            Some(*inner) == self.value,
    {
        self.value.as_ref().unwrap()
    }

    /// Returns true if the value is a table and is non-empty.
    pub fn has_keys(&self) -> (r: bool)
        ensures
            r == (self@.inner matches Some(InnerView::Table(t)) && t.entries.len() > 0),
    {
        match &self.value {
            Some(ValueInner::Table(table)) => !table.is_empty(),
            _ => false,
        }
    }

    /// Returns true if the value is a table that has the key `key`.
    pub fn has_key(&self, key: &str) -> (r: bool)
        ensures
            r == (self@.inner matches Some(InnerView::Table(t)) && t.contains(key.spec_bytes())),
    {
        match &self.value {
            Some(ValueInner::Table(table)) => table.contains_key(key),
            _ => false,
        }
    }

    /// Takes the payload, which must be there, and returns it if it is a
    /// string. Any other payload is dropped, and the error says that `msg`,
    /// or else `a string`, was expected.
    pub fn take_string(&mut self, msg: Option<&'static str>) -> (r: Result<Cow<'de, str>, Error>)
        requires
            old(self).value is Some,
        ensures
            final(self)@ == old(self)@.taken(),
            match r {
                Ok(s) => old(self)@.inner == Some(InnerView::String(text_view(s))),
                Err(e) => !(old(self)@.inner->0 is String) && e@ == wanted(
                    match msg {
                        Some(m) => m@,
                        None => "a string"@,
                    },
                    old(self)@.inner->0,
                    old(self).span,
                ),
            },
    {
        match self.take() {
            ValueInner::String(s) => Ok(s),
            other => {
                let expected = match msg {
                    Some(m) => m,
                    None => "a string",
                };
                Err(Error::new(ErrorKind::Wanted { expected, found: other.type_str() }, self.span))
            },
        }
    }

    /// The string, where the payload is there and is one.
    pub fn as_str(&self) -> (r: Option<&str>)
        ensures
            match r {
                Some(s) => self@.inner matches Some(InnerView::String(t)) && t.bytes
                    == s.spec_bytes(),
                None => !(self@.inner matches Some(InnerView::String(_))),
            },
    {
        match &self.value {
            Some(v) => v.as_str(),
            None => None,
        }
    }

    /// The table, where the payload is there and is one.
    pub fn as_table(&self) -> (r: Option<&Table<'de>>)
        ensures
            match r {
                Some(t) => self.value == Some(ValueInner::Table(*t)),
                None => !(self@.inner matches Some(InnerView::Table(_))),
            },
    {
        match &self.value {
            Some(v) => v.as_table(),
            None => None,
        }
    }

    /// The array, where the payload is there and is one.
    pub fn as_array(&self) -> (r: Option<&Array<'de>>)
        ensures
            match r {
                Some(a) => self.value == Some(ValueInner::Array(*a)),
                None => !(self@.inner matches Some(InnerView::Array(_))),
            },
    {
        match &self.value {
            Some(v) => v.as_array(),
            None => None,
        }
    }

    /// The integer, where the payload is there and is one.
    pub fn as_integer(&self) -> (r: Option<i64>)
        ensures
            match r {
                Some(i) => self@.inner == Some(InnerView::Integer(i)),
                None => !(self@.inner matches Some(InnerView::Integer(_))),
            },
    {
        match &self.value {
            Some(v) => v.as_integer(),
            None => None,
        }
    }

    /// The text of the floating-point literal, where the payload is there
    /// and is one.
    pub fn as_float(&self) -> (r: Option<&str>)
        ensures
            match r {
                Some(f) => self@.inner matches Some(InnerView::Float(t)) && t.bytes
                    == f.spec_bytes(),
                None => !(self@.inner matches Some(InnerView::Float(_))),
            },
    {
        match &self.value {
            Some(v) => v.as_float(),
            None => None,
        }
    }

    /// The boolean, where the payload is there and is one.
    pub fn as_bool(&self) -> (r: Option<bool>)
        ensures
            match r {
                Some(b) => self@.inner == Some(InnerView::Boolean(b)),
                None => !(self@.inner matches Some(InnerView::Boolean(_))),
            },
    {
        match &self.value {
            Some(v) => v.as_bool(),
            None => None,
        }
    }
}

/// A value that holds a table is well formed exactly when the table is; one
/// that holds an array, when every element is.
pub proof fn lemma_value_wf(v: ValueView)
    ensures
        v.inner matches Some(InnerView::Table(t)) ==> (v.wf() <==> (unique_keys(t.entries)
            && forall|i: int| 0 <= i < t.entries.len() ==> (#[trigger] t.entries[i]).1.wf())),
        v.inner matches Some(InnerView::Table(t)) ==> (v.wf() <==> t.wf()),
        v.inner matches Some(InnerView::Array(a)) ==> (v.wf() <==> forall|i: int|
            0 <= i < a.len() ==> (#[trigger] a[i]).wf()),
{
    reveal_with_fuel(ValueView::wf, 2);
    reveal_with_fuel(TableView::wf, 2);
}

/// No table of a well-formed tree has a key twice: two entries of a table
/// have different names, and the values of its entries are well formed in
/// turn, so that the same holds of every table below.
pub proof fn law_keys_are_unique(t: TableView, i: int, j: int)
    requires
        t.wf(),
        0 <= i < t.entries.len(),
        0 <= j < t.entries.len(),
        i != j,
    ensures
        t.entries[i].0.name != t.entries[j].0.name,
        t.entries[i].1.wf(),
{
    if i < j {
        assert(t.entries[i].0.name != t.entries[j].0.name);
    } else {
        assert(t.entries[j].0.name != t.entries[i].0.name);
    }
}

/// The payload that was put into a value is the payload that is taken out
/// of it next; after that, or after any taking, the value has no payload
/// until one is put in again, so that it cannot be taken twice. Neither
/// taking nor putting changes the span.
pub proof fn law_take_and_set(v: ValueView, x: InnerView)
    ensures
        v.with_inner(x).inner == Some(x),
        v.taken().inner is None,
        v.with_inner(x).taken() == v.taken(),
        v.taken().with_inner(x) == v.with_inner(x),
        v.with_inner(x).span == v.span,
        v.taken().span == v.span,
{
}

} // verus!
