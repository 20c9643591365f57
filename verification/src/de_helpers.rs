//! Help for reading records out of a value tree: a table from which fields
//! are taken one by one while the errors are gathered, and the reading of
//! the primitive types.

use crate::Deserialize;
use crate::error::{error_at, error_views, DeserError, Error, ErrorKind, ErrorKindView, ErrorView};
use crate::span::{Span, Spanned};
use crate::table::{lemma_position, lemma_table_view};
use crate::text::{concat3, cow_bytes, cow_str};
use crate::value::{
    array_view, lemma_array_view, lemma_value_view, lemma_whole, wanted, InnerView, Key, KeyView,
    Table, TableView, Value, ValueInner, ValueView,
};
use std::borrow::Cow;
use vstd::prelude::*;
use vstd::string::*;
use vstd::utf8::*;

verus! {

/// The error for a value of the wrong type: `expected` names what was
/// wanted, `found` is what was there, `span` is where.
pub fn expected(what: &'static str, found: ValueInner<'_>, span: Span) -> (e: Error)
    ensures
        e@ == wanted(what@, found@, span),
{
    Error::new(ErrorKind::Wanted { expected: what, found: found.type_str() }, span)
}

/// Whether `outcome` is what reading the value `held` as a `T` gives: what
/// the contract of `T::deserialize` says of a call on `held`.
pub open spec fn reads<'de, T: Deserialize<'de>>(
    held: Value<'de>,
    outcome: Result<T, DeserError>,
) -> bool {
    exists|m: &mut Value<'de>| *m == held && #[trigger] call_ensures(T::deserialize, (m,), outcome)
}

/// Reads `value`, which must be whole, as a `T`: the result, and what the
/// value holds afterwards, are what the contract of `T::deserialize` says of
/// a call on it.
pub fn read_as<'de, T: Deserialize<'de>>(value: &mut Value<'de>) -> (r: Result<T, DeserError>)
    requires
        old(value)@.whole(),
    ensures
        reads::<T>(*old(value), r),
        exists|m: &mut Value<'de>|
            *m == *old(value) && *final(m) == *final(value) && #[trigger] call_ensures(
                T::deserialize,
                (m,),
                r,
            ),
        r matches Err(e) ==> e.errors.len() > 0,
{
    T::deserialize(value)
}

/// The outcome of reading a `T`, with the span `span` put beside a value
/// that was read.
pub open spec fn spanned<T>(outcome: Result<T, DeserError>, span: Span) -> Result<
    Spanned<T>,
    DeserError,
> {
    match outcome {
        Ok(v) => Ok(Spanned { value: v, span }),
        Err(e) => Err(e),
    }
}

/// The one error `e` as a set of errors.
pub open spec fn only(e: ErrorView) -> Seq<ErrorView> {
    seq![e]
}

/// The set of errors that holds `e` alone.
fn only_error(e: Error) -> (d: DeserError)
    ensures
        error_views(d.errors@) == only(e@),
        d.errors.len() == 1,
{
    let d = DeserError::from(e);
    assert(error_views(d.errors@) =~= only(e@));
    d
}

/// The error for a string that could not be read as what was wanted:
/// `message` says why, `span` is where the string stands.
pub open spec fn parse_failure(message: Seq<char>, span: Span) -> ErrorView {
    error_at(ErrorKindView::Custom("failed to parse string: "@ + message), span)
}

/// Whether `r` is what reading the value `held` as a string with `from_str`
/// gives: for a string, what `from_str` makes of it, its message as a custom
/// error at the span of the value where it fails; for any other payload the
/// error that a string was expected.
pub open spec fn read_with<T, F: FnOnce(&str) -> Result<T, String>>(
    from_str: F,
    held: ValueView,
    r: Result<T, ErrorView>,
) -> bool {
    match held.inner {
        Some(InnerView::String(text)) => exists|s: &str|
            #![trigger s.spec_bytes()]
            s.spec_bytes() == text.bytes && match r {
                Ok(v) => from_str.ensures((s,), Ok(v)),
                Err(e) => exists|m: String|
                    #![trigger m@]
                    from_str.ensures((s,), Err(m)) && e == parse_failure(m@, held.span),
            },
        Some(other) => r == Err::<T, ErrorView>(wanted("a string"@, other, held.span)),
        None => false,
    }
}

/// The outcome `r` with its error as a view.
pub open spec fn outcome_view<T>(r: Result<T, Error>) -> Result<T, ErrorView> {
    match r {
        Ok(v) => Ok(v),
        Err(e) => Err(e@),
    }
}

/// Takes the payload of `value`, which must be there, as a string and reads
/// it with `from_str`. The result is what `from_str` makes of the string;
/// where it fails, its message becomes a custom error at the span of the
/// value. A payload that is no string is an error of its own.
pub fn parse<'de, T, F: FnOnce(&str) -> Result<T, String>>(value: &mut Value<'de>, from_str: F) -> (r:
    Result<T, Error>)
    requires
        old(value).value is Some,
        forall|s: &str| #[trigger] from_str.requires((s,)),
    ensures
        final(value)@ == old(value)@.taken(),
        read_with(from_str, old(value)@, outcome_view(r)),
{
    let span = value.span;
    match value.take_string(None) {
        Err(e) => Err(e),
        Ok(text) => {
            let s = cow_str(&text);
            match from_str(s) {
                Ok(v) => Ok(v),
                Err(m) => {
                    let e = Error::new(
                        ErrorKind::Custom(concat3("failed to parse string: ", m.as_str(), "")),
                        span,
                    );
                    proof {
                        assert("failed to parse string: "@ + m@ + ""@ =~= "failed to parse string: "@
                            + m@) by {
                            reveal_strlit("");
                        }
                    }
                    Err(e)
                },
            }
        },
    }
}

/// A table from which fields are taken by name while the errors of reading
/// them are gathered.
pub struct TableHelper<'de> {
    /// The entries that have not been taken yet.
    pub table: Table<'de>,
    /// The errors so far, in the order in which they were found.
    pub errors: Vec<Error>,
}

/// The error for a field that the table lacks; it has no place in the
/// source, so its span is empty.
pub open spec fn missing_field(name: Seq<char>) -> ErrorView {
    error_at(ErrorKindView::MissingField(name), Span { start: 0, end: 0 })
}

/// The names and spans of the keys of a table, in order.
pub open spec fn key_list(t: TableView) -> Seq<(Seq<char>, Span)> {
    t.entries.map_values(|e: (KeyView, ValueView)| (decode_utf8(e.0.name), e.0.span))
}

/// The error for the keys that were left in a table that should have been
/// used up.
pub open spec fn unexpected_keys(t: TableView) -> ErrorView {
    error_at(ErrorKindView::UnexpectedKeys { keys: key_list(t) }, Span { start: 0, end: 0 })
}

/// The errors that finishing a helper reports: those gathered, and, where
/// the table is not handed back and still has entries, one more for its
/// keys.
pub open spec fn final_errors(table: TableView, errors: Seq<ErrorView>, kept: bool) -> Seq<
    ErrorView,
> {
    if !kept && table.entries.len() > 0 {
        errors.push(unexpected_keys(table))
    } else {
        errors
    }
}

/// The views of errors that were appended are appended to the views.
pub proof fn lemma_error_views_add(a: Seq<Error>, b: Seq<Error>)
    ensures
        error_views(a + b) == error_views(a) + error_views(b),
        forall|e: Error| error_views(a.push(e)) == error_views(a).push(e@),
{
    assert(error_views(a + b) =~= error_views(a) + error_views(b));
    assert forall|e: Error| error_views(a.push(e)) == error_views(a).push(e@) by {
        assert(error_views(a.push(e)) =~= error_views(a).push(e@));
    }
}

/// The value under the key `name` in the table, if there is one.
pub open spec fn field<'de>(table: Table<'de>, name: Seq<u8>) -> Option<Value<'de>> {
    if table@.contains(name) {
        Some(table.entries@[table@.position(name)].1)
    } else {
        None
    }
}

/// What a helper does with the outcome of reading a required field: a value
/// is handed on and the errors stay as they were; the errors of an error set
/// are appended to those gathered, and the last of them is handed on.
pub open spec fn settled<T>(
    before: Seq<Error>,
    outcome: Result<T, DeserError>,
    r: Result<T, Error>,
    after: Seq<Error>,
) -> bool {
    match outcome {
        Ok(v) => r == Ok::<T, Error>(v) && after == before,
        Err(d) => {
            &&& after.len() == before.len() + d.errors@.len()
            &&& after.take(before.len() as int) == before
            &&& error_views(after) == error_views(before) + error_views(d.errors@)
            &&& r matches Err(e) && e@ == d.errors@.last()@
        },
    }
}

/// What a helper does with the outcome of reading a field that may be
/// missing: a value is handed on and the errors stay as they were; the
/// errors of an error set are appended to those gathered, and nothing is
/// handed on.
pub open spec fn absorbed<T>(
    before: Seq<Error>,
    outcome: Result<T, DeserError>,
    r: Option<T>,
    after: Seq<Error>,
) -> bool {
    match outcome {
        Ok(v) => r == Some(v) && after == before,
        Err(d) => {
            &&& after.len() == before.len() + d.errors@.len()
            &&& after.take(before.len() as int) == before
            &&& error_views(after) == error_views(before) + error_views(d.errors@)
            &&& r is None
        },
    }
}

/// The outcome of reading a value with its span, without the span.
pub open spec fn unspanned<T>(outcome: Result<Spanned<T>, DeserError>) -> Result<T, DeserError> {
    match outcome {
        Ok(s) => Ok(s.value),
        Err(e) => Err(e),
    }
}

impl<'de> From<Table<'de>> for TableHelper<'de> {
    /// The helper that reads from `table`, with no error yet.
    fn from(table: Table<'de>) -> (h: TableHelper<'de>)
        ensures
            h.table == table,
            h.errors@.len() == 0,
    {
        TableHelper { table, errors: Vec::new() }
    }
}

impl<'de> vstd::std_specs::convert::FromSpecImpl<Table<'de>> for TableHelper<'de> {
    open spec fn obeys_from_spec() -> bool {
        false
    }

    open spec fn from_spec(table: Table<'de>) -> TableHelper<'de> {
        arbitrary()
    }
}

impl<'de> TableHelper<'de> {
    /// Takes the payload of `value`, which must be there, as the table to
    /// read from. A payload that is no table is an error.
    pub fn new(value: &mut Value<'de>) -> (r: Result<TableHelper<'de>, DeserError>)
        requires
            old(value).value is Some,
        ensures
            final(value)@ == old(value)@.taken(),
            match r {
                Ok(h) => old(value).value == Some(ValueInner::Table(h.table)) && h.errors@.len()
                    == 0 && (old(value)@.whole() ==> h.table@.whole()),
                Err(e) => !(old(value)@.inner->0 is Table) && error_views(e.errors@) == only(
                    wanted("a table"@, old(value)@.inner->0, old(value).span),
                ) && e.errors.len() == 1,
            },
    {
        proof {
            lemma_whole(old(value)@);
            lemma_value_view(*old(value));
        }
        match value.take() {
            ValueInner::Table(table) => Ok(TableHelper { errors: Vec::new(), table }),
            other => Err(only_error(expected("a table", other, value.span))),
        }
    }

    /// Whether the table still has the key `name`.
    pub fn contains(&self, name: &str) -> (r: bool)
        ensures
            r == self.table@.contains(name.spec_bytes()),
    {
        self.table.contains_key(name)
    }

    /// Takes the entry with the key `name` out of the table.
    pub fn take(&mut self, name: &str) -> (r: Option<(Key<'de>, Value<'de>)>)
        ensures
            final(self).errors == old(self).errors,
            r is Some == old(self).table@.contains(name.spec_bytes()),
            match r {
                Some(e) => {
                    let i = old(self).table@.position(name.spec_bytes());
                    e == old(self).table.entries@[i] && final(self).table@ == old(
                        self,
                    ).table@.without(i)
                },
                None => final(self).table == old(self).table,
            },
            old(self).table@.wf() ==> final(self).table@.wf(),
            old(self).table@.whole() ==> final(self).table@.whole(),
    {
        self.table.remove_entry(name)
    }

    /// Adds what went wrong in reading a field to the errors: where the
    /// outcome is an error set, which must not be empty, its errors are
    /// appended and the last of them is returned.
    pub fn settle<T>(&mut self, outcome: Result<T, DeserError>) -> (r: Result<T, Error>)
        requires
            outcome matches Err(d) ==> d.errors.len() > 0,
        ensures
            final(self).table == old(self).table,
            settled(old(self).errors@, outcome, r, final(self).errors@),
    {
        match outcome {
            Ok(v) => Ok(v),
            Err(d) => {
                let mut d = d;
                let ghost added = d.errors@;
                let e = d.errors[d.errors.len() - 1].clone();
                self.errors.append(&mut d.errors);
                proof {
                    lemma_error_views_add(old(self).errors@, added);
                    assert(self.errors@.take(old(self).errors@.len() as int) =~= old(self).errors@);
                }
                Err(e)
            },
        }
    }

    /// Adds what went wrong in reading a field to the errors, and returns
    /// what was read, if anything.
    pub fn absorb<T>(&mut self, outcome: Result<T, DeserError>) -> (r: Option<T>)
        ensures
            final(self).table == old(self).table,
            absorbed(old(self).errors@, outcome, r, final(self).errors@),
    {
        match outcome {
            Ok(v) => Some(v),
            Err(d) => {
                let mut d = d;
                let ghost added = d.errors@;
                self.errors.append(&mut d.errors);
                proof {
                    lemma_error_views_add(old(self).errors@, added);
                    assert(self.errors@.take(old(self).errors@.len() as int) =~= old(self).errors@);
                }
                None
            },
        }
    }

    /// Adds the error that the field `name` is missing, and returns it.
    fn miss(&mut self, name: &'static str) -> (e: Error)
        ensures
            final(self).table == old(self).table,
            e@ == missing_field(name@),
            final(self).errors.len() == old(self).errors.len() + 1,
            final(self).errors@ == old(self).errors@.push(final(self).errors@.last()),
            final(self).errors@.last()@ == missing_field(name@),
            error_views(final(self).errors@) == error_views(old(self).errors@).push(
                missing_field(name@),
            ),
    {
        let span = Span { start: 0, end: 0 };
        self.errors.push(Error::new(ErrorKind::MissingField(name), span));
        proof {
            lemma_error_views_add(old(self).errors@, Seq::empty());
        }
        Error::new(ErrorKind::MissingField(name), span)
    }

    /// Takes the value of the field `name` and reads it as a `T`, with its
    /// span. The entry leaves the table. A missing field is an error, and so
    /// is a value that cannot be read: the errors are added to those
    /// gathered, and the last of them is returned.
    pub fn required_s<T: Deserialize<'de>>(&mut self, name: &'static str) -> (r: Result<
        Spanned<T>,
        Error,
    >)
        requires
            old(self).table@.get(name.spec_bytes()) matches Some(v) ==> v.whole(),
        ensures
            match field(old(self).table, name.spec_bytes()) {
                None => final(self).table == old(self).table && (r matches Err(e) && e@
                    == missing_field(name@)) && error_views(final(self).errors@) == error_views(
                    old(self).errors@,
                ).push(missing_field(name@)),
                Some(held) => final(self).table@ == old(self).table@.without(
                    old(self).table@.position(name.spec_bytes()),
                ) && exists|outcome: Result<Spanned<T>, DeserError>|
                    reads::<Spanned<T>>(held, outcome) && #[trigger] settled(
                        old(self).errors@,
                        outcome,
                        r,
                        final(self).errors@,
                    ),
            },
            r matches Ok(s) ==> s.span == old(self).table@.get(name.spec_bytes())->0.span,
            r matches Err(e) ==> final(self).errors.len() > old(self).errors.len() && e@
                == final(self).errors@.last()@,
            final(self).errors@.len() >= old(self).errors@.len(),
            final(self).errors@.take(old(self).errors@.len() as int) == old(self).errors@,
            old(self).table@.wf() ==> final(self).table@.wf(),
            old(self).table@.whole() ==> final(self).table@.whole(),
    {
        proof {
            lemma_position(self.table@, name.spec_bytes());
            lemma_table_view(self.table);
        }
        let ghost before = self.errors@;
        match self.table.remove(name) {
            None => {
                let e = self.miss(name);
                proof {
                    assert(self.errors@.take(before.len() as int) =~= before);
                }
                Err(e)
            },
            Some(held) => {
                let mut held = held;
                let outcome = read_as::<Spanned<T>>(&mut held);
                let ghost o = outcome;
                let r = self.settle(outcome);
                proof {
                    assert(settled(before, o, r, self.errors@));
                    if r is Err {
                        let added = o->Err_0.errors@;
                        lemma_error_views_add(before, added);
                        assert(error_views(self.errors@).last() == error_views(added).last());
                        assert(error_views(self.errors@).last() == self.errors@.last()@);
                        assert(error_views(added).last() == added.last()@);
                    }
                }
                r
            },
        }
    }

    /// Takes the value of the field `name` and reads it as a `T`.
    pub fn required<T: Deserialize<'de>>(&mut self, name: &'static str) -> (r: Result<T, Error>)
        requires
            old(self).table@.get(name.spec_bytes()) matches Some(v) ==> v.whole(),
        ensures
            match field(old(self).table, name.spec_bytes()) {
                None => final(self).table == old(self).table && (r matches Err(e) && e@
                    == missing_field(name@)) && error_views(final(self).errors@) == error_views(
                    old(self).errors@,
                ).push(missing_field(name@)),
                Some(held) => final(self).table@ == old(self).table@.without(
                    old(self).table@.position(name.spec_bytes()),
                ) && exists|outcome: Result<Spanned<T>, DeserError>|
                    reads::<Spanned<T>>(held, outcome) && #[trigger] settled(
                        old(self).errors@,
                        unspanned(outcome),
                        r,
                        final(self).errors@,
                    ),
            },
            r matches Err(e) ==> final(self).errors.len() > old(self).errors.len() && e@
                == final(self).errors@.last()@,
            final(self).errors@.len() >= old(self).errors@.len(),
            final(self).errors@.take(old(self).errors@.len() as int) == old(self).errors@,
            old(self).table@.wf() ==> final(self).table@.wf(),
            old(self).table@.whole() ==> final(self).table@.whole(),
    {
        let ghost held = field(self.table, name.spec_bytes());
        let ghost before = self.errors@;
        let got = self.required_s::<T>(name);
        proof {
            if held is Some {
                let outcome = choose|outcome: Result<Spanned<T>, DeserError>|
                    reads::<Spanned<T>>(held->0, outcome) && #[trigger] settled(
                        before,
                        outcome,
                        got,
                        self.errors@,
                    );
                assert(settled(
                    before,
                    unspanned(outcome),
                    match got {
                        Ok(s) => Ok::<T, Error>(s.value),
                        Err(e) => Err::<T, Error>(e),
                    },
                    self.errors@,
                ));
            }
        }
        match got {
            Ok(s) => Ok(s.value),
            Err(e) => Err(e),
        }
    }

    /// Takes the value of the field `name`, if the table has it, and reads
    /// it as a `T`, with its span. Where it cannot be read, the errors are
    /// added to those gathered.
    pub fn optional_s<T: Deserialize<'de>>(&mut self, name: &'static str) -> (r: Option<Spanned<T>>)
        requires
            old(self).table@.get(name.spec_bytes()) matches Some(v) ==> v.whole(),
        ensures
            match field(old(self).table, name.spec_bytes()) {
                None => r is None && *final(self) == *old(self),
                Some(held) => final(self).table@ == old(self).table@.without(
                    old(self).table@.position(name.spec_bytes()),
                ) && exists|outcome: Result<Spanned<T>, DeserError>|
                    reads::<Spanned<T>>(held, outcome) && #[trigger] absorbed(
                        old(self).errors@,
                        outcome,
                        r,
                        final(self).errors@,
                    ),
            },
            r matches Some(s) ==> s.span == old(self).table@.get(name.spec_bytes())->0.span,
            final(self).errors@.len() >= old(self).errors@.len(),
            final(self).errors@.take(old(self).errors@.len() as int) == old(self).errors@,
            old(self).table@.wf() ==> final(self).table@.wf(),
            old(self).table@.whole() ==> final(self).table@.whole(),
    {
        proof {
            lemma_position(self.table@, name.spec_bytes());
            lemma_table_view(self.table);
            assert(self.errors@.take(self.errors@.len() as int) =~= self.errors@);
        }
        let ghost before = self.errors@;
        match self.table.remove(name) {
            None => None,
            Some(held) => {
                let mut held = held;
                let outcome = read_as::<Spanned<T>>(&mut held);
                let ghost o = outcome;
                let r = self.absorb(outcome);
                proof {
                    assert(absorbed(before, o, r, self.errors@));
                }
                r
            },
        }
    }

    /// Takes the value of the field `name`, if the table has it, and reads
    /// it as a `T`.
    pub fn optional<T: Deserialize<'de>>(&mut self, name: &'static str) -> (r: Option<T>)
        requires
            old(self).table@.get(name.spec_bytes()) matches Some(v) ==> v.whole(),
        ensures
            match field(old(self).table, name.spec_bytes()) {
                None => r is None && *final(self) == *old(self),
                Some(held) => final(self).table@ == old(self).table@.without(
                    old(self).table@.position(name.spec_bytes()),
                ) && exists|outcome: Result<Spanned<T>, DeserError>|
                    reads::<Spanned<T>>(held, outcome) && #[trigger] absorbed(
                        old(self).errors@,
                        unspanned(outcome),
                        r,
                        final(self).errors@,
                    ),
            },
            final(self).errors@.len() >= old(self).errors@.len(),
            final(self).errors@.take(old(self).errors@.len() as int) == old(self).errors@,
            old(self).table@.wf() ==> final(self).table@.wf(),
            old(self).table@.whole() ==> final(self).table@.whole(),
    {
        let ghost held = field(self.table, name.spec_bytes());
        let ghost before = self.errors@;
        let got = self.optional_s::<T>(name);
        proof {
            if held is Some {
                let outcome = choose|outcome: Result<Spanned<T>, DeserError>|
                    reads::<Spanned<T>>(held->0, outcome) && #[trigger] absorbed(
                        before,
                        outcome,
                        got,
                        self.errors@,
                    );
                assert(absorbed(
                    before,
                    unspanned(outcome),
                    match got {
                        Some(s) => Some(s.value),
                        None => None::<T>,
                    },
                    self.errors@,
                ));
            }
        }
        match got {
            Some(s) => Some(s.value),
            None => None,
        }
    }

    /// Takes the value of the field `name` and reads it as a `T`; where the
    /// table lacks the field, or the value cannot be read, the result is
    /// what `def` makes, with the empty span. Errors of reading are added to
    /// those gathered.
    pub fn with_default<T: Deserialize<'de>, F: FnOnce() -> T>(
        &mut self,
        name: &'static str,
        def: F,
    ) -> (r: (T, Span))
        requires
            old(self).table@.get(name.spec_bytes()) matches Some(v) ==> v.whole(),
            def.requires(()),
        ensures
            match field(old(self).table, name.spec_bytes()) {
                None => *final(self) == *old(self) && def.ensures((), r.0) && r.1 == (Span {
                    start: 0,
                    end: 0,
                }),
                Some(held) => final(self).table@ == old(self).table@.without(
                    old(self).table@.position(name.spec_bytes()),
                ) && exists|outcome: Result<T, DeserError>| #[trigger]
                    reads::<T>(held, outcome) && absorbed(
                        old(self).errors@,
                        outcome,
                        if outcome is Ok {
                            Some(r.0)
                        } else {
                            None
                        },
                        final(self).errors@,
                    ) && match outcome {
                        Ok(_) => r.1 == held.span,
                        Err(_) => def.ensures((), r.0) && r.1 == (Span { start: 0, end: 0 }),
                    },
            },
            final(self).errors@.len() >= old(self).errors@.len(),
            final(self).errors@.take(old(self).errors@.len() as int) == old(self).errors@,
            old(self).table@.wf() ==> final(self).table@.wf(),
            old(self).table@.whole() ==> final(self).table@.whole(),
    {
        proof {
            lemma_position(self.table@, name.spec_bytes());
            lemma_table_view(self.table);
            assert(self.errors@.take(self.errors@.len() as int) =~= self.errors@);
        }
        let ghost before = self.errors@;
        match self.table.remove(name) {
            None => (def(), Span { start: 0, end: 0 }),
            Some(held) => {
                let mut held = held;
                let ghost h = held;
                let span = held.span;
                let outcome = read_as::<T>(&mut held);
                let ghost o = outcome;
                let read = self.absorb(outcome);
                let r = match read {
                    Some(v) => (v, span),
                    None => (def(), Span { start: 0, end: 0 }),
                };
                proof {
                    assert(absorbed(
                        before,
                        o,
                        if o is Ok {
                            Some(r.0)
                        } else {
                            None
                        },
                        self.errors@,
                    ));
                }
                r
            },
        }
    }

    /// Takes the value of the field `name`, if the table has it, as a string
    /// and reads it with `from_str`. Where that fails, or the value is no
    /// string, the error is added to those gathered.
    pub fn parse_opt<T, F: FnOnce(&str) -> Result<T, String>>(
        &mut self,
        name: &'static str,
        from_str: F,
    ) -> (r: Option<T>)
        requires
            old(self).table@.get(name.spec_bytes()) matches Some(v) ==> v.inner is Some,
            forall|s: &str| #[trigger] from_str.requires((s,)),
        ensures
            match old(self).table@.get(name.spec_bytes()) {
                None => r is None && *final(self) == *old(self),
                Some(held) => final(self).table@ == old(self).table@.without(
                    old(self).table@.position(name.spec_bytes()),
                ) && match r {
                    Some(v) => final(self).errors == old(self).errors && read_with(
                        from_str,
                        held,
                        Ok(v),
                    ),
                    None => final(self).errors@.len() == old(self).errors@.len() + 1
                        && final(self).errors@.take(old(self).errors@.len() as int) == old(
                        self,
                    ).errors@ && read_with(
                        from_str,
                        held,
                        Err::<T, ErrorView>(final(self).errors@.last()@),
                    ),
                },
            },
            old(self).table@.wf() ==> final(self).table@.wf(),
            old(self).table@.whole() ==> final(self).table@.whole(),
    {
        proof {
            lemma_position(self.table@, name.spec_bytes());
            lemma_table_view(self.table);
        }
        let ghost before = self.errors@;
        match self.table.remove(name) {
            None => None,
            Some(held) => {
                let mut held = held;
                match parse(&mut held, from_str) {
                    Ok(v) => Some(v),
                    Err(e) => {
                        self.errors.push(e);
                        proof {
                            assert(self.errors@.take(before.len() as int) =~= before);
                        }
                        None
                    },
                }
            },
        }
    }

    /// Takes the value of the field `name` as a string and reads it with
    /// `from_str`. Where the table lacks the field, the value is no string
    /// or cannot be read, the error is added to those gathered and the
    /// result is the default of `T`.
    pub fn parse<T: Default, F: FnOnce(&str) -> Result<T, String>>(
        &mut self,
        name: &'static str,
        from_str: F,
    ) -> (r: T)
        requires
            old(self).table@.get(name.spec_bytes()) matches Some(v) ==> v.inner is Some,
            forall|s: &str| #[trigger] from_str.requires((s,)),
        ensures
            final(self).errors@ == old(self).errors@ || (final(self).errors@.len() == old(
                self,
            ).errors@.len() + 1 && final(self).errors@.take(old(self).errors@.len() as int) == old(
                self,
            ).errors@ && call_ensures(T::default, (), r)),
            match old(self).table@.get(name.spec_bytes()) {
                None => final(self).table == old(self).table && final(self).errors@.len() == old(
                    self,
                ).errors@.len() + 1 && final(self).errors@.last()@ == missing_field(name@),
                Some(held) => final(self).table@ == old(self).table@.without(
                    old(self).table@.position(name.spec_bytes()),
                ) && if final(self).errors@ == old(self).errors@ {
                    read_with(from_str, held, Ok(r))
                } else {
                    final(self).errors@.len() == old(self).errors@.len() + 1 && read_with(
                        from_str,
                        held,
                        Err::<T, ErrorView>(final(self).errors@.last()@),
                    )
                },
            },
            old(self).table@.wf() ==> final(self).table@.wf(),
            old(self).table@.whole() ==> final(self).table@.whole(),
    {
        proof {
            lemma_position(self.table@, name.spec_bytes());
        }
        let ghost before = self.errors@;
        if !self.table.contains_key(name) {
            let _ = self.miss(name);
            proof {
                assert(self.errors@.take(before.len() as int) =~= before);
            }
            return T::default();
        }
        match self.parse_opt(name, from_str) {
            Some(v) => {
                proof {
                    assert(self.errors@.take(before.len() as int) =~= before);
                }
                v
            },
            None => T::default(),
        }
    }
}

/// The names and spans of the keys of the table.
fn keys_of(table: &Table<'_>) -> (keys: Vec<(String, Span)>)
    ensures
        keys@.map_values(|k: (String, Span)| (k.0@, k.1)) == key_list(table@),
{
    let mut keys: Vec<(String, Span)> = Vec::new();
    let mut i: usize = 0;
    proof {
        lemma_table_view(*table);
    }
    while i < table.entries.len()
        invariant
            i <= table.entries.len(),
            keys.len() == i,
            forall|j: int|
                0 <= j < i ==> (#[trigger] keys@[j]).0@ == decode_utf8(table@.entries[j].0.name)
                    && keys@[j].1 == table@.entries[j].0.span,
        decreases table.entries.len() - i,
    {
        let key = &table.entries[i].0;
        proof {
            lemma_table_view(*table);
            encode_utf8_decode_utf8(key.name@);
        }
        keys.push((cow_str(&key.name).to_owned(), key.span));
        i += 1;
    }
    proof {
        lemma_table_view(*table);
        assert(keys@.map_values(|k: (String, Span)| (k.0@, k.1)) =~= key_list(table@));
    }
    keys
}

impl<'de> TableHelper<'de> {
    /// Ends the reading. With `original`, the table with the entries that
    /// are left is put back into it, so that the caller can go on reading
    /// them. Without, entries that are left are an error, which names their
    /// keys. The result is the set of all errors, if there are any.
    pub fn finalize(self, original: Option<&mut Value<'de>>) -> (r: Result<(), DeserError>)
        ensures
            original matches Some(o) ==> final(o)@ == (*o)@.with_inner(
                InnerView::Table(self.table@),
            ) && (self.table@.whole() ==> final(o)@.whole()),
            match r {
                Ok(()) => final_errors(self.table@, error_views(self.errors@), original is Some)
                    .len() == 0,
                Err(d) => d.errors.len() > 0 && error_views(d.errors@) == final_errors(
                    self.table@,
                    error_views(self.errors@),
                    original is Some,
                ),
            },
    {
        let TableHelper { table, errors } = self;
        let mut errors = errors;
        proof {
            if original is Some {
                lemma_whole(original->0@.with_inner(InnerView::Table(table@)));
            }
        }
        match original {
            Some(o) => {
                o.set(ValueInner::Table(table));
            },
            None => {
                if !table.is_empty() {
                    let keys = keys_of(&table);
                    proof {
                        lemma_error_views_add(errors@, Seq::empty());
                    }
                    errors.push(
                        Error::new(ErrorKind::UnexpectedKeys { keys }, Span { start: 0, end: 0 }),
                    );
                }
            },
        }
        if errors.len() == 0 {
            Ok(())
        } else {
            Err(DeserError { errors })
        }
    }
}

impl<'de, T: Deserialize<'de>> Deserialize<'de> for Spanned<T> {
    /// Reads a `T` and keeps the span of the value that it was read from.
    /// What the value holds afterwards is what reading the `T` left in it.
    fn deserialize(value: &mut Value<'de>) -> (r: Result<Spanned<T>, DeserError>)
        ensures
            exists|outcome: Result<T, DeserError>|
                reads::<T>(*old(value), outcome) && r == #[trigger] spanned(
                    outcome,
                    old(value).span,
                ),
            exists|m: &mut Value<'de>, outcome: Result<T, DeserError>|
                *m == *old(value) && *final(m) == *final(value) && #[trigger] call_ensures(
                    T::deserialize,
                    (m,),
                    outcome,
                ) && r == spanned(outcome, old(value).span),
            r matches Ok(s) ==> s.span == old(value).span,
    {
        let span = value.span;
        let outcome = read_as::<T>(value);
        let ghost o = outcome;
        let r = match outcome {
            Ok(v) => Ok(Spanned { value: v, span }),
            Err(e) => Err(e),
        };
        assert(r == spanned(o, span));
        r
    }
}

/// What reading a string out of the value `v` gives: its bytes, or the error
/// that `what` was expected.
pub open spec fn string_outcome(v: ValueView, what: Seq<char>) -> Result<Seq<u8>, Seq<ErrorView>> {
    match v.inner {
        Some(InnerView::String(text)) => Ok(text.bytes),
        Some(other) => Err(only(wanted(what, other, v.span))),
        None => Err(Seq::empty()),
    }
}

impl<'de> Deserialize<'de> for String {
    /// Takes the payload, which must be a string.
    fn deserialize(value: &mut Value<'de>) -> (r: Result<String, DeserError>)
        ensures
            final(value)@ == old(value)@.taken(),
            match string_outcome(old(value)@, "a string"@) {
                Ok(bytes) => r matches Ok(s) && encode_utf8(s@) == bytes,
                Err(errors) => r matches Err(e) && error_views(e.errors@) == errors,
            },
    {
        match value.take_string(None) {
            Ok(s) => Ok(
                match s {
                    Cow::Borrowed(b) => b.to_owned(),
                    Cow::Owned(o) => o,
                },
            ),
            Err(e) => Err(only_error(e)),
        }
    }
}

impl<'de> Deserialize<'de> for Cow<'de, str> {
    /// Takes the payload, which must be a string; it stays borrowed from
    /// the source where it was.
    fn deserialize(value: &mut Value<'de>) -> (r: Result<Cow<'de, str>, DeserError>)
        ensures
            final(value)@ == old(value)@.taken(),
            match string_outcome(old(value)@, "a string"@) {
                Ok(bytes) => r matches Ok(s) && cow_bytes(s) == bytes && old(value).value == Some(
                    ValueInner::String(s),
                ),
                Err(errors) => r matches Err(e) && error_views(e.errors@) == errors,
            },
    {
        match value.take() {
            ValueInner::String(s) => Ok(s),
            other => Err(only_error(expected("a string", other, value.span))),
        }
    }
}

impl<'de> Deserialize<'de> for bool {
    /// Takes the payload, which must be a boolean.
    fn deserialize(value: &mut Value<'de>) -> (r: Result<bool, DeserError>)
        ensures
            final(value)@ == old(value)@.taken(),
            match old(value)@.inner->0 {
                InnerView::Boolean(b) => r == Ok::<bool, DeserError>(b),
                other => r matches Err(e) && error_views(e.errors@) == only(
                    wanted("a bool"@, other, old(value).span),
                ),
            },
    {
        match value.take() {
            ValueInner::Boolean(b) => Ok(b),
            other => Err(only_error(expected("a bool", other, value.span))),
        }
    }
}

/// What reading an integer between `min` and `max` out of the value `v`
/// gives: the integer, or the error that it is out of range, or that `what`
/// was expected.
pub open spec fn integer_outcome(v: ValueView, what: Seq<char>, min: int, max: int) -> Result<
    i64,
    Seq<ErrorView>,
> {
    match v.inner {
        Some(InnerView::Integer(i)) => if min <= i <= max {
            Ok(i)
        } else {
            Err(only(error_at(ErrorKindView::InvalidNumber, v.span)))
        },
        Some(other) => Err(only(wanted(what, other, v.span))),
        None => Err(Seq::empty()),
    }
}

/// Takes the payload, which must be an integer between `min` and `max`;
/// `what` names the type that is being read.
pub fn take_integer<'de>(value: &mut Value<'de>, what: &'static str, min: i64, max: i64) -> (r:
    Result<i64, DeserError>)
    requires
        old(value).value is Some,
    ensures
        final(value)@ == old(value)@.taken(),
        match integer_outcome(old(value)@, what@, min as int, max as int) {
            Ok(i) => r == Ok::<i64, DeserError>(i),
            Err(errors) => r matches Err(e) && error_views(e.errors@) == errors && e.errors.len()
                == 1,
        },
{
    match value.take() {
        ValueInner::Integer(i) => {
            if min <= i && i <= max {
                Ok(i)
            } else {
                Err(only_error(Error::new(ErrorKind::InvalidNumber, value.span)))
            }
        },
        other => Err(only_error(expected(what, other, value.span))),
    }
}

impl<'de> Deserialize<'de> for u8 {
    /// Takes the payload, which must be an integer that fits the type.
    fn deserialize(value: &mut Value<'de>) -> (r: Result<u8, DeserError>)
        ensures
            final(value)@ == old(value)@.taken(),
            match integer_outcome(old(value)@, "u8"@, u8::MIN as int, u8::MAX as int) {
                Ok(i) => r == Ok::<u8, DeserError>(i as u8),
                Err(errors) => r matches Err(e) && error_views(e.errors@) == errors,
            },
    {
        match take_integer(value, "u8", 0, 0xff) {
            Ok(i) => Ok(i as u8),
            Err(e) => Err(e),
        }
    }
}

impl<'de> Deserialize<'de> for u16 {
    /// Takes the payload, which must be an integer that fits the type.
    fn deserialize(value: &mut Value<'de>) -> (r: Result<u16, DeserError>)
        ensures
            final(value)@ == old(value)@.taken(),
            match integer_outcome(old(value)@, "u16"@, u16::MIN as int, u16::MAX as int) {
                Ok(i) => r == Ok::<u16, DeserError>(i as u16),
                Err(errors) => r matches Err(e) && error_views(e.errors@) == errors,
            },
    {
        match take_integer(value, "u16", 0, 0xffff) {
            Ok(i) => Ok(i as u16),
            Err(e) => Err(e),
        }
    }
}

impl<'de> Deserialize<'de> for u32 {
    /// Takes the payload, which must be an integer that fits the type.
    fn deserialize(value: &mut Value<'de>) -> (r: Result<u32, DeserError>)
        ensures
            final(value)@ == old(value)@.taken(),
            match integer_outcome(old(value)@, "u32"@, u32::MIN as int, u32::MAX as int) {
                Ok(i) => r == Ok::<u32, DeserError>(i as u32),
                Err(errors) => r matches Err(e) && error_views(e.errors@) == errors,
            },
    {
        match take_integer(value, "u32", 0, 0xffff_ffff) {
            Ok(i) => Ok(i as u32),
            Err(e) => Err(e),
        }
    }
}

impl<'de> Deserialize<'de> for u64 {
    /// Takes the payload, which must be an integer that is not negative.
    fn deserialize(value: &mut Value<'de>) -> (r: Result<u64, DeserError>)
        ensures
            final(value)@ == old(value)@.taken(),
            match integer_outcome(old(value)@, "u64"@, 0, i64::MAX as int) {
                Ok(i) => r == Ok::<u64, DeserError>(i as u64),
                Err(errors) => r matches Err(e) && error_views(e.errors@) == errors,
            },
    {
        match take_integer(value, "u64", 0, i64::MAX) {
            Ok(i) => Ok(i as u64),
            Err(e) => Err(e),
        }
    }
}

impl<'de> Deserialize<'de> for i8 {
    /// Takes the payload, which must be an integer that fits the type.
    fn deserialize(value: &mut Value<'de>) -> (r: Result<i8, DeserError>)
        ensures
            final(value)@ == old(value)@.taken(),
            match integer_outcome(old(value)@, "i8"@, i8::MIN as int, i8::MAX as int) {
                Ok(i) => r == Ok::<i8, DeserError>(i as i8),
                Err(errors) => r matches Err(e) && error_views(e.errors@) == errors,
            },
    {
        match take_integer(value, "i8", -0x80, 0x7f) {
            Ok(i) => Ok(i as i8),
            Err(e) => Err(e),
        }
    }
}

impl<'de> Deserialize<'de> for i16 {
    /// Takes the payload, which must be an integer that fits the type.
    fn deserialize(value: &mut Value<'de>) -> (r: Result<i16, DeserError>)
        ensures
            final(value)@ == old(value)@.taken(),
            match integer_outcome(old(value)@, "i16"@, i16::MIN as int, i16::MAX as int) {
                Ok(i) => r == Ok::<i16, DeserError>(i as i16),
                Err(errors) => r matches Err(e) && error_views(e.errors@) == errors,
            },
    {
        match take_integer(value, "i16", -0x8000, 0x7fff) {
            Ok(i) => Ok(i as i16),
            Err(e) => Err(e),
        }
    }
}

impl<'de> Deserialize<'de> for i32 {
    /// Takes the payload, which must be an integer that fits the type.
    fn deserialize(value: &mut Value<'de>) -> (r: Result<i32, DeserError>)
        ensures
            final(value)@ == old(value)@.taken(),
            match integer_outcome(old(value)@, "i32"@, i32::MIN as int, i32::MAX as int) {
                Ok(i) => r == Ok::<i32, DeserError>(i as i32),
                Err(errors) => r matches Err(e) && error_views(e.errors@) == errors,
            },
    {
        match take_integer(value, "i32", -0x8000_0000, 0x7fff_ffff) {
            Ok(i) => Ok(i as i32),
            Err(e) => Err(e),
        }
    }
}

impl<'de> Deserialize<'de> for i64 {
    /// Takes the payload, which must be an integer.
    fn deserialize(value: &mut Value<'de>) -> (r: Result<i64, DeserError>)
        ensures
            final(value)@ == old(value)@.taken(),
            match integer_outcome(old(value)@, "i64"@, i64::MIN as int, i64::MAX as int) {
                Ok(i) => r == Ok::<i64, DeserError>(i),
                Err(errors) => r matches Err(e) && error_views(e.errors@) == errors,
            },
    {
        take_integer(value, "i64", i64::MIN, i64::MAX)
    }
}

/// The largest integer of 64 bits with a sign that fits `usize`.
pub open spec fn usize_limit() -> int {
    if usize::MAX >= i64::MAX {
        i64::MAX as int
    } else {
        usize::MAX as int
    }
}

impl<'de> Deserialize<'de> for usize {
    /// Takes the payload, which must be an integer that fits the type.
    fn deserialize(value: &mut Value<'de>) -> (r: Result<usize, DeserError>)
        ensures
            final(value)@ == old(value)@.taken(),
            match integer_outcome(old(value)@, "usize"@, 0, usize_limit()) {
                Ok(i) => r == Ok::<usize, DeserError>(i as usize),
                Err(errors) => r matches Err(e) && error_views(e.errors@) == errors,
            },
    {
        let max: i64 = if usize::MAX as u64 >= 0x7fff_ffff_ffff_ffffu64 {
            i64::MAX
        } else {
            usize::MAX as i64
        };
        match take_integer(value, "usize", 0, max) {
            Ok(i) => Ok(i as usize),
            Err(e) => Err(e),
        }
    }
}

impl<'de> Deserialize<'de> for isize {
    /// Takes the payload, which must be an integer that fits the type.
    fn deserialize(value: &mut Value<'de>) -> (r: Result<isize, DeserError>)
        ensures
            final(value)@ == old(value)@.taken(),
            match integer_outcome(old(value)@, "isize"@, isize::MIN as int, isize::MAX as int) {
                Ok(i) => r == Ok::<isize, DeserError>(i as isize),
                Err(errors) => r matches Err(e) && error_views(e.errors@) == errors,
            },
    {
        match take_integer(value, "isize", isize::MIN as i64, isize::MAX as i64) {
            Ok(i) => Ok(i as isize),
            Err(e) => Err(e),
        }
    }
}

/// The values among the outcomes, in order.
pub open spec fn values_of<T>(outcomes: Seq<Result<T, DeserError>>) -> Seq<T>
    decreases outcomes.len(),
{
    if outcomes.len() == 0 {
        Seq::empty()
    } else {
        match outcomes.last() {
            Ok(v) => values_of(outcomes.drop_last()).push(v),
            Err(_) => values_of(outcomes.drop_last()),
        }
    }
}

/// The errors among the outcomes, in order.
pub open spec fn errors_of<T>(outcomes: Seq<Result<T, DeserError>>) -> Seq<Error>
    decreases outcomes.len(),
{
    if outcomes.len() == 0 {
        Seq::empty()
    } else {
        match outcomes.last() {
            Ok(_) => errors_of(outcomes.drop_last()),
            Err(d) => errors_of(outcomes.drop_last()) + d.errors@,
        }
    }
}

/// Whether the outcomes are those of reading the elements as `T`s, one for
/// each element, in order.
pub open spec fn each_read<'de, T: Deserialize<'de>>(
    elements: Seq<Value<'de>>,
    outcomes: Seq<Result<T, DeserError>>,
) -> bool {
    &&& outcomes.len() == elements.len()
    &&& forall|i: int| 0 <= i < elements.len() ==> reads::<T>(elements[i], #[trigger] outcomes[i])
}

/// Whether `r` is what the outcomes of reading the elements of an array
/// come to: all the values, where every element could be read; else all
/// the errors.
pub open spec fn gathered_as<T>(
    outcomes: Seq<Result<T, DeserError>>,
    r: Result<Vec<T>, DeserError>,
) -> bool {
    match r {
        Ok(values) => errors_of(outcomes).len() == 0 && values@ == values_of(outcomes),
        Err(d) => errors_of(outcomes).len() > 0 && d.errors@ == errors_of(outcomes),
    }
}

/// Without an error among the outcomes, every outcome is a value.
pub proof fn lemma_values_of_all<T>(outcomes: Seq<Result<T, DeserError>>)
    requires
        forall|i: int| 0 <= i < outcomes.len() ==> ((#[trigger] outcomes[i]) matches Err(d)
            ==> d.errors.len() > 0),
    ensures
        errors_of(outcomes).len() == 0 ==> values_of(outcomes).len() == outcomes.len()
            && forall|i: int|
            0 <= i < outcomes.len() ==> (#[trigger] outcomes[i]) == Ok::<T, DeserError>(
                values_of(outcomes)[i],
            ),
        errors_of(outcomes).len() > 0 <==> exists|i: int|
            0 <= i < outcomes.len() && (#[trigger] outcomes[i]) is Err,
    decreases outcomes.len(),
{
    if outcomes.len() > 0 {
        let before = outcomes.drop_last();
        assert forall|i: int| 0 <= i < before.len() implies ((#[trigger] before[i]) matches Err(d)
            ==> d.errors.len() > 0) by {
            assert(before[i] == outcomes[i]);
        }
        lemma_values_of_all(before);
        let k = outcomes.len() - 1;
        assert(outcomes[k] == outcomes.last());
        if errors_of(outcomes).len() == 0 {
            assert forall|i: int| 0 <= i < outcomes.len() implies (#[trigger] outcomes[i]) == Ok::<
                T,
                DeserError,
            >(values_of(outcomes)[i]) by {
                if i < k {
                    assert(before[i] == outcomes[i]);
                }
            }
        }
        if errors_of(outcomes).len() > 0 {
            if errors_of(before).len() > 0 {
                let i = choose|i: int| 0 <= i < before.len() && (#[trigger] before[i]) is Err;
                assert(outcomes[i] is Err);
            } else {
                assert(outcomes[k] is Err);
            }
        }
        if exists|i: int| 0 <= i < outcomes.len() && (#[trigger] outcomes[i]) is Err {
            let i = choose|i: int| 0 <= i < outcomes.len() && (#[trigger] outcomes[i]) is Err;
            if i < k {
                assert(before[i] is Err);
            }
        }
    }
}

/// What reading the elements of an array has given so far: the values that
/// were read, and the errors of those that were not.
pub struct Gathered<T> {
    /// The values that were read, in order.
    pub values: Vec<T>,
    /// The errors, in order.
    pub errors: Vec<Error>,
}

impl<T> Gathered<T> {
    /// Nothing read yet.
    pub fn new() -> (g: Gathered<T>)
        ensures
            g.values@.len() == 0,
            g.errors@.len() == 0,
    {
        Gathered { values: Vec::new(), errors: Vec::new() }
    }

    /// Adds the outcome of reading one element: its value to the values, or
    /// its errors to the errors.
    pub fn add(&mut self, outcome: Result<T, DeserError>)
        ensures
            match outcome {
                Ok(v) => final(self).values@ == old(self).values@.push(v) && final(self).errors
                    == old(self).errors,
                Err(d) => final(self).values == old(self).values && final(self).errors@ == old(
                    self,
                ).errors@ + d.errors@,
            },
    {
        match outcome {
            Ok(v) => {
                self.values.push(v);
            },
            Err(d) => {
                let mut d = d;
                self.errors.append(&mut d.errors);
            },
        }
    }

    /// The values, if every element could be read; else all the errors.
    pub fn finish(self) -> (r: Result<Vec<T>, DeserError>)
        ensures
            match r {
                Ok(values) => self.errors@.len() == 0 && values == self.values,
                Err(d) => self.errors@.len() > 0 && d.errors == self.errors,
            },
    {
        if self.errors.len() == 0 {
            Ok(self.values)
        } else {
            Err(DeserError { errors: self.errors })
        }
    }
}

/// Reads every element as a `T`, in order, each once, and gathers the
/// outcomes: all elements are read, also after one has failed.
pub fn read_elements<'de, T: Deserialize<'de>>(elements: Vec<Value<'de>>) -> (r: Result<
    Vec<T>,
    DeserError,
>)
    requires
        forall|i: int| 0 <= i < elements.len() ==> (#[trigger] elements@[i])@.whole(),
    ensures
        exists|outcomes: Seq<Result<T, DeserError>>| #[trigger]
            each_read::<T>(elements@, outcomes) && gathered_as(outcomes, r),
        elements.len() == 0 ==> (r matches Ok(v) && v@.len() == 0),
        r matches Ok(v) ==> v@.len() == elements.len(),
        r matches Err(d) ==> d.errors.len() > 0,
{
    let mut arr = elements;
    let ghost all = arr@;
    let ghost mut outcomes: Seq<Result<T, DeserError>> = Seq::empty();
    let mut read: Gathered<T> = Gathered::new();
    let mut i: usize = 0;
    while i < arr.len()
        invariant
            i <= arr.len(),
            arr.len() == all.len(),
            forall|j: int| i <= j < arr.len() ==> arr@[j] == all[j],
            forall|j: int| 0 <= j < all.len() ==> (#[trigger] all[j])@.whole(),
            outcomes.len() == i,
            forall|j: int| 0 <= j < i ==> reads::<T>(all[j], #[trigger] outcomes[j]),
            forall|j: int|
                0 <= j < i ==> ((#[trigger] outcomes[j]) matches Err(d) ==> d.errors.len() > 0),
            read.values@ == values_of(outcomes),
            read.errors@ == errors_of(outcomes),
        decreases arr.len() - i,
    {
        let mut held = Value { value: None, span: Span { start: 0, end: 0 } };
        core::mem::swap(&mut arr[i], &mut held);
        assert(held == all[i as int]);
        let outcome = read_as::<T>(&mut held);
        proof {
            let before = outcomes;
            outcomes = outcomes.push(outcome);
            assert(outcomes.drop_last() =~= before);
            assert(outcomes.last() == outcome);
            assert forall|j: int| 0 <= j < i + 1 implies reads::<T>(
                all[j],
                #[trigger] outcomes[j],
            ) by {
                if j < i {
                    assert(outcomes[j] == before[j]);
                }
            }
            assert forall|j: int| 0 <= j < i + 1 implies ((#[trigger] outcomes[j]) matches Err(d)
                ==> d.errors.len() > 0) by {
                if j < i {
                    assert(outcomes[j] == before[j]);
                }
            }
        }
        read.add(outcome);
        i += 1;
    }
    proof {
        lemma_values_of_all(outcomes);
        assert(each_read::<T>(all, outcomes));
    }
    read.finish()
}

impl<'de, T: Deserialize<'de>> Deserialize<'de> for Vec<T> {
    /// Takes the payload, which must be an array, and reads every element
    /// as a `T`, in order. All elements are read, also after one has failed.
    /// The result is the values of all the elements, where every element
    /// could be read, as for the empty array; else the errors of all that
    /// could not.
    fn deserialize(value: &mut Value<'de>) -> (r: Result<Vec<T>, DeserError>)
        ensures
            final(value)@ == old(value)@.taken(),
            match old(value).value {
                Some(ValueInner::Array(elements)) => {
                    &&& exists|outcomes: Seq<Result<T, DeserError>>| #[trigger]
                        each_read::<T>(elements@, outcomes) && gathered_as(outcomes, r)
                    &&& elements.len() == 0 ==> (r matches Ok(v) && v@.len() == 0)
                    &&& r matches Ok(v) ==> v@.len() == elements.len()
                },
                Some(other) => r matches Err(e) && error_views(e.errors@) == only(
                    wanted("an array"@, other@, old(value).span),
                ),
                None => false,
            },
    {
        proof {
            lemma_whole(old(value)@);
            lemma_value_view(*old(value));
        }
        match value.take() {
            ValueInner::Array(arr) => {
                proof {
                    lemma_array_view(arr);
                    assert forall|j: int| 0 <= j < arr.len() implies (#[trigger] arr@[j])@.whole() by {
                        assert(array_view(arr@)[j] == arr@[j]@);
                    }
                }
                read_elements::<T>(arr)
            },
            other => Err(only_error(expected("an array", other, value.span))),
        }
    }
}

} // verus!
