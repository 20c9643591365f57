//! The error model: what can go wrong while lexing, parsing or reading a
//! value tree, and where in the source it happened.

use crate::span::Span;
use vstd::prelude::*;
use vstd::string::*;

verus! {

/// Error that can occur when deserializing TOML.
#[derive(Debug)]
pub struct Error {
    /// What went wrong.
    pub kind: ErrorKind,
    /// The bytes of the source that the error is about; the empty span when
    /// no position is known.
    pub span: Span,
    /// Line and column of the span's start, where a renderer has filled them in.
    pub line_info: Option<(usize, usize)>,
}

/// Errors that can occur when deserializing a type.
#[derive(Debug)]
#[allow(inconsistent_fields)]
pub enum ErrorKind {
    /// EOF was reached when looking for a value.
    UnexpectedEof,
    /// An invalid character not allowed in a string was found.
    InvalidCharInString(char),
    /// An invalid character was found as an escape.
    InvalidEscape(char),
    /// An invalid character was found in a hex escape.
    InvalidHexEscape(char),
    /// An invalid escape value was specified in a hex escape in a string.
    ///
    /// Valid values are in the plane of unicode codepoints.
    InvalidEscapeValue(u32),
    /// An unexpected character was encountered, typically when looking for a
    /// value.
    Unexpected(char),
    /// An unterminated string was found where EOF was found before the ending
    /// EOF mark.
    UnterminatedString,
    /// A newline was found in a table key.
    NewlineInTableKey,
    /// A number failed to parse.
    InvalidNumber,
    /// Wanted one sort of token, but found another.
    Wanted {
        /// Expected token type.
        expected: &'static str,
        /// Actually found token type.
        found: &'static str,
    },
    /// A duplicate table definition was found.
    DuplicateTable {
        /// The name of the table.
        name: String,
        /// The span of the first definition.
        first: Span,
    },
    /// Duplicate key in table.
    DuplicateKey {
        /// The duplicate key.
        key: String,
        /// The span where the first key is located.
        first: Span,
    },
    /// A previously defined table was redefined as an array.
    RedefineAsArray,
    /// Multiline strings are not allowed for key.
    MultilineStringKey,
    /// A custom error which could be generated when deserializing a particular
    /// type.
    Custom(String),
    /// A tuple with a certain number of elements was expected but something
    /// else was found.
    ExpectedTuple(usize),
    /// Expected table keys to be in increasing tuple index order, but something
    /// else was found.
    ExpectedTupleIndex {
        /// Expected index.
        expected: usize,
        /// Key that was specified.
        found: String,
    },
    /// An empty table was expected but entries were found.
    ExpectedEmptyTable,
    /// Dotted key attempted to extend something that is not a table.
    DottedKeyInvalidType,
    /// An unexpected key was encountered.
    ///
    /// Used when deserializing a struct with a limited set of fields.
    UnexpectedKeys {
        /// The unexpected keys.
        keys: Vec<(String, Span)>,
    },
    /// Unquoted string was found when quoted one was expected.
    UnquotedString,
    /// A required field is missing from a table.
    MissingField(&'static str),
    /// A field in the table is deprecated and the new key should be used instead.
    Deprecated {
        /// The deprecated field.
        old: &'static str,
        /// The field that replaces it.
        new: &'static str,
    },
    /// An unexpected value was encountered.
    UnexpectedValue {
        /// The values that would have been accepted.
        expected: &'static [&'static str],
    },
}

/// What an [`ErrorKind`] holds, with every text as a sequence of characters.
#[allow(inconsistent_fields)]
pub enum ErrorKindView {
    UnexpectedEof,
    InvalidCharInString(char),
    InvalidEscape(char),
    InvalidHexEscape(char),
    InvalidEscapeValue(u32),
    Unexpected(char),
    UnterminatedString,
    NewlineInTableKey,
    InvalidNumber,
    Wanted { expected: Seq<char>, found: Seq<char> },
    DuplicateTable { name: Seq<char>, first: Span },
    DuplicateKey { key: Seq<char>, first: Span },
    RedefineAsArray,
    MultilineStringKey,
    Custom(Seq<char>),
    ExpectedTuple(usize),
    ExpectedTupleIndex { expected: usize, found: Seq<char> },
    ExpectedEmptyTable,
    DottedKeyInvalidType,
    UnexpectedKeys { keys: Seq<(Seq<char>, Span)> },
    UnquotedString,
    MissingField(Seq<char>),
    Deprecated { old: Seq<char>, new: Seq<char> },
    UnexpectedValue { expected: Seq<Seq<char>> },
}

/// What an [`Error`] holds: the view of its kind, and its span.
pub struct ErrorView {
    pub kind: ErrorKindView,
    pub span: Span,
    pub line_info: Option<(usize, usize)>,
}

impl View for ErrorKind {
    type V = ErrorKindView;

    open spec fn view(&self) -> ErrorKindView {
        match self {
            ErrorKind::UnexpectedEof => ErrorKindView::UnexpectedEof,
            ErrorKind::InvalidCharInString(c) => ErrorKindView::InvalidCharInString(*c),
            ErrorKind::InvalidEscape(c) => ErrorKindView::InvalidEscape(*c),
            ErrorKind::InvalidHexEscape(c) => ErrorKindView::InvalidHexEscape(*c),
            ErrorKind::InvalidEscapeValue(v) => ErrorKindView::InvalidEscapeValue(*v),
            ErrorKind::Unexpected(c) => ErrorKindView::Unexpected(*c),
            ErrorKind::UnterminatedString => ErrorKindView::UnterminatedString,
            ErrorKind::NewlineInTableKey => ErrorKindView::NewlineInTableKey,
            ErrorKind::InvalidNumber => ErrorKindView::InvalidNumber,
            ErrorKind::Wanted { expected, found } => ErrorKindView::Wanted {
                expected: expected@,
                found: found@,
            },
            ErrorKind::DuplicateTable { name, first } => ErrorKindView::DuplicateTable {
                name: name@,
                first: *first,
            },
            ErrorKind::DuplicateKey { key, first } => ErrorKindView::DuplicateKey {
                key: key@,
                first: *first,
            },
            ErrorKind::RedefineAsArray => ErrorKindView::RedefineAsArray,
            ErrorKind::MultilineStringKey => ErrorKindView::MultilineStringKey,
            ErrorKind::Custom(m) => ErrorKindView::Custom(m@),
            ErrorKind::ExpectedTuple(n) => ErrorKindView::ExpectedTuple(*n),
            ErrorKind::ExpectedTupleIndex { expected, found } => ErrorKindView::ExpectedTupleIndex {
                expected: *expected,
                found: found@,
            },
            ErrorKind::ExpectedEmptyTable => ErrorKindView::ExpectedEmptyTable,
            ErrorKind::DottedKeyInvalidType => ErrorKindView::DottedKeyInvalidType,
            ErrorKind::UnexpectedKeys { keys } => ErrorKindView::UnexpectedKeys {
                keys: keys@.map_values(|k: (String, Span)| (k.0@, k.1)),
            },
            ErrorKind::UnquotedString => ErrorKindView::UnquotedString,
            ErrorKind::MissingField(f) => ErrorKindView::MissingField(f@),
            ErrorKind::Deprecated { old, new } => ErrorKindView::Deprecated { old: old@, new: new@ },
            ErrorKind::UnexpectedValue { expected } => ErrorKindView::UnexpectedValue {
                expected: expected@.map_values(|e: &str| e@),
            },
        }
    }
}

impl View for Error {
    type V = ErrorView;

    open spec fn view(&self) -> ErrorView {
        ErrorView { kind: self.kind@, span: self.span, line_info: self.line_info }
    }
}

/// The views of a list of errors, in order.
pub open spec fn error_views(errors: Seq<Error>) -> Seq<ErrorView> {
    errors.map_values(|e: Error| e@)
}

/// The error of kind `kind` at `span`, with no line information.
pub open spec fn error_at(kind: ErrorKindView, span: Span) -> ErrorView {
    ErrorView { kind, span, line_info: None }
}

/// A copy of a list of keys with their spans.
fn clone_keys(keys: &Vec<(String, Span)>) -> (r: Vec<(String, Span)>)
    ensures
        r@.map_values(|k: (String, Span)| (k.0@, k.1)) == keys@.map_values(
            |k: (String, Span)| (k.0@, k.1),
        ),
{
    let mut r: Vec<(String, Span)> = Vec::new();
    let mut i: usize = 0;
    while i < keys.len()
        invariant
            i <= keys.len(),
            r.len() == i,
            forall|j: int| 0 <= j < i ==> (#[trigger] r@[j]).0@ == keys@[j].0@ && r@[j].1 == keys@[j].1,
        decreases keys.len() - i,
    {
        r.push((keys[i].0.clone(), keys[i].1));
        i += 1;
    }
    assert(r@.map_values(|k: (String, Span)| (k.0@, k.1)) =~= keys@.map_values(
        |k: (String, Span)| (k.0@, k.1),
    ));
    r
}

impl Clone for ErrorKind {
    /// A copy that holds the same as `self`.
    fn clone(&self) -> (r: ErrorKind)
        ensures
            r@ == self@,
    {
        match self {
            ErrorKind::UnexpectedEof => ErrorKind::UnexpectedEof,
            ErrorKind::InvalidCharInString(c) => ErrorKind::InvalidCharInString(*c),
            ErrorKind::InvalidEscape(c) => ErrorKind::InvalidEscape(*c),
            ErrorKind::InvalidHexEscape(c) => ErrorKind::InvalidHexEscape(*c),
            ErrorKind::InvalidEscapeValue(v) => ErrorKind::InvalidEscapeValue(*v),
            ErrorKind::Unexpected(c) => ErrorKind::Unexpected(*c),
            ErrorKind::UnterminatedString => ErrorKind::UnterminatedString,
            ErrorKind::NewlineInTableKey => ErrorKind::NewlineInTableKey,
            ErrorKind::InvalidNumber => ErrorKind::InvalidNumber,
            ErrorKind::Wanted { expected, found } => ErrorKind::Wanted {
                expected: *expected,
                found: *found,
            },
            ErrorKind::DuplicateTable { name, first } => ErrorKind::DuplicateTable {
                name: name.clone(),
                first: *first,
            },
            ErrorKind::DuplicateKey { key, first } => ErrorKind::DuplicateKey {
                key: key.clone(),
                first: *first,
            },
            ErrorKind::RedefineAsArray => ErrorKind::RedefineAsArray,
            ErrorKind::MultilineStringKey => ErrorKind::MultilineStringKey,
            ErrorKind::Custom(m) => ErrorKind::Custom(m.clone()),
            ErrorKind::ExpectedTuple(n) => ErrorKind::ExpectedTuple(*n),
            ErrorKind::ExpectedTupleIndex { expected, found } => ErrorKind::ExpectedTupleIndex {
                expected: *expected,
                found: found.clone(),
            },
            ErrorKind::ExpectedEmptyTable => ErrorKind::ExpectedEmptyTable,
            ErrorKind::DottedKeyInvalidType => ErrorKind::DottedKeyInvalidType,
            ErrorKind::UnexpectedKeys { keys } => ErrorKind::UnexpectedKeys {
                keys: clone_keys(keys),
            },
            ErrorKind::UnquotedString => ErrorKind::UnquotedString,
            ErrorKind::MissingField(f) => ErrorKind::MissingField(*f),
            ErrorKind::Deprecated { old, new } => ErrorKind::Deprecated { old: *old, new: *new },
            ErrorKind::UnexpectedValue { expected } => ErrorKind::UnexpectedValue {
                expected: *expected,
            },
        }
    }
}

impl Clone for Error {
    /// A copy that holds the same as `self`.
    fn clone(&self) -> (r: Error)
        ensures
            r@ == self@,
    {
        Error { kind: self.kind.clone(), span: self.span, line_info: self.line_info }
    }
}

impl Error {
    /// The error of kind `kind` at `span`, with no line information yet.
    pub fn new(kind: ErrorKind, span: Span) -> (e: Error)
        ensures
            e.kind == kind,
            e.span == span,
            e.line_info is None,
            e@ == error_at(kind@, span),
    {
        Error { kind, span, line_info: None }
    }
}

impl From<(ErrorKind, Span)> for Error {
    /// The error of the kind at the span, with no line information yet.
    fn from(pair: (ErrorKind, Span)) -> (e: Error) {
        Error { kind: pair.0, span: pair.1, line_info: None }
    }
}

impl vstd::std_specs::convert::FromSpecImpl<(ErrorKind, Span)> for Error {
    open spec fn obeys_from_spec() -> bool {
        true
    }

    open spec fn from_spec(pair: (ErrorKind, Span)) -> Error {
        Error { kind: pair.0, span: pair.1, line_info: None }
    }
}

/// The errors gathered while reading one value tree into a record.
#[derive(Debug)]
pub struct DeserError {
    /// The errors, in the order in which they were found.
    pub errors: Vec<Error>,
}

impl From<Error> for DeserError {
    /// The error set that holds `value` alone, so that `?` turns an error
    /// into an error set.
    fn from(value: Error) -> (e: DeserError)
        ensures
            e.errors@ == seq![value],
    {
        let mut errors: Vec<Error> = Vec::new();
        errors.push(value);
        DeserError { errors }
    }
}

impl vstd::std_specs::convert::FromSpecImpl<Error> for DeserError {
    open spec fn obeys_from_spec() -> bool {
        false
    }

    open spec fn from_spec(value: Error) -> DeserError {
        arbitrary()
    }
}

} // verus!
