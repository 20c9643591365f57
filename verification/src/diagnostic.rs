//! How an error is shown: its short code, its message, and the diagnostic
//! record with labelled spans that a renderer turns into annotated source.

use crate::error::{error_views, DeserError, Error, ErrorKind, ErrorKindView, ErrorView};
use crate::span::Span;
use crate::text::{
    concat3, decimal, escaped, push_char, push_decimal, push_escaped, push_quoted_list, quoted,
    quoted_list,
};
use vstd::prelude::*;
use vstd::string::*;

verus! {

/// Whether a label marks the place of the error itself or a place related to it.
#[derive(Copy, Clone, PartialEq, Eq, Structural, Debug)]
pub enum LabelStyle {
    /// The place of the error.
    Primary,
    /// A place that explains the error, such as a first definition.
    Secondary,
}

/// A span of a source file with a note on it.
#[derive(Debug)]
pub struct Label<FileId> {
    /// Primary or secondary.
    pub style: LabelStyle,
    /// The file that the span lies in.
    pub file_id: FileId,
    /// The bytes that the label marks.
    pub span: Span,
    /// The note; empty where the span says enough.
    pub message: String,
}

/// An error as a renderer wants it: a code, a message and labelled spans.
#[derive(Debug)]
pub struct Diagnostic<FileId> {
    /// The short code of the error's kind.
    pub code: String,
    /// The headline; empty where the labels say enough.
    pub message: String,
    /// The labels, in the order in which they are to be shown.
    pub labels: Vec<Label<FileId>>,
}

/// What a [`Label`] holds.
pub struct LabelView<FileId> {
    pub style: LabelStyle,
    pub file_id: FileId,
    pub span: Span,
    pub message: Seq<char>,
}

/// What a [`Diagnostic`] holds.
pub struct DiagnosticView<FileId> {
    pub code: Seq<char>,
    pub message: Seq<char>,
    pub labels: Seq<LabelView<FileId>>,
}

impl<FileId> View for Label<FileId> {
    type V = LabelView<FileId>;

    open spec fn view(&self) -> LabelView<FileId> {
        LabelView {
            style: self.style,
            file_id: self.file_id,
            span: self.span,
            message: self.message@,
        }
    }
}

impl<FileId> View for Diagnostic<FileId> {
    type V = DiagnosticView<FileId>;

    open spec fn view(&self) -> DiagnosticView<FileId> {
        DiagnosticView {
            code: self.code@,
            message: self.message@,
            labels: self.labels@.map_values(|l: Label<FileId>| l@),
        }
    }
}

/// The short, stable code of an error kind.
pub open spec fn kind_code(k: ErrorKindView) -> Seq<char> {
    match k {
        ErrorKindView::UnexpectedEof => "unexpected-eof"@,
        ErrorKindView::Custom(..) => "custom"@,
        ErrorKindView::DottedKeyInvalidType => "dotted-key-invalid-type"@,
        ErrorKindView::DuplicateKey { .. } => "duplicate-key"@,
        ErrorKindView::DuplicateTable { .. } => "duplicate-table"@,
        ErrorKindView::ExpectedEmptyTable => "expected-empty-table"@,
        ErrorKindView::ExpectedTuple(..) => "expected-tuple"@,
        ErrorKindView::ExpectedTupleIndex { .. } => "expected-tuple-index"@,
        ErrorKindView::UnexpectedKeys { .. } => "unexpected-keys"@,
        ErrorKindView::UnquotedString => "unquoted-string"@,
        ErrorKindView::MultilineStringKey => "multiline-string-key"@,
        ErrorKindView::RedefineAsArray => "redefine-as-array"@,
        ErrorKindView::InvalidCharInString(..) => "invalid-char-in-string"@,
        ErrorKindView::InvalidEscape(..) => "invalid-escape"@,
        ErrorKindView::InvalidEscapeValue(..) => "invalid-escape-value"@,
        ErrorKindView::InvalidHexEscape(..) => "invalid-hex-escape"@,
        ErrorKindView::Unexpected(..) => "unexpected"@,
        ErrorKindView::UnterminatedString => "unterminated-string"@,
        ErrorKindView::NewlineInTableKey => "newline-in-table-key"@,
        ErrorKindView::InvalidNumber => "invalid-number"@,
        ErrorKindView::Wanted { .. } => "wanted"@,
        ErrorKindView::MissingField(..) => "missing-field"@,
        ErrorKindView::Deprecated { .. } => "deprecated"@,
        ErrorKindView::UnexpectedValue { .. } => "unexpected-value"@,
    }
}

/// How a key with its span is shown in a message: `("name", Span { start:
/// 1, end: 5 })`.
pub open spec fn shown_key(key: (Seq<char>, Span)) -> Seq<char> {
    seq!['('] + quoted(key.0) + ", Span { start: "@ + decimal(key.1.start as nat) + ", end: "@
        + decimal(key.1.end as nat) + " })"@
}

/// The keys with their spans, as [`shown_key`] shows each, separated by a
/// comma and a space.
pub open spec fn shown_keys(keys: Seq<(Seq<char>, Span)>) -> Seq<char>
    decreases keys.len(),
{
    if keys.len() == 0 {
        Seq::empty()
    } else if keys.len() == 1 {
        shown_key(keys[0])
    } else {
        shown_keys(keys.drop_last()) + seq![',', ' '] + shown_key(keys.last())
    }
}

/// The keys with their spans as a bracketed list.
pub open spec fn key_list_text(keys: Seq<(Seq<char>, Span)>) -> Seq<char> {
    seq!['['] + shown_keys(keys) + seq![']']
}

/// The message of an error kind, as a reader of the TOML source is to see it.
/// It names no line: the span does that.
pub open spec fn kind_message(k: ErrorKindView) -> Seq<char> {
    match k {
        ErrorKindView::UnexpectedEof => "unexpected eof encountered"@,
        ErrorKindView::InvalidCharInString(c) => "invalid character in string: `"@ + escaped(c)
            + "`"@,
        ErrorKindView::InvalidEscape(c) => "invalid escape character in string: `"@ + escaped(c)
            + "`"@,
        ErrorKindView::InvalidHexEscape(c) => "invalid hex escape character in string: `"@
            + escaped(c) + "`"@,
        ErrorKindView::InvalidEscapeValue(v) => "invalid escape value: `"@ + decimal(v as nat)
            + "`"@,
        ErrorKindView::Unexpected(c) => "unexpected character found: `"@ + escaped(c) + "`"@,
        ErrorKindView::UnterminatedString => "unterminated string"@,
        ErrorKindView::NewlineInTableKey => "found newline in table key"@,
        ErrorKindView::Wanted { expected, found } => "expected "@ + expected + ", found "@ + found,
        ErrorKindView::InvalidNumber => "invalid number"@,
        ErrorKindView::DuplicateTable { name, .. } => "redefinition of table `"@ + name + "`"@,
        ErrorKindView::DuplicateKey { key, .. } => "duplicate key: `"@ + key + "`"@,
        ErrorKindView::RedefineAsArray => "table redefined as array"@,
        ErrorKindView::MultilineStringKey => "multiline strings are not allowed for key"@,
        ErrorKindView::Custom(message) => message,
        ErrorKindView::ExpectedTuple(l) => "expected table with length "@ + decimal(l as nat),
        ErrorKindView::ExpectedTupleIndex { expected, found } => "expected table key `"@ + decimal(
            expected as nat,
        ) + "`, but was `"@ + found + "`"@,
        ErrorKindView::ExpectedEmptyTable => "expected empty table"@,
        ErrorKindView::DottedKeyInvalidType => "dotted key attempted to extend non-table type"@,
        ErrorKindView::UnexpectedKeys { keys } => "unexpected keys in table: `"@ + key_list_text(
            keys,
        ) + "`"@,
        ErrorKindView::UnquotedString =>
            "invalid TOML value, did you mean to use a quoted string?"@,
        ErrorKindView::MissingField(field) => "missing field '"@ + field + "' in table"@,
        ErrorKindView::Deprecated { old, new } => "field '"@ + old + "' is deprecated, '"@ + new
            + "' has replaced it"@,
        ErrorKindView::UnexpectedValue { expected } => "expected '"@ + quoted_list(expected)
            + "'"@,
    }
}

/// The primary label at `span` of the file `fid` with the note `message`.
pub open spec fn primary<FileId>(fid: FileId, span: Span, message: Seq<char>) -> LabelView<FileId> {
    LabelView { style: LabelStyle::Primary, file_id: fid, span, message }
}

/// The secondary label at `span` of the file `fid` with the note `message`.
pub open spec fn secondary<FileId>(fid: FileId, span: Span, message: Seq<char>) -> LabelView<
    FileId,
> {
    LabelView { style: LabelStyle::Secondary, file_id: fid, span, message }
}

/// The headline of the diagnostic for an error kind; empty for most kinds,
/// whose labels carry the text.
pub open spec fn diagnostic_message(k: ErrorKindView) -> Seq<char> {
    match k {
        ErrorKindView::UnexpectedKeys { keys } => "found "@ + decimal(keys.len()) +
            " unexpected keys"@,
        ErrorKindView::MissingField(field) => "missing field '"@ + field + "'"@,
        ErrorKindView::Deprecated { new, .. } => "deprecated field enountered, '"@ + new
            + "' should be used instead"@,
        ErrorKindView::UnexpectedValue { expected } => "expected '"@ + quoted_list(expected)
            + "'"@,
        _ => Seq::empty(),
    }
}

/// The labels of the diagnostic for an error: one primary label at the
/// error's span, which comes last; before it, a secondary label at the first
/// occurrence for a duplicate key or table, and one secondary label for each
/// unexpected key.
pub open spec fn diagnostic_labels<FileId>(k: ErrorKindView, span: Span, fid: FileId) -> Seq<
    LabelView<FileId>,
> {
    match k {
        ErrorKindView::DuplicateKey { first, .. } => seq![
            secondary(fid, first, "first key instance"@),
            primary(fid, span, "duplicate key"@),
        ],
        ErrorKindView::DuplicateTable { first, .. } => seq![
            secondary(fid, first, "first table instance"@),
            primary(fid, span, "duplicate table"@),
        ],
        ErrorKindView::Unexpected(c) => seq![
            primary(fid, span, "unexpected character '"@ + escaped(c) + "'"@),
        ],
        ErrorKindView::InvalidCharInString(c) => seq![
            primary(fid, span, "invalid character '"@ + escaped(c) + "' in string"@),
        ],
        ErrorKindView::InvalidEscape(c) => seq![
            primary(fid, span, "invalid escape character '"@ + escaped(c) + "' in string"@),
        ],
        ErrorKindView::InvalidHexEscape(c) => seq![
            primary(fid, span, "invalid hex escape '"@ + escaped(c) + "'"@),
        ],
        ErrorKindView::InvalidEscapeValue(_) => seq![primary(fid, span, "invalid escape value"@)],
        ErrorKindView::InvalidNumber => seq![primary(fid, span, "unable to parse number"@)],
        ErrorKindView::Wanted { expected, .. } => seq![primary(fid, span, "expected "@ + expected)],
        ErrorKindView::MultilineStringKey => seq![
            primary(fid, span, "multiline keys are not allowed"@),
        ],
        ErrorKindView::UnterminatedString => seq![
            primary(fid, span, "eof reached before string terminator"@),
        ],
        ErrorKindView::UnquotedString => seq![primary(fid, span, "string is not quoted"@)],
        ErrorKindView::UnexpectedKeys { keys } => keys.map_values(
            |key: (Seq<char>, Span)| secondary(fid, key.1, Seq::empty()),
        ).push(primary(fid, span, "unexpected keys"@)),
        ErrorKindView::MissingField(_) => seq![primary(fid, span, "missing field"@)],
        ErrorKindView::Deprecated { .. } => seq![primary(fid, span, "deprecated field"@)],
        ErrorKindView::UnexpectedValue { .. } => seq![primary(fid, span, "unexpected value"@)],
        _ => seq![primary(fid, span, kind_message(k))],
    }
}

/// The diagnostic record for an error in the file `fid`.
pub open spec fn diagnostic_of<FileId>(e: ErrorView, fid: FileId) -> DiagnosticView<FileId> {
    DiagnosticView {
        code: kind_code(e.kind),
        message: diagnostic_message(e.kind),
        labels: diagnostic_labels(e.kind, e.span, fid),
    }
}

/// Every diagnostic has exactly one primary label: it is the last, and lies
/// at the span of the error. Every label before it is secondary.
pub proof fn law_one_primary_label<FileId>(e: ErrorView, fid: FileId)
    ensures
        ({
            let labels = diagnostic_of(e, fid).labels;
            &&& labels.len() > 0
            &&& labels.last().style == LabelStyle::Primary
            &&& labels.last().span == e.span
            &&& labels.last().file_id == fid
            &&& forall|i: int|
                0 <= i < labels.len() - 1 ==> (#[trigger] labels[i]).style == LabelStyle::Secondary
        }),
{
}

/// The text `head`, the escaped form of `c`, then `tail`.
fn around_escaped(head: &str, c: char, tail: &str) -> (r: String)
    ensures
        r@ == head@ + escaped(c) + tail@,
{
    let mut r = String::from_str(head);
    push_escaped(&mut r, c);
    r.append(tail);
    r
}

/// The text `head`, the decimal notation of `n`, then `tail`.
fn around_decimal(head: &str, n: u64, tail: &str) -> (r: String)
    ensures
        r@ == head@ + decimal(n as nat) + tail@,
{
    let mut r = String::from_str(head);
    push_decimal(&mut r, n);
    r.append(tail);
    r
}

/// The text `head`, the bracketed list of the quoted items, then `tail`.
fn around_list(head: &str, items: &[&str], tail: &str) -> (r: String)
    ensures
        r@ == head@ + quoted_list(items@.map_values(|e: &str| e@)) + tail@,
{
    let mut r = String::from_str(head);
    push_quoted_list(&mut r, items);
    r.append(tail);
    r
}

/// Appends one key with its span, as [`shown_key`] shows it.
fn push_shown_key(s: &mut String, name: &str, span: Span)
    ensures
        final(s)@ == old(s)@ + shown_key((name@, span)),
{
    push_char(s, '(');
    push_char(s, '"');
    s.append(name);
    push_char(s, '"');
    s.append(", Span { start: ");
    push_decimal(s, span.start as u64);
    s.append(", end: ");
    push_decimal(s, span.end as u64);
    s.append(" })");
    assert(s@ =~= old(s)@ + shown_key((name@, span)));
}

/// The text `head`, the bracketed list of the keys with their spans, then
/// `tail`.
fn around_keys(head: &str, keys: &Vec<(String, Span)>, tail: &str) -> (r: String)
    ensures
        r@ == head@ + key_list_text(keys@.map_values(|k: (String, Span)| (k.0@, k.1))) + tail@,
{
    let ghost all = keys@.map_values(|k: (String, Span)| (k.0@, k.1));
    let mut r = String::from_str(head);
    push_char(&mut r, '[');
    let mut i: usize = 0;
    while i < keys.len()
        invariant
            i <= keys.len(),
            all == keys@.map_values(|k: (String, Span)| (k.0@, k.1)),
            r@ == head@ + seq!['['] + shown_keys(all.take(i as int)),
        decreases keys.len() - i,
    {
        let ghost before = r@;
        if i > 0 {
            push_char(&mut r, ',');
            push_char(&mut r, ' ');
        }
        push_shown_key(&mut r, keys[i].0.as_str(), keys[i].1);
        proof {
            let next = all.take(i + 1);
            assert(next.drop_last() =~= all.take(i as int));
            assert(next.last() == all[i as int]);
            if i == 0 {
                assert(shown_keys(all.take(0)) =~= Seq::<char>::empty());
                assert(next[0] == all[0]);
            }
            assert(r@ =~= head@ + seq!['['] + shown_keys(next));
        }
        i += 1;
    }
    push_char(&mut r, ']');
    assert(all.take(i as int) =~= all);
    assert(r@ =~= head@ + key_list_text(all));
    r.append(tail);
    r
}

impl ErrorKind {
    /// The short, stable code of the kind, such as `duplicate-key`.
    pub fn code(&self) -> (r: &'static str)
        ensures
            r@ == kind_code(self@),
    {
        match self {
            ErrorKind::UnexpectedEof => "unexpected-eof",
            ErrorKind::Custom(..) => "custom",
            ErrorKind::DottedKeyInvalidType => "dotted-key-invalid-type",
            ErrorKind::DuplicateKey { .. } => "duplicate-key",
            ErrorKind::DuplicateTable { .. } => "duplicate-table",
            ErrorKind::ExpectedEmptyTable => "expected-empty-table",
            ErrorKind::ExpectedTuple(..) => "expected-tuple",
            ErrorKind::ExpectedTupleIndex { .. } => "expected-tuple-index",
            ErrorKind::UnexpectedKeys { .. } => "unexpected-keys",
            ErrorKind::UnquotedString => "unquoted-string",
            ErrorKind::MultilineStringKey => "multiline-string-key",
            ErrorKind::RedefineAsArray => "redefine-as-array",
            ErrorKind::InvalidCharInString(..) => "invalid-char-in-string",
            ErrorKind::InvalidEscape(..) => "invalid-escape",
            ErrorKind::InvalidEscapeValue(..) => "invalid-escape-value",
            ErrorKind::InvalidHexEscape(..) => "invalid-hex-escape",
            ErrorKind::Unexpected(..) => "unexpected",
            ErrorKind::UnterminatedString => "unterminated-string",
            ErrorKind::NewlineInTableKey => "newline-in-table-key",
            ErrorKind::InvalidNumber => "invalid-number",
            ErrorKind::Wanted { .. } => "wanted",
            ErrorKind::MissingField(..) => "missing-field",
            ErrorKind::Deprecated { .. } => "deprecated",
            ErrorKind::UnexpectedValue { .. } => "unexpected-value",
        }
    }

    /// The code of the kind as an owned string.
    pub fn to_string(&self) -> (r: String)
        ensures
            r@ == kind_code(self@),
    {
        String::from_str(self.code())
    }
}

impl Error {
    /// The message of the error. It names no line or column: the span is
    /// there for that.
    pub fn to_string(&self) -> (r: String)
        ensures
            r@ == kind_message(self.kind@),
    {
        match &self.kind {
            ErrorKind::UnexpectedEof => String::from_str("unexpected eof encountered"),
            ErrorKind::InvalidCharInString(c) => around_escaped(
                "invalid character in string: `",
                *c,
                "`",
            ),
            ErrorKind::InvalidEscape(c) => around_escaped(
                "invalid escape character in string: `",
                *c,
                "`",
            ),
            ErrorKind::InvalidHexEscape(c) => around_escaped(
                "invalid hex escape character in string: `",
                *c,
                "`",
            ),
            ErrorKind::InvalidEscapeValue(v) => around_decimal(
                "invalid escape value: `",
                *v as u64,
                "`",
            ),
            ErrorKind::Unexpected(c) => around_escaped("unexpected character found: `", *c, "`"),
            ErrorKind::UnterminatedString => String::from_str("unterminated string"),
            ErrorKind::NewlineInTableKey => String::from_str("found newline in table key"),
            ErrorKind::Wanted { expected, found } => {
                let mut r = concat3("expected ", expected, ", found ");
                r.append(found);
                r
            },
            ErrorKind::InvalidNumber => String::from_str("invalid number"),
            ErrorKind::DuplicateTable { name, .. } => concat3(
                "redefinition of table `",
                name.as_str(),
                "`",
            ),
            ErrorKind::DuplicateKey { key, .. } => concat3("duplicate key: `", key.as_str(), "`"),
            ErrorKind::RedefineAsArray => String::from_str("table redefined as array"),
            ErrorKind::MultilineStringKey => String::from_str(
                "multiline strings are not allowed for key",
            ),
            ErrorKind::Custom(message) => message.clone(),
            ErrorKind::ExpectedTuple(l) => {
                let mut r = String::from_str("expected table with length ");
                push_decimal(&mut r, *l as u64);
                r
            },
            ErrorKind::ExpectedTupleIndex { expected, found } => {
                let mut r = around_decimal("expected table key `", *expected as u64, "`, but was `");
                r.append(found.as_str());
                r.append("`");
                r
            },
            ErrorKind::ExpectedEmptyTable => String::from_str("expected empty table"),
            ErrorKind::DottedKeyInvalidType => String::from_str(
                "dotted key attempted to extend non-table type",
            ),
            ErrorKind::UnexpectedKeys { keys } => around_keys(
                "unexpected keys in table: `",
                keys,
                "`",
            ),
            ErrorKind::UnquotedString => String::from_str(
                "invalid TOML value, did you mean to use a quoted string?",
            ),
            ErrorKind::MissingField(field) => concat3("missing field '", field, "' in table"),
            ErrorKind::Deprecated { old, new } => {
                let mut r = concat3("field '", old, "' is deprecated, '");
                r.append(new);
                r.append("' has replaced it");
                r
            },
            ErrorKind::UnexpectedValue { expected } => around_list("expected '", expected, "'"),
        }
    }
}

/// The label of style `style` at `span` of the file `fid` with the note
/// `message`.
fn label<FileId: Copy>(style: LabelStyle, fid: FileId, span: Span, message: String) -> (l: Label<
    FileId,
>)
    ensures
        l@ == (LabelView { style, file_id: fid, span, message: message@ }),
{
    Label { style, file_id: fid, span, message }
}

/// The list that holds one primary label at `span` with the note
/// `message`.
fn primary_label<FileId: Copy>(fid: FileId, span: Span, message: String) -> (r: Vec<Label<FileId>>)
    ensures
        r@.map_values(|l: Label<FileId>| l@) == seq![primary(fid, span, message@)],
{
    let mut r: Vec<Label<FileId>> = Vec::new();
    r.push(label(LabelStyle::Primary, fid, span, message));
    assert(r@.map_values(|l: Label<FileId>| l@) =~= seq![primary(fid, span, message@)]);
    r
}

/// The list that holds a secondary label at `first` and then a primary label
/// at `span`.
fn two_labels<FileId: Copy>(
    fid: FileId,
    first: Span,
    first_note: &str,
    span: Span,
    note: &str,
) -> (r: Vec<Label<FileId>>)
    ensures
        r@.map_values(|l: Label<FileId>| l@) == seq![
            secondary(fid, first, first_note@),
            primary(fid, span, note@),
        ],
{
    let mut r: Vec<Label<FileId>> = Vec::new();
    r.push(label(LabelStyle::Secondary, fid, first, String::from_str(first_note)));
    r.push(label(LabelStyle::Primary, fid, span, String::from_str(note)));
    assert(r@.map_values(|l: Label<FileId>| l@) =~= seq![
        secondary(fid, first, first_note@),
        primary(fid, span, note@),
    ]);
    r
}

/// One secondary label without a note for each key.
fn key_labels<FileId: Copy>(fid: FileId, keys: &Vec<(String, Span)>) -> (r: Vec<Label<FileId>>)
    ensures
        r@.map_values(|l: Label<FileId>| l@) == keys@.map_values(|k: (String, Span)| (k.0@, k.1)).map_values(
            |key: (Seq<char>, Span)| secondary(fid, key.1, Seq::empty()),
        ),
{
    let mut r: Vec<Label<FileId>> = Vec::new();
    let mut i: usize = 0;
    while i < keys.len()
        invariant
            i <= keys.len(),
            r.len() == i,
            forall|j: int| 0 <= j < i ==> (#[trigger] r@[j])@ == secondary(
                    fid,
                    keys@[j].1,
                    Seq::empty(),
                ),
        decreases keys.len() - i,
    {
        r.push(label(LabelStyle::Secondary, fid, keys[i].1, String::new()));
        i += 1;
    }
    assert(r@.map_values(|l: Label<FileId>| l@) =~= keys@.map_values(|k: (String, Span)| (k.0@, k.1)).map_values(
        |key: (Seq<char>, Span)| secondary(fid, key.1, Seq::empty()),
    ));
    r
}

impl Error {
    /// Projects the error, which is about the file `fid`, to a diagnostic
    /// record: the code of its kind, a headline where the kind has one, and
    /// its labels. Every record has one primary label at the span of the
    /// error. A duplicate key or table gets a secondary label at the first
    /// occurrence before it; unexpected keys get one secondary label each.
    pub fn to_diagnostic<FileId: Copy + PartialEq>(&self, fid: FileId) -> (d: Diagnostic<FileId>)
        ensures
            d@ == diagnostic_of(self@, fid),
    {
        let span = self.span;
        let code = self.kind.to_string();
        let message = match &self.kind {
            ErrorKind::UnexpectedKeys { keys } => around_decimal(
                "found ",
                keys.len() as u64,
                " unexpected keys",
            ),
            ErrorKind::MissingField(field) => concat3("missing field '", field, "'"),
            ErrorKind::Deprecated { new, .. } => concat3(
                "deprecated field enountered, '",
                new,
                "' should be used instead",
            ),
            ErrorKind::UnexpectedValue { expected } => around_list("expected '", expected, "'"),
            _ => String::new(),
        };
        let labels = match &self.kind {
            ErrorKind::DuplicateKey { first, .. } => two_labels(
                fid,
                *first,
                "first key instance",
                span,
                "duplicate key",
            ),
            ErrorKind::DuplicateTable { first, .. } => two_labels(
                fid,
                *first,
                "first table instance",
                span,
                "duplicate table",
            ),
            ErrorKind::Unexpected(c) => primary_label(
                fid,
                span,
                around_escaped("unexpected character '", *c, "'"),
            ),
            ErrorKind::InvalidCharInString(c) => primary_label(
                fid,
                span,
                around_escaped("invalid character '", *c, "' in string"),
            ),
            ErrorKind::InvalidEscape(c) => primary_label(
                fid,
                span,
                around_escaped("invalid escape character '", *c, "' in string"),
            ),
            ErrorKind::InvalidHexEscape(c) => primary_label(
                fid,
                span,
                around_escaped("invalid hex escape '", *c, "'"),
            ),
            ErrorKind::InvalidEscapeValue(_) => primary_label(
                fid,
                span,
                String::from_str("invalid escape value"),
            ),
            ErrorKind::InvalidNumber => primary_label(
                fid,
                span,
                String::from_str("unable to parse number"),
            ),
            ErrorKind::Wanted { expected, .. } => {
                let mut note = String::from_str("expected ");
                note.append(expected);
                primary_label(fid, span, note)
            },
            ErrorKind::MultilineStringKey => primary_label(
                fid,
                span,
                String::from_str("multiline keys are not allowed"),
            ),
            ErrorKind::UnterminatedString => primary_label(
                fid,
                span,
                String::from_str("eof reached before string terminator"),
            ),
            ErrorKind::UnquotedString => primary_label(
                fid,
                span,
                String::from_str("string is not quoted"),
            ),
            ErrorKind::UnexpectedKeys { keys } => {
                let mut r = key_labels(fid, keys);
                let ghost before = r@.map_values(|l: Label<FileId>| l@);
                r.push(label(LabelStyle::Primary, fid, span, String::from_str("unexpected keys")));
                assert(r@.map_values(|l: Label<FileId>| l@) =~= before.push(
                    primary(fid, span, "unexpected keys"@),
                ));
                r
            },
            ErrorKind::MissingField(_) => primary_label(
                fid,
                span,
                String::from_str("missing field"),
            ),
            ErrorKind::Deprecated { .. } => primary_label(
                fid,
                span,
                String::from_str("deprecated field"),
            ),
            ErrorKind::UnexpectedValue { .. } => primary_label(
                fid,
                span,
                String::from_str("unexpected value"),
            ),
            _ => primary_label(fid, span, self.to_string()),
        };
        Diagnostic { code, message, labels }
    }
}

/// The messages of the errors, each followed by a line feed.
pub open spec fn messages(errors: Seq<ErrorView>) -> Seq<char>
    decreases errors.len(),
{
    if errors.len() == 0 {
        Seq::empty()
    } else {
        messages(errors.drop_last()) + kind_message(errors.last().kind) + seq!['\n']
    }
}

impl DeserError {
    /// The messages of all the errors, one to a line.
    pub fn to_string(&self) -> (r: String)
        ensures
            r@ == messages(error_views(self.errors@)),
    {
        let ghost all = error_views(self.errors@);
        let mut r = String::new();
        let mut i: usize = 0;
        while i < self.errors.len()
            invariant
                i <= self.errors.len(),
                all == error_views(self.errors@),
                r@ == messages(all.take(i as int)),
            decreases self.errors.len() - i,
        {
            let m = self.errors[i].to_string();
            r.append(m.as_str());
            push_char(&mut r, '\n');
            proof {
                assert(all.take(i + 1).drop_last() =~= all.take(i as int));
                assert(r@ =~= messages(all.take(i + 1)));
            }
            i += 1;
        }
        assert(all.take(i as int) =~= all);
        r
    }
}

} // verus!
