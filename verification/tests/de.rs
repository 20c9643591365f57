use toml_span::de_helpers::{expected, TableHelper};
use toml_span::diagnostic::LabelStyle;
use toml_span::span::Spanned;
use toml_span::pointer::parse_index;
use toml_span::value::{Key, Table, ValueInner};
use toml_span::{parse, DeserError, Deserialize, Error, ErrorKind, Span, Value};

const BASIC_ARRAYS: &str = r#"packages = [
    "first",
    { name = "second" },
    { name = "third", version = "3.0.0" },
    { crate = "fourth:0.1" },
    "last",
]
"#;

const FLATTENED: &str = r#"flattened = [
    "simple",
    { name = "split", version = "1.0" },
    { crate = "both:2.0", reason = "because" },
    { name = "named", reason = "again" },
]
"#;

#[derive(Debug)]
struct Boop {
    s: String,
    os: Option<u32>,
}

impl<'de> Deserialize<'de> for Boop {
    fn deserialize(value: &mut Value<'de>) -> Result<Self, DeserError> {
        let mut mh = TableHelper::new(value)?;

        let s = mh.required("s")?;
        let os = mh.optional("os");

        mh.finalize(None)?;

        Ok(Self { s, os })
    }
}

#[test]
fn boop_reads_basic_table() {
    let mut v = parse("s = 'boop string'\nos = 20").unwrap();
    let boop = Boop::deserialize(&mut v).unwrap();
    assert_eq!(boop.s, "boop string");
    assert_eq!(boop.os, Some(20));
}

#[test]
fn missing_required() {
    let mut v = parse("os = 20").unwrap();
    let err = Boop::deserialize(&mut v).unwrap_err();
    assert_eq!(err.errors.len(), 1);
    assert!(matches!(err.errors[0].kind, ErrorKind::MissingField("s")));
    assert_eq!(err.errors[0].span, Span::new(0, 0));
    assert_eq!(err.errors[0].to_string(), "missing field 's' in table");
    let d = err.errors[0].to_diagnostic(());
    assert_eq!(d.code, "missing-field");
    assert_eq!(d.message, "missing field 's'");
    assert_eq!(d.labels.len(), 1);
    assert_eq!(d.labels[0].style, LabelStyle::Primary);
    assert_eq!(d.labels[0].span, Span::new(0, 0));
}

#[test]
fn unknown_field() {
    let mut v = parse("s = 'val'\nthis-field-is-not-known = 20").unwrap();
    let err = Boop::deserialize(&mut v).unwrap_err();
    assert_eq!(err.errors.len(), 1);
    match &err.errors[0].kind {
        ErrorKind::UnexpectedKeys { keys } => {
            assert_eq!(keys, &vec![("this-field-is-not-known".to_string(), Span::new(10, 33))]);
        }
        other => panic!("{other:?}"),
    }
    assert_eq!(
        err.errors[0].to_string(),
        "unexpected keys in table: `[(\"this-field-is-not-known\", Span { start: 10, end: 33 })]`"
    );
    let d = err.errors[0].to_diagnostic(());
    assert_eq!(d.code, "unexpected-keys");
    assert_eq!(d.message, "found 1 unexpected keys");
    assert_eq!(d.labels.len(), 2);
    assert_eq!(d.labels[0].style, LabelStyle::Secondary);
    assert_eq!(d.labels[0].span, Span::new(10, 33));
    assert_eq!(d.labels[0].message, "");
    assert_eq!(d.labels[1].style, LabelStyle::Primary);
    assert_eq!(d.labels[1].span, Span::new(0, 0));
}

#[test]
fn every_bad_field_is_reported() {
    let mut v = parse("s = 1\nos = 'x'\nextra = true").unwrap();
    let mut mh = TableHelper::new(&mut v).unwrap();
    let s: Result<String, Error> = mh.required("s");
    assert!(matches!(
        s.unwrap_err().kind,
        ErrorKind::Wanted { expected: "a string", found: "integer" }
    ));
    let os: Option<u32> = mh.optional("os");
    assert!(os.is_none());
    let err = mh.finalize(None).unwrap_err();
    assert_eq!(err.errors.len(), 3);
    assert!(matches!(err.errors[0].kind, ErrorKind::Wanted { expected: "a string", found: "integer" }));
    assert_eq!(err.errors[0].span, Span::new(4, 5));
    assert!(matches!(err.errors[1].kind, ErrorKind::Wanted { expected: "u32", found: "string" }));
    assert_eq!(err.errors[1].span, Span::new(11, 14));
    assert!(matches!(err.errors[2].kind, ErrorKind::UnexpectedKeys { .. }));
    assert_eq!(
        err.to_string(),
        "expected a string, found integer\nexpected u32, found string\nunexpected keys in table: `[(\"extra\", Span { start: 15, end: 20 })]`\n"
    );
}

#[derive(Debug)]
struct Package {
    name: String,
    version: Option<String>,
}

fn name_and_version(s: std::borrow::Cow<'_, str>) -> (String, Option<String>) {
    if let Some((name, version)) = s.split_once(':') {
        (name.to_owned(), Some(version.to_owned()))
    } else {
        (s.into(), None)
    }
}

impl<'de> Deserialize<'de> for Package {
    fn deserialize(value: &mut Value<'de>) -> Result<Self, DeserError> {
        match value.take() {
            ValueInner::String(s) => {
                let (name, version) = name_and_version(s);

                Ok(Self { name, version })
            }
            ValueInner::Table(tab) => {
                let mut th = TableHelper::from(tab);

                if let Some(mut val) = th.table.remove("crate") {
                    let (name, version) = match val.take() {
                        ValueInner::String(s) => name_and_version(s),
                        found => {
                            th.errors
                                .push(expected("a package string", found, val.span));
                            th.finalize(Some(value))?;
                            unreachable!();
                        }
                    };

                    th.finalize(Some(value))?;

                    Ok(Self { name, version })
                } else {
                    let name: Spanned<String> = th.required_s("name")?;
                    let version = th.optional("version");

                    th.finalize(Some(value))?;

                    Ok(Self {
                        name: name.value,
                        version,
                    })
                }
            }
            other => Err(expected("a string or table", other, value.span).into()),
        }
    }
}

#[derive(Debug)]
struct Array {
    packages: Vec<Package>,
}

impl<'de> Deserialize<'de> for Array {
    fn deserialize(value: &mut Value<'de>) -> Result<Self, DeserError> {
        let mut th = TableHelper::new(value)?;
        let packages = th.required("packages")?;
        th.finalize(Some(value))?;
        Ok(Self { packages })
    }
}

#[test]
fn basic_arrays() {
    let mut v = parse(BASIC_ARRAYS).unwrap();
    let a = Array::deserialize(&mut v).unwrap();
    let got: Vec<(String, Option<String>)> =
        a.packages.into_iter().map(|p| (p.name, p.version)).collect();
    assert_eq!(
        got,
        vec![
            ("first".to_string(), None),
            ("second".to_string(), None),
            ("third".to_string(), Some("3.0.0".to_string())),
            ("fourth".to_string(), Some("0.1".to_string())),
            ("last".to_string(), None),
        ]
    );
}

#[derive(Debug)]
pub struct PackageSpecOrExtended<T> {
    spec: Package,
    inner: Option<T>,
}

impl<'de, T> Deserialize<'de> for PackageSpecOrExtended<T>
where
    T: Deserialize<'de>,
{
    fn deserialize(value: &mut Value<'de>) -> Result<Self, DeserError> {
        let spec = Package::deserialize(value)?;

        let inner = if value.has_keys() {
            Some(T::deserialize(value)?)
        } else {
            None
        };

        Ok(Self { spec, inner })
    }
}

#[derive(Debug)]
struct Reason {
    reason: String,
}

impl<'de> Deserialize<'de> for Reason {
    fn deserialize(value: &mut Value<'de>) -> Result<Self, DeserError> {
        let mut th = TableHelper::new(value)?;
        let reason = th.required("reason")?;
        th.finalize(None)?;
        Ok(Self { reason })
    }
}

#[derive(Debug)]
struct Flattened {
    flattened: Vec<PackageSpecOrExtended<Reason>>,
}

impl<'de> Deserialize<'de> for Flattened {
    fn deserialize(value: &mut Value<'de>) -> Result<Self, DeserError> {
        let mut th = TableHelper::new(value)?;
        let flattened = th.required("flattened")?;
        th.finalize(Some(value))?;
        Ok(Self { flattened })
    }
}

#[test]
fn flattened() {
    let mut v = parse(FLATTENED).unwrap();
    let f = Flattened::deserialize(&mut v).unwrap();
    let got: Vec<(String, Option<String>, Option<String>)> = f
        .flattened
        .into_iter()
        .map(|p| (p.spec.name, p.spec.version, p.inner.map(|r| r.reason)))
        .collect();
    assert_eq!(
        got,
        vec![
            ("simple".to_string(), None, None),
            ("split".to_string(), Some("1.0".to_string()), None),
            ("both".to_string(), Some("2.0".to_string()), Some("because".to_string())),
            ("named".to_string(), None, Some("again".to_string())),
        ]
    );
}

/// Just validates the Value::pointer/_mut methods work as expected
#[test]
fn pointers() {
    let mut ba = parse(BASIC_ARRAYS).unwrap();

    assert_eq!(
        ba.pointer("/packages/2/version").unwrap().as_str().unwrap(),
        "3.0.0"
    );

    assert_eq!(
        ba.pointer_mut("/packages/3/crate")
            .unwrap()
            .take()
            .as_str()
            .unwrap(),
        "fourth:0.1"
    );

    assert!(ba.pointer("/packages/3/crate").is_none());
}

#[test]
fn pointer_is_a_partial_function() {
    let v = parse(BASIC_ARRAYS).unwrap();
    assert!(std::ptr::eq(v.pointer("").unwrap(), &v));
    for p in ["/packages", "/packages/0", "/packages/2/name", "/nothing", "/packages/9", "x"] {
        match (v.pointer(p), v.pointer(p)) {
            (Some(a), Some(b)) => assert!(std::ptr::eq(a, b), "{p}"),
            (None, None) => {}
            _ => panic!("two calls differ for {p}"),
        }
    }
    assert!(v.pointer("packages").is_none());
    assert!(v.pointer("/packages/+1").is_none());
    assert!(v.pointer("/packages/01").is_none());
    assert!(v.pointer("/packages/-1").is_none());
    assert!(v.pointer("/packages/5").is_none());
    assert!(v.pointer("/packages/99999999999999999999999").is_none());
    assert!(v.pointer("/packages/1/name/deeper").is_none());
    assert!(v.pointer("/packages/").is_none());
    assert_eq!(v.pointer("/packages/0").unwrap().as_str(), Some("first"));
    assert_eq!(v.pointer("/packages/4").unwrap().as_str(), Some("last"));

    let mut taken = parse(BASIC_ARRAYS).unwrap();
    taken.take();
    assert!(taken.pointer("/packages").is_none());
    assert!(taken.pointer("").is_some());
}

#[test]
fn pointer_mut_changes_the_place_it_selects() {
    let mut v = parse("a = { b = [1, 2, 3] }").unwrap();
    v.pointer_mut("/a/b/1").unwrap().set(ValueInner::Integer(20));
    assert_eq!(v.pointer("/a/b/0").unwrap().as_integer(), Some(1));
    assert_eq!(v.pointer("/a/b/1").unwrap().as_integer(), Some(20));
    assert_eq!(v.pointer("/a/b/2").unwrap().as_integer(), Some(3));
    assert!(v.pointer_mut("/a/c").is_none());
    assert!(v.pointer_mut("/a/b/3").is_none());
}

#[test]
fn parse_index_reads_plain_numbers_only() {
    assert_eq!(parse_index("0"), Some(0));
    assert_eq!(parse_index("7"), Some(7));
    assert_eq!(parse_index("10"), Some(10));
    assert_eq!(parse_index("18446744073709551615"), Some(usize::MAX));
    assert_eq!(parse_index("18446744073709551616"), None);
    assert_eq!(parse_index("99999999999999999999999999"), None);
    assert_eq!(parse_index(""), None);
    assert_eq!(parse_index("+1"), None);
    assert_eq!(parse_index("-1"), None);
    assert_eq!(parse_index("01"), None);
    assert_eq!(parse_index("00"), None);
    assert_eq!(parse_index("1a"), None);
    assert_eq!(parse_index(" 1"), None);
    assert_eq!(parse_index("١"), None);
}

#[test]
fn take_and_set() {
    let mut v = Value::new(ValueInner::Integer(3));
    assert_eq!(v.span, Span::new(0, 0));
    assert!(!v.is_taken());
    assert!(matches!(v.take(), ValueInner::Integer(3)));
    assert!(v.is_taken());
    assert!(v.as_integer().is_none());
    v.set(ValueInner::Boolean(true));
    assert!(matches!(v.take(), ValueInner::Boolean(true)));
    let mut w = Value::with_span(ValueInner::Integer(1), Span::new(4, 5));
    w.set(ValueInner::Integer(2));
    assert!(matches!(w.take(), ValueInner::Integer(2)));
    assert_eq!(w.span, Span::new(4, 5));
}

#[test]
fn take_string_reports_the_type_found() {
    let mut v = Value::with_span(ValueInner::Integer(3), Span::new(1, 2));
    let e = v.take_string(None).unwrap_err();
    assert!(matches!(e.kind, ErrorKind::Wanted { expected: "a string", found: "integer" }));
    assert_eq!(e.span, Span::new(1, 2));
    let mut v = Value::new(ValueInner::Boolean(true));
    let e = v.take_string(Some("a name")).unwrap_err();
    assert!(matches!(e.kind, ErrorKind::Wanted { expected: "a name", found: "boolean" }));
    let mut v = Value::new(ValueInner::String("x".into()));
    assert_eq!(v.take_string(None).unwrap(), "x");
}

#[test]
fn type_names() {
    assert_eq!(ValueInner::String("".into()).type_str(), "string");
    assert_eq!(ValueInner::Integer(0).type_str(), "integer");
    assert_eq!(ValueInner::Float("0.0".into()).type_str(), "float");
    assert_eq!(ValueInner::Boolean(false).type_str(), "boolean");
    assert_eq!(ValueInner::Array(Vec::new()).type_str(), "array");
    assert_eq!(ValueInner::Table(Table::new()).type_str(), "table");
}

#[test]
fn tables_keep_keys_unique_and_in_order() {
    let mut t = Table::new();
    assert!(t.is_empty());
    assert!(t.insert(Key::from("b"), Value::new(ValueInner::Integer(1))).is_none());
    assert!(t.insert(Key::from("a"), Value::new(ValueInner::Integer(2))).is_none());
    let old = t.insert(Key::from("b"), Value::new(ValueInner::Integer(3))).unwrap();
    assert_eq!(old.as_integer(), Some(1));
    assert_eq!(t.len(), 2);
    assert_eq!(t.position("b"), 0);
    assert_eq!(t.position("a"), 1);
    assert_eq!(t.position("c"), 2);
    assert!(t.contains_key("a"));
    assert!(!t.contains_key("c"));
    assert_eq!(t.get("b").unwrap().as_integer(), Some(3));
    t.get_mut("a").unwrap().set(ValueInner::Integer(4));
    assert_eq!(t.get("a").unwrap().as_integer(), Some(4));
    let (k, v) = t.remove_entry("b").unwrap();
    assert_eq!(k.name, "b");
    assert_eq!(v.as_integer(), Some(3));
    assert!(t.remove("b").is_none());
    assert_eq!(t.len(), 1);
    let keys: Vec<String> = t.into_keys().into_iter().map(|k| k.name.into_owned()).collect();
    assert_eq!(keys, vec!["a".to_string()]);
    assert!(Key::from("x").same_name(&Key::from("x")));
    assert!(!Key::from("x").same_name(&Key::from("y")));
    assert_eq!(Key::from("x").clone().as_str(), "x");
}

#[test]
fn has_keys_and_has_key() {
    let v = parse("a = 1\n[t]").unwrap();
    assert!(v.has_keys());
    assert!(v.has_key("a"));
    assert!(!v.has_key("b"));
    assert!(!v.pointer("/t").unwrap().has_keys());
    assert!(!v.pointer("/a").unwrap().has_keys());
    assert!(!v.pointer("/a").unwrap().has_key("a"));
}

#[test]
fn primitives() {
    let mut v = parse("a = 300\nb = -1\nc = 9223372036854775807\nd = true\ne = 'x'\nf = [1, 2, 3]\ng = [1, 'x', 3, true]").unwrap();
    let mut th = TableHelper::new(&mut v).unwrap();
    assert!(th.contains("a"));
    let (_, mut a) = th.take("a").unwrap();
    assert!(!th.contains("a"));
    let err = u8::deserialize(&mut a).unwrap_err();
    assert!(matches!(err.errors[0].kind, ErrorKind::InvalidNumber));
    assert_eq!(err.errors[0].span, Span::new(4, 7));
    let mut a = Value::new(ValueInner::Integer(300));
    assert_eq!(u16::deserialize(&mut a).unwrap(), 300);
    let mut a = Value::new(ValueInner::Integer(255));
    assert_eq!(u8::deserialize(&mut a).unwrap(), 255);
    let mut a = Value::new(ValueInner::Integer(-128));
    assert_eq!(i8::deserialize(&mut a).unwrap(), -128);
    let mut a = Value::new(ValueInner::Integer(-129));
    assert!(i8::deserialize(&mut a).is_err());
    let r: Result<u64, Error> = th.required("b");
    assert!(matches!(r.unwrap_err().kind, ErrorKind::InvalidNumber));
    assert_eq!(th.required::<i64>("c").unwrap(), i64::MAX);
    assert_eq!(th.required::<bool>("d").unwrap(), true);
    let e: Spanned<std::borrow::Cow<'_, str>> = th.required_s("e").unwrap();
    assert_eq!(e.value, "x");
    assert_eq!(e.span, Span::new(52, 55));
    assert_eq!(th.required::<Vec<u32>>("f").unwrap(), vec![1, 2, 3]);
    let before = th.errors.len();
    let g: Result<Vec<i32>, Error> = th.required("g");
    assert!(matches!(g.unwrap_err().kind, ErrorKind::Wanted { expected: "i32", found: "boolean" }));
    assert_eq!(th.errors.len(), before + 2);
    assert!(th.optional::<bool>("nothing").is_none());
    assert_eq!(th.errors.len(), before + 2);
    let mut i = Value::new(ValueInner::Integer(1));
    assert!(matches!(
        bool::deserialize(&mut i).unwrap_err().errors[0].kind,
        ErrorKind::Wanted { expected: "a bool", found: "integer" }
    ));
    let mut i = Value::new(ValueInner::Integer(1));
    assert!(matches!(
        Vec::<bool>::deserialize(&mut i).unwrap_err().errors[0].kind,
        ErrorKind::Wanted { expected: "an array", found: "integer" }
    ));
    let mut i = Value::new(ValueInner::Integer(7));
    assert_eq!(usize::deserialize(&mut i).unwrap(), 7);
    let mut i = Value::new(ValueInner::Integer(-7));
    assert_eq!(isize::deserialize(&mut i).unwrap(), -7);
    let mut i = Value::new(ValueInner::Integer(-7));
    assert!(usize::deserialize(&mut i).is_err());
    let mut i = Value::new(ValueInner::Integer(-7));
    assert_eq!(i16::deserialize(&mut i).unwrap(), -7);
    let mut i = Value::new(ValueInner::Integer(1 << 40));
    assert!(u32::deserialize(&mut i).is_err());
    let mut i = Value::new(ValueInner::Integer(1 << 40));
    assert!(i32::deserialize(&mut i).is_err());
}

#[test]
fn with_default_and_parse() {
    let mut v = parse("a = 1\nb = 'x'\nc = '12'\nd = 'twelve'\ne = 5\nf = '3'").unwrap();
    let mut th = TableHelper::new(&mut v).unwrap();
    let number = |s: &str| s.parse::<u32>().map_err(|e| e.to_string());
    assert_eq!(th.with_default::<i64, _>("a", || 9), (1, Span::new(4, 5)));
    assert_eq!(th.with_default::<i64, _>("a", || 9), (9, Span::new(0, 0)));
    assert!(th.errors.is_empty());
    assert_eq!(th.with_default::<i64, _>("b", || 9), (9, Span::new(0, 0)));
    assert_eq!(th.errors.len(), 1);
    assert_eq!(th.parse_opt("c", number), Some(12));
    assert_eq!(th.parse_opt("c", number), None);
    assert_eq!(th.errors.len(), 1);
    assert_eq!(th.parse_opt("d", number), None);
    assert_eq!(th.errors.len(), 2);
    match &th.errors[1].kind {
        ErrorKind::Custom(m) => {
            assert_eq!(m, "failed to parse string: invalid digit found in string")
        }
        other => panic!("{other:?}"),
    }
    assert_eq!(th.errors[1].span, Span::new(27, 35));
    assert_eq!(th.parse("e", number), 0);
    assert!(matches!(th.errors[2].kind, ErrorKind::Wanted { expected: "a string", found: "integer" }));
    assert_eq!(th.parse("f", number), 3);
    assert_eq!(th.parse("g", number), 0);
    assert!(matches!(th.errors[3].kind, ErrorKind::MissingField("g")));
    assert_eq!(th.errors.len(), 4);
    let err = th.finalize(None).unwrap_err();
    assert_eq!(err.errors.len(), 4);
}

#[test]
fn finalize_hands_the_rest_back() {
    let mut v = parse("a = 1\nb = 2").unwrap();
    let mut th = TableHelper::new(&mut v).unwrap();
    assert!(v.is_taken());
    assert_eq!(th.required::<u8>("a").unwrap(), 1);
    th.finalize(Some(&mut v)).unwrap();
    assert!(!v.is_taken());
    assert!(v.has_key("b"));
    assert!(!v.has_key("a"));
    let th = TableHelper::new(&mut v).unwrap();
    let err = th.finalize(None).unwrap_err();
    assert!(matches!(err.errors[0].kind, ErrorKind::UnexpectedKeys { .. }));
    let mut e = parse("").unwrap();
    assert!(TableHelper::new(&mut e).unwrap().finalize(None).is_ok());
    let mut n = Value::new(ValueInner::Integer(1));
    let err = match TableHelper::new(&mut n) {
        Err(e) => e,
        Ok(_) => panic!("no table"),
    };
    assert!(matches!(err.errors[0].kind, ErrorKind::Wanted { expected: "a table", found: "integer" }));
}

#[test]
fn messages_and_codes() {
    let e = Error::from((ErrorKind::InvalidNumber, Span::new(1, 2)));
    assert_eq!(e.kind.to_string(), "invalid-number");
    assert_eq!(e.kind.code(), "invalid-number");
    assert_eq!(e.to_string(), "invalid number");
    assert!(e.line_info.is_none());
    let cases: Vec<(ErrorKind, &str, &str)> = vec![
        (ErrorKind::UnexpectedEof, "unexpected-eof", "unexpected eof encountered"),
        (ErrorKind::InvalidCharInString('\n'), "invalid-char-in-string", "invalid character in string: `\\n`"),
        (ErrorKind::InvalidEscape('q'), "invalid-escape", "invalid escape character in string: `q`"),
        (ErrorKind::InvalidHexEscape('\t'), "invalid-hex-escape", "invalid hex escape character in string: `\\t`"),
        (ErrorKind::InvalidEscapeValue(55296), "invalid-escape-value", "invalid escape value: `55296`"),
        (ErrorKind::Unexpected(' '), "unexpected", "unexpected character found: ` `"),
        (ErrorKind::Unexpected('\u{a0}'), "unexpected", "unexpected character found: `\\u{a0}`"),
        (ErrorKind::UnterminatedString, "unterminated-string", "unterminated string"),
        (ErrorKind::NewlineInTableKey, "newline-in-table-key", "found newline in table key"),
        (ErrorKind::Wanted { expected: "a", found: "b" }, "wanted", "expected a, found b"),
        (ErrorKind::DuplicateTable { name: "t".into(), first: Span::new(0, 1) }, "duplicate-table", "redefinition of table `t`"),
        (ErrorKind::DuplicateKey { key: "k".into(), first: Span::new(0, 1) }, "duplicate-key", "duplicate key: `k`"),
        (ErrorKind::RedefineAsArray, "redefine-as-array", "table redefined as array"),
        (ErrorKind::MultilineStringKey, "multiline-string-key", "multiline strings are not allowed for key"),
        (ErrorKind::Custom("mine".into()), "custom", "mine"),
        (ErrorKind::ExpectedTuple(12), "expected-tuple", "expected table with length 12"),
        (ErrorKind::ExpectedTupleIndex { expected: 0, found: "x".into() }, "expected-tuple-index", "expected table key `0`, but was `x`"),
        (ErrorKind::ExpectedEmptyTable, "expected-empty-table", "expected empty table"),
        (ErrorKind::DottedKeyInvalidType, "dotted-key-invalid-type", "dotted key attempted to extend non-table type"),
        (ErrorKind::UnexpectedKeys { keys: vec![("a".into(), Span::new(0, 1)), ("b".into(), Span::new(2, 3))] }, "unexpected-keys", "unexpected keys in table: `[(\"a\", Span { start: 0, end: 1 }), (\"b\", Span { start: 2, end: 3 })]`"),
        (ErrorKind::UnexpectedKeys { keys: vec![] }, "unexpected-keys", "unexpected keys in table: `[]`"),
        (ErrorKind::UnquotedString, "unquoted-string", "invalid TOML value, did you mean to use a quoted string?"),
        (ErrorKind::MissingField("f"), "missing-field", "missing field 'f' in table"),
        (ErrorKind::Deprecated { old: "o", new: "n" }, "deprecated", "field 'o' is deprecated, 'n' has replaced it"),
        (ErrorKind::UnexpectedValue { expected: &["x", "y"] }, "unexpected-value", "expected '[\"x\", \"y\"]'"),
    ];
    for (kind, code, message) in cases {
        let e = Error::new(kind.clone(), Span::new(3, 4));
        assert_eq!(e.kind.code(), code);
        assert_eq!(e.to_string(), message);
        assert_eq!(e.clone().to_string(), message);
        let d = e.to_diagnostic(());
        assert_eq!(d.code, code);
    }
}

#[test]
fn diagnostics() {
    let e = parse("a = 1\na = 2").unwrap_err();
    let d = e.to_diagnostic(());
    assert_eq!(d.code, "duplicate-key");
    assert_eq!(d.message, "");
    assert_eq!(d.labels.len(), 2);
    assert_eq!(d.labels[0].style, LabelStyle::Secondary);
    assert_eq!(d.labels[0].span, Span::new(0, 1));
    assert_eq!(d.labels[0].message, "first key instance");
    assert_eq!(d.labels[1].style, LabelStyle::Primary);
    assert_eq!(d.labels[1].span, Span::new(6, 7));
    assert_eq!(d.labels[1].message, "duplicate key");

    let e = parse("[a]\nb={}\n[a.b]").unwrap_err();
    let d = e.to_diagnostic(());
    assert_eq!(d.code, "duplicate-table");
    assert_eq!(d.labels[0].span, Span::new(6, 8));
    assert_eq!(d.labels[0].message, "first table instance");
    assert_eq!(d.labels[1].message, "duplicate table");

    let one = |kind: ErrorKind, note: &str| {
        let d = Error::new(kind, Span::new(5, 9)).to_diagnostic(7u8);
        assert_eq!(d.labels[0].file_id, 7);
        assert_eq!(d.labels.len(), 1);
        assert_eq!(d.labels[0].style, LabelStyle::Primary);
        assert_eq!(d.labels[0].span, Span::new(5, 9));
        assert_eq!(d.labels[0].message, note);
        d.message
    };
    assert_eq!(one(ErrorKind::Unexpected('\r'), "unexpected character '\\r'"), "");
    assert_eq!(one(ErrorKind::InvalidCharInString('\u{0}'), "invalid character '\u{0}' in string"), "");
    assert_eq!(one(ErrorKind::InvalidEscape('q'), "invalid escape character 'q' in string"), "");
    assert_eq!(one(ErrorKind::InvalidHexEscape('g'), "invalid hex escape 'g'"), "");
    assert_eq!(one(ErrorKind::InvalidEscapeValue(1), "invalid escape value"), "");
    assert_eq!(one(ErrorKind::InvalidNumber, "unable to parse number"), "");
    assert_eq!(one(ErrorKind::Wanted { expected: "a", found: "b" }, "expected a"), "");
    assert_eq!(one(ErrorKind::MultilineStringKey, "multiline keys are not allowed"), "");
    assert_eq!(one(ErrorKind::UnterminatedString, "eof reached before string terminator"), "");
    assert_eq!(one(ErrorKind::UnquotedString, "string is not quoted"), "");
    assert_eq!(
        one(ErrorKind::Deprecated { old: "o", new: "n" }, "deprecated field"),
        "deprecated field enountered, 'n' should be used instead"
    );
    assert_eq!(
        one(ErrorKind::UnexpectedValue { expected: &["x"] }, "unexpected value"),
        "expected '[\"x\"]'"
    );
    assert_eq!(one(ErrorKind::RedefineAsArray, "table redefined as array"), "");
    assert_eq!(one(ErrorKind::UnexpectedEof, "unexpected eof encountered"), "");
    assert_eq!(one(ErrorKind::Custom("mine".into()), "mine"), "");
}

#[test]
fn spans_convert() {
    let s = Span::new(3, 9);
    let pair: (usize, usize) = s.into();
    assert_eq!(pair, (3, 9));
    assert_eq!(Span::from((3, 9)), s);
    assert_eq!(Span::default(), Span::new(0, 0));
    assert!(Span::default().is_empty());
    assert!(!s.is_empty());
    assert_eq!(Spanned::new(1).span, Span::default());
    assert_eq!(Spanned::with_span(1, s).take(), 1);
}

#[test]
fn unexpected_keys_are_shown_with_their_spans() {
    let keys = vec![
        ("first".to_string(), Span::new(3, 8)),
        ("second-one".to_string(), Span::new(120, 130)),
    ];
    let e = Error::new(ErrorKind::UnexpectedKeys { keys: keys.clone() }, Span::new(0, 0));
    assert_eq!(e.to_string(), format!("unexpected keys in table: `{keys:?}`"));
}
