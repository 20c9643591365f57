use toml_span::value::{TableKind, ValueInner};
use toml_span::{parse, ErrorKind, Span, Value};

fn kind_of(toml: &str) -> ErrorKind {
    match parse(toml) {
        Ok(_) => panic!("expected an error for {toml:?}"),
        Err(e) => e.kind,
    }
}

fn span_of_error(toml: &str) -> Span {
    match parse(toml) {
        Ok(_) => panic!("expected an error for {toml:?}"),
        Err(e) => e.span,
    }
}

fn valid(toml: &str) -> Value<'_> {
    match parse(toml) {
        Ok(v) => v,
        Err(e) => panic!("{toml:?} failed: {}", e.to_string()),
    }
}

fn invalid(toml: &str) {
    assert!(parse(toml).is_err(), "{toml:?} should be rejected");
}

fn int_at(v: &Value<'_>, pointer: &str) -> i64 {
    v.pointer(pointer).unwrap().as_integer().unwrap()
}

fn str_at<'a>(v: &'a Value<'_>, pointer: &str) -> &'a str {
    v.pointer(pointer).unwrap().as_str().unwrap()
}

fn float_at(v: &Value<'_>, pointer: &str) -> f64 {
    v.pointer(pointer).unwrap().as_float().unwrap().parse().unwrap()
}

#[test]
fn basic_table() {
    let v = valid("s = 'boop string'\nos = 20");
    assert_eq!(str_at(&v, "/s"), "boop string");
    assert_eq!(int_at(&v, "/os"), 20);
    assert_eq!(v.as_table().unwrap().len(), 2);
    assert_eq!(v.span, Span::new(0, 25));
    assert_eq!(v.pointer("/s").unwrap().span, Span::new(4, 17));
    assert_eq!(v.pointer("/os").unwrap().span, Span::new(23, 25));
}

#[test]
fn integer_range() {
    let v = valid("a = 9223372036854775807\nb = -9223372036854775808");
    assert_eq!(int_at(&v, "/a"), i64::MAX);
    assert_eq!(int_at(&v, "/b"), i64::MIN);
    assert!(matches!(kind_of("a = 9223372036854775808"), ErrorKind::InvalidNumber));
    assert!(matches!(kind_of("a = -9223372036854775809"), ErrorKind::InvalidNumber));
}

#[test]
fn integer_range_positive_span() {
    assert!(matches!(kind_of("a = 9223372036854775808"), ErrorKind::InvalidNumber));
    assert_eq!(span_of_error("a = 9223372036854775808"), Span::new(4, 23));
}

#[test]
fn integers() {
    let v = valid(
        "a = 0\nb = +99\nc = -17\nd = 0xDEADBEEF\ne = 0xdead_beef\nf = 0o755\ng = 0b11010110\nh = 1_000\ni = +0\nj = -0\nk = 0x0000_00ff",
    );
    assert_eq!(int_at(&v, "/a"), 0);
    assert_eq!(int_at(&v, "/b"), 99);
    assert_eq!(int_at(&v, "/c"), -17);
    assert_eq!(int_at(&v, "/d"), 0xDEADBEEF);
    assert_eq!(int_at(&v, "/e"), 0xdead_beef);
    assert_eq!(int_at(&v, "/f"), 0o755);
    assert_eq!(int_at(&v, "/g"), 0b11010110);
    assert_eq!(int_at(&v, "/h"), 1000);
    assert_eq!(int_at(&v, "/i"), 0);
    assert_eq!(int_at(&v, "/j"), 0);
    assert_eq!(int_at(&v, "/k"), 255);
}

#[test]
fn underscores() {
    let v = valid("a = 1_000\nb = 0xff_ff\nc = 1_2_3\nd = 1_0.0_1e1_0");
    assert_eq!(int_at(&v, "/a"), 1000);
    assert_eq!(int_at(&v, "/b"), 0xffff);
    assert_eq!(int_at(&v, "/c"), 123);
    assert_eq!(v.pointer("/d").unwrap().as_float().unwrap(), "10.01e10");
    for bad in [
        "foo = _1",
        "foo = 1_",
        "foo = 1__0",
        "foo = 0_",
        "foo = 1_0_",
        "foo = 0__0",
        "foo = __0",
        "foo = 0x_ff",
        "foo = 0_xff",
        "foo = 0xff_",
        "foo = 1_.0",
        "foo = 1._0",
        "foo = 1e_1",
        "foo = 1_e1",
    ] {
        invalid(bad);
    }
}

#[test]
fn leading_zeros() {
    let v = valid("a = 0\nb = 0.0\nc = 0e0\nd = -0.0\ne = +0.0");
    assert_eq!(int_at(&v, "/a"), 0);
    assert_eq!(float_at(&v, "/b"), 0.0);
    assert_eq!(float_at(&v, "/c"), 0.0);
    for bad in ["a = 00", "a = -00", "a = +00", "a = 01", "a = 00.0", "a = -00.0", "a = +00.0"] {
        assert!(matches!(kind_of(bad), ErrorKind::InvalidNumber), "{bad}");
    }
}

#[test]
fn floats() {
    let v = valid(
        "a = 1.5\nb = -0.25\nc = 5e+22\nd = 1e06\ne = -2E-2\nf = 6.626e-34\ng = inf\nh = -inf\ni = +inf\nj = nan\nk = 9_224_617.445_991",
    );
    assert_eq!(float_at(&v, "/a"), 1.5);
    assert_eq!(float_at(&v, "/b"), -0.25);
    assert_eq!(float_at(&v, "/c"), 5e22);
    assert_eq!(float_at(&v, "/d"), 1e6);
    assert_eq!(float_at(&v, "/e"), -0.02);
    assert_eq!(float_at(&v, "/f"), 6.626e-34);
    assert_eq!(float_at(&v, "/g"), f64::INFINITY);
    assert_eq!(float_at(&v, "/h"), f64::NEG_INFINITY);
    assert_eq!(float_at(&v, "/i"), f64::INFINITY);
    assert!(float_at(&v, "/j").is_nan());
    assert_eq!(float_at(&v, "/k"), 9224617.445991);
    assert_eq!(v.pointer("/k").unwrap().as_float().unwrap(), "9224617.445991");
    assert_eq!(v.pointer("/a").unwrap().span, Span::new(4, 7));
}

#[test]
fn bad_floats() {
    for bad in [
        "a = 0.",
        "a = 0.e",
        "a = 0.E",
        "a = 0.0E",
        "a = 0.0e",
        "a = 0.0e-",
        "a = 0.0e+",
        "a = .5",
        "a = 1.e5",
        "a = 1.5.6",
        "a = infinity",
        "a = 0x1.8",
    ] {
        invalid(bad);
    }
}

#[test]
fn booleans() {
    let v = valid("a = true\nb = false");
    assert_eq!(v.pointer("/a").unwrap().as_bool(), Some(true));
    assert_eq!(v.pointer("/b").unwrap().as_bool(), Some(false));
    for bad in ["foo = true2", "foo = false2", "foo = t2", "foo = f2"] {
        assert!(matches!(kind_of(bad), ErrorKind::UnquotedString), "{bad}");
    }
}

#[test]
fn datetimes_are_rejected() {
    for bad in [
        "utc = 2016-09-09T09:09:09Z",
        "utc = 2016-09-09T09:09:09.1Z",
        "tz = 2016-09-09T09:09:09.2+10:00",
        "tz = 2016-09-09T09:09:09.123456789-02:00",
        "utc = 2016-09-09T09:09:09.Z",
        "utc = 2016-9-09T09:09:09Z",
        "tz = 2016-09-09T09:09:09+2:00",
        "tz = 2016-09-09T09:09:09-2:00",
        "tz = 2016-09-09T09:09:09Z-2:00",
        "d = 1979-05-27",
        "t = 07:32:00",
    ] {
        assert!(matches!(kind_of(bad), ErrorKind::InvalidNumber), "{bad}");
    }
    assert_eq!(span_of_error("utc = 2016-09-09T09:09:09Z"), Span::new(6, 26));
}

#[test]
fn crlf_everywhere() {
    let v = valid(
        "\
[project]\r\n\
\r\n\
name = \"splay\"\r\n\
version = \"0.1.0\"\r\n\
authors = [\"alex@crichton.co\"]\r\n\
\r\n\
[[lib]]\r\n\
\r\n\
path = \"lib.rs\"\r\n\
name = \"splay\"\r\n\
description = \"\"\"\
A Rust implementation of a TAR file reader and writer. This library does not\r\n\
currently handle compression, but it is abstract over all I/O readers and\r\n\
writers. Additionally, great lengths are taken to ensure that the entire\r\n\
contents are never required to be entirely resident in memory all at once.\r\n\
\"\"\"\
",
    );
    assert_eq!(str_at(&v, "/project/name"), "splay");
    assert_eq!(str_at(&v, "/project/authors/0"), "alex@crichton.co");
    assert_eq!(str_at(&v, "/lib/0/path"), "lib.rs");
    assert!(str_at(&v, "/lib/0/description").ends_with("all at once.\n"));
    assert!(!str_at(&v, "/lib/0/description").contains('\r'));
}

#[test]
fn stray_cr() {
    assert!(matches!(kind_of("\r"), ErrorKind::Unexpected('\r')));
    assert!(matches!(kind_of("a = [ \r ]"), ErrorKind::Unexpected('\r')));
    assert!(matches!(kind_of("a = \"\"\"\r\"\"\""), ErrorKind::InvalidCharInString('\r')));
    assert!(matches!(kind_of("a = \"\"\"  \r  \"\"\""), ErrorKind::InvalidCharInString('\r')));
    assert!(matches!(kind_of("a = '''\r'''"), ErrorKind::InvalidCharInString('\r')));
    assert!(matches!(kind_of("a = '\r'"), ErrorKind::InvalidCharInString('\r')));
    assert!(matches!(kind_of("a = \"\r\""), ErrorKind::InvalidCharInString('\r')));
    assert_eq!(int_at(&valid("a = 1 # note \r\nb = 2"), "/b"), 2);
    assert!(matches!(kind_of("# note \rmore"), ErrorKind::Unexpected('\r')));
    invalid("\"\"\"\r\"\"\"");
    invalid("'''\r'''");
}

#[test]
fn multiline_strings() {
    let v = valid("a = \"\"\"\n  hi\"\"\"");
    assert_eq!(str_at(&v, "/a"), "  hi");
    let v = valid("foo = \"\"\"\n\n\n\"\"\"");
    assert_eq!(str_at(&v, "/foo"), "\n\n");
    let v = valid("foo = \"\"\"\\\r\n\"\"\"\nbar = \"\"\"\\\r\n   \r\n   \r\n   a\"\"\"");
    assert_eq!(str_at(&v, "/foo"), "");
    assert_eq!(str_at(&v, "/bar"), "a");
    let v = valid("a = \"\"\"one \\\n\n\n   two\"\"\"");
    assert_eq!(str_at(&v, "/a"), "one two");
    let v = valid("a = '''\nraw \\n'''");
    assert_eq!(str_at(&v, "/a"), "raw \\n");
    let v = valid("a = \"\"\"two quotes: \"\"\"\"\"");
    assert_eq!(str_at(&v, "/a"), "two quotes: \"\"");
}

#[test]
fn strings_and_escapes() {
    let v = valid("a = \"tab\\there\"\nb = 'C:\\path'\nc = \"\\u00e9\\U0001F600\"\nd = \"é\"\ne = ''\nf = \"\"");
    assert_eq!(str_at(&v, "/a"), "tab\there");
    assert_eq!(str_at(&v, "/b"), "C:\\path");
    assert_eq!(str_at(&v, "/c"), "é😀");
    assert_eq!(str_at(&v, "/d"), "é");
    assert_eq!(str_at(&v, "/e"), "");
    assert_eq!(str_at(&v, "/f"), "");
    assert!(matches!(kind_of("a = \"\n\""), ErrorKind::InvalidCharInString('\n')));
    assert!(matches!(kind_of("a = '\n'"), ErrorKind::InvalidCharInString('\n')));
    assert!(matches!(kind_of("foo = \"\\uxx\""), ErrorKind::InvalidHexEscape('x')));
    assert!(matches!(kind_of("foo = \"\\u\""), ErrorKind::InvalidHexEscape('"')));
    assert!(matches!(kind_of("foo = \"\\"), ErrorKind::UnterminatedString));
    assert!(matches!(kind_of("foo = '"), ErrorKind::UnterminatedString));
    assert!(matches!(kind_of("foo = \"\\q\""), ErrorKind::InvalidEscape('q')));
}

#[test]
fn bad_codepoint() {
    assert!(matches!(kind_of("foo = \"\\uD800\""), ErrorKind::InvalidEscapeValue(0xD800)));
    assert_eq!(span_of_error("foo = \"\\uD800\""), Span::new(9, 13));
    assert!(matches!(
        kind_of("foo = \"\\U00110000\""),
        ErrorKind::InvalidEscapeValue(0x110000)
    ));
}

#[test]
fn borrowed_unless_rewritten() {
    let mut v = valid("a = 'plain'\nb = \"esc\\n\"\nc = 1.5\nd = 1_0.5");
    let t = match v.take() {
        ValueInner::Table(t) => t,
        _ => panic!("not a table"),
    };
    let mut borrowed = Vec::new();
    for (k, mut val) in t.entries {
        let is_borrowed = match val.take() {
            ValueInner::String(s) => matches!(s, std::borrow::Cow::Borrowed(_)),
            ValueInner::Float(s) => matches!(s, std::borrow::Cow::Borrowed(_)),
            _ => panic!("unexpected"),
        };
        borrowed.push((k.name.to_string(), is_borrowed));
    }
    assert_eq!(
        borrowed,
        vec![
            ("a".to_string(), true),
            ("b".to_string(), false),
            ("c".to_string(), true),
            ("d".to_string(), false)
        ]
    );
}

#[test]
fn arrays() {
    let v = valid("thevoid = [[[[[]]]]]");
    assert_eq!(v.pointer("/thevoid/0/0/0/0").unwrap().as_array().unwrap().len(), 0);
    let v = valid("ints = [1,2,3]");
    assert_eq!(int_at(&v, "/ints/2"), 3);
    assert_eq!(v.pointer("/ints").unwrap().span, Span::new(7, 14));
    let v = valid(r#"mixed = [[1, 2], ["a", "b"], [1.1, 2.1]]"#);
    assert_eq!(str_at(&v, "/mixed/1/1"), "b");
    assert_eq!(float_at(&v, "/mixed/2/0"), 1.1);
    let v = valid("a = [\n  1, # one\n  2,\n]\n");
    assert_eq!(v.pointer("/a").unwrap().as_array().unwrap().len(), 2);
    let v = valid(r#"arrays-and-ints =  [1, ["Arrays are not integers."]]"#);
    assert_eq!(str_at(&v, "/arrays-and-ints/1/0"), "Arrays are not integers.");
    invalid("a = [1 2]");
    invalid("a = [1,,2]");
    invalid("a = [");
    invalid("a = [1");
    invalid("a = [,]");
}

#[test]
fn inline_tables() {
    let v = valid("a = { b = 1, c = { d = 'x' }, e.f = true }\ng = {}\nh = { }");
    assert_eq!(int_at(&v, "/a/b"), 1);
    assert_eq!(str_at(&v, "/a/c/d"), "x");
    assert_eq!(v.pointer("/a/e/f").unwrap().as_bool(), Some(true));
    assert_eq!(v.pointer("/a").unwrap().as_table().unwrap().kind, TableKind::Inline);
    assert_eq!(v.pointer("/a").unwrap().span, Span::new(4, 42));
    assert_eq!(v.pointer("/g").unwrap().as_table().unwrap().len(), 0);
    assert_eq!(v.pointer("/h").unwrap().as_table().unwrap().len(), 0);
}

#[test]
fn bad_inline_tables() {
    invalid("a = {a=1,}");
    invalid("a = {,}");
    assert!(matches!(kind_of("a = {a=1,a=1}"), ErrorKind::DuplicateKey { .. }));
    assert!(matches!(kind_of("a = {\n}"), ErrorKind::NewlineInTableKey));
    invalid("a = {a=1\n}");
    invalid("a = {");
    invalid("a = {a=1");
    invalid("a = { b = 1 }\na.c = 2");
    invalid("a = { b = 1 }\n[a.c]");
}

#[test]
fn duplicate_key_points_at_first() {
    match parse("a = 1\nb = 2\na = 3") {
        Err(e) => {
            assert_eq!(e.span, Span::new(12, 13));
            match e.kind {
                ErrorKind::DuplicateKey { key, first } => {
                    assert_eq!(key, "a");
                    assert_eq!(first, Span::new(0, 1));
                }
                other => panic!("{other:?}"),
            }
        }
        Ok(_) => panic!("expected an error"),
    }
}

#[test]
fn bad_keys() {
    assert!(matches!(kind_of("key\n=3"), ErrorKind::Wanted { .. }));
    invalid("key=\n3");
    assert!(matches!(kind_of("key|=3"), ErrorKind::Unexpected('|')));
    assert!(matches!(kind_of("=3"), ErrorKind::Unexpected('=')));
    assert_eq!(span_of_error("a = 1\n  =3"), Span::new(8, 9));
    assert!(matches!(kind_of("a = 1\n]"), ErrorKind::Unexpected(']')));
    assert!(matches!(kind_of(", a = 1"), ErrorKind::Unexpected(',')));
    assert!(matches!(kind_of("{}"), ErrorKind::Unexpected('{')));
    assert!(matches!(kind_of("+1 = 2"), ErrorKind::Unexpected('+')));
    assert!(matches!(kind_of(".a = 2"), ErrorKind::Unexpected('.')));
    assert!(matches!(kind_of("\u{1}"), ErrorKind::Unexpected('\u{1}')));
    assert!(matches!(
        kind_of("a = { = 1 }"),
        ErrorKind::Wanted { expected: "a table key", found: "an equals" }
    ));
    invalid("\"\"|=3");
    invalid("\"\n\"|=3");
    invalid("\"something\nsomething else\"=3");
    invalid("\"\r\"|=3");
    assert!(matches!(kind_of("''''''=3"), ErrorKind::MultilineStringKey));
    assert!(matches!(kind_of(r#"""""""=3"#), ErrorKind::MultilineStringKey));
    assert!(matches!(kind_of("'''key'''=3"), ErrorKind::MultilineStringKey));
    assert!(matches!(kind_of(r#""""key"""=3"#), ErrorKind::MultilineStringKey));
    assert!(matches!(kind_of("a = 1\na.b = 2"), ErrorKind::DottedKeyInvalidType));
    assert!(matches!(kind_of("4"), ErrorKind::Wanted { .. }));
    assert!(matches!(kind_of("key ="), ErrorKind::UnexpectedEof));
}

#[test]
fn key_names() {
    let v = valid("foo = 1\n\"a b\" = 2\n'c.d' = 3\n1234 = 4\na-b_C = 5\n\"\" = 6\n\"\\u00e9\" = 7\nx . y = 8\n");
    assert_eq!(int_at(&v, "/foo"), 1);
    assert_eq!(int_at(&v, "/a b"), 2);
    assert_eq!(int_at(&v, "/c.d"), 3);
    assert_eq!(int_at(&v, "/1234"), 4);
    assert_eq!(int_at(&v, "/a-b_C"), 5);
    assert_eq!(int_at(&v, "/"), 6);
    assert_eq!(int_at(&v, "/é"), 7);
    assert_eq!(int_at(&v, "/x/y"), 8);
    let v = valid("foo=42");
    assert_eq!(int_at(&v, "/foo"), 42);
}

#[test]
fn bad_table_names() {
    for bad in [
        "[]",
        "[.]",
        "[a.]",
        "[!]",
        "[\"\n\"]",
        "[a.b]\n[a.\"b\"]",
        "[']",
        "[''']",
        "['''''']",
        "['''foo''']",
        r#"["""bar"""]"#,
        "['\n']",
        "['\r\n']",
        "[a",
        "[a]]",
        "[[a]",
        "[ [a]]",
        "[a] b = 1",
    ] {
        invalid(bad);
    }
    assert!(matches!(kind_of("[a.b]\n[a.\"b\"]"), ErrorKind::DuplicateTable { .. }));
    assert!(matches!(kind_of("[a\n]"), ErrorKind::NewlineInTableKey));
    assert_eq!(span_of_error("[a\n]"), Span::new(2, 3));
    assert!(matches!(kind_of("[a \r\n]"), ErrorKind::NewlineInTableKey));
    assert!(matches!(kind_of("[a.\nb]"), ErrorKind::NewlineInTableKey));
    assert!(matches!(kind_of("[a"), ErrorKind::Wanted { expected: "a right bracket", found: "eof" }));
    assert!(matches!(kind_of("[\n]"), ErrorKind::NewlineInTableKey));
}

#[test]
fn tables() {
    let v = valid("\n[foo]\n");
    assert_eq!(v.pointer("/foo").unwrap().as_table().unwrap().len(), 0);
    assert_eq!(v.pointer("/foo").unwrap().span, Span::new(2, 5));

    let v = valid("[a.b.c]\nanswer = 42\n\n[a]\nbetter = 43\n");
    assert_eq!(int_at(&v, "/a/b/c/answer"), 42);
    assert_eq!(int_at(&v, "/a/better"), 43);
    assert_eq!(v.pointer("/a").unwrap().as_table().unwrap().kind, TableKind::Defined);
    assert_eq!(v.pointer("/a/b").unwrap().as_table().unwrap().kind, TableKind::Implicit);

    let v = valid("[a]\nbetter = 43\n\n[a.b.c]\nanswer = 42\n");
    assert_eq!(int_at(&v, "/a/b/c/answer"), 42);
    assert_eq!(int_at(&v, "/a/better"), 43);

    let v = valid("[a]\n[a.b]");
    assert_eq!(v.pointer("/a/b").unwrap().as_table().unwrap().len(), 0);

    let v = valid(
        "\n[workspace]\nmembers = true\nother = false\n[workspace.foo]\nbar=3\n\n[workspace.bar]\ninline = { foo = 3 }\n\n",
    );
    assert_eq!(int_at(&v, "/workspace/foo/bar"), 3);
    assert_eq!(int_at(&v, "/workspace/bar/inline/foo"), 3);
    assert_eq!(v.pointer("/workspace").unwrap().span, Span::new(2, 11));

    let v = valid("[ a . \"b c\" ]\nx.y.z = 1\nx.y.w = 2\nx.v = 3");
    assert_eq!(int_at(&v, "/a/b c/x/y/z"), 1);
    assert_eq!(int_at(&v, "/a/b c/x/y/w"), 2);
    assert_eq!(int_at(&v, "/a/b c/x/v"), 3);
    assert_eq!(v.pointer("/a/b c/x").unwrap().as_table().unwrap().kind, TableKind::Dotted);
}

#[test]
fn redefinitions() {
    assert!(matches!(kind_of("[a]\n[a]"), ErrorKind::DuplicateTable { .. }));
    match parse("[a]\nb={}\n[a.b]") {
        Err(e) => match e.kind {
            ErrorKind::DuplicateTable { name, first } => {
                assert_eq!(name, "b");
                assert_eq!(first, Span::new(6, 8));
                assert_eq!(e.span, Span::new(12, 13));
            }
            other => panic!("{other:?}"),
        },
        Ok(_) => panic!("expected an error"),
    }
    invalid("\n[a]\nfoo=\"bar\"\n[a.b]\nfoo=\"bar\"\n[a]\n");
    invalid("\n[a]\nfoo=\"bar\"\nb = { foo = \"bar\" }\n[a]\n");
    invalid("\n        [a]\n        b = {}\n        [a.b]\n        ");
    invalid("\n        [a]\n        b = {}\n        [a]\n        ");
    invalid("\n        [a]\n        b = { c = 2, d = {} }\n        [a.b]\n        c = 2\n        ");
    assert!(matches!(kind_of("a = 1\n[a.b]"), ErrorKind::DottedKeyInvalidType));
    assert!(matches!(kind_of("a = []\n[a.b]"), ErrorKind::DottedKeyInvalidType));
    invalid("a = []\n[[a.b]]");
    invalid("[fruit]\napple.color = 'red'\n[fruit.apple]");
    invalid("[fruit]\napple.color = 'red'\n[fruit.apple.texture]");
    invalid("[a.b]\nc = 1\n[a]\nb.c = 2");
}

#[test]
fn arrays_of_tables() {
    let v = valid("[[people]]\nfirst_name=\"Bruce\"\n[[people]]\nfirst_name=\"Eric\"\n");
    let people = v.pointer("/people").unwrap().as_array().unwrap();
    assert_eq!(people.len(), 2);
    assert_eq!(str_at(&v, "/people/0/first_name"), "Bruce");
    assert_eq!(str_at(&v, "/people/1/first_name"), "Eric");
    assert_eq!(v.pointer("/people/0/first_name").unwrap().span, Span::new(22, 29));
    assert_eq!(v.pointer("/people/1/first_name").unwrap().span, Span::new(52, 58));

    let v = valid(
        r#"
[[albums]]
name = "Born to Run"

  [[albums.songs]]
  name = "Jungleland"

  [[albums.songs]]
  name = "Meeting Across the River"

[[albums]]
name = "Born in the USA"
  
  [[albums.songs]]
  name = "Glory Days"

  [[albums.songs]]
  name = "Dancing in the Dark"
"#,
    );
    assert_eq!(str_at(&v, "/albums/0/songs/1/name"), "Meeting Across the River");
    assert_eq!(str_at(&v, "/albums/1/songs/0/name"), "Glory Days");
    assert_eq!(v.pointer("/albums/1/songs").unwrap().as_array().unwrap().len(), 2);

    let v = valid("[[albums.songs]]\nname = \"Glory Days\"");
    assert_eq!(str_at(&v, "/albums/songs/0/name"), "Glory Days");

    let v = valid("[[a]]\n[a.b]\nx = 1\n[[a]]\n[a.b]\nx = 2");
    assert_eq!(int_at(&v, "/a/0/b/x"), 1);
    assert_eq!(int_at(&v, "/a/1/b/x"), 2);
}

#[test]
fn array_of_tables_conflicts() {
    assert!(matches!(
        kind_of("\n[[albums.songs]]\nname = \"Glory Days\"\n\n[[albums]]\nname = \"Born in the USA\"\n"),
        ErrorKind::RedefineAsArray
    ));
    assert!(matches!(kind_of("\n        a = [2]\n        [[a]]\n        b = 5\n        "), ErrorKind::RedefineAsArray));
    assert!(matches!(kind_of("a = 1\n[[a]]"), ErrorKind::RedefineAsArray));
    assert!(matches!(kind_of("a = [{}]\n[[a]]"), ErrorKind::RedefineAsArray));
    assert!(matches!(kind_of("[a]\n[[a]]"), ErrorKind::RedefineAsArray));
    invalid("[[a]]\n[a]");
}

#[test]
fn require_newlines() {
    for bad in [
        "0=0r=false",
        "\n0=\"\"o=\"\"m=\"\"r=\"\"00=\"0\"q=\"\"\"0\"\"\"e=\"\"\"0\"\"\"\n",
        "\n[[0000l0]]\n0=\"0\"[[0000l0]]\n0=\"0\"[[0000l0]]\n0=\"0\"l=\"0\"\n",
        "\n0=[0]00=[0,0,0]t=[\"0\",\"0\",\"0\"]s=[1000-00-00T00:00:00Z,2000-00-00T00:00:00Z]\n",
        "0=0r0=0r=false",
        "0=0r0=0r=falsefal=false",
        "a = 1 b = 2",
        "a = 'x' b = 2",
    ] {
        invalid(bad);
    }
    assert!(matches!(
        kind_of("a = 'x' b = 2"),
        ErrorKind::Wanted { expected: "newline", found: "an identifier" }
    ));
}

#[test]
fn comments() {
    let v = valid("# top\na = 1 # trailing\n# between\n[t] # header\nb = 2 #\n#");
    assert_eq!(int_at(&v, "/a"), 1);
    assert_eq!(int_at(&v, "/t/b"), 2);
    assert!(matches!(kind_of("a = 1 # bad \u{0} comment"), ErrorKind::Unexpected('\u{0}')));
    assert!(matches!(kind_of("# bad \u{7f} comment"), ErrorKind::Unexpected('\u{7f}')));
    let v = valid("# ünïcödé\na = 1");
    assert_eq!(int_at(&v, "/a"), 1);
}

#[test]
fn byte_order_mark_is_skipped() {
    let v = valid("\u{feff}a = 1");
    assert_eq!(int_at(&v, "/a"), 1);
    assert_eq!(v.pointer("/a").unwrap().span, Span::new(7, 8));
    assert_eq!(v.span, Span::new(0, 8));
}

#[test]
fn empty_documents() {
    assert_eq!(valid("").as_table().unwrap().len(), 0);
    assert_eq!(valid("  \n\t\r\n# nothing\n").as_table().unwrap().len(), 0);
}

#[test]
fn unexpected_characters() {
    assert!(matches!(kind_of("é = 1"), ErrorKind::Unexpected('é')));
    assert_eq!(span_of_error("é = 1"), Span::new(0, 2));
    assert!(matches!(kind_of("a = @"), ErrorKind::Unexpected('@')));
    assert!(matches!(kind_of("a = ,"), ErrorKind::Wanted { expected: "a value", found: "a comma" }));
}

#[test]
fn no_key_twice_in_any_table() {
    fn check(v: &Value<'_>) {
        if let Some(t) = v.as_table() {
            for (i, (k, val)) in t.entries.iter().enumerate() {
                for (other, _) in &t.entries[..i] {
                    assert_ne!(k.name, other.name);
                }
                check(val);
            }
        } else if let Some(a) = v.as_array() {
            for val in a {
                check(val);
            }
        }
    }
    check(&valid(
        "a.b = 1\na.c = 2\n[t]\nx = { y = 1, z = { y = 2 } }\n[[arr]]\nk = 1\n[[arr]]\nk = 2\n[t.u]\nx = 1",
    ));
}

#[test]
fn spans_cover_the_literals() {
    let toml = "a = 'one'\nb = [1, { c = 2.5 }]\n[t]\nd = true\n";
    let v = valid(toml);
    fn text<'a>(toml: &'a str, v: &Value<'_>) -> &'a str {
        &toml[v.span.start..v.span.end]
    }
    assert_eq!(text(toml, v.pointer("/a").unwrap()), "'one'");
    assert_eq!(text(toml, v.pointer("/b").unwrap()), "[1, { c = 2.5 }]");
    assert_eq!(text(toml, v.pointer("/b/0").unwrap()), "1");
    assert_eq!(text(toml, v.pointer("/b/1").unwrap()), "{ c = 2.5 }");
    assert_eq!(text(toml, v.pointer("/b/1/c").unwrap()), "2.5");
    assert_eq!(text(toml, v.pointer("/t").unwrap()), "t");
    assert_eq!(text(toml, v.pointer("/t/d").unwrap()), "true");
    assert_eq!(text(toml, &v), toml);
    for (k, _) in &v.as_table().unwrap().entries {
        assert_eq!(&toml[k.span.start..k.span.end], k.name);
    }
}

#[test]
fn simple_literals_parse_again_to_the_same() {
    let toml = "a = 'one'\nb = 17\nc = -2.5e3\nd = false\ne = \"two\"";
    let v = valid(toml);
    for (k, val) in &v.as_table().unwrap().entries {
        let again_src = format!("x = {}", &toml[val.span.start..val.span.end]);
        let again = valid(&again_src);
        let x = again.pointer("/x").unwrap();
        assert_eq!(x.as_str(), val.as_str(), "{}", k.name);
        assert_eq!(x.as_integer(), val.as_integer(), "{}", k.name);
        assert_eq!(x.as_float(), val.as_float(), "{}", k.name);
        assert_eq!(x.as_bool(), val.as_bool(), "{}", k.name);
    }
}

#[test]
fn a_whole_document() {
    let toml = r##"# This is a document.

title = "TOML Example" # trailing

[owner]
name = "Tom \"T\" Preston-Werner"
bio = 'C:\Users\nodejs # not a comment'

[database]
enabled = true
ports = [ 8000, 8001, 8002 ]
data = [ ["delta", "phi"], [3.14] ]
temp_targets = { cpu = 79.5, case = 72.0 }

[servers]

  [servers.alpha]
  ip = "10.0.0.1"
  role = "frontend"

  [servers."beta.gamma"]
  ip = "10.0.0.2"
  role = """
back\
  end"""

[[products]]
name = "Hammer"
sku = 738594937

[[products]]  # empty table within the array

[[products]]
name = "Nail"
sku = 284758393
color.rgb = [128, 128, 128]
color."name" = "gray"

[products.maker]
"name" = 'ACME'
"##;
    let v = valid(toml);
    assert_eq!(str_at(&v, "/title"), "TOML Example");
    assert_eq!(str_at(&v, "/owner/name"), "Tom \"T\" Preston-Werner");
    assert_eq!(str_at(&v, "/owner/bio"), "C:\\Users\\nodejs # not a comment");
    assert_eq!(v.pointer("/database/enabled").unwrap().as_bool(), Some(true));
    assert_eq!(int_at(&v, "/database/ports/1"), 8001);
    assert_eq!(str_at(&v, "/database/data/0/1"), "phi");
    assert_eq!(float_at(&v, "/database/data/1/0"), 3.14);
    assert_eq!(float_at(&v, "/database/temp_targets/cpu"), 79.5);
    assert_eq!(str_at(&v, "/servers/alpha/ip"), "10.0.0.1");
    assert_eq!(str_at(&v, "/servers/beta.gamma/role"), "backend");
    assert_eq!(v.pointer("/products").unwrap().as_array().unwrap().len(), 3);
    assert_eq!(str_at(&v, "/products/0/name"), "Hammer");
    assert_eq!(int_at(&v, "/products/0/sku"), 738594937);
    assert_eq!(v.pointer("/products/1").unwrap().as_table().unwrap().len(), 0);
    assert_eq!(int_at(&v, "/products/2/color/rgb/2"), 128);
    assert_eq!(str_at(&v, "/products/2/color/name"), "gray");
    assert_eq!(str_at(&v, "/products/2/maker/name"), "ACME");
    let keys: Vec<&str> = v
        .as_table()
        .unwrap()
        .entries
        .iter()
        .map(|(k, _)| k.name.as_ref())
        .collect();
    assert_eq!(keys, ["title", "owner", "database", "servers", "products"]);
    for (k, val) in &v.as_table().unwrap().entries {
        assert_eq!(&toml[k.span.start..k.span.end], k.name);
        assert!(val.span.start < val.span.end && val.span.end <= toml.len());
    }
}

#[test]
fn odd_but_valid() {
    let v = valid("a=1\nb=[1,[2,[3,],],]\nc={d={e={}}}\n\"\"=0\n'x'.\"\" = 1");
    assert_eq!(int_at(&v, "/b/1/1/0"), 3);
    assert_eq!(v.pointer("/c/d/e").unwrap().as_table().unwrap().len(), 0);
    let v = valid("[a]\n[a.b]\n[a.c]\n[d]\n[a.b.e]");
    assert_eq!(v.pointer("/a/b/e").unwrap().as_table().unwrap().len(), 0);
    let v = valid("x = \"\"\"\"\"\"\"\"");
    assert_eq!(str_at(&v, "/x"), "\"\"");
    let v = valid("x = '''''two'''''");
    assert_eq!(str_at(&v, "/x"), "''two''");
    let v = valid("1 = 1\n-1 = 2\n1e5 = 3\n_ = 4\ntrue = 5\ninf = 6");
    assert_eq!(int_at(&v, "/-1"), 2);
    assert_eq!(int_at(&v, "/true"), 5);
    let v = valid("a.b = 1\na.c.d = 2\n[e]\nf.g = 3");
    assert_eq!(int_at(&v, "/a/c/d"), 2);
    assert_eq!(int_at(&v, "/e/f/g"), 3);
    let v = valid("a = [ # why\n  # not\n  ]");
    assert_eq!(v.pointer("/a").unwrap().as_array().unwrap().len(), 0);
    let v = valid("a = 1 \t \n\t b = 2\t#\n");
    assert_eq!(int_at(&v, "/b"), 2);
    let v = valid("a = \"é\\u00e9\\t😀\"");
    assert_eq!(str_at(&v, "/a"), "éé\t😀");
}

#[test]
fn odd_and_invalid() {
    for bad in [
        "a = 1 = 2",
        "a",
        "a =",
        "a = # nothing",
        "= 1",
        "a..b = 1",
        "a. = 1",
        ".a = 1",
        "a = [1, 2",
        "a = {b = 1",
        "a = {b}",
        "a = {b = }",
        "a = }",
        "a = ]",
        "a = 1}",
        "[a]]",
        "[[a]",
        "[a]b",
        "[a] [b]",
        "[a.b]\nc = 1\n[a.b]",
        "a = 1\n[a]",
        "a.b = 1\n[a]",
        "a.b = 1\na = 2",
        "a = {}\na.b = 1",
        "[a]\nb.c = 1\n[a.b]",
        "[[a]]\n[[a.b]]\n[a.b]",
        "a = \"\\",
        "a = \"abc",
        "a = 'abc",
        "a = \"\"\"abc\"\"",
        "a = '''abc''",
        "a = \"\\x41\"",
        "a = \"\\u123\"",
        "a = \"\\U0011FFFF\"",
        "a = 0x",
        "a = 1e",
        "a = --1",
        "a = +-1",
        "a = 1_000_",
        "a = truefalse",
        "a = tru",
        "a = 'x' 'y'",
        "a = [1] [2]",
        "a = {} {}",
        "a = 1 \u{b} b = 2",
        "a = 1\u{c}",
    ] {
        invalid(bad);
    }
}

fn same_payload(a: &Value<'_>, b: &Value<'_>) {
    assert_eq!(a.as_str(), b.as_str());
    assert_eq!(a.as_integer(), b.as_integer());
    assert_eq!(a.as_float(), b.as_float());
    assert_eq!(a.as_bool(), b.as_bool());
}

fn reads_again_alone(toml: &str, v: &Value<'_>) -> usize {
    let mut seen = 0;
    if let Some(t) = v.as_table() {
        for (_, inner) in &t.entries {
            seen += reads_again_alone(toml, inner);
        }
    } else if let Some(a) = v.as_array() {
        for inner in a {
            seen += reads_again_alone(toml, inner);
        }
    } else {
        let text = &toml[v.span.start..v.span.end];
        let line = format!("k = {text}");
        let again = valid(&line);
        assert_eq!(again.as_table().unwrap().len(), 1);
        assert_eq!(again.span, Span::new(0, line.len()));
        let k = again.pointer("/k").unwrap();
        assert_eq!(k.span, Span::new(4, line.len()));
        same_payload(k, v);
        seen += 1;
    }
    seen
}

#[test]
fn every_literal_reads_again_in_a_line_of_its_own() {
    let toml = "a = 'one'\nb = [17, 0x1F, +1_0]\nc = { d = -2.5e3, e = [inf, -nan] }\n\
                [t]\nf = false\ng = \"t\\u00e9\\tx\"\nh = \"\"\"\none \\\n   two\r\n\"\"\"\n\
                i = '''\nraw \\n'''\n[[u]]\nj = true\n[[u]]\nj = 0.0\n";
    let v = valid(toml);
    assert_eq!(reads_again_alone(toml, &v), 13);
    assert_eq!(str_at(&v, "/t/g"), "t\u{e9}\tx");
    assert_eq!(str_at(&v, "/t/h"), "one two\n");
    assert_eq!(str_at(&v, "/t/i"), "raw \\n");
}

fn is_digit_of(b: u8, radix: u32) -> bool {
    (b as char).to_digit(radix).is_some()
}

fn well_separated(text: &[u8], radix: u32) -> bool {
    (0..text.len()).all(|i| {
        text[i] != b'_'
            || (i > 0
                && i + 1 < text.len()
                && is_digit_of(text[i - 1], radix)
                && is_digit_of(text[i + 1], radix))
    })
}

fn with_underscores(plain: &str, places: u32) -> String {
    let mut out = String::new();
    for (i, c) in plain.chars().enumerate() {
        let count = (places >> (2 * i)) & 3;
        for _ in 0..count.min(2) {
            out.push('_');
        }
        out.push(c);
    }
    for _ in 0..((places >> (2 * plain.len())) & 3).min(2) {
        out.push('_');
    }
    out
}

#[test]
fn underscores_anywhere_in_an_integer() {
    let integers: [(&str, u32, i64); 7] = [
        ("1000", 10, 1000),
        ("-12", 10, -12),
        ("+7", 10, 7),
        ("0", 10, 0),
        ("0xbeef", 16, 0xbeef),
        ("0o17", 8, 0o17),
        ("0b101", 2, 5),
    ];
    let mut accepted = 0;
    let mut refused = 0;
    for (plain, radix, value) in integers {
        for places in 0..(1u32 << (2 * (plain.len() + 1))) {
            let text = with_underscores(plain, places);
            let line = format!("k = {text}");
            match parse(&line) {
                Ok(v) => {
                    assert!(well_separated(text.as_bytes(), radix), "{text}");
                    assert_eq!(int_at(&v, "/k"), value, "{text}");
                    assert_eq!(v.pointer("/k").unwrap().span, Span::new(4, line.len()));
                    accepted += 1;
                },
                Err(e) => {
                    assert!(!well_separated(text.as_bytes(), radix), "{text}");
                    assert_eq!(e.span, Span::new(4, line.len()), "{text}");
                    if text.starts_with('_') {
                        assert!(matches!(e.kind, ErrorKind::UnquotedString), "{text}");
                    } else {
                        assert!(matches!(e.kind, ErrorKind::InvalidNumber), "{text}");
                    }
                    refused += 1;
                },
            }
        }
    }
    assert!(accepted > 0 && refused > accepted);
    assert_eq!(int_at(&valid("k = 1_0_0_0"), "/k"), 1000);
    assert_eq!(int_at(&valid("k = 0xbe_ef"), "/k"), 0xbeef);
    assert!(matches!(kind_of("k = 0_xbeef"), ErrorKind::InvalidNumber));
    assert!(matches!(kind_of("k = -_12"), ErrorKind::InvalidNumber));
    assert!(matches!(kind_of("k = _0b101"), ErrorKind::UnquotedString));
}

#[test]
fn what_is_borrowed_stands_in_the_source() {
    let toml = "a = 'plain'\nb = \"esc\\n\"\nc = '''\nlong\nlines'''\nd = \"\"\"\r\nx\r\ny\"\"\"\n\
                e = \"\"\n\"f g\" = \"\"\"two\"\"\"\"\"\n\"h\\t\" = 1.5\ni = 1_0.5\n";
    let mut v = valid(toml);
    let t = match v.take() {
        ValueInner::Table(t) => t,
        _ => panic!("not a table"),
    };
    let mut seen = Vec::new();
    for (k, mut val) in t.entries {
        let span = val.span;
        let text = &toml[span.start..span.end];
        let key_text = &toml[k.span.start..k.span.end];
        match &k.name {
            std::borrow::Cow::Borrowed(name) => assert!(key_text.contains(name)),
            std::borrow::Cow::Owned(_) => assert!(key_text.contains('\\')),
        }
        let (payload, is_float) = match val.take() {
            ValueInner::String(s) => (s, false),
            ValueInner::Float(s) => (s, true),
            _ => panic!("unexpected"),
        };
        match payload {
            std::borrow::Cow::Borrowed(s) => {
                assert!(text.contains(s), "{text}");
                seen.push((s.to_string(), true));
            },
            std::borrow::Cow::Owned(s) => {
                if is_float {
                    assert!(text.contains('_'));
                } else {
                    assert!(text.contains('\\') || text.contains('\r'), "{text}");
                }
                seen.push((s, false));
            },
        }
    }
    assert_eq!(
        seen,
        vec![
            ("plain".to_string(), true),
            ("esc\n".to_string(), false),
            ("long\nlines".to_string(), true),
            ("x\ny".to_string(), false),
            ("".to_string(), true),
            ("two\"\"".to_string(), true),
            ("1.5".to_string(), true),
            ("10.5".to_string(), false),
        ]
    );
}
