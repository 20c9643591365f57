use toml_span::de_helpers::{Gathered, TableHelper};
use toml_span::number::{has_underscore, read_literal, strip_underscores, Literal};
use toml_span::text::{bytes_eq, decode_at, len_utf8, str_eq, substr};
use toml_span::tokens::{newline_len, run_to, token_at, Class, Error as TokenError, Token, Tokenizer};
use toml_span::value::Key;
use toml_span::{DeserError, Error, ErrorKind, Span};

#[test]
fn literals() {
    assert_eq!(read_literal(b"true"), Literal::Boolean(true));
    assert_eq!(read_literal(b"false"), Literal::Boolean(false));
    assert_eq!(read_literal(b"True"), Literal::Unquoted);
    assert_eq!(read_literal(b""), Literal::Unquoted);
    assert_eq!(read_literal(b"0"), Literal::Integer(0));
    assert_eq!(read_literal(b"-0"), Literal::Integer(0));
    assert_eq!(read_literal(b"+17"), Literal::Integer(17));
    assert_eq!(read_literal(b"1_000"), Literal::Integer(1000));
    assert_eq!(read_literal(b"0xff_ff"), Literal::Integer(0xffff));
    assert_eq!(read_literal(b"0xFF"), Literal::Integer(255));
    assert_eq!(read_literal(b"0o17"), Literal::Integer(15));
    assert_eq!(read_literal(b"0b101"), Literal::Integer(5));
    assert_eq!(read_literal(b"0x7fffffffffffffff"), Literal::Integer(i64::MAX));
    assert_eq!(read_literal(b"0x8000000000000000"), Literal::Invalid);
    assert_eq!(read_literal(b"9223372036854775807"), Literal::Integer(i64::MAX));
    assert_eq!(read_literal(b"9223372036854775808"), Literal::Invalid);
    assert_eq!(read_literal(b"-9223372036854775808"), Literal::Integer(i64::MIN));
    assert_eq!(read_literal(b"-9223372036854775809"), Literal::Invalid);
    assert_eq!(read_literal(b"99999999999999999999999999"), Literal::Invalid);
    for bad in ["00", "01", "-01", "+00", "-_1", "1_", "1__0", "0x", "0x_1", "0xg", "0o8", "0b2", "-0x1", "+", "-", "1-", "0X1F", "1:2"] {
        assert_eq!(read_literal(bad.as_bytes()), Literal::Invalid, "{bad}");
    }
    for float in ["0.0", "1.5", "-1.5", "+1.5", "1e5", "1E5", "1e+5", "1e-5", "1.5e5", "inf", "+inf", "-inf", "nan", "+nan", "-nan", "1_0.0_1", "0e0", "1e0_1", "1e01"] {
        assert_eq!(read_literal(float.as_bytes()), Literal::Float, "{float}");
    }
    for bad in ["1.", "1.e5", "1.5e", "1e", "1e+", "01.5", "1._5", "1_.5", "1.5_", "1e5.5", "1..5", "0x1.5", "1.5.5", "+.5", "1e--5"] {
        assert_eq!(read_literal(bad.as_bytes()), Literal::Invalid, "{bad}");
    }
    for bare in ["t2", "abc", "_", "_1", "__0", "inf2", "nanx", ".5", "e5", "infinity"] {
        assert_eq!(read_literal(bare.as_bytes()), Literal::Unquoted, "{bare}");
    }
}

#[test]
fn underscores_are_taken_out() {
    assert_eq!(strip_underscores(b"1_000_000", 0, 9), b"1000000");
    assert_eq!(strip_underscores(b"x1_0y", 1, 4), b"10");
    assert_eq!(strip_underscores(b"abc", 0, 3), b"abc");
    assert_eq!(strip_underscores(b"___", 0, 3), b"");
    assert!(has_underscore(b"1_0", 0, 3));
    assert!(!has_underscore(b"1_0", 2, 3));
    assert!(!has_underscore(b"10", 0, 2));
}

#[test]
fn text_helpers() {
    assert_eq!(substr("héllo", 1, 3), "é");
    assert_eq!(substr("héllo", 0, 6), "héllo");
    assert_eq!(substr("héllo", 3, 3), "");
    assert!(bytes_eq(b"ab", b"ab"));
    assert!(!bytes_eq(b"ab", b"ac"));
    assert!(!bytes_eq(b"ab", b"abc"));
    assert!(str_eq("é", "é"));
    assert!(!str_eq("e", "é"));
    assert_eq!(decode_at("aé€😀".as_bytes(), 0), ('a', 1));
    assert_eq!(decode_at("aé€😀".as_bytes(), 1), ('é', 2));
    assert_eq!(decode_at("aé€😀".as_bytes(), 3), ('€', 3));
    assert_eq!(decode_at("aé€😀".as_bytes(), 6), ('😀', 4));
    assert_eq!(len_utf8('a'), 1);
    assert_eq!(len_utf8('é'), 2);
    assert_eq!(len_utf8('€'), 3);
    assert_eq!(len_utf8('😀'), 4);
}

#[test]
fn runs_and_line_breaks() {
    let src = b"ab-1 \t x\r\n\ny";
    assert_eq!(run_to(src, 0, Class::Keylike), 4);
    assert_eq!(run_to(src, 4, Class::Blank), 7);
    assert_eq!(run_to(src, 4, Class::Keylike), 4);
    assert_eq!(run_to(src, 0, Class::Text), 8);
    assert_eq!(run_to(b"1.5e+3:x]", 0, Class::Number), 8);
    assert_eq!(run_to(src, src.len(), Class::Text), src.len());
    assert_eq!(newline_len(src, 8), 2);
    assert_eq!(newline_len(src, 9), 1);
    assert_eq!(newline_len(src, 10), 1);
    assert_eq!(newline_len(src, 0), 0);
    assert_eq!(newline_len(b"\r", 0), 0);
    assert_eq!(newline_len(b"\rx", 0), 0);
    assert_eq!(newline_len(src, src.len()), 0);
}

#[test]
fn tokens_at_offsets() {
    let src = "k = \"v\\n\" # c";
    assert_eq!(
        token_at(src, 0),
        Ok(Some((Span::new(0, 1), Token::Keylike("k"))))
    );
    assert_eq!(token_at(src, 2), Ok(Some((Span::new(2, 3), Token::Equals))));
    match token_at(src, 4) {
        Ok(Some((span, Token::String { src, val, multiline, literal }))) => {
            assert_eq!(span, Span::new(4, 9));
            assert_eq!(src, "\"v\\n\"");
            assert_eq!(val, "v\n");
            assert!(matches!(val, std::borrow::Cow::Owned(_)));
            assert!(!multiline);
            assert!(!literal);
        }
        other => panic!("{other:?}"),
    }
    assert_eq!(
        token_at(src, 10),
        Ok(Some((Span::new(10, 13), Token::Comment("# c"))))
    );
    assert_eq!(token_at(src, 13), Ok(None));
    assert_eq!(token_at("a:b", 1), Ok(Some((Span::new(1, 2), Token::Colon))));
    assert_eq!(token_at("a+b", 1), Ok(Some((Span::new(1, 2), Token::Plus))));
    assert_eq!(token_at("é", 0), Err(TokenError::Unexpected(0, 'é')));
    match token_at("'lit'", 0) {
        Ok(Some((_, Token::String { val, literal, .. }))) => {
            assert!(matches!(val, std::borrow::Cow::Borrowed("lit")));
            assert!(literal);
        }
        other => panic!("{other:?}"),
    }
    match token_at("'''a\r\nb'''", 0) {
        Ok(Some((_, Token::String { val, multiline, .. }))) => {
            assert_eq!(val, "a\nb");
            assert!(matches!(val, std::borrow::Cow::Owned(_)));
            assert!(multiline);
        }
        other => panic!("{other:?}"),
    }
    match token_at("'''\r\na\nb'''", 0) {
        Ok(Some((_, Token::String { val, .. }))) => {
            assert!(matches!(val, std::borrow::Cow::Borrowed("a\nb")));
        }
        other => panic!("{other:?}"),
    }
    assert_eq!(Token::Keylike("k").describe(), "an identifier");
    assert_eq!(Token::Newline.describe(), "a newline");
}

#[test]
fn tokenizer_skips_a_byte_order_mark_and_stops_after_an_error() {
    let mut t = Tokenizer::new("\u{feff}a");
    assert_eq!(t.current(), 3);
    assert_eq!(t.next(), Ok(Some((Span::new(3, 4), Token::Keylike("a")))));
    assert_eq!(t.current(), 4);
    assert_eq!(t.next(), Ok(None));
    assert_eq!(t.next(), Ok(None));

    let mut t = Tokenizer::new("a | b");
    assert!(t.next().unwrap().is_some());
    assert!(t.next().unwrap().is_some());
    assert_eq!(t.next(), Err(TokenError::Unexpected(2, '|')));
    assert_eq!(t.current(), 2);
    assert_eq!(t.next(), Ok(None));
    assert_eq!(t.next(), Ok(None));
}

#[test]
fn string_errors_point_at_the_offender() {
    let at = |src: &str| token_at(src, 0).unwrap_err();
    assert_eq!(at("\"a\\x\""), TokenError::InvalidEscape(3, 'x'));
    assert_eq!(at("\"a\\é\""), TokenError::InvalidEscape(3, 'é'));
    assert_eq!(at("\"\\u12g4\""), TokenError::InvalidHexEscape(5, 'g'));
    assert_eq!(at("\"\\u12"), TokenError::UnterminatedString(0));
    assert_eq!(at("\"\\UD8000000\""), TokenError::InvalidEscapeValue(2, 8, 0xD8000000));
    assert_eq!(at("\"\"\"a\\ x\"\"\""), TokenError::InvalidEscape(5, ' '));
    assert_eq!(at("\"\"\"a\\ \t"), TokenError::UnterminatedString(0));
    assert_eq!(at("\"a\u{7f}\""), TokenError::InvalidCharInString(2, '\u{7f}'));
    assert_eq!(at("\"a\rb\""), TokenError::InvalidCharInString(2, '\r'));
    assert_eq!(at("\"a\r\nb\""), TokenError::NewlineInString(2));
    assert_eq!(at("'''a''"), TokenError::UnterminatedString(0));
    assert_eq!(TokenError::InvalidEscape(3, 'é').span(), Span::new(3, 5));
    assert_eq!(TokenError::InvalidEscapeValue(2, 8, 0).span(), Span::new(3, 11));
    assert_eq!(TokenError::NewlineInString(2).span(), Span::new(2, 3));
    assert_eq!(TokenError::UnterminatedString(0).span(), Span::new(0, 1));
    assert_eq!(TokenError::Unexpected(4, '😀').span(), Span::new(4, 8));
    assert_eq!(TokenError::InvalidCharInString(1, '\u{7f}').span(), Span::new(1, 2));
    assert_eq!(TokenError::InvalidHexEscape(5, 'g').span(), Span::new(5, 6));
}

#[test]
fn gathered_outcomes() {
    let mut g: Gathered<u8> = Gathered::new();
    g.add(Ok(1));
    g.add(Ok(2));
    assert_eq!(g.finish().unwrap(), vec![1, 2]);

    let mut g: Gathered<u8> = Gathered::new();
    g.add(Ok(1));
    g.add(Err(DeserError::from(Error::new(ErrorKind::InvalidNumber, Span::new(1, 2)))));
    g.add(Ok(3));
    g.add(Err(DeserError {
        errors: vec![
            Error::new(ErrorKind::UnexpectedEof, Span::new(3, 4)),
            Error::new(ErrorKind::UnquotedString, Span::new(5, 6)),
        ],
    }));
    assert_eq!(g.values, vec![1, 3]);
    let e = g.finish().unwrap_err();
    assert_eq!(e.errors.len(), 3);
    assert!(matches!(e.errors[0].kind, ErrorKind::InvalidNumber));
    assert!(matches!(e.errors[1].kind, ErrorKind::UnexpectedEof));
    assert!(matches!(e.errors[2].kind, ErrorKind::UnquotedString));

    let g: Gathered<u8> = Gathered::new();
    assert_eq!(g.finish().unwrap(), Vec::<u8>::new());
}

#[test]
fn settle_and_absorb() {
    let mut th = TableHelper::from(toml_span::value::Table::new());
    assert_eq!(th.settle(Ok(5)).unwrap(), 5);
    assert!(th.errors.is_empty());
    let e = th
        .settle::<u8>(Err(DeserError {
            errors: vec![
                Error::new(ErrorKind::UnexpectedEof, Span::new(3, 4)),
                Error::new(ErrorKind::UnquotedString, Span::new(5, 6)),
            ],
        }))
        .unwrap_err();
    assert!(matches!(e.kind, ErrorKind::UnquotedString));
    assert_eq!(e.span, Span::new(5, 6));
    assert_eq!(th.errors.len(), 2);
    assert_eq!(th.absorb(Ok(7)), Some(7));
    assert_eq!(th.errors.len(), 2);
    assert_eq!(
        th.absorb::<u8>(Err(DeserError::from(Error::new(
            ErrorKind::InvalidNumber,
            Span::new(1, 2)
        )))),
        None
    );
    assert_eq!(th.errors.len(), 3);
    assert!(matches!(th.errors[2].kind, ErrorKind::InvalidNumber));
    assert!(th.absorb::<u8>(Err(DeserError { errors: vec![] })).is_none());
    assert_eq!(th.errors.len(), 3);
}

#[test]
fn keys_compare_by_name() {
    let a = Key { name: "k".into(), span: Span::new(1, 2) };
    let b = Key { name: String::from("k").into(), span: Span::new(7, 8) };
    let c = Key::from("other");
    assert!(a == b);
    assert!(a != c);
    assert!(a.same_name(&b));
    assert_eq!(a.clone().span, Span::new(1, 2));
    assert!(Key::from("a") < Key::from("b"));
    assert!(Key::from("a") < Key::from("ab"));
    assert!(Key::from("b") > Key::from("ab"));
    assert!(Key::from("") < Key::from("a"));
    assert!(Key::from("Z") < Key::from("a"));
    assert!(Key::from("é") > Key::from("z"));
    assert!(a <= b && a >= b);
    assert_eq!(a.partial_cmp(&b), Some(std::cmp::Ordering::Equal));
}

#[test]
fn bytes_in_the_order_of_the_dictionary() {
    use_order(b"", b"", 0);
    use_order(b"", b"a", -1);
    use_order(b"a", b"", 1);
    use_order(b"abc", b"abd", -1);
    use_order(b"abd", b"abc", 1);
    use_order(b"abc", b"abc", 0);
    use_order(b"abc", b"abcd", -1);
    use_order(b"\xff", b"a", 1);
}

fn use_order(a: &[u8], b: &[u8], expected: i8) {
    assert_eq!(toml_span::text::order_bytes(a, b), expected);
}

#[test]
fn every_character_is_shown_as_std_escapes_it() {
    for v in 0..=0x10ffffu32 {
        let c = match char::from_u32(v) {
            Some(c) => c,
            None => continue,
        };
        let shown = if c.is_whitespace() {
            c.escape_default().to_string()
        } else {
            c.to_string()
        };
        let message = Error::new(ErrorKind::Unexpected(c), Span::new(0, 1)).to_string();
        assert_eq!(message, format!("unexpected character found: `{shown}`"), "{v:x}");
    }
}
