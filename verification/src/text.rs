//! Byte-level helpers for UTF-8 text: character boundaries, decoding and
//! encoding of single scalar values, and slicing of string slices.

use std::borrow::Cow;
use vstd::prelude::*;
use vstd::string::*;
use vstd::utf8::*;

verus! {

/// The bytes of `b` from offset `i` to the end.
pub open spec fn suffix(b: Seq<u8>, i: int) -> Seq<u8> {
    b.subrange(i, b.len() as int)
}

/// The character that starts at offset `i` of the UTF-8 text `b`.
pub open spec fn char_at(b: Seq<u8>, i: int) -> char {
    decode_first_scalar(suffix(b, i)) as char
}

/// The number of bytes that the character at offset `i` of `b` occupies.
pub open spec fn width_at(b: Seq<u8>, i: int) -> int {
    length_of_first_scalar(suffix(b, i))
}

/// In valid UTF-8, an offset inside the text is a character boundary exactly
/// when the byte there is not a continuation byte; the end always is one.
pub proof fn lemma_boundary(b: Seq<u8>, i: int)
    requires
        valid_utf8(b),
        0 <= i <= b.len(),
    ensures
        is_char_boundary(b, i) <==> (i == b.len() || !is_continuation_byte(b[i])),
{
    if i == b.len() {
        is_char_boundary_start_end_of_seq(b);
    } else {
        is_char_boundary_iff_not_is_continuation_byte(b, i);
    }
}

/// The piece of valid UTF-8 between two character boundaries is valid UTF-8.
pub proof fn lemma_subrange_valid(b: Seq<u8>, i: int, j: int)
    requires
        valid_utf8(b),
        0 <= i <= j <= b.len(),
        is_char_boundary(b, i),
        is_char_boundary(b, j),
    ensures
        valid_utf8(b.subrange(i, j)),
{
    let p = b.subrange(0, j);
    valid_utf8_split(b, j);
    lemma_boundary(b, i);
    lemma_boundary(p, i);
    valid_utf8_split(p, i);
    assert(p.subrange(i, p.len() as int) =~= b.subrange(i, j));
}

/// At a character boundary before the end a well-formed scalar starts, and
/// the offset just after it is a character boundary again.
pub proof fn lemma_next_boundary(b: Seq<u8>, i: int)
    requires
        valid_utf8(b),
        0 <= i < b.len(),
        is_char_boundary(b, i),
    ensures
        valid_first_scalar(suffix(b, i)),
        1 <= width_at(b, i) <= 4,
        i + width_at(b, i) <= b.len(),
        is_char_boundary(b, i + width_at(b, i)),
        is_leading_byte_width_1(b[i]) ==> width_at(b, i) == 1,
{
    let s = suffix(b, i);
    valid_utf8_split(b, i);
    assert(valid_utf8(s));
    assert(s[0] == b[i]);
    let n = length_of_first_scalar(s);
    assert(valid_first_scalar(s));
    let k = i + n;
    lemma_boundary(b, k);
    if k < b.len() {
        let rest = pop_first_scalar(s);
        assert(valid_utf8(rest));
        assert(rest.len() > 0);
        assert(valid_first_scalar(rest));
        assert(rest[0] == b[k]);
    }
}

/// An ASCII byte is a character of its own: it stands between two character
/// boundaries.
pub proof fn lemma_ascii_boundary(b: Seq<u8>, i: int)
    requires
        valid_utf8(b),
        0 <= i < b.len(),
        b[i] < 0x80,
    ensures
        is_char_boundary(b, i),
        is_char_boundary(b, i + 1),
        width_at(b, i) == 1,
{
    lemma_boundary(b, i);
    lemma_next_boundary(b, i);
    assert(suffix(b, i)[0] == b[i]);
}

/// The bytes of a borrowed-or-owned string.
pub open spec fn cow_bytes(c: Cow<'_, str>) -> Seq<u8> {
    encode_utf8(c@)
}

/// The string slice that a borrowed-or-owned string holds.
pub fn cow_str<'b, 'a>(c: &'b Cow<'a, str>) -> (r: &'b str)
    ensures
        r@ == c@,
        r.spec_bytes() == cow_bytes(*c),
{
    match c {
        Cow::Borrowed(b) => b,
        Cow::Owned(o) => o.as_str(),
    }
}

/// ASCII text is valid UTF-8.
pub proof fn lemma_ascii_valid(b: Seq<u8>)
    requires
        forall|i: int| 0 <= i < b.len() ==> b[i] < 0x80,
    ensures
        valid_utf8(b),
    decreases b.len(),
{
    if b.len() > 0 {
        assert(valid_first_scalar(b));
        let rest = pop_first_scalar(b);
        assert(rest =~= b.subrange(1, b.len() as int));
        assert forall|i: int| 0 <= i < rest.len() implies rest[i] < 0x80 by {
            assert(rest[i] == b[i + 1]);
        }
        lemma_ascii_valid(rest);
    }
}

/// The bytes of a string slice are valid UTF-8.
pub proof fn lemma_str_valid(s: &str)
    ensures
        valid_utf8(s.spec_bytes()),
{
    encode_utf8_valid_utf8(s@);
}

/// Two string slices hold the same characters exactly when they hold the
/// same bytes.
pub proof fn lemma_bytes_eq_iff(a: Seq<char>, b: Seq<char>)
    ensures
        (encode_utf8(a) == encode_utf8(b)) <==> a == b,
{
    encode_utf8_decode_utf8(a);
    encode_utf8_decode_utf8(b);
}

/// The part of `s` between the byte offsets `start` and `end`, both of which
/// lie on character boundaries.
pub fn substr<'a>(s: &'a str, start: usize, end: usize) -> (r: &'a str)
    requires
        start <= end <= s.spec_bytes().len(),
        is_char_boundary(s.spec_bytes(), start as int),
        is_char_boundary(s.spec_bytes(), end as int),
    ensures
        r.spec_bytes() == s.spec_bytes().subrange(start as int, end as int),
{
    proof {
        lemma_str_valid(s);
    }
    let (a, _) = s.split_at(end);
    proof {
        let sb = s.spec_bytes();
        let ab = a.spec_bytes();
        valid_utf8_split(sb, end as int);
        lemma_boundary(sb, start as int);
        lemma_boundary(ab, start as int);
    }
    let (_, b) = a.split_at(start);
    assert(b.spec_bytes() =~= s.spec_bytes().subrange(start as int, end as int));
    b
}

/// Byte-wise equality of two slices.
pub fn bytes_eq(a: &[u8], b: &[u8]) -> (r: bool)
    ensures
        r == (a@ == b@),
{
    if a.len() != b.len() {
        return false;
    }
    let mut i: usize = 0;
    while i < a.len()
        invariant
            a.len() == b.len(),
            i <= a.len(),
            forall|k: int| 0 <= k < i ==> a@[k] == b@[k],
        decreases a.len() - i,
    {
        if a[i] != b[i] {
            return false;
        }
        i += 1;
    }
    assert(a@ =~= b@);
    true
}

/// How `a` stands to `b` in the order of the dictionary, byte by byte: -1
/// where `a` comes first, 0 where they are equal, 1 where `b` comes first.
/// A text comes before every longer text that it begins.
pub open spec fn bytes_order(a: Seq<u8>, b: Seq<u8>) -> int
    decreases a.len(),
{
    if a.len() == 0 {
        if b.len() == 0 {
            0
        } else {
            -1
        }
    } else if b.len() == 0 {
        1
    } else if a[0] < b[0] {
        -1
    } else if a[0] > b[0] {
        1
    } else {
        bytes_order(a.drop_first(), b.drop_first())
    }
}

/// Two texts stand to each other as what is left of them after a common
/// beginning.
proof fn lemma_bytes_order_skip(a: Seq<u8>, b: Seq<u8>, i: int)
    requires
        0 <= i <= a.len(),
        i <= b.len(),
        forall|k: int| 0 <= k < i ==> a[k] == b[k],
    ensures
        bytes_order(a, b) == bytes_order(a.skip(i), b.skip(i)),
    decreases i,
{
    if i > 0 {
        lemma_bytes_order_skip(a.drop_first(), b.drop_first(), i - 1);
        assert(a.drop_first().skip(i - 1) =~= a.skip(i));
        assert(b.drop_first().skip(i - 1) =~= b.skip(i));
    } else {
        assert(a.skip(0) =~= a);
        assert(b.skip(0) =~= b);
    }
}

/// Compares two slices in the order of the dictionary, byte by byte.
pub fn order_bytes(a: &[u8], b: &[u8]) -> (r: i8)
    ensures
        r == bytes_order(a@, b@),
{
    let mut i: usize = 0;
    loop
        invariant
            i <= a.len(),
            i <= b.len(),
            forall|k: int| 0 <= k < i ==> a@[k] == b@[k],
        decreases a.len() - i,
    {
        proof {
            lemma_bytes_order_skip(a@, b@, i as int);
        }
        if i >= a.len() {
            return if i >= b.len() {
                0
            } else {
                -1
            };
        }
        if i >= b.len() {
            return 1;
        }
        proof {
            assert(a@.skip(i as int)[0] == a@[i as int]);
            assert(b@.skip(i as int)[0] == b@[i as int]);
        }
        if a[i] < b[i] {
            return -1;
        }
        if a[i] > b[i] {
            return 1;
        }
        i += 1;
    }
}

/// Equality of two string slices, character by character.
pub fn str_eq(a: &str, b: &str) -> (r: bool)
    ensures
        r == (a@ == b@),
        r == (a.spec_bytes() == b.spec_bytes()),
{
    proof {
        lemma_bytes_eq_iff(a@, b@);
    }
    bytes_eq(a.as_bytes(), b.as_bytes())
}

/// `char::from_u32` of the standard library: the character whose scalar value
/// is `v`, which exists exactly when `v` is a Unicode scalar value (at most
/// `0x10FFFF` and no surrogate).
#[verifier::external_body]
pub(crate) fn char_from_u32(v: u32) -> (r: Option<char>)
    ensures
        r is Some <==> is_scalar(v),
        r matches Some(c) ==> c as u32 == v,
{
    char::from_u32(v)
}

/// `String::from_utf8` of the standard library: the string whose bytes are
/// `bytes`, which exists exactly when they are valid UTF-8.
#[verifier::external_body]
pub(crate) fn string_from_utf8(bytes: Vec<u8>) -> (r: Option<String>)
    ensures
        r is Some <==> valid_utf8(bytes@),
        r matches Some(s) ==> s@ == decode_utf8(bytes@) && encode_utf8(s@) == bytes@,
{
    match String::from_utf8(bytes) {
        Ok(s) => Some(s),
        Err(_) => None,
    }
}

/// The number of bytes of the UTF-8 encoding of `c`.
pub open spec fn utf8_len(c: char) -> int {
    if c as u32 <= 0x7f {
        1
    } else if c as u32 <= 0x7ff {
        2
    } else if c as u32 <= 0xffff {
        3
    } else {
        4
    }
}

/// The number of bytes of the UTF-8 encoding of `c`.
pub fn len_utf8(c: char) -> (n: usize)
    ensures
        n == utf8_len(c),
        1 <= n <= 4,
{
    let v = c as u32;
    if v <= 0x7f {
        1
    } else if v <= 0x7ff {
        2
    } else if v <= 0xffff {
        3
    } else {
        4
    }
}

/// Decodes the character that starts at the boundary `pos` and returns it with
/// the number of bytes it occupies.
pub fn decode_at(bytes: &[u8], pos: usize) -> (r: (char, usize))
    requires
        valid_utf8(bytes@),
        pos < bytes.len(),
        is_char_boundary(bytes@, pos as int),
    ensures
        r.0 == char_at(bytes@, pos as int),
        r.1 == width_at(bytes@, pos as int),
        r.1 == utf8_len(r.0),
        1 <= r.1 <= 4,
        pos + r.1 <= bytes.len(),
        is_char_boundary(bytes@, pos + r.1),
{
    proof {
        lemma_next_boundary(bytes@, pos as int);
    }
    let ghost s = suffix(bytes@, pos as int);
    let b0 = bytes[pos];
    assert(s[0] == b0);
    let (v, n): (u32, usize) = if b0 <= 0x7f {
        ((b0 & 0x7F) as u32, 1)
    } else if b0 <= 0xdf {
        let b1 = bytes[pos + 1];
        assert(s[1] == b1);
        ((((b0 & 0x1F) as u32) << 6) | ((b1 & 0x3f) as u32), 2)
    } else if b0 <= 0xef {
        let b1 = bytes[pos + 1];
        let b2 = bytes[pos + 2];
        assert(s[1] == b1 && s[2] == b2);
        ((((b0 & 0x0F) as u32) << 12) | (((b1 & 0x3f) as u32) << 6) | ((b2 & 0x3f) as u32), 3)
    } else {
        let b1 = bytes[pos + 1];
        let b2 = bytes[pos + 2];
        let b3 = bytes[pos + 3];
        assert(s[1] == b1 && s[2] == b2 && s[3] == b3);
        (
            (((b0 & 0x07) as u32) << 18) | (((b1 & 0x3f) as u32) << 12) | (((b2 & 0x3f) as u32)
                << 6) | ((b3 & 0x3f) as u32),
            4,
        )
    };
    assert(v == decode_first_scalar(s));
    assert(n == length_of_first_scalar(s));
    proof {
        lemma_decoded_is_scalar(s);
    }
    match char_from_u32(v) {
        Some(c) => {
            proof {
                char_u32_cast(c, v);
            }
            (c, n)
        },
        // What valid UTF-8 decodes to is a scalar value, so this arm is
        // never taken.
        None => ('\u{fffd}', n),
    }
}

/// A well-formed first scalar decodes to a Unicode scalar value, whose
/// encoding is as long as the scalar was.
pub proof fn lemma_decoded_is_scalar(s: Seq<u8>)
    requires
        valid_first_scalar(s),
    ensures
        is_scalar(decode_first_scalar(s)),
        utf8_len(decode_first_scalar(s) as char) == length_of_first_scalar(s),
{
    assert(forall|v: u32| is_scalar(v) ==> (#[trigger] (v as char)) as u32 == v);
    let b0 = s[0];
    if is_leading_byte_width_1(b0) {
        assert((b0 & 0x7F) as u32 <= 0x7f) by (bit_vector);
    } else if is_leading_byte_width_2(b0) {
        let b1 = s[1];
        assert(((((b0 & 0x1F) as u32) << 6) | ((b1 & 0x3f) as u32)) <= 0x7ff) by (bit_vector);
    } else if is_leading_byte_width_3(b0) {
        let b1 = s[1];
        let b2 = s[2];
        assert(((((b0 & 0x0F) as u32) << 12) | (((b1 & 0x3f) as u32) << 6) | ((b2 & 0x3f) as u32))
            <= 0xffff) by (bit_vector);
    } else {
    }
}

/// The UTF-8 encoding of a scalar value is valid UTF-8.
pub proof fn lemma_encode_scalar_valid(v: u32)
    requires
        is_scalar(v),
    ensures
        valid_utf8(encode_scalar(v)),
{
    let c = v as char;
    assert(c as u32 == v);
    let s = seq![c];
    encode_utf8_valid_utf8(s);
    assert(s.drop_first() =~= Seq::<char>::empty());
    assert(encode_utf8(s.drop_first()) =~= Seq::<u8>::empty());
    assert(encode_utf8(s) =~= encode_scalar(v));
}

/// One ASCII byte is valid UTF-8, and so is valid UTF-8 with it appended.
pub proof fn lemma_push_ascii_valid(b: Seq<u8>, x: u8)
    requires
        valid_utf8(b),
        x < 0x80,
    ensures
        valid_utf8(b.push(x)),
{
    let one = seq![x];
    assert(valid_first_scalar(one));
    assert(pop_first_scalar(one) =~= Seq::<u8>::empty());
    assert(valid_utf8(Seq::<u8>::empty()));
    assert(valid_utf8(one));
    valid_utf8_concat(b, one);
    assert(b + one =~= b.push(x));
}

/// Appends the UTF-8 encoding of the scalar value `v` to `buf`.
pub fn push_scalar(buf: &mut Vec<u8>, v: u32)
    requires
        is_scalar(v),
        valid_utf8(old(buf)@),
    ensures
        final(buf)@ == old(buf)@ + encode_scalar(v),
        valid_utf8(final(buf)@),
{
    proof {
        lemma_encode_scalar_valid(v);
        valid_utf8_concat(buf@, encode_scalar(v));
    }
    if v <= 0x7f {
        buf.push((v & 0x7F) as u8);
    } else if v <= 0x7ff {
        buf.push(0xC0 | ((v >> 6) & 0x1F) as u8);
        buf.push(0x80 | (v & 0x3F) as u8);
    } else if v <= 0xffff {
        buf.push(0xE0 | ((v >> 12) & 0x0F) as u8);
        buf.push(0x80 | ((v >> 6) & 0x3F) as u8);
        buf.push(0x80 | (v & 0x3F) as u8);
    } else {
        buf.push(0xF0 | ((v >> 18) & 0x7) as u8);
        buf.push(0x80 | ((v >> 12) & 0x3F) as u8);
        buf.push(0x80 | ((v >> 6) & 0x3F) as u8);
        buf.push(0x80 | (v & 0x3F) as u8);
    }
    assert(buf@ =~= old(buf)@ + encode_scalar(v));
}

/// `String::push` of the standard library: appends one character.
#[verifier::external_body]
pub(crate) fn push_char(s: &mut String, c: char)
    ensures
        final(s)@ == old(s)@.push(c),
{
    s.push(c)
}

/// Whether `c` has the Unicode property `White_Space`: the tab, the line
/// feed, the vertical tab, the form feed, the carriage return, the space, the
/// next-line character, the no-break space, the Ogham space mark, the spaces
/// from the en quad to the hair space, the line and the paragraph separator,
/// the narrow no-break space, the medium mathematical space and the
/// ideographic space.
pub open spec fn is_whitespace_char(c: char) -> bool {
    let v = c as u32;
    ||| 0x09 <= v <= 0x0d
    ||| v == 0x20
    ||| v == 0x85
    ||| v == 0xa0
    ||| v == 0x1680
    ||| 0x2000 <= v <= 0x200a
    ||| v == 0x2028
    ||| v == 0x2029
    ||| v == 0x202f
    ||| v == 0x205f
    ||| v == 0x3000
}

/// The character for the hexadecimal digit `d`, in lower case.
pub open spec fn hex_char(d: nat) -> char
    recommends
        d < 16,
{
    if d < 10 {
        ((48 + d) as u8) as char
    } else {
        ((87 + d) as u8) as char
    }
}

/// The hexadecimal notation of `n` in lower case, without leading zeros.
pub open spec fn hexadecimal(n: nat) -> Seq<char>
    decreases n,
{
    if n < 16 {
        seq![hex_char(n)]
    } else {
        hexadecimal(n / 16).push(hex_char(n % 16))
    }
}

/// The escaped form of a character: `\t`, `\r` and `\n` for tab, carriage
/// return and line feed; a backslash before a quote or a backslash; a
/// printable ASCII character as it is; `\u{..}` with the scalar value in
/// hexadecimal for any other.
pub open spec fn escape_default_text(c: char) -> Seq<char> {
    if c == '\t' {
        seq!['\\', 't']
    } else if c == '\r' {
        seq!['\\', 'r']
    } else if c == '\n' {
        seq!['\\', 'n']
    } else if c == '\\' || c == '\'' || c == '"' {
        seq!['\\', c]
    } else if 0x20 <= c as u32 <= 0x7e {
        seq![c]
    } else {
        seq!['\\', 'u', '{'] + hexadecimal(c as u32 as nat) + seq!['}']
    }
}

/// `char::is_whitespace` of the standard library: whether `c` has the
/// Unicode property `White_Space`, which [`is_whitespace_char`] spells out.
#[verifier::external_body]
pub(crate) fn char_is_whitespace(c: char) -> (r: bool)
    ensures
        r == is_whitespace_char(c),
{
    c.is_whitespace()
}

/// Appends the hexadecimal notation of `n` to `s`.
pub fn push_hexadecimal(s: &mut String, n: u32)
    ensures
        final(s)@ == old(s)@ + hexadecimal(n as nat),
    decreases n,
{
    if n >= 16 {
        push_hexadecimal(s, n / 16);
    }
    let d: u8 = (n % 16) as u8;
    let c = if d < 10 {
        (48u8 + d) as char
    } else {
        (87u8 + d) as char
    };
    push_char(s, c);
    assert(s@ =~= old(s)@ + hexadecimal(n as nat));
}

/// Appends the escaped form of `c` to `s`.
pub fn push_escape_default(s: &mut String, c: char)
    ensures
        final(s)@ == old(s)@ + escape_default_text(c),
{
    if c == '\t' {
        push_char(s, '\\');
        push_char(s, 't');
    } else if c == '\r' {
        push_char(s, '\\');
        push_char(s, 'r');
    } else if c == '\n' {
        push_char(s, '\\');
        push_char(s, 'n');
    } else if c == '\\' || c == '\'' || c == '"' {
        push_char(s, '\\');
        push_char(s, c);
    } else if 0x20 <= c as u32 && c as u32 <= 0x7e {
        push_char(s, c);
    } else {
        push_char(s, '\\');
        push_char(s, 'u');
        push_char(s, '{');
        push_hexadecimal(s, c as u32);
        push_char(s, '}');
    }
    assert(s@ =~= old(s)@ + escape_default_text(c));
}

/// How a character is shown inside a message: whitespace in its escaped form,
/// any other character as it is.
pub open spec fn escaped(c: char) -> Seq<char> {
    if is_whitespace_char(c) {
        escape_default_text(c)
    } else {
        seq![c]
    }
}

/// A line break, a carriage return and a tab are shown in their escaped
/// forms, so that a message stays on its line; a space and a character that
/// is no whitespace are shown as they are.
pub proof fn law_whitespace_is_shown_escaped(c: char)
    ensures
        escaped('\n') == seq!['\\', 'n'],
        escaped('\r') == seq!['\\', 'r'],
        escaped('\t') == seq!['\\', 't'],
        escaped(' ') == seq![' '],
        !is_whitespace_char(c) ==> escaped(c) == seq![c],
{
}

/// Appends `c` to `s` as [`escaped`] shows it.
pub fn push_escaped(s: &mut String, c: char)
    ensures
        final(s)@ == old(s)@ + escaped(c),
{
    if char_is_whitespace(c) {
        push_escape_default(s, c);
    } else {
        push_char(s, c);
        assert(s@ =~= old(s)@ + seq![c]);
    }
}

/// The character for the decimal digit `d`.
pub open spec fn digit_char(d: nat) -> char
    recommends
        d < 10,
{
    ((48 + d) as u8) as char
}

/// The decimal notation of `n`, without leading zeros.
pub open spec fn decimal(n: nat) -> Seq<char>
    decreases n,
{
    if n < 10 {
        seq![digit_char(n)]
    } else {
        decimal(n / 10).push(digit_char(n % 10))
    }
}

/// Appends the decimal notation of `n` to `s`.
pub fn push_decimal(s: &mut String, n: u64)
    ensures
        final(s)@ == old(s)@ + decimal(n as nat),
    decreases n,
{
    if n >= 10 {
        push_decimal(s, n / 10);
    }
    let d: u8 = (n % 10) as u8;
    push_char(s, (48u8 + d) as char);
    assert(s@ =~= old(s)@ + decimal(n as nat));
}

/// The text `a` followed by `b` followed by `c`.
pub fn concat3(a: &str, b: &str, c: &str) -> (r: String)
    ensures
        r@ == a@ + b@ + c@,
{
    let mut r = String::from_str(a);
    r.append(b);
    r.append(c);
    r
}

/// `item` between double quotes.
pub open spec fn quoted(item: Seq<char>) -> Seq<char> {
    seq!['"'] + item + seq!['"']
}

/// The items, each between double quotes, separated by a comma and a space.
pub open spec fn quoted_items(items: Seq<Seq<char>>) -> Seq<char>
    decreases items.len(),
{
    if items.len() == 0 {
        Seq::empty()
    } else if items.len() == 1 {
        quoted(items[0])
    } else {
        quoted_items(items.drop_last()) + seq![',', ' '] + quoted(items.last())
    }
}

/// The items as a bracketed list: `["a", "b"]`.
pub open spec fn quoted_list(items: Seq<Seq<char>>) -> Seq<char> {
    seq!['['] + quoted_items(items) + seq![']']
}

/// What one more item adds to the text of a list of quoted items.
pub open spec fn quoted_step(item: Seq<char>, first: bool) -> Seq<char> {
    if first {
        quoted(item)
    } else {
        seq![',', ' '] + quoted(item)
    }
}

/// The quoted items of a list that grew by one are those of the list before,
/// followed by the step for the new item.
pub proof fn lemma_quoted_items_push(before: Seq<Seq<char>>, item: Seq<char>)
    ensures
        quoted_items(before.push(item)) == quoted_items(before) + quoted_step(
            item,
            before.len() == 0,
        ),
{
    let all = before.push(item);
    assert(all.drop_last() =~= before);
    assert(all.last() == item);
    if before.len() == 0 {
        assert(quoted_items(before) + quoted(item) =~= quoted(item));
    } else {
        assert(quoted_items(before) + seq![',', ' '] + quoted(item) =~= quoted_items(before) + (
        seq![',', ' '] + quoted(item)));
    }
}

/// Appends to `s` the next item of a list of quoted items.
pub fn push_quoted_item(s: &mut String, item: &str, first: bool)
    ensures
        final(s)@ == old(s)@ + quoted_step(item@, first),
{
    if !first {
        push_char(s, ',');
        push_char(s, ' ');
    }
    push_char(s, '"');
    s.append(item);
    push_char(s, '"');
    assert(s@ =~= old(s)@ + quoted_step(item@, first));
}

/// Appends to `s` the bracketed list of the quoted items.
pub fn push_quoted_list(s: &mut String, items: &[&str])
    ensures
        final(s)@ == old(s)@ + quoted_list(items@.map_values(|e: &str| e@)),
{
    let ghost all = items@.map_values(|e: &str| e@);
    push_char(s, '[');
    let mut i: usize = 0;
    while i < items.len()
        invariant
            i <= items.len(),
            all == items@.map_values(|e: &str| e@),
            s@ == old(s)@ + seq!['['] + quoted_items(all.take(i as int)),
        decreases items.len() - i,
    {
        proof {
            lemma_quoted_items_push(all.take(i as int), all[i as int]);
            assert(all.take(i as int).push(all[i as int]) =~= all.take(i + 1));
        }
        push_quoted_item(s, items[i], i == 0);
        assert(s@ =~= old(s)@ + seq!['['] + quoted_items(all.take(i + 1)));
        i += 1;
    }
    push_char(s, ']');
    assert(all.take(i as int) =~= all);
    assert(s@ =~= old(s)@ + quoted_list(all));
}

} // verus!
