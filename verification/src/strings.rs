//! How a string is read: the body byte by byte, the escapes of a basic
//! string, and the lines that a backslash joins in a multi-line string.

use crate::span::Span;
use crate::text::{
    decode_at, lemma_ascii_boundary, lemma_push_ascii_valid, lemma_str_valid, lemma_subrange_valid,
    push_scalar, string_from_utf8, substr, utf8_len,
};
use crate::tokens::{
    escape, hex, hex_digit, is_blank, join, lex_string, newline_len, newline_width, scan,
    shown_char, string_token, trail, Error, Lexed, Token, TokenView,
};
use std::borrow::Cow;
use vstd::prelude::*;
use vstd::slice::*;
use vstd::string::*;
use vstd::utf8::*;

verus! {

/// The character at `pos` as errors name it.
fn shown(bytes: &[u8], pos: usize) -> (c: char)
    requires
        valid_utf8(bytes@),
        pos < bytes.len(),
        is_char_boundary(bytes@, pos as int),
    ensures
        c == shown_char(bytes@, pos as int),
        pos + utf8_len(c) <= bytes.len(),
{
    if newline_len(bytes, pos) > 0 {
        '\n'
    } else {
        decode_at(bytes, pos).0
    }
}

/// A copy of the bytes from `from` up to `to`.
fn copy_range(bytes: &[u8], from: usize, to: usize) -> (r: Vec<u8>)
    requires
        from <= to <= bytes.len(),
    ensures
        r@ == bytes@.subrange(from as int, to as int),
{
    let mut r: Vec<u8> = Vec::new();
    let mut i = from;
    while i < to
        invariant
            from <= i <= to <= bytes.len(),
            r@ == bytes@.subrange(from as int, i as int),
        decreases to - i,
    {
        r.push(bytes[i]);
        assert(r@ =~= bytes@.subrange(from as int, i + 1));
        i += 1;
    }
    r
}

/// The largest number that `done` hexadecimal digits can spell, plus one.
spec fn hex_bound(done: nat) -> nat {
    if done == 0 {
        1
    } else if done == 1 {
        0x10
    } else if done == 2 {
        0x100
    } else if done == 3 {
        0x1000
    } else if done == 4 {
        0x1_0000
    } else if done == 5 {
        0x10_0000
    } else if done == 6 {
        0x100_0000
    } else if done == 7 {
        0x1000_0000
    } else {
        0x1_0000_0000
    }
}

/// The value of the hexadecimal digit `b`.
fn hex_digit_of(b: u8) -> (r: Option<u32>)
    ensures
        r == hex_digit(b),
{
    if 0x30 <= b && b <= 0x39 {
        Some((b - 0x30) as u32)
    } else if 0x41 <= b && b <= 0x46 {
        Some((b - 0x41 + 10) as u32)
    } else if 0x61 <= b && b <= 0x66 {
        Some((b - 0x61 + 10) as u32)
    } else {
        None
    }
}

/// Reads the `total` hexadecimal digits after the `u` at `at` and appends
/// the character that they name to `buf`; returns the offset after them.
fn read_hex(
    bytes: &[u8],
    start: usize,
    multiline: bool,
    at: usize,
    total: usize,
    buf: &mut Vec<u8>,
) -> (r: Result<usize, Error>)
    requires
        valid_utf8(bytes@),
        at < bytes.len(),
        start < bytes.len(),
        bytes@[at as int] < 0x80,
        total == 4 || total == 8,
        valid_utf8(old(buf)@),
    ensures
        match r {
            Ok(np) => {
                &&& hex(
                    bytes@,
                    start as int,
                    multiline,
                    at as int,
                    total as nat,
                    at + 1,
                    total as nat,
                    0,
                    old(buf)@,
                ) == scan(bytes@, start as int, 0x22, multiline, np as int, final(buf)@, true)
                &&& at < np <= bytes.len()
                &&& is_char_boundary(bytes@, np as int)
                &&& valid_utf8(final(buf)@)
            },
            Err(e) => hex(
                bytes@,
                start as int,
                multiline,
                at as int,
                total as nat,
                at + 1,
                total as nat,
                0,
                old(buf)@,
            ) == Lexed::Error(e) && e.end() <= bytes.len(),
        },
{
    let ghost src = bytes@;
    let ghost acc = buf@;
    let mut pos: usize = at + 1;
    let mut left: usize = total;
    let mut value: u64 = 0;
    proof {
        lemma_ascii_boundary(src, at as int);
    }
    while left > 0
        invariant
            src == bytes@,
            acc == buf@,
            valid_utf8(src),
            total == 4 || total == 8,
            left <= total,
            start < bytes.len(),
            at < pos <= bytes.len(),
            pos == at + 1 + (total - left),
            is_char_boundary(src, pos as int),
            value < hex_bound((total - left) as nat),
            hex(
                src,
                start as int,
                multiline,
                at as int,
                total as nat,
                pos as int,
                left as nat,
                value as nat,
                acc,
            ) == hex(
                src,
                start as int,
                multiline,
                at as int,
                total as nat,
                at + 1,
                total as nat,
                0,
                acc,
            ),
        decreases left,
    {
        if pos >= bytes.len() {
            return Err(Error::UnterminatedString(start));
        }
        match hex_digit_of(bytes[pos]) {
            Some(d) => {
                proof {
                    lemma_ascii_boundary(src, pos as int);
                }
                value = value * 16 + d as u64;
                pos += 1;
                left -= 1;
            },
            None => {
                return Err(Error::InvalidHexEscape(pos, shown(bytes, pos)));
            },
        }
    }
    if value <= 0x10ffff && !(0xD800 <= value && value <= 0xDFFF) {
        push_scalar(buf, value as u32);
        Ok(pos)
    } else {
        Err(Error::InvalidEscapeValue(at, total, value as u32))
    }
}

/// After a line join: the offset of the first byte at or after `pos` that is
/// no space, tab or line break.
fn skip_join(bytes: &[u8], start: usize, pos: usize, Ghost(acc): Ghost<Seq<u8>>) -> (np: usize)
    requires
        valid_utf8(bytes@),
        pos <= bytes.len(),
        is_char_boundary(bytes@, pos as int),
    ensures
        join(bytes@, start as int, pos as int, acc) == scan(
            bytes@,
            start as int,
            0x22,
            true,
            np as int,
            acc,
            true,
        ),
        pos <= np <= bytes.len(),
        is_char_boundary(bytes@, np as int),
{
    let ghost src = bytes@;
    let mut np = pos;
    loop
        invariant
            src == bytes@,
            valid_utf8(src),
            pos <= np <= bytes.len(),
            is_char_boundary(src, np as int),
            join(src, start as int, np as int, acc) == join(src, start as int, pos as int, acc),
        decreases bytes.len() - np,
    {
        if np >= bytes.len() {
            return np;
        }
        let b = bytes[np];
        let w = newline_len(bytes, np);
        if b == 0x20 || b == 0x09 {
            proof {
                lemma_ascii_boundary(src, np as int);
            }
            np += 1;
        } else if w > 0 {
            proof {
                lemma_ascii_boundary(src, np + w - 1);
            }
            np += w;
        } else {
            return np;
        }
    }
}

/// After a backslash and a space or tab at `at`: skips the spaces and tabs
/// up to the line break and then everything that a line join drops.
fn skip_trail(bytes: &[u8], start: usize, at: usize, Ghost(acc): Ghost<Seq<u8>>) -> (r: Result<
    usize,
    Error,
>)
    requires
        valid_utf8(bytes@),
        at < bytes.len(),
        is_blank(bytes@[at as int]),
    ensures
        match r {
            Ok(np) => {
                &&& trail(bytes@, start as int, at as int, at + 1, acc) == scan(
                    bytes@,
                    start as int,
                    0x22,
                    true,
                    np as int,
                    acc,
                    true,
                )
                &&& at < np <= bytes.len()
                &&& is_char_boundary(bytes@, np as int)
            },
            Err(e) => trail(bytes@, start as int, at as int, at + 1, acc) == Lexed::Error(e)
                && e.end() <= bytes.len(),
        },
{
    let ghost src = bytes@;
    let mut pos = at + 1;
    proof {
        lemma_ascii_boundary(src, at as int);
    }
    loop
        invariant
            src == bytes@,
            valid_utf8(src),
            at < pos <= bytes.len(),
            is_blank(src[at as int]),
            is_char_boundary(src, pos as int),
            trail(src, start as int, at as int, pos as int, acc) == trail(
                src,
                start as int,
                at as int,
                at + 1,
                acc,
            ),
        decreases bytes.len() - pos,
    {
        if pos >= bytes.len() {
            return Ok(skip_join(bytes, start, pos, Ghost(acc)));
        }
        let b = bytes[pos];
        let w = newline_len(bytes, pos);
        if b == 0x20 || b == 0x09 {
            proof {
                lemma_ascii_boundary(src, pos as int);
            }
            pos += 1;
        } else if w > 0 {
            proof {
                lemma_ascii_boundary(src, pos + w - 1);
            }
            return Ok(skip_join(bytes, start, pos + w, Ghost(acc)));
        } else {
            return Err(Error::InvalidEscape(at, bytes[at] as char));
        }
    }
}

/// Reads what follows a backslash in a basic string, from the offset `pos`
/// just after it, and appends what the escape stands for to `buf`; returns
/// the offset at which the string goes on.
fn read_escape(bytes: &[u8], start: usize, multiline: bool, pos: usize, buf: &mut Vec<u8>) -> (r:
    Result<usize, Error>)
    requires
        valid_utf8(bytes@),
        0 < pos <= bytes.len(),
        start < bytes.len(),
        bytes@[pos - 1] == 0x5c,
        valid_utf8(old(buf)@),
    ensures
        match r {
            Ok(np) => {
                &&& escape(bytes@, start as int, multiline, pos as int, old(buf)@) == scan(
                    bytes@,
                    start as int,
                    0x22,
                    multiline,
                    np as int,
                    final(buf)@,
                    true,
                )
                &&& pos < np <= bytes.len()
                &&& is_char_boundary(bytes@, np as int)
                &&& valid_utf8(final(buf)@)
            },
            Err(e) => escape(bytes@, start as int, multiline, pos as int, old(buf)@)
                == Lexed::Error(e) && e.end() <= bytes.len(),
        },
{
    let ghost src = bytes@;
    let ghost acc = buf@;
    proof {
        lemma_ascii_boundary(src, pos - 1);
    }
    if pos >= bytes.len() {
        return Err(Error::UnterminatedString(start));
    }
    let b = bytes[pos];
    let simple: Option<u8> = if b == 0x22 || b == 0x5c {
        Some(b)
    } else if b == 0x62 {
        Some(0x08)
    } else if b == 0x66 {
        Some(0x0c)
    } else if b == 0x6e {
        Some(0x0a)
    } else if b == 0x72 {
        Some(0x0d)
    } else if b == 0x74 {
        Some(0x09)
    } else {
        None
    };
    match simple {
        Some(x) => {
            proof {
                lemma_push_ascii_valid(acc, x);
                lemma_ascii_boundary(src, pos as int);
            }
            buf.push(x);
            return Ok(pos + 1);
        },
        None => {},
    }
    if b == 0x75 {
        return read_hex(bytes, start, multiline, pos, 4, buf);
    }
    if b == 0x55 {
        return read_hex(bytes, start, multiline, pos, 8, buf);
    }
    let w = newline_len(bytes, pos);
    if multiline && w > 0 {
        proof {
            lemma_ascii_boundary(src, pos + w - 1);
        }
        return Ok(skip_join(bytes, start, pos + w, Ghost(acc)));
    }
    if multiline && (b == 0x20 || b == 0x09) {
        return skip_trail(bytes, start, pos, Ghost(acc));
    }
    Err(Error::InvalidEscape(pos, shown(bytes, pos)))
}

/// The string token from `start` to `end` whose value is `buf` where the
/// value had to be written anew, else the source from `vstart` to `vend`.
fn finish_string<'a>(
    input: &'a str,
    start: usize,
    end: usize,
    vstart: usize,
    vend: usize,
    owned: bool,
    buf: Vec<u8>,
    multiline: bool,
    literal: bool,
) -> (r: (Span, Token<'a>))
    requires
        start <= vstart <= vend <= end <= input.spec_bytes().len(),
        is_char_boundary(input.spec_bytes(), start as int),
        is_char_boundary(input.spec_bytes(), end as int),
        !owned ==> is_char_boundary(input.spec_bytes(), vstart as int) && is_char_boundary(
            input.spec_bytes(),
            vend as int,
        ),
        owned ==> valid_utf8(buf@),
    ensures
        r.0 == (Span { start, end }),
        r.1@ == (TokenView::String {
            src: input.spec_bytes().subrange(start as int, end as int),
            val: if owned {
                buf@
            } else {
                input.spec_bytes().subrange(vstart as int, vend as int)
            },
            multiline,
            literal,
        }),
        r.1.borrows() == !owned,
{
    let src = substr(input, start, end);
    let val: Cow<'a, str> = if owned {
        match string_from_utf8(buf) {
            Some(s) => Cow::Owned(s),
            // The value is valid UTF-8, so this arm is never taken.
            None => Cow::Borrowed(""),
        }
    } else {
        Cow::Borrowed(substr(input, vstart, vend))
    };
    (Span { start, end }, Token::String { src, val, multiline, literal })
}

/// What has been read of a string is valid UTF-8 up to the last point where
/// the reader looked, and the source since then; at a character boundary the
/// two can be taken together.
proof fn lemma_fold(src: Seq<u8>, done: Seq<u8>, cs: int, pos: int)
    requires
        valid_utf8(src),
        valid_utf8(done),
        0 <= cs <= pos <= src.len(),
        is_char_boundary(src, cs),
        is_char_boundary(src, pos),
    ensures
        valid_utf8(done + src.subrange(cs, pos)),
        done + src.subrange(cs, pos) + src.subrange(pos, pos) == done + src.subrange(cs, pos),
{
    lemma_subrange_valid(src, cs, pos);
    valid_utf8_concat(done, src.subrange(cs, pos));
    assert(done + src.subrange(cs, pos) + src.subrange(pos, pos) =~= done + src.subrange(cs, pos));
}

/// The state of reading the body of one string.
struct StringReader<'a> {
    /// The source.
    input: &'a str,
    /// The offset of the opening delimiter.
    start: usize,
    /// The delimiter, `'` or `"`.
    delim: u8,
    /// Whether three delimiters opened the string.
    multiline: bool,
    /// Where the value starts in the source.
    vstart: usize,
    /// How far the body has been read.
    pos: usize,
    /// Whether the value has departed from the text of the source.
    owned: bool,
    /// The value so far, once it has departed from the source.
    buf: Vec<u8>,
    /// The value so far.
    acc: Ghost<Seq<u8>>,
    /// The part of the value that is known to be valid UTF-8.
    done: Ghost<Seq<u8>>,
    /// From where on the value is the text of the source again.
    cs: Ghost<int>,
}

impl<'a> StringReader<'a> {
    /// The bytes of the source.
    spec fn src(&self) -> Seq<u8> {
        self.input.spec_bytes()
    }

    /// What holds between two steps of reading.
    spec fn inv(&self) -> bool {
        let src = self.src();
        &&& valid_utf8(src)
        &&& self.start < self.vstart <= self.cs@ <= self.pos <= src.len()
        &&& (self.delim == 0x27 || self.delim == 0x22)
        &&& src[self.start as int] == self.delim
        &&& is_char_boundary(src, self.start as int)
        &&& is_char_boundary(src, self.vstart as int)
        &&& is_char_boundary(src, self.cs@)
        &&& valid_utf8(self.done@)
        &&& self.acc@ == self.done@ + src.subrange(self.cs@, self.pos as int)
        &&& (!self.owned ==> self.done@.len() == 0 && self.cs@ == self.vstart)
        &&& (self.owned ==> self.buf@ == self.acc@)
    }

    /// What the string will turn out to be, seen from the current state.
    spec fn goal(&self) -> Lexed {
        scan(
            self.src(),
            self.start as int,
            self.delim,
            self.multiline,
            self.pos as int,
            self.acc@,
            self.owned,
        )
    }

    /// Whether `next` is a later state of reading the same string as `self`.
    spec fn leads_to(&self, next: &StringReader<'a>) -> bool {
        &&& next.inv()
        &&& next.input == self.input
        &&& next.start == self.start
        &&& next.delim == self.delim
        &&& next.multiline == self.multiline
        &&& next.vstart == self.vstart
        &&& next.pos > self.pos
        &&& next.goal() == self.goal()
    }

    /// From now on the value is kept in `buf`.
    fn make_owned(&mut self)
        requires
            old(self).inv(),
        ensures
            final(self).inv(),
            final(self).owned,
            final(self).input == old(self).input,
            final(self).start == old(self).start,
            final(self).delim == old(self).delim,
            final(self).multiline == old(self).multiline,
            final(self).vstart == old(self).vstart,
            final(self).pos == old(self).pos,
            final(self).acc == old(self).acc,
            final(self).done == old(self).done,
            final(self).cs == old(self).cs,
    {
        if !self.owned {
            self.buf = copy_range(self.input.as_bytes(), self.vstart, self.pos);
            self.owned = true;
        }
    }

    /// A line break of `w` bytes at `pos` in a multi-line string.
    fn on_newline(&mut self, w: usize)
        requires
            old(self).inv(),
            old(self).multiline,
            w > 0,
            w == newline_width(old(self).src(), old(self).pos as int),
        ensures
            old(self).leads_to(final(self)),
    {
        let ghost src = self.src();
        let n = self.input.as_bytes().len();
        assert(self.pos + w <= n);
        proof {
            lemma_ascii_boundary(src, self.pos as int);
            lemma_ascii_boundary(src, self.pos + w - 1);
        }
        if w == 2 {
            self.make_owned();
        }
        if self.owned {
            proof {
                lemma_fold(src, self.done@, self.cs@, self.pos as int);
                lemma_push_ascii_valid(self.acc@, 0x0a);
            }
            self.buf.push(0x0a);
            self.acc = Ghost(self.acc@.push(0x0a));
            self.done = Ghost(self.acc@);
            self.cs = Ghost(self.pos + w);
            self.pos = self.pos + w;
            assert(self.acc@ =~= self.done@ + src.subrange(self.cs@, self.pos as int));
        } else {
            self.acc = Ghost(self.acc@.push(0x0a));
            self.pos = self.pos + w;
            assert(self.acc@ =~= self.done@ + src.subrange(self.cs@, self.pos as int));
        }
    }

    /// `k` bytes at `pos` that stand for themselves.
    fn on_plain(&mut self, k: usize)
        requires
            old(self).inv(),
            1 <= k <= 2,
            old(self).pos + k <= old(self).src().len(),
        ensures
            final(self).inv(),
            final(self).input == old(self).input,
            final(self).start == old(self).start,
            final(self).delim == old(self).delim,
            final(self).multiline == old(self).multiline,
            final(self).vstart == old(self).vstart,
            final(self).owned == old(self).owned,
            final(self).pos == old(self).pos + k,
            final(self).acc@ == old(self).acc@ + old(self).src().subrange(
                old(self).pos as int,
                old(self).pos + k,
            ),
    {
        let ghost src = self.src();
        let bytes = self.input.as_bytes();
        assert(self.pos + k <= bytes.len());
        if self.owned {
            self.buf.push(bytes[self.pos]);
            if k == 2 {
                self.buf.push(bytes[self.pos + 1]);
            }
        }
        self.acc = Ghost(self.acc@ + src.subrange(self.pos as int, self.pos + k));
        self.pos = self.pos + k;
        assert(self.acc@ =~= self.done@ + src.subrange(self.cs@, self.pos as int));
        assert(self.owned ==> self.buf@ =~= self.acc@);
    }

    /// The token, once the closing delimiter has been found: the value ends
    /// at `pos`, the token at `end`.
    fn finish(self, end: usize) -> (r: (Span, Token<'a>))
        requires
            self.inv(),
            self.pos < end <= self.src().len(),
            is_char_boundary(self.src(), self.pos as int),
            is_char_boundary(self.src(), end as int),
        ensures
            r.0 == (Span { start: self.start, end }),
            r.1@ == (TokenView::String {
                src: self.src().subrange(self.start as int, end as int),
                val: self.acc@,
                multiline: self.multiline,
                literal: self.delim == 0x27,
            }),
            r.1.borrows() == !self.owned,
    {
        proof {
            lemma_fold(self.src(), self.done@, self.cs@, self.pos as int);
            if !self.owned {
                assert(self.acc@ =~= self.src().subrange(self.vstart as int, self.pos as int));
            }
        }
        finish_string(
            self.input,
            self.start,
            end,
            self.vstart,
            self.pos,
            self.owned,
            self.buf,
            self.multiline,
            self.delim == 0x27,
        )
    }

    /// A delimiter at `pos` in a multi-line string: one or two are text,
    /// three close the string.
    #[verifier::rlimit(40)]
    fn on_delim(&mut self) -> (closing: bool)
        requires
            old(self).inv(),
            old(self).multiline,
            old(self).pos < old(self).src().len(),
            old(self).src()[old(self).pos as int] == old(self).delim,
        ensures
            !closing ==> old(self).leads_to(final(self)),
            closing ==> {
                &&& final(self).inv()
                &&& final(self).input == old(self).input
                &&& final(self).start == old(self).start
                &&& final(self).delim == old(self).delim
                &&& final(self).multiline == old(self).multiline
                &&& final(self).owned == old(self).owned
                &&& final(self).pos + 3 <= final(self).src().len()
                &&& is_char_boundary(final(self).src(), final(self).pos as int)
                &&& is_char_boundary(final(self).src(), final(self).pos + 3)
                &&& old(self).goal() == string_token(
                    old(self).src(),
                    old(self).start as int,
                    final(self).pos + 3,
                    final(self).acc@,
                    old(self).delim,
                    true,
                    old(self).owned,
                )
            },
    {
        let ghost src = self.src();
        let bytes = self.input.as_bytes();
        let n = bytes.len();
        let pos = self.pos;
        let delim = self.delim;
        if !(pos + 1 < n && bytes[pos + 1] == delim) {
            self.on_plain(1);
            assert(self.acc@ =~= old(self).acc@.push(delim));
            return false;
        }
        if !(pos + 2 < n && bytes[pos + 2] == delim) {
            self.on_plain(2);
            assert(self.acc@ =~= old(self).acc@.push(delim).push(delim));
            return false;
        }
        if pos + 3 < n && bytes[pos + 3] == delim {
            if pos + 4 < n && bytes[pos + 4] == delim {
                self.on_plain(2);
                assert(self.acc@ =~= old(self).acc@.push(delim).push(delim));
            } else {
                self.on_plain(1);
                assert(self.acc@ =~= old(self).acc@.push(delim));
            }
        }
        proof {
            lemma_ascii_boundary(src, self.pos as int);
            lemma_ascii_boundary(src, self.pos + 2);
        }
        true
    }

    /// A backslash at `pos` in a basic string.
    fn on_escape(&mut self) -> (r: Result<(), Error>)
        requires
            old(self).inv(),
            old(self).delim == 0x22,
            old(self).pos < old(self).src().len(),
            old(self).src()[old(self).pos as int] == 0x5c,
            newline_width(old(self).src(), old(self).pos as int) == 0,
        ensures
            match r {
                Ok(()) => old(self).leads_to(final(self)),
                Err(e) => old(self).goal() == Lexed::Error(e) && e.end() <= old(self).src().len(),
            },
    {
        let ghost src = self.src();
        proof {
            lemma_ascii_boundary(src, self.pos as int);
            lemma_fold(src, self.done@, self.cs@, self.pos as int);
        }
        self.make_owned();
        let bytes = self.input.as_bytes();
        assert(self.pos < bytes.len());
        match read_escape(bytes, self.start, self.multiline, self.pos + 1, &mut self.buf) {
            Ok(np) => {
                self.pos = np;
                self.acc = Ghost(self.buf@);
                self.done = Ghost(self.buf@);
                self.cs = Ghost(np as int);
                assert(self.acc@ =~= self.done@ + src.subrange(self.cs@, self.pos as int));
                Ok(())
            },
            Err(e) => Err(e),
        }
    }
}

/// Reads the string that starts with the delimiter `delim` at `start`.
pub(crate) fn read_string<'a>(input: &'a str, start: usize, delim: u8) -> (r: Result<(Span, Token<'a>), Error>)
    requires
        start < input.spec_bytes().len(),
        input.spec_bytes()[start as int] == delim,
        delim == 0x27 || delim == 0x22,
        is_char_boundary(input.spec_bytes(), start as int),
    ensures
        match lex_string(input.spec_bytes(), start as int, delim) {
            Lexed::End => false,
            Lexed::Token { token, end, owned } => {
                &&& r matches Ok(found)
                &&& found.0.start == start
                &&& found.0.end == end
                &&& found.1@ == token
                &&& found.1.borrows() == !owned
                &&& start < end <= input.spec_bytes().len()
                &&& is_char_boundary(input.spec_bytes(), end as int)
            },
            Lexed::Error(e) => r == Err::<(Span, Token<'a>), Error>(e) && e.end()
                <= input.spec_bytes().len(),
        },
{
    let bytes = input.as_bytes();
    let ghost src = bytes@;
    let n = bytes.len();
    proof {
        lemma_str_valid(input);
        lemma_ascii_boundary(src, start as int);
    }
    let mut multiline = false;
    let mut pos: usize = start + 1;
    if pos < n && bytes[pos] == delim {
        if pos + 1 < n && bytes[pos + 1] == delim {
            multiline = true;
            proof {
                lemma_ascii_boundary(src, start + 2);
            }
            let w = newline_len(bytes, start + 3);
            pos = start + 3 + w;
            proof {
                if w > 0 {
                    lemma_ascii_boundary(src, pos - 1);
                }
            }
        } else {
            proof {
                lemma_ascii_boundary(src, start + 1);
            }
            let t = finish_string(
                input,
                start,
                start + 2,
                start + 1,
                start + 1,
                false,
                Vec::new(),
                false,
                delim == 0x27,
            );
            assert(src.subrange(start + 1, start + 1) =~= Seq::<u8>::empty());
            return Ok(t);
        }
    }
    let mut reader = StringReader {
        input,
        start,
        delim,
        multiline,
        vstart: pos,
        pos,
        owned: false,
        buf: Vec::new(),
        acc: Ghost(Seq::empty()),
        done: Ghost(Seq::empty()),
        cs: Ghost(pos as int),
    };
    assert(reader.acc@ =~= reader.done@ + src.subrange(reader.cs@, reader.pos as int));
    loop
        invariant
            src == bytes@,
            src == input.spec_bytes(),
            n == src.len(),
            reader.inv(),
            reader.input == input,
            reader.start == start,
            reader.delim == delim,
            reader.multiline == multiline,
            reader.goal() == lex_string(src, start as int, delim),
        decreases n - reader.pos,
    {
        if reader.pos >= n {
            return Err(Error::UnterminatedString(start));
        }
        let b = bytes[reader.pos];
        let w = newline_len(bytes, reader.pos);
        if w > 0 {
            if !multiline {
                return Err(Error::NewlineInString(reader.pos));
            }
            reader.on_newline(w);
        } else if b == delim {
            if !multiline {
                proof {
                    lemma_ascii_boundary(src, reader.pos as int);
                }
                let end = reader.pos + 1;
                return Ok(reader.finish(end));
            }
            if reader.on_delim() {
                let end = reader.pos + 3;
                return Ok(reader.finish(end));
            }
        } else if b == 0x5c && delim == 0x22 {
            match reader.on_escape() {
                Ok(()) => {},
                Err(e) => {
                    return Err(e);
                },
            }
        } else if b == 0x09 || (b >= 0x20 && b != 0x7f) {
            let ghost before = reader.acc@;
            reader.on_plain(1);
            assert(reader.acc@ =~= before.push(b));
        } else {
            return Err(Error::InvalidCharInString(reader.pos, b as char));
        }
    }
}

} // verus!
