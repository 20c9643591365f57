//! Reading the text of a bare value: a boolean, an integer in one of four
//! radixes, or a floating-point number.

use vstd::prelude::*;

verus! {

/// What the text of a bare value is.
#[derive(Copy, Clone, PartialEq, Eq, Structural, Debug)]
pub enum Literal {
    /// `true` or `false`.
    Boolean(bool),
    /// An integer that fits 64 bits with a sign.
    Integer(i64),
    /// A floating-point number; its text is the literal without underscores.
    Float,
    /// Text that begins like a number and is none, or an integer out of
    /// range.
    Invalid,
    /// Text that does not even begin like a number: most likely a string
    /// that lacks its quotes.
    Unquoted,
}

/// The value of the byte `b` as a digit in the radix `radix`, or `None`.
pub open spec fn digit_of(b: u8, radix: nat) -> Option<nat> {
    let v: int = if 0x30 <= b <= 0x39 {
        b - 0x30
    } else if 0x61 <= b <= 0x66 {
        b - 0x61 + 10
    } else if 0x41 <= b <= 0x46 {
        b - 0x41 + 10
    } else {
        16
    };
    if v < radix {
        Some(v as nat)
    } else {
        None
    }
}

/// Whether `d` is a run of digits of the radix with single underscores
/// between digits only: not empty, no underscore first or last, no two
/// underscores in a row.
pub open spec fn digits_ok(d: Seq<u8>, radix: nat) -> bool {
    &&& d.len() > 0
    &&& forall|i: int| 0 <= i < d.len() ==> (#[trigger] d[i]) == 0x5f || digit_of(d[i], radix) is Some
    &&& d[0] != 0x5f
    &&& d.last() != 0x5f
    &&& forall|i: int| 0 <= i < d.len() - 1 ==> !((#[trigger] d[i]) == 0x5f && d[i + 1] == 0x5f)
}

/// The number that the digits spell in the radix, underscores passed over.
pub open spec fn digits_value(d: Seq<u8>, radix: nat) -> nat
    decreases d.len(),
{
    if d.len() == 0 {
        0
    } else if digit_of(d.last(), radix) is Some {
        digits_value(d.drop_last(), radix) * radix + digit_of(d.last(), radix).unwrap()
    } else {
        digits_value(d.drop_last(), radix)
    }
}

/// A decimal number may begin with `0` only if it is `0`.
pub open spec fn no_leading_zero(d: Seq<u8>) -> bool {
    d.len() > 0 && d[0] == 0x30 ==> d.len() == 1
}

/// The text without its underscores.
pub open spec fn without_underscores(t: Seq<u8>) -> Seq<u8>
    decreases t.len(),
{
    if t.len() == 0 {
        t
    } else if t.last() == 0x5f {
        without_underscores(t.drop_last())
    } else {
        without_underscores(t.drop_last()).push(t.last())
    }
}

/// The first index at or after `from` whose byte is `a` or `b`; the length
/// where there is none.
pub open spec fn first_index(s: Seq<u8>, from: int, a: u8, b: u8) -> int
    decreases s.len() - from,
{
    if from < 0 || from >= s.len() {
        s.len() as int
    } else if s[from] == a || s[from] == b {
        from
    } else {
        first_index(s, from + 1, a, b)
    }
}

/// 1 where the text begins with `+` or `-`, else 0.
pub open spec fn sign_len(t: Seq<u8>) -> int {
    if t.len() > 0 && (t[0] == 0x2b || t[0] == 0x2d) {
        1
    } else {
        0
    }
}

/// The radix that the text announces: 16 after `0x`, 8 after `0o`, 2 after
/// `0b`, else 10.
pub open spec fn radix_of(t: Seq<u8>) -> nat {
    if t.len() >= 2 && t[0] == 0x30 && t[1] == 0x78 {
        16
    } else if t.len() >= 2 && t[0] == 0x30 && t[1] == 0x6f {
        8
    } else if t.len() >= 2 && t[0] == 0x30 && t[1] == 0x62 {
        2
    } else {
        10
    }
}

/// The digits of an integer: what follows the radix prefix, or the sign of a
/// decimal number.
pub open spec fn integer_digits(t: Seq<u8>) -> Seq<u8> {
    if radix_of(t) != 10 {
        t.skip(2)
    } else {
        t.skip(sign_len(t))
    }
}

/// Whether the text is an integer: a radix prefix and digits, or an optional
/// sign and decimal digits without a leading zero.
pub open spec fn is_integer(t: Seq<u8>) -> bool {
    &&& digits_ok(integer_digits(t), radix_of(t))
    &&& (radix_of(t) == 10 ==> no_leading_zero(integer_digits(t)))
}

/// The number that the text of an integer stands for.
pub open spec fn integer_value(t: Seq<u8>) -> int {
    let v = digits_value(integer_digits(t), radix_of(t)) as int;
    if radix_of(t) == 10 && t.len() > 0 && t[0] == 0x2d {
        -v
    } else {
        v
    }
}

/// The bytes of `inf`.
pub open spec fn inf_word() -> Seq<u8> {
    seq![0x69u8, 0x6eu8, 0x66u8]
}

/// The bytes of `nan`.
pub open spec fn nan_word() -> Seq<u8> {
    seq![0x6eu8, 0x61u8, 0x6eu8]
}

/// The bytes of `true`.
pub open spec fn true_word() -> Seq<u8> {
    seq![0x74u8, 0x72u8, 0x75u8, 0x65u8]
}

/// The bytes of `false`.
pub open spec fn false_word() -> Seq<u8> {
    seq![0x66u8, 0x61u8, 0x6cu8, 0x73u8, 0x65u8]
}

/// Whether the text without its sign is a decimal number with a fraction or
/// an exponent: digits without a leading zero, then a `.` with digits on
/// both sides, then `e` or `E` with an optional sign and at least one digit;
/// one of the last two must be there.
pub open spec fn is_decimal_float(body: Seq<u8>) -> bool {
    let ep = first_index(body, 0, 0x65, 0x45);
    let mantissa = body.take(ep);
    let dp = first_index(mantissa, 0, 0x2e, 0x2e);
    &&& (ep < body.len() || dp < mantissa.len())
    &&& digits_ok(mantissa.take(dp), 10)
    &&& no_leading_zero(mantissa.take(dp))
    &&& (dp < mantissa.len() ==> digits_ok(mantissa.skip(dp + 1), 10))
    &&& (ep < body.len() ==> digits_ok(body.skip(ep + 1).skip(sign_len(body.skip(ep + 1))), 10))
}

/// Whether the text is a floating-point number: an optional sign, then
/// `inf`, `nan` or a decimal number with a fraction or an exponent.
pub open spec fn is_float(t: Seq<u8>) -> bool {
    let body = t.skip(sign_len(t));
    body == inf_word() || body == nan_word() || (radix_of(t) == 10 && is_decimal_float(body))
}

/// Whether the text begins like a number: with a decimal digit or a sign.
pub open spec fn number_like(t: Seq<u8>) -> bool {
    t.len() > 0 && ((0x30 <= t[0] <= 0x39) || t[0] == 0x2b || t[0] == 0x2d)
}

/// What the text of a bare value is.
pub open spec fn literal(t: Seq<u8>) -> Literal {
    if t == true_word() {
        Literal::Boolean(true)
    } else if t == false_word() {
        Literal::Boolean(false)
    } else if is_integer(t) {
        if i64::MIN <= integer_value(t) <= i64::MAX {
            Literal::Integer(integer_value(t) as i64)
        } else {
            Literal::Invalid
        }
    } else if is_float(t) {
        Literal::Float
    } else if number_like(t) {
        Literal::Invalid
    } else {
        Literal::Unquoted
    }
}

/// The value of the byte `b` as a digit in the radix `radix`.
fn digit(b: u8, radix: u8) -> (r: Option<u8>)
    requires
        radix <= 16,
    ensures
        match r {
            Some(d) => digit_of(b, radix as nat) == Some(d as nat) && d < radix,
            None => digit_of(b, radix as nat) is None,
        },
{
    let v: u8 = if 0x30 <= b && b <= 0x39 {
        b - 0x30
    } else if 0x61 <= b && b <= 0x66 {
        b - 0x61 + 10
    } else if 0x41 <= b && b <= 0x46 {
        b - 0x41 + 10
    } else {
        16
    };
    if v < radix {
        Some(v)
    } else {
        None
    }
}

/// Whether the bytes from `from` up to `to` are digits of the radix with
/// single underscores between them.
fn check_digits(t: &[u8], from: usize, to: usize, radix: u8) -> (r: bool)
    requires
        from <= to <= t.len(),
        radix <= 16,
    ensures
        r == digits_ok(t@.subrange(from as int, to as int), radix as nat),
{
    let ghost d = t@.subrange(from as int, to as int);
    if from == to {
        return false;
    }
    if t[from] == 0x5f || t[to - 1] == 0x5f {
        assert(d[0] == t@[from as int]);
        assert(d.last() == t@[to - 1]);
        return false;
    }
    let mut i = from;
    let mut after_underscore = false;
    while i < to
        invariant
            from <= i <= to <= t.len(),
            radix <= 16,
            d == t@.subrange(from as int, to as int),
            forall|k: int| 0 <= k < i - from ==> (#[trigger] d[k]) == 0x5f || digit_of(d[k], radix as nat) is Some,
            forall|k: int| 0 <= k < i - from - 1 ==> !((#[trigger] d[k]) == 0x5f && d[k + 1] == 0x5f),
            after_underscore == (i > from && d[i - from - 1] == 0x5f),
        decreases to - i,
    {
        let b = t[i];
        assert(d[i - from] == b);
        if b == 0x5f {
            if after_underscore {
                assert(d[i - from - 1] == 0x5f && d[i - from - 1 + 1] == 0x5f);
                return false;
            }
            after_underscore = true;
        } else {
            match digit(b, radix) {
                Some(_) => {},
                None => {
                    return false;
                },
            }
            after_underscore = false;
        }
        i += 1;
    }
    assert(d[0] == t@[from as int]);
    assert(d.last() == t@[to - 1]);
    true
}

/// The digits of a prefix spell a number that is no larger than what all the
/// digits spell.
proof fn lemma_value_prefix(d: Seq<u8>, radix: nat, k: int)
    requires
        0 <= k <= d.len(),
        radix >= 1,
    ensures
        digits_value(d.take(k), radix) <= digits_value(d, radix),
    decreases d.len() - k,
{
    if k < d.len() {
        lemma_value_prefix(d, radix, k + 1);
        assert(d.take(k + 1).drop_last() =~= d.take(k));
        let v = digits_value(d.take(k), radix);
        assert(v * radix >= v) by (nonlinear_arith)
            requires
                radix >= 1,
                v >= 0,
        ;
    } else {
        assert(d.take(k) =~= d);
    }
}

/// The number that the digits from `from` up to `to` spell in the radix,
/// where it is at most `limit`.
fn read_digits(t: &[u8], from: usize, to: usize, radix: u8, limit: u64) -> (r: Option<u64>)
    requires
        from <= to <= t.len(),
        2 <= radix <= 16,
    ensures
        match r {
            Some(v) => v == digits_value(t@.subrange(from as int, to as int), radix as nat) && v
                <= limit,
            None => digits_value(t@.subrange(from as int, to as int), radix as nat) > limit,
        },
{
    let ghost d = t@.subrange(from as int, to as int);
    let mut acc: u64 = 0;
    let mut i = from;
    assert(d.take(0) =~= Seq::<u8>::empty());
    while i < to
        invariant
            from <= i <= to <= t.len(),
            2 <= radix <= 16,
            d == t@.subrange(from as int, to as int),
            acc == digits_value(d.take(i - from), radix as nat),
            acc <= limit,
        decreases to - i,
    {
        let b = t[i];
        proof {
            assert(d[i - from] == b);
            assert(d.take(i - from + 1).drop_last() =~= d.take(i - from));
            assert(d.take(i - from + 1).last() == b);
        }
        match digit(b, radix) {
            Some(x) => {
                if (x as u64) > limit || acc > (limit - x as u64) / (radix as u64) {
                    proof {
                        lemma_value_prefix(d, radix as nat, i - from + 1);
                        let r = radix as int;
                        let a = acc as int;
                        let l = limit as int;
                        let xx = x as int;
                        assert(a * r + xx > l) by (nonlinear_arith)
                            requires
                                a > (l - xx) / r || xx > l,
                                r >= 2,
                                a >= 0,
                                0 <= xx,
                                l >= 0,
                        ;
                    }
                    return None;
                }
                proof {
                    let r = radix as int;
                    let a = acc as int;
                    let l = limit as int;
                    let xx = x as int;
                    assert(a * r + xx <= l) by (nonlinear_arith)
                        requires
                            a <= (l - xx) / r,
                            xx <= l,
                            r >= 2,
                            a >= 0,
                            0 <= xx,
                    ;
                }
                acc = acc * (radix as u64) + x as u64;
            },
            None => {},
        }
        i += 1;
    }
    assert(d.take(to - from) =~= d);
    Some(acc)
}

/// The first index from `from` up to `to` whose byte is `a` or `b`, or `to`.
fn find_first(t: &[u8], from: usize, to: usize, a: u8, b: u8) -> (r: usize)
    requires
        from <= to <= t.len(),
    ensures
        from <= r <= to,
        r - from == first_index(t@.subrange(from as int, to as int), 0, a, b),
{
    let ghost s = t@.subrange(from as int, to as int);
    let mut i = from;
    while i < to
        invariant
            from <= i <= to <= t.len(),
            s == t@.subrange(from as int, to as int),
            first_index(s, i - from, a, b) == first_index(s, 0, a, b),
        decreases to - i,
    {
        assert(s[i - from] == t@[i as int]);
        if t[i] == a || t[i] == b {
            return i;
        }
        i += 1;
    }
    i
}

/// Whether the bytes from `from` up to `to` are the three bytes given.
fn is_word3(t: &[u8], from: usize, to: usize, a: u8, b: u8, c: u8) -> (r: bool)
    requires
        from <= to <= t.len(),
    ensures
        r == (t@.subrange(from as int, to as int) == seq![a, b, c]),
{
    let ghost s = t@.subrange(from as int, to as int);
    if to - from == 3 && t[from] == a && t[from + 1] == b && t[from + 2] == c {
        assert(s =~= seq![a, b, c]);
        true
    } else {
        if to - from == 3 {
            assert(s[0] == t@[from as int] && s[1] == t@[from + 1] && s[2] == t@[from + 2]);
            assert(seq![a, b, c][0] == a && seq![a, b, c][1] == b && seq![a, b, c][2] == c);
        } else {
            assert(seq![a, b, c].len() == 3);
        }
        false
    }
}

/// 1 where the byte at `from` is `+` or `-`, else 0.
fn sign_at(t: &[u8], from: usize, to: usize) -> (r: usize)
    requires
        from <= to <= t.len(),
    ensures
        r == sign_len(t@.subrange(from as int, to as int)),
        from + r <= to,
{
    if from < to && (t[from] == 0x2b || t[from] == 0x2d) {
        assert(t@.subrange(from as int, to as int)[0] == t@[from as int]);
        1
    } else {
        if from < to {
            assert(t@.subrange(from as int, to as int)[0] == t@[from as int]);
        }
        0
    }
}

/// Whether the bytes from `from` on are a decimal number with a fraction or
/// an exponent.
fn check_decimal_float(t: &[u8], from: usize) -> (r: bool)
    requires
        from <= t.len(),
    ensures
        r == is_decimal_float(t@.skip(from as int)),
{
    let n = t.len();
    let ghost body = t@.skip(from as int);
    assert(body =~= t@.subrange(from as int, n as int));
    let ep = find_first(t, from, n, 0x65, 0x45);
    let ghost mantissa = body.take(ep - from);
    assert(mantissa =~= t@.subrange(from as int, ep as int));
    let dp = find_first(t, from, ep, 0x2e, 0x2e);
    assert(mantissa.take(dp - from) =~= t@.subrange(from as int, dp as int));
    if ep == n && dp == ep {
        return false;
    }
    if !check_digits(t, from, dp, 10) {
        return false;
    }
    if t[from] == 0x30 && dp - from != 1 {
        assert(mantissa.take(dp - from)[0] == t@[from as int]);
        return false;
    }
    assert(mantissa.take(dp - from)[0] == t@[from as int]);
    if dp < ep {
        assert(mantissa.skip(dp - from + 1) =~= t@.subrange(dp + 1, ep as int));
        if !check_digits(t, dp + 1, ep, 10) {
            return false;
        }
    }
    if ep < n {
        let ghost x = body.skip(ep - from + 1);
        assert(x =~= t@.subrange(ep + 1, n as int));
        let s = sign_at(t, ep + 1, n);
        assert(x.skip(s as int) =~= t@.subrange(ep + 1 + s, n as int));
        if !check_digits(t, ep + 1 + s, n, 10) {
            return false;
        }
    }
    true
}

/// Reads the text of a bare value.
pub fn read_literal(t: &[u8]) -> (r: Literal)
    ensures
        r == literal(t@),
{
    let n = t.len();
    let ghost s = t@;
    assert(s.subrange(0, n as int) =~= s);
    if n == 4 && t[0] == 0x74 && t[1] == 0x72 && t[2] == 0x75 && t[3] == 0x65 {
        assert(s =~= true_word());
        return Literal::Boolean(true);
    }
    if n == 5 && t[0] == 0x66 && t[1] == 0x61 && t[2] == 0x6c && t[3] == 0x73 && t[4] == 0x65 {
        assert(s =~= false_word());
        return Literal::Boolean(false);
    }
    proof {
        if s == true_word() {
            assert(true_word().len() == 4);
            assert(true_word()[0] == 0x74 && true_word()[1] == 0x72 && true_word()[2] == 0x75
                && true_word()[3] == 0x65);
        }
        if s == false_word() {
            assert(false_word().len() == 5);
            assert(false_word()[0] == 0x66 && false_word()[1] == 0x61 && false_word()[2] == 0x6c
                && false_word()[3] == 0x73 && false_word()[4] == 0x65);
        }
    }
    let like = n > 0 && ((0x30 <= t[0] && t[0] <= 0x39) || t[0] == 0x2b || t[0] == 0x2d);
    let radix: u8 = if n >= 2 && t[0] == 0x30 && t[1] == 0x78 {
        16
    } else if n >= 2 && t[0] == 0x30 && t[1] == 0x6f {
        8
    } else if n >= 2 && t[0] == 0x30 && t[1] == 0x62 {
        2
    } else {
        10
    };
    if radix != 10 {
        assert(s.skip(2) =~= s.subrange(2, n as int));
        assert(s.skip(0) =~= s);
        proof {
            if s.skip(sign_len(s)) == inf_word() {
                assert(inf_word()[0] == 0x69);
            }
            if s.skip(sign_len(s)) == nan_word() {
                assert(nan_word()[0] == 0x6e);
            }
        }
        if !check_digits(t, 2, n, radix) {
            return Literal::Invalid;
        }
        return match read_digits(t, 2, n, radix, 0x7fff_ffff_ffff_ffff) {
            Some(v) => Literal::Integer(v as i64),
            None => Literal::Invalid,
        };
    }
    let sign = sign_at(t, 0, n);
    let ghost body = s.skip(sign as int);
    assert(body =~= s.subrange(sign as int, n as int));
    let negative = n > 0 && t[0] == 0x2d;
    if check_digits(t, sign, n, 10) && !(t[sign] == 0x30 && n - sign != 1) {
        assert(body[0] == t@[sign as int]);
        let limit: u64 = if negative {
            0x8000_0000_0000_0000
        } else {
            0x7fff_ffff_ffff_ffff
        };
        return match read_digits(t, sign, n, 10, limit) {
            Some(v) => {
                if negative {
                    if v == 0x8000_0000_0000_0000 {
                        Literal::Integer(i64::MIN)
                    } else {
                        Literal::Integer(-(v as i64))
                    }
                } else {
                    Literal::Integer(v as i64)
                }
            },
            None => Literal::Invalid,
        };
    }
    proof {
        if sign < n {
            assert(body[0] == t@[sign as int]);
        }
        assert(!is_integer(s));
    }
    if is_word3(t, sign, n, 0x69, 0x6e, 0x66) || is_word3(t, sign, n, 0x6e, 0x61, 0x6e) {
        return Literal::Float;
    }
    if check_decimal_float(t, sign) {
        return Literal::Float;
    }
    if like {
        Literal::Invalid
    } else {
        Literal::Unquoted
    }
}

/// The bytes from `from` up to `to` without the underscores among them.
pub fn strip_underscores(t: &[u8], from: usize, to: usize) -> (r: Vec<u8>)
    requires
        from <= to <= t.len(),
    ensures
        r@ == without_underscores(t@.subrange(from as int, to as int)),
{
    let ghost d = t@.subrange(from as int, to as int);
    let mut r: Vec<u8> = Vec::new();
    let mut i = from;
    assert(d.take(0) =~= Seq::<u8>::empty());
    while i < to
        invariant
            from <= i <= to <= t.len(),
            d == t@.subrange(from as int, to as int),
            r@ == without_underscores(d.take(i - from)),
        decreases to - i,
    {
        proof {
            assert(d[i - from] == t@[i as int]);
            assert(d.take(i - from + 1).drop_last() =~= d.take(i - from));
            assert(d.take(i - from + 1).last() == t@[i as int]);
        }
        if t[i] != 0x5f {
            r.push(t[i]);
        }
        i += 1;
    }
    assert(d.take(to - from) =~= d);
    r
}

/// Text without underscores is itself once its underscores are taken out.
pub proof fn lemma_without_underscores_same(t: Seq<u8>)
    requires
        forall|i: int| 0 <= i < t.len() ==> t[i] != 0x5f,
    ensures
        without_underscores(t) == t,
    decreases t.len(),
{
    if t.len() > 0 {
        lemma_without_underscores_same(t.drop_last());
        assert(t.drop_last().push(t.last()) =~= t);
    }
}

/// Taking the underscores out of ASCII text leaves ASCII text.
pub proof fn lemma_without_underscores_ascii(t: Seq<u8>)
    requires
        forall|i: int| 0 <= i < t.len() ==> t[i] < 0x80,
    ensures
        forall|i: int|
            0 <= i < without_underscores(t).len() ==> (#[trigger] without_underscores(t)[i])
                < 0x80,
    decreases t.len(),
{
    if t.len() > 0 {
        lemma_without_underscores_ascii(t.drop_last());
        let w = without_underscores(t);
        let d = without_underscores(t.drop_last());
        assert forall|i: int| 0 <= i < w.len() implies (#[trigger] w[i]) < 0x80 by {
            if i < d.len() {
                assert(d[i] < 0x80);
            } else {
                assert(t.last() < 0x80);
            }
        }
    }
}

/// Whether an underscore stands among the bytes from `from` up to `to`.
pub fn has_underscore(t: &[u8], from: usize, to: usize) -> (r: bool)
    requires
        from <= to <= t.len(),
    ensures
        r == exists|i: int| from <= i < to && t@[i] == 0x5f,
{
    let mut i = from;
    while i < to
        invariant
            from <= i <= to <= t.len(),
            forall|k: int| from <= k < i ==> t@[k] != 0x5f,
        decreases to - i,
    {
        if t[i] == 0x5f {
            return true;
        }
        i += 1;
    }
    false
}

} // verus!
