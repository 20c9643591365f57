//! Underscores in integers: an integer with underscores put into its text
//! is the same integer where every underscore stands between two digits,
//! and no value at all where one does not.

use crate::error::{error_at, ErrorKindView, ErrorView};
use crate::grammar::{parsed, span_of};
use crate::number::{
    digit_of, digits_ok, digits_value, false_word, first_index, inf_word, integer_digits,
    is_decimal_float, is_float, is_integer, lemma_without_underscores_same, literal, nan_word,
    number_like, radix_of, sign_len, true_word, without_underscores, Literal,
};
use crate::one_line::{law_one_bare_value, line, one_entry};
use crate::tokens::is_number_byte;
use crate::value::{InnerView, ValueView};
use vstd::prelude::*;

verus! {

/// Whether every underscore of the text stands between two digits of the
/// radix.
pub open spec fn well_separated(t: Seq<u8>, radix: nat) -> bool {
    forall|i: int|
        0 <= i < t.len() && #[trigger] t[i] == 0x5f ==> 0 < i < t.len() - 1 && digit_of(
            t[i - 1],
            radix,
        ) is Some && digit_of(t[i + 1], radix) is Some
}

/// How many bytes stand before the digits of an integer: the radix prefix,
/// or the sign of a decimal number.
pub open spec fn prefix_len(t: Seq<u8>) -> int {
    if radix_of(t) != 10 {
        2
    } else {
        sign_len(t)
    }
}

/// Taking the underscores out of two texts in a row is taking them out of
/// each.
pub proof fn lemma_concat(a: Seq<u8>, b: Seq<u8>)
    ensures
        without_underscores(a + b) == without_underscores(a) + without_underscores(b),
    decreases b.len(),
{
    if b.len() == 0 {
        assert(a + b =~= a);
        assert(without_underscores(a) + without_underscores(b) =~= without_underscores(a));
    } else {
        lemma_concat(a, b.drop_last());
        assert((a + b).drop_last() =~= a + b.drop_last());
        assert((a + b).last() == b.last());
        if b.last() != 0x5f {
            assert((without_underscores(a) + without_underscores(b.drop_last())).push(b.last())
                =~= without_underscores(a) + without_underscores(b.drop_last()).push(b.last()));
        }
    }
}

/// A start of the text that holds no underscore stays as it is.
pub proof fn lemma_prefix_kept(t: Seq<u8>, p: int)
    requires
        0 <= p <= t.len(),
        forall|i: int| 0 <= i < p ==> t[i] != 0x5f,
    ensures
        without_underscores(t) == t.take(p) + without_underscores(t.skip(p)),
{
    assert(t =~= t.take(p) + t.skip(p));
    lemma_concat(t.take(p), t.skip(p));
    lemma_without_underscores_same(t.take(p));
}

/// An underscore at the start of the text is dropped.
pub proof fn lemma_first_dropped(t: Seq<u8>)
    requires
        t.len() > 0,
        t[0] == 0x5f,
    ensures
        without_underscores(t) == without_underscores(t.skip(1)),
{
    assert(t =~= t.take(1) + t.skip(1));
    lemma_concat(t.take(1), t.skip(1));
    reveal_with_fuel(without_underscores, 2);
    assert(t.take(1).drop_last() =~= Seq::<u8>::empty());
    assert(without_underscores(t.take(1)) =~= Seq::<u8>::empty());
    assert(Seq::<u8>::empty() + without_underscores(t.skip(1)) =~= without_underscores(t.skip(1)));
}

/// What is left without the underscores holds no underscore and only bytes
/// of the text; and it holds every byte of the text that is no underscore.
pub proof fn lemma_bytes(t: Seq<u8>)
    ensures
        forall|j: int|
            0 <= j < without_underscores(t).len() ==> (#[trigger] without_underscores(t)[j])
                != 0x5f && t.contains(without_underscores(t)[j]),
        forall|i: int|
            0 <= i < t.len() && (#[trigger] t[i]) != 0x5f ==> without_underscores(t).contains(
                t[i],
            ),
    decreases t.len(),
{
    if t.len() > 0 {
        let d = t.drop_last();
        lemma_bytes(d);
        let w = without_underscores(t);
        let wd = without_underscores(d);
        assert forall|j: int| 0 <= j < w.len() implies (#[trigger] w[j]) != 0x5f && t.contains(
            w[j],
        ) by {
            if j < wd.len() {
                assert(w[j] == wd[j]);
                let i = choose|i: int| 0 <= i < d.len() && d[i] == wd[j];
                assert(t[i] == w[j]);
            } else {
                assert(t[t.len() - 1] == w[j]);
            }
        }
        assert forall|i: int| 0 <= i < t.len() && (#[trigger] t[i]) != 0x5f implies w.contains(
            t[i],
        ) by {
            if i < d.len() {
                assert(d[i] == t[i]);
                let j = choose|j: int| 0 <= j < wd.len() && wd[j] == d[i];
                assert(w[j] == t[i]);
            } else {
                assert(w[w.len() - 1] == t[i]);
            }
        }
    }
}

/// The digits spell the same number with and without their underscores.
pub proof fn lemma_value_same(d: Seq<u8>, radix: nat)
    requires
        radix <= 16,
    ensures
        digits_value(d, radix) == digits_value(without_underscores(d), radix),
    decreases d.len(),
{
    if d.len() > 0 {
        lemma_value_same(d.drop_last(), radix);
        if d.last() != 0x5f {
            let w = without_underscores(d.drop_last());
            assert(w.push(d.last()).drop_last() =~= w);
            assert(w.push(d.last()).last() == d.last());
        }
    }
}

/// Where the first of two bytes stands: not before `from`, and no such byte
/// stands between.
pub proof fn lemma_first_index(s: Seq<u8>, from: int, a: u8, b: u8)
    requires
        0 <= from <= s.len(),
    ensures
        from <= first_index(s, from, a, b) <= s.len(),
        first_index(s, from, a, b) < s.len() ==> s[first_index(s, from, a, b)] == a
            || s[first_index(s, from, a, b)] == b,
        forall|i: int| from <= i < first_index(s, from, a, b) ==> s[i] != a && s[i] != b,
    decreases s.len() - from,
{
    if from < s.len() && !(s[from] == a || s[from] == b) {
        lemma_first_index(s, from + 1, a, b);
    }
}

/// Where every underscore stands between two digits, the text begins as it
/// does without them: with the same sign or radix prefix, and the digits
/// that follow are the same digits but for the underscores.
proof fn lemma_head(t: Seq<u8>)
    requires
        is_integer(without_underscores(t)),
        well_separated(t, radix_of(without_underscores(t))),
    ensures
        ({
            let m = without_underscores(t);
            let p = prefix_len(m);
            &&& 0 <= p < t.len()
            &&& p < m.len()
            &&& t.take(p) == m.take(p)
            &&& t[0] == m[0]
            &&& radix_of(t) == radix_of(m)
            &&& sign_len(t) == sign_len(m)
            &&& without_underscores(t.skip(p)) == m.skip(p)
        }),
{
    let m = without_underscores(t);
    let r = radix_of(m);
    let p = prefix_len(m);
    assert(integer_digits(m) == m.skip(p));
    assert(m.skip(p).len() > 0);
    assert(t.len() > 0);
    assert(t[0] != 0x5f);
    lemma_prefix_kept(t, 1);
    assert(m[0] == t.take(1)[0]);
    if r != 10 {
        let rest = t.skip(1);
        assert(without_underscores(rest).len() == m.len() - 1);
        assert(rest.len() > 0);
        assert(rest[0] == t[1]);
        if t[1] == 0x5f {
            lemma_first_dropped(rest);
            let rest2 = rest.skip(1);
            assert(without_underscores(rest2).len() > 0);
            assert(rest2.len() > 0);
            assert(rest2[0] == t[2]);
            lemma_prefix_kept(rest2, 1);
            assert(without_underscores(rest2)[0] == rest2.take(1)[0]);
            assert(m[1] == without_underscores(rest)[0]);
            assert(m[1] == t[2]);
            assert(false);
        }
        lemma_prefix_kept(t, 2);
        assert(m[1] == t.take(2)[1]);
        assert(m.skip(2) =~= without_underscores(t.skip(2)));
        assert(t.take(2) =~= m.take(2));
        assert(without_underscores(t.skip(2)).len() > 0);
    } else {
        if t.len() >= 2 && t[1] != 0x5f {
            lemma_prefix_kept(t, 2);
            assert(m[1] == t.take(2)[1]);
        }
        if p == 0 {
            assert(t.skip(0) =~= t);
            assert(m.skip(0) =~= m);
            assert(t.take(0) =~= m.take(0));
        } else {
            assert(m.skip(1) =~= without_underscores(t.skip(1)));
            assert(t.take(1) =~= m.take(1));
            assert(without_underscores(t.skip(1)).len() > 0);
        }
    }
}

/// An integer whose underscores all stand between two digits is the integer
/// that its text spells without them.
proof fn lemma_separated(t: Seq<u8>)
    requires
        literal(without_underscores(t)) is Integer,
        well_separated(t, radix_of(without_underscores(t))),
    ensures
        literal(t) == literal(without_underscores(t)),
{
    let m = without_underscores(t);
    let r = radix_of(m);
    let p = prefix_len(m);
    let dt = t.skip(p);
    let dm = m.skip(p);
    assert(is_integer(m));
    lemma_head(t);
    assert(integer_digits(t) == dt);
    assert(integer_digits(m) == dm);
    lemma_bytes(dt);
    assert forall|i: int| 0 <= i < dt.len() implies (#[trigger] dt[i]) == 0x5f || digit_of(
        dt[i],
        r,
    ) is Some by {
        if dt[i] != 0x5f {
            let j = choose|j: int| 0 <= j < dm.len() && dm[j] == dt[i];
            assert(dm[j] != 0x5f);
        }
    }
    assert(dt[0] != 0x5f) by {
        assert(dt[0] == t[p]);
        if p > 0 {
            assert(t[p - 1] == t.take(p)[p - 1]);
            assert(m[p - 1] == m.take(p)[p - 1]);
        }
    }
    assert(dt.last() != 0x5f) by {
        assert(dt.last() == t[t.len() - 1]);
    }
    assert forall|i: int| 0 <= i < dt.len() - 1 implies !((#[trigger] dt[i]) == 0x5f && dt[i + 1]
        == 0x5f) by {
        assert(dt[i] == t[i + p]);
        assert(dt[i + 1] == t[i + p + 1]);
    }
    assert(digits_ok(dt, r));
    if r == 10 && dt[0] == 0x30 && dt.len() > 1 {
        lemma_prefix_kept(dt, 1);
        let rest = dt.skip(1);
        assert(dm[0] == dt.take(1)[0]);
        assert(without_underscores(rest).len() == 0);
        assert(rest.last() == dt.last());
        assert(false);
    }
    lemma_value_same(dt, r);
    if t == true_word() || t == false_word() {
        lemma_without_underscores_same(t);
        assert(false);
    }
}

/// An underscore that does not stand between two digits spoils the digits.
proof fn lemma_bad_digits(d: Seq<u8>, radix: nat, j: int)
    requires
        0 <= j < d.len(),
        d[j] == 0x5f,
        j == 0 || j == d.len() - 1 || digit_of(d[j - 1], radix) is None || digit_of(
            d[j + 1],
            radix,
        ) is None,
    ensures
        !digits_ok(d, radix),
{
    if j == 0 || j == d.len() - 1 {
    } else if digit_of(d[j - 1], radix) is None {
        if d[j - 1] == 0x5f {
            assert(d[j - 1] == 0x5f && d[j - 1 + 1] == 0x5f);
        }
    } else {
        if d[j + 1] == 0x5f {
            assert(d[j] == 0x5f && d[j + 1] == 0x5f);
        }
    }
}

/// A decimal integer holds no byte but a sign, decimal digits and
/// underscores.
proof fn lemma_decimal_bytes(m: Seq<u8>, j: int)
    requires
        is_integer(m),
        radix_of(m) == 10,
        0 <= j < m.len(),
    ensures
        m[j] == 0x2b || m[j] == 0x2d || m[j] == 0x5f || digit_of(m[j], 10) is Some,
{
    let p = sign_len(m);
    let d = m.skip(p);
    assert(integer_digits(m) == d);
    if j >= p {
        assert(d[j - p] == m[j]);
    }
}

/// Whether the byte at `i` is an underscore that does not stand between two
/// digits of the radix.
pub open spec fn misplaced(t: Seq<u8>, radix: nat, i: int) -> bool {
    &&& 0 <= i < t.len()
    &&& t[i] == 0x5f
    &&& !(0 < i < t.len() - 1 && digit_of(t[i - 1], radix) is Some && digit_of(
        t[i + 1],
        radix,
    ) is Some)
}

/// An integer with a misplaced underscore is no integer.
proof fn lemma_not_integer(t: Seq<u8>, i: int)
    requires
        is_integer(without_underscores(t)),
        misplaced(t, radix_of(without_underscores(t)), i),
    ensures
        !is_integer(t),
{
    let m = without_underscores(t);
    let r = radix_of(m);
    let rt = radix_of(t);
    let s = sign_len(t);
    let pm = prefix_len(m);
    assert(integer_digits(m) == m.skip(pm));
    assert(m.len() > pm);
    if rt != 10 {
        lemma_prefix_kept(t, 2);
        assert(m[0] == t.take(2)[0]);
        assert(m[1] == t.take(2)[1]);
        assert(r == rt);
        let d = t.skip(2);
        assert(integer_digits(t) == d);
        assert(d[i - 2] == t[i]);
        if i > 2 {
            assert(d[i - 3] == t[i - 1]);
        }
        if i < t.len() - 1 {
            assert(d[i - 1] == t[i + 1]);
        }
        lemma_bad_digits(d, rt, i - 2);
    } else if r != 10 {
        lemma_bytes(t);
        assert(t.contains(m[1]));
        let q = choose|q: int| 0 <= q < t.len() && t[q] == m[1];
        let d = t.skip(s);
        assert(integer_digits(t) == d);
        assert(q >= s);
        assert(d[q - s] == t[q]);
        assert(digit_of(d[q - s], 10) is None);
    } else {
        let d = t.skip(s);
        assert(integer_digits(t) == d);
        assert(d[i - s] == t[i]);
        if i > s {
            assert(d[i - s - 1] == t[i - 1]);
        }
        if i < t.len() - 1 {
            assert(d[i - s + 1] == t[i + 1]);
        }
        lemma_bad_digits(d, 10, i - s);
    }
}

/// A decimal integer with underscores put into it has neither a fraction
/// nor an exponent.
proof fn lemma_decimal_not_float(t: Seq<u8>)
    requires
        is_integer(without_underscores(t)),
        radix_of(without_underscores(t)) == 10,
    ensures
        !is_decimal_float(t.skip(sign_len(t))),
{
    let m = without_underscores(t);
    let s = sign_len(t);
    let body = t.skip(s);
    lemma_bytes(t);
    lemma_first_index(body, 0, 0x65, 0x45);
    let ep = first_index(body, 0, 0x65, 0x45);
    let mantissa = body.take(ep);
    lemma_first_index(mantissa, 0, 0x2e, 0x2e);
    let dp = first_index(mantissa, 0, 0x2e, 0x2e);
    if ep < body.len() {
        assert(body[ep] == t[ep + s]);
        assert(m.contains(t[ep + s]));
        let j = choose|j: int| 0 <= j < m.len() && m[j] == t[ep + s];
        lemma_decimal_bytes(m, j);
    }
    if dp < mantissa.len() {
        assert(mantissa[dp] == t[dp + s]);
        assert(m.contains(t[dp + s]));
        let j = choose|j: int| 0 <= j < m.len() && m[j] == t[dp + s];
        lemma_decimal_bytes(m, j);
    }
}

/// An integer with a radix prefix that an underscore has broken up is no
/// decimal number with a fraction or an exponent.
proof fn lemma_prefixed_not_float(t: Seq<u8>)
    requires
        is_integer(without_underscores(t)),
        radix_of(without_underscores(t)) != 10,
        t.len() > 0,
    ensures
        !is_decimal_float(t.skip(sign_len(t))),
{
    let m = without_underscores(t);
    let s = sign_len(t);
    let body = t.skip(s);
    lemma_first_index(body, 0, 0x65, 0x45);
    let ep = first_index(body, 0, 0x65, 0x45);
    let mantissa = body.take(ep);
    lemma_first_index(mantissa, 0, 0x2e, 0x2e);
    let dp = first_index(mantissa, 0, 0x2e, 0x2e);
    if t[0] != 0x5f {
        lemma_prefix_kept(t, 1);
        assert(m[0] == t.take(1)[0]);
    }
    assert(s == 0);
    if is_decimal_float(body) {
        let head = mantissa.take(dp);
        assert(head.len() > 0);
        assert(head[0] == t[0]);
        assert(head.len() == 1);
        assert(dp == 1);
        if dp < mantissa.len() {
            assert(mantissa[1] == t[1]);
        } else {
            assert(body[1] == t[1]);
        }
        lemma_prefix_kept(t, 2);
        assert(m[1] == t.take(2)[1]);
        assert(false);
    }
}

/// An integer with an underscore that does not stand between two digits is
/// no value: an unquoted string where the underscore comes first, else an
/// invalid number.
proof fn lemma_misplaced(t: Seq<u8>)
    requires
        literal(without_underscores(t)) is Integer,
        !well_separated(t, radix_of(without_underscores(t))),
    ensures
        t.len() > 0,
        literal(t) == if t[0] == 0x5f {
            Literal::Unquoted
        } else {
            Literal::Invalid
        },
{
    let m = without_underscores(t);
    let r = radix_of(m);
    let i = choose|i: int| misplaced(t, r, i);
    assert(misplaced(t, r, i)) by {
        let k = choose|k: int|
            0 <= k < t.len() && #[trigger] t[k] == 0x5f && !(0 < k < t.len() - 1 && digit_of(
                t[k - 1],
                r,
            ) is Some && digit_of(t[k + 1], r) is Some);
        assert(misplaced(t, r, k));
    }
    let s = sign_len(t);
    assert(is_integer(m));
    assert(t != true_word()) by {
        if t == true_word() {
            assert(t[i] != 0x5f);
        }
    }
    assert(t != false_word()) by {
        if t == false_word() {
            assert(t[i] != 0x5f);
        }
    }
    lemma_not_integer(t, i);
    assert(!is_float(t)) by {
        let body = t.skip(s);
        assert(body[i - s] == 0x5f);
        assert(body != inf_word());
        assert(body != nan_word());
        if r == 10 {
            lemma_decimal_not_float(t);
        } else {
            lemma_prefixed_not_float(t);
        }
    }
    if t[0] != 0x5f {
        let pm = prefix_len(m);
        assert(integer_digits(m) == m.skip(pm));
        lemma_prefix_kept(t, 1);
        assert(m[0] == t.take(1)[0]);
        if r == 10 {
            lemma_decimal_bytes(m, 0);
        }
        assert(number_like(t));
    }
}

/// An integer with underscores put into its text, anywhere and in any
/// number: where every underscore stands between two digits of the radix of
/// the integer, the text is that integer; where one does not, the text is
/// no value, but an unquoted string where an underscore comes first, and
/// else an invalid number.
pub proof fn law_underscores_in_integers(t: Seq<u8>)
    requires
        literal(without_underscores(t)) is Integer,
    ensures
        t.len() > 0,
        literal(t) == if well_separated(t, radix_of(without_underscores(t))) {
            literal(without_underscores(t))
        } else if t[0] == 0x5f {
            Literal::Unquoted
        } else {
            Literal::Invalid
        },
{
    if well_separated(t, radix_of(without_underscores(t))) {
        lemma_separated(t);
        lemma_head(t);
    } else {
        lemma_misplaced(t);
    }
}

/// An integer holds only bytes that can stand in a bare value.
proof fn lemma_integer_bytes(m: Seq<u8>, j: int)
    requires
        is_integer(m),
        0 <= j < m.len(),
    ensures
        is_number_byte(m[j]),
{
    let p = prefix_len(m);
    let d = m.skip(p);
    assert(integer_digits(m) == d);
    if j >= p {
        assert(d[j - p] == m[j]);
    }
}

/// The document `k = ` followed by an integer with underscores put into its
/// text, anywhere and in any number: where every underscore stands between
/// two digits of the radix of the integer, the document is the tree with the
/// one entry `k` that holds that integer; where one does not, the document
/// is refused with an error at the span of the text, which says that it is
/// an unquoted string where an underscore comes first, and else an invalid
/// number.
pub proof fn law_underscores_in_a_line(t: Seq<u8>)
    requires
        literal(without_underscores(t)) is Integer,
    ensures
        parsed(line(t)) == if well_separated(t, radix_of(without_underscores(t))) {
            Ok::<ValueView, ErrorView>(
                one_entry(InnerView::Integer(literal(without_underscores(t))->Integer_0), t),
            )
        } else if t[0] == 0x5f {
            Err(error_at(ErrorKindView::UnquotedString, span_of(4, 4 + t.len() as int)))
        } else {
            Err(error_at(ErrorKindView::InvalidNumber, span_of(4, 4 + t.len() as int)))
        },
{
    let m = without_underscores(t);
    law_underscores_in_integers(t);
    lemma_bytes(t);
    assert forall|i: int| 0 <= i < t.len() implies is_number_byte(#[trigger] t[i]) by {
        if t[i] != 0x5f {
            assert(m.contains(t[i]));
            let j = choose|j: int| 0 <= j < m.len() && m[j] == t[i];
            lemma_integer_bytes(m, j);
        }
    }
    if t[0] != 0x5f {
        lemma_prefix_kept(t, 1);
        assert(m[0] == t.take(1)[0]);
        let p = prefix_len(m);
        assert(integer_digits(m) == m.skip(p));
        if radix_of(m) == 10 {
            lemma_decimal_bytes(m, 0);
        }
    }
    law_one_bare_value(t);
}

} // verus!
