//! Navigation by pointer: `/` and a token, any number of times, each token
//! a key of a table or an index into an array.

use crate::table::{lemma_position, lemma_same_names_same_position, lemma_table_view};
use crate::text::{lemma_ascii_boundary, lemma_str_valid, substr};
use crate::value::{
    array_view, lemma_array_view, Array, InnerView, Table, TableView, Value, ValueInner, ValueView,
};
use vstd::prelude::*;
use vstd::string::*;
use vstd::utf8::*;

verus! {

/// Whether `b` is an ASCII decimal digit.
pub open spec fn is_digit(b: u8) -> bool {
    48 <= b <= 57
}

/// Whether every byte is an ASCII decimal digit.
pub open spec fn all_digits(d: Seq<u8>) -> bool {
    forall|i: int| 0 <= i < d.len() ==> is_digit(#[trigger] d[i])
}

/// The number that the decimal digits `d` spell.
pub open spec fn decimal_value(d: Seq<u8>) -> nat
    decreases d.len(),
{
    if d.len() == 0 {
        0
    } else {
        decimal_value(d.drop_last()) * 10 + (d.last() - 48) as nat
    }
}

/// The array index that a pointer token spells: decimal digits without a
/// sign, without a leading zero unless the token is `0`, and within the
/// range of `usize`.
pub open spec fn index_of(tok: Seq<u8>) -> Option<usize> {
    if tok.len() == 0 || !all_digits(tok) || (tok[0] == 48 && tok.len() != 1) || decimal_value(tok)
        > usize::MAX {
        None
    } else {
        Some(decimal_value(tok) as usize)
    }
}

/// The digits of a prefix spell a number that is no larger than what all the
/// digits spell.
pub proof fn lemma_decimal_prefix(d: Seq<u8>, k: int)
    requires
        all_digits(d),
        0 <= k <= d.len(),
    ensures
        decimal_value(d.take(k)) <= decimal_value(d),
    decreases d.len() - k,
{
    if k < d.len() {
        lemma_decimal_prefix(d, k + 1);
        assert(d.take(k + 1).drop_last() =~= d.take(k));
        assert(is_digit(d[k]));
    } else {
        assert(d.take(k) =~= d);
    }
}

/// Reads a token of a pointer as an array index.
pub fn parse_index(s: &str) -> (r: Option<usize>)
    ensures
        r == index_of(s.spec_bytes()),
{
    let bytes = s.as_bytes();
    let ghost d = bytes@;
    let n = bytes.len();
    if n == 0 {
        return None;
    }
    if bytes[0] == 48 && n != 1 {
        return None;
    }
    let mut acc: usize = 0;
    let mut i: usize = 0;
    while i < n
        invariant
            i <= n,
            n == bytes.len(),
            d == bytes@,
            d == s.spec_bytes(),
            all_digits(d.take(i as int)),
            acc == decimal_value(d.take(i as int)),
        decreases n - i,
    {
        let b = bytes[i];
        if b < 48 || b > 57 {
            assert(!is_digit(d[i as int]));
            return None;
        }
        let digit: usize = (b - 48) as usize;
        proof {
            assert(d.take(i + 1).drop_last() =~= d.take(i as int));
            assert(all_digits(d.take(i + 1))) by {
                assert forall|k: int| 0 <= k < i + 1 implies is_digit(#[trigger] d.take(i + 1)[k]) by {
                    if k < i {
                        assert(is_digit(d.take(i as int)[k]));
                    }
                }
            }
        }
        if acc > (usize::MAX - digit) / 10 {
            proof {
                if all_digits(d) {
                    lemma_decimal_prefix(d, i + 1);
                    assert(decimal_value(d.take(i + 1)) == acc * 10 + digit);
                }
            }
            return None;
        }
        acc = acc * 10 + digit;
        i += 1;
    }
    assert(d.take(n as int) =~= d);
    Some(acc)
}

/// The value one step below `v` that the pointer token `tok` selects: the
/// value under the key `tok` in a table, the element at the index that `tok`
/// spells in an array.
pub open spec fn child(v: ValueView, tok: Seq<u8>) -> Option<ValueView> {
    match v.inner {
        Some(InnerView::Table(t)) => t.get(tok),
        Some(InnerView::Array(a)) => match index_of(tok) {
            Some(i) => if i < a.len() {
                Some(a[i as int])
            } else {
                None
            },
            None => None,
        },
        _ => None,
    }
}

/// The value that the rest of a pointer selects below `v`: `start` is where
/// the current token began, just after a `/`, and `pos` is how far it has been
/// read. A step onto a value whose payload was taken fails.
pub open spec fn descend(v: ValueView, p: Seq<u8>, start: int, pos: int) -> Option<ValueView>
    decreases p.len() - pos,
{
    if pos < start || pos > p.len() || start < 0 {
        None
    } else if pos < p.len() && p[pos] != 0x2f {
        descend(v, p, start, pos + 1)
    } else {
        match child(v, p.subrange(start, pos)) {
            Some(c) => if c.inner is None {
                None
            } else if pos >= p.len() {
                Some(c)
            } else {
                descend(c, p, pos + 1, pos + 1)
            },
            None => None,
        }
    }
}

/// The value that the pointer `p` selects in `v`. The empty pointer selects
/// `v` itself; any other pointer is `/` and a token, any number of times,
/// each token a key of a table or an index into an array. A `/` or `~` inside
/// a key cannot be written.
pub open spec fn pointer_target(v: ValueView, p: Seq<u8>) -> Option<ValueView> {
    if p.len() == 0 {
        Some(v)
    } else if p[0] != 0x2f {
        None
    } else {
        descend(v, p, 1, 1)
    }
}

/// The value `v` with `new` in the place of the child that `tok` selects.
pub open spec fn with_child(v: ValueView, tok: Seq<u8>, new: ValueView) -> ValueView {
    match v.inner {
        Some(InnerView::Table(t)) => ValueView {
            inner: Some(InnerView::Table(t.with_value(t.position(tok), new))),
            span: v.span,
        },
        Some(InnerView::Array(a)) => ValueView {
            inner: Some(InnerView::Array(a.update(index_of(tok).unwrap() as int, new))),
            span: v.span,
        },
        _ => v,
    }
}

/// The value `v` with `new` in the place of what the rest of a pointer
/// selects; `v` itself where it selects nothing.
pub open spec fn with_descendant(
    v: ValueView,
    p: Seq<u8>,
    start: int,
    pos: int,
    new: ValueView,
) -> ValueView
    decreases p.len() - pos,
{
    if pos < start || pos > p.len() || start < 0 {
        v
    } else if pos < p.len() && p[pos] != 0x2f {
        with_descendant(v, p, start, pos + 1, new)
    } else {
        let tok = p.subrange(start, pos);
        match child(v, tok) {
            Some(c) => if c.inner is None {
                v
            } else if pos >= p.len() {
                with_child(v, tok, new)
            } else {
                with_child(v, tok, with_descendant(c, p, pos + 1, pos + 1, new))
            },
            None => v,
        }
    }
}

/// The value `v` with `new` in the place of what the pointer `p` selects.
pub open spec fn with_target(v: ValueView, p: Seq<u8>, new: ValueView) -> ValueView {
    if p.len() == 0 {
        new
    } else if p[0] != 0x2f {
        v
    } else {
        with_descendant(v, p, 1, 1, new)
    }
}

impl<'de> Value<'de> {
    /// The value that `pointer` selects: the value itself for the empty
    /// pointer, else what the tokens after each `/` lead to, each a key of a
    /// table or an index into an array. `None` where a token finds nothing,
    /// or leads to a value whose payload was taken.
    pub fn pointer(&self, pointer: &str) -> (r: Option<&Value<'de>>)
        ensures
            match r {
                Some(v) => Some(v@) == pointer_target(self@, pointer.spec_bytes()),
                None => pointer_target(self@, pointer.spec_bytes()) is None,
            },
    {
        let bytes = pointer.as_bytes();
        let ghost p = pointer.spec_bytes();
        let n = bytes.len();
        if n == 0 {
            return Some(self);
        }
        if bytes[0] != 0x2f {
            return None;
        }
        proof {
            lemma_str_valid(pointer);
            lemma_ascii_boundary(p, 0);
        }
        let mut target: &Value<'de> = self;
        let mut start: usize = 1;
        let mut pos: usize = 1;
        loop
            invariant
                p == pointer.spec_bytes(),
                p == bytes@,
                n == p.len(),
                valid_utf8(p),
                1 <= start <= pos <= n,
                is_char_boundary(p, start as int),
                descend(target@, p, start as int, pos as int) == descend(self@, p, 1, 1),
                p[0] == 0x2f,
            decreases n - pos,
        {
            if pos < n && bytes[pos] != 0x2f {
                pos += 1;
                continue ;
            }
            proof {
                if pos < n {
                    lemma_ascii_boundary(p, pos as int);
                } else {
                    is_char_boundary_start_end_of_seq(p);
                }
            }
            let tok = substr(pointer, start, pos);
            let next: Option<&Value<'de>> = match &target.value {
                Some(ValueInner::Table(t)) => {
                    assert(target@.inner == Some(InnerView::Table(t@)));
                    t.get(tok)
                },
                Some(ValueInner::Array(a)) => {
                    proof {
                        lemma_array_view(*a);
                    }
                    assert(target@.inner == Some(InnerView::Array(array_view(a@))));
                    match parse_index(tok) {
                        Some(i) => if i < a.len() {
                            Some(&a[i])
                        } else {
                            None
                        },
                        None => None,
                    }
                },
                _ => None,
            };
            assert(match next {
                Some(c) => Some(c@) == child(target@, tok.spec_bytes()),
                None => child(target@, tok.spec_bytes()) is None,
            });
            match next {
                None => {
                    return None;
                },
                Some(c) => {
                    if c.value.is_none() {
                        return None;
                    }
                    if pos >= n {
                        return Some(c);
                    }
                    target = c;
                    start = pos + 1;
                    pos = pos + 1;
                },
            }
        }
    }
}

/// While a token is being read, what the rest of the pointer selects, and
/// what a replacement there gives, do not depend on how far it has been read.
pub proof fn lemma_descend_scan(v: ValueView, p: Seq<u8>, start: int, pos: int, new: ValueView)
    requires
        0 <= start <= pos < p.len(),
        p[pos] != 0x2f,
    ensures
        descend(v, p, start, pos) == descend(v, p, start, pos + 1),
        with_descendant(v, p, start, pos, new) == with_descendant(v, p, start, pos + 1, new),
{
}

/// To put a child back where it was changes nothing.
pub proof fn lemma_with_child_same(v: ValueView, tok: Seq<u8>, c: ValueView)
    requires
        child(v, tok) == Some(c),
    ensures
        with_child(v, tok, c) == v,
{
    match v.inner {
        Some(InnerView::Table(t)) => {
            lemma_position(t, tok);
            assert(t.with_value(t.position(tok), c).entries =~= t.entries);
        },
        Some(InnerView::Array(a)) => {
            assert(a.update(index_of(tok).unwrap() as int, c) =~= a);
        },
        _ => {},
    }
}

/// An array whose element `i` became `c` has the view of the array before
/// with the view of `c` at `i`.
pub proof fn lemma_array_update(before: Array<'_>, after: Array<'_>, i: int, c: Value<'_>)
    requires
        0 <= i < before.len(),
        after@ == before@.update(i, c),
    ensures
        ValueInner::Array(after)@ == InnerView::Array(array_view(before@).update(i, c@)),
{
    lemma_array_view(after);
    assert(array_view(after@) =~= array_view(before@).update(i, c@));
}

impl<'de> Value<'de> {
    /// Below `self`, the value that the rest of `pointer` from the token at
    /// `start` selects, for changing.
    fn descend_mut<'a>(&'a mut self, pointer: &str, start: usize) -> (r: Option<&'a mut Value<'de>>)
        requires
            1 <= start <= pointer.spec_bytes().len(),
            is_char_boundary(pointer.spec_bytes(), start as int),
        ensures
            match r {
                Some(t) => Some(t@) == descend(
                    old(self)@,
                    pointer.spec_bytes(),
                    start as int,
                    start as int,
                ),
                None => descend(old(self)@, pointer.spec_bytes(), start as int, start as int)
                    is None,
            },
            match r {
                Some(t) => final(self)@ == with_descendant(
                    old(self)@,
                    pointer.spec_bytes(),
                    start as int,
                    start as int,
                    final(t)@,
                ),
                None => final(self)@ == old(self)@,
            },
        decreases pointer.spec_bytes().len() - start,
    {
        let bytes = pointer.as_bytes();
        let ghost p = pointer.spec_bytes();
        let ghost v0 = self@;
        let n = bytes.len();
        let mut pos: usize = start;
        while pos < n && bytes[pos] != 0x2f
            invariant
                p == pointer.spec_bytes(),
                p == bytes@,
                n == p.len(),
                start <= pos <= n,
                1 <= start,
                descend(v0, p, start as int, pos as int) == descend(v0, p, start as int, start as int),
                forall|new: ValueView|
                    with_descendant(v0, p, start as int, pos as int, new) == #[trigger] with_descendant(
                        v0,
                        p,
                        start as int,
                        start as int,
                        new,
                    ),
            decreases n - pos,
        {
            proof {
                assert forall|new: ValueView|
                    with_descendant(v0, p, start as int, pos + 1, new) == #[trigger] with_descendant(
                        v0,
                        p,
                        start as int,
                        start as int,
                        new,
                    ) by {
                    lemma_descend_scan(v0, p, start as int, pos as int, new);
                }
            }
            pos += 1;
        }
        proof {
            lemma_str_valid(pointer);
            if pos < n {
                lemma_ascii_boundary(p, pos as int);
            } else {
                is_char_boundary_start_end_of_seq(p);
            }
        }
        let tok = substr(pointer, start, pos);
        let ghost tb = tok.spec_bytes();
        proof {
            assert forall|nv: Value<'de>| true implies #[trigger] nv@ == (ValueView {
                inner: match nv.value {
                    Some(inner) => Some(inner@),
                    None => None,
                },
                span: nv.span,
            }) by {}
            assert forall|nt: Table<'de>| true implies #[trigger] ValueInner::Table(nt)@
                == InnerView::Table(nt@) by {}
        }
        let c: &mut Value<'de> = match &mut self.value {
            Some(ValueInner::Table(t)) => {
                proof {
                    lemma_table_view(*t);
                    lemma_position(t@, tb);
                    assert(v0.inner == Some(InnerView::Table(t@)));
                }
                match t.get_mut(tok) {
                    Some(c) => {
                        assert(Some(c@) == child(v0, tb));
                        c
                    },
                    None => {
                        return None;
                    },
                }
            },
            Some(ValueInner::Array(a)) => {
                proof {
                    lemma_array_view(*a);
                    assert(v0.inner == Some(InnerView::Array(array_view(a@))));
                }
                match parse_index(tok) {
                    Some(i) => {
                        if i < a.len() {
                            proof {
                                let before = *a;
                                assert forall|after: Array<'de>, c: Value<'de>|
                                    after@ == before@.update(i as int, c) implies #[trigger] ValueInner::Array(
                                        after,
                                    )@ == InnerView::Array(
                                        array_view(before@).update(i as int, #[trigger] c@),
                                    ) by {
                                    lemma_array_update(before, after, i as int, c);
                                }
                            }
                            let c = &mut a[i];
                            assert(Some(c@) == child(v0, tb));
                            c
                        } else {
                            return None;
                        }
                    },
                    None => {
                        return None;
                    },
                }
            },
            _ => {
                return None;
            },
        };
        assert(Some(c@) == child(v0, tb));
        proof {
            lemma_with_child_same(v0, tb, c@);
        }
        if c.value.is_none() {
            return None;
        }
        if pos >= n {
            return Some(c);
        }
        proof {
            lemma_ascii_boundary(p, pos as int);
        }
        c.descend_mut(pointer, pos + 1)
    }

    /// The value that `pointer` selects, as [`Value::pointer`] finds it, for
    /// changing: what the caller leaves there is what the tree then holds in
    /// that place.
    pub fn pointer_mut(&mut self, pointer: &str) -> (r: Option<&mut Value<'de>>)
        ensures
            match r {
                Some(t) => Some(t@) == pointer_target(old(self)@, pointer.spec_bytes())
                    && final(self)@ == with_target(old(self)@, pointer.spec_bytes(), final(t)@),
                None => pointer_target(old(self)@, pointer.spec_bytes()) is None && final(self)@
                    == old(self)@,
            },
    {
        let bytes = pointer.as_bytes();
        if bytes.len() == 0 {
            return Some(self);
        }
        if bytes[0] != 0x2f {
            return None;
        }
        proof {
            lemma_str_valid(pointer);
            lemma_ascii_boundary(pointer.spec_bytes(), 0);
        }
        self.descend_mut(pointer, 1)
    }
}

/// A pointer selects at most one value, and always the same one. The empty
/// pointer selects the value itself. Any other pointer selects nothing in a
/// value whose payload was taken, and nothing unless it begins with `/`.
pub proof fn law_pointer(v: ValueView, p: Seq<u8>)
    ensures
        pointer_target(v, Seq::empty()) == Some(v),
        p.len() > 0 && v.inner is None ==> pointer_target(v, p) is None,
        p.len() > 0 && p[0] != 0x2f ==> pointer_target(v, p) is None,
        pointer_target(v, p) matches Some(t) ==> p.len() == 0 || t.inner is Some,
{
    if p.len() > 0 && p[0] == 0x2f {
        lemma_descend_untaken(v, p, 1, 1);
    }
}

/// What the rest of a pointer selects has its payload, and nothing is
/// selected below a value that has none.
pub proof fn lemma_descend_untaken(v: ValueView, p: Seq<u8>, start: int, pos: int)
    ensures
        descend(v, p, start, pos) matches Some(t) ==> t.inner is Some,
        v.inner is None ==> descend(v, p, start, pos) is None,
    decreases p.len() - pos,
{
    if pos < start || pos > p.len() || start < 0 {
    } else if pos < p.len() && p[pos] != 0x2f {
        lemma_descend_untaken(v, p, start, pos + 1);
    } else {
        match child(v, p.subrange(start, pos)) {
            Some(c) => {
                if c.inner is Some && pos < p.len() {
                    lemma_descend_untaken(c, p, pos + 1, pos + 1);
                }
            },
            None => {},
        }
    }
}

/// Putting a value where a pointer selects one, and selecting again, gives
/// that value back; it must have its payload to be found.
pub proof fn law_pointer_after_change(v: ValueView, p: Seq<u8>, new: ValueView)
    requires
        pointer_target(v, p) is Some,
        new.inner is Some,
    ensures
        pointer_target(with_target(v, p, new), p) == Some(new),
{
    if p.len() > 0 {
        lemma_descend_after_change(v, p, 1, 1, new);
    }
}

/// A table with unique keys finds under a key what was put there.
proof fn lemma_get_after_change(t: TableView, name: Seq<u8>, new: ValueView)
    requires
        t.contains(name),
    ensures
        t.with_value(t.position(name), new).get(name) == Some(new),
{
    lemma_position(t, name);
    let i = t.position(name);
    let n = t.with_value(i, new);
    lemma_same_names_same_position(t.entries, n.entries, name, 0);
}

/// Below `v`, putting a value where the rest of a pointer selects one, and
/// selecting again, gives that value back.
proof fn lemma_descend_after_change(v: ValueView, p: Seq<u8>, start: int, pos: int, new: ValueView)
    requires
        descend(v, p, start, pos) is Some,
        new.inner is Some,
    ensures
        descend(with_descendant(v, p, start, pos, new), p, start, pos) == Some(new),
    decreases p.len() - pos,
{
    if pos < start || pos > p.len() || start < 0 {
    } else if pos < p.len() && p[pos] != 0x2f {
        lemma_descend_after_change(v, p, start, pos + 1, new);
        let w = with_descendant(v, p, start, pos + 1, new);
        assert(descend(w, p, start, pos) == descend(w, p, start, pos + 1));
    } else {
        let tok = p.subrange(start, pos);
        match child(v, tok) {
            Some(c) => {
                let put = if pos >= p.len() {
                    new
                } else {
                    with_descendant(c, p, pos + 1, pos + 1, new)
                };
                let w = with_child(v, tok, put);
                match v.inner {
                    Some(InnerView::Table(t)) => {
                        lemma_get_after_change(t, tok, put);
                    },
                    Some(InnerView::Array(a)) => {},
                    _ => {},
                }
                assert(child(w, tok) == Some(put));
                if pos < p.len() {
                    lemma_descend_after_change(c, p, pos + 1, pos + 1, new);
                    lemma_descend_untaken(put, p, pos + 1, pos + 1);
                }
            },
            None => {},
        }
    }
}

} // verus!
