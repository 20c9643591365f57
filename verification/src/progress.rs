//! Reading moves on: whatever is read is at least one byte long and ends
//! inside the source. With that, the rules of the grammar can be stated
//! without the provision that they make for reading that stands still.

use crate::assemble::{array_value, empty_table, open_header, put, put_in_section, table_value};
use crate::grammar::{
    array_items, byte_is, document, dotted_key, header, inline_items, key_part, key_value, line_end,
    scalar, skip_blank, skip_trivia, span_of, starts_key, stray, unexpected, value, Parsed,
};
use crate::tokens::{
    in_class, is_blank, is_keylike, lemma_lex_first_byte, lemma_run_bounds, lex, newline_width,
    run_len, Class, Lexed, TokenView,
};
use crate::value::{KeyView, TableKind, TableView, ValueView};
use vstd::prelude::*;

verus! {

/// Spaces, tabs, line breaks and comments that start in the source end in
/// it.
pub proof fn lemma_trivia_bounds(src: Seq<u8>, pos: int)
    requires
        0 <= pos <= src.len(),
    ensures
        pos <= skip_trivia(src, pos) <= src.len(),
    decreases src.len() - pos,
{
    if pos < src.len() {
        if is_blank(src[pos]) {
            lemma_trivia_bounds(src, pos + 1);
        } else if newline_width(src, pos) > 0 {
            lemma_trivia_bounds(src, pos + newline_width(src, pos));
        } else if src[pos] == 0x23 {
            lemma_run_bounds(src, pos + 1, Class::Text);
            let n = 1 + run_len(src, pos + 1, Class::Text);
            lemma_trivia_bounds(src, pos + n);
        }
    }
}

/// Whether what was read from `pos` on, if anything, ends after `pos` and
/// inside the source.
pub open spec fn moved<T>(p: Parsed<T>, src: Seq<u8>, pos: int) -> bool {
    p matches Parsed::Done { pos: end, .. } ==> pos < end <= src.len()
}

/// A part of a key is at least one byte long.
pub proof fn lemma_key_part_moves(src: Seq<u8>, pos: int)
    requires
        0 <= pos,
    ensures
        moved(key_part(src, pos), src, pos),
{
    lemma_lex_first_byte(src, pos);
}

/// A dotted key is at least one byte long.
pub proof fn lemma_dotted_key_moves(src: Seq<u8>, pos: int, acc: Seq<KeyView>)
    requires
        0 <= pos,
    ensures
        moved(dotted_key(src, pos, acc), src, pos),
    decreases src.len() - pos,
{
    lemma_key_part_moves(src, pos);
    match key_part(src, pos) {
        Parsed::Failed(_) => {},
        Parsed::Done { value: k, pos: p1 } => {
            lemma_run_bounds(src, p1, Class::Blank);
            let p2 = skip_blank(src, p1);
            if byte_is(src, p2, 0x2e) && pos < src.len() {
                lemma_run_bounds(src, p2 + 1, Class::Blank);
                lemma_dotted_key_moves(src, skip_blank(src, p2 + 1), acc.push(k));
            }
        },
    }
}

/// A bare value that begins with a byte of a bare key or with `+` is at
/// least one byte long.
pub proof fn lemma_scalar_moves(src: Seq<u8>, pos: int)
    requires
        0 <= pos < src.len(),
        is_keylike(src[pos]) || src[pos] == 0x2b,
    ensures
        moved(scalar(src, pos), src, pos),
{
    lemma_run_bounds(src, pos, Class::Number);
    assert(in_class(Class::Number, src[pos]));
}

/// A value is at least one byte long.
pub proof fn lemma_value_moves(src: Seq<u8>, pos: int)
    requires
        0 <= pos,
    ensures
        moved(value(src, pos), src, pos),
    decreases src.len() - pos, 0int,
{
    lemma_lex_first_byte(src, pos);
    match lex(src, pos) {
        Lexed::Token { token, end, .. } => match token {
            TokenView::Keylike(_) => {
                lemma_scalar_moves(src, pos);
            },
            TokenView::Plus => {
                lemma_scalar_moves(src, pos);
            },
            TokenView::LeftBracket => {
                lemma_array_items_moves(src, pos, pos + 1, Seq::empty());
            },
            TokenView::LeftBrace => {
                lemma_inline_items_moves(src, pos, pos + 1, empty_table(TableKind::Inline), true);
            },
            _ => {},
        },
        _ => {},
    }
}

/// The rest of an array ends after where it is read from.
pub proof fn lemma_array_items_moves(src: Seq<u8>, start: int, pos: int, acc: Seq<ValueView>)
    requires
        0 <= pos,
    ensures
        moved(array_items(src, start, pos, acc), src, pos),
    decreases src.len() - pos, 1int,
{
    if pos <= src.len() {
        lemma_trivia_bounds(src, pos);
    }
    let p1 = skip_trivia(src, pos);
    if !byte_is(src, p1, 0x5d) && pos < src.len() {
        lemma_value_moves(src, p1);
        match value(src, p1) {
            Parsed::Failed(_) => {},
            Parsed::Done { value: v, pos: p2 } => {
                lemma_trivia_bounds(src, p2);
                let p3 = skip_trivia(src, p2);
                if byte_is(src, p3, 0x2c) {
                    lemma_array_items_moves(src, start, p3 + 1, acc.push(v));
                }
            },
        }
    }
}

/// A key with its value is at least one byte long.
pub proof fn lemma_key_value_moves(src: Seq<u8>, pos: int)
    requires
        0 <= pos,
    ensures
        moved(key_value(src, pos), src, pos),
    decreases src.len() - pos, 1int,
{
    lemma_dotted_key_moves(src, pos, Seq::empty());
    match dotted_key(src, pos, Seq::empty()) {
        Parsed::Failed(_) => {},
        Parsed::Done { value: keys, pos: p1 } => {
            if byte_is(src, p1, 0x3d) && pos < src.len() {
                lemma_run_bounds(src, p1 + 1, Class::Blank);
                lemma_value_moves(src, skip_blank(src, p1 + 1));
            }
        },
    }
}

/// The rest of an inline table ends after where it is read from.
pub proof fn lemma_inline_items_moves(
    src: Seq<u8>,
    start: int,
    pos: int,
    t: TableView,
    first: bool,
)
    requires
        0 <= pos,
    ensures
        moved(inline_items(src, start, pos, t, first), src, pos),
    decreases src.len() - pos, 2int,
{
    if pos <= src.len() {
        lemma_run_bounds(src, pos, Class::Blank);
    }
    let p1 = skip_blank(src, pos);
    if !(first && byte_is(src, p1, 0x7d)) && pos < src.len() {
        lemma_key_value_moves(src, p1);
        match key_value(src, p1) {
            Parsed::Failed(_) => {},
            Parsed::Done { value: entry, pos: p2 } => match put(t, entry.0, 0, entry.1) {
                Err(_) => {},
                Ok(t2) => {
                    lemma_run_bounds(src, p2, Class::Blank);
                    let p3 = skip_blank(src, p2);
                    if byte_is(src, p3, 0x2c) {
                        lemma_inline_items_moves(src, start, p3 + 1, t2, false);
                    }
                },
            },
        }
    }
}

/// A header is at least one byte long.
pub proof fn lemma_header_moves(src: Seq<u8>, pos: int)
    requires
        0 <= pos < src.len(),
    ensures
        moved(header(src, pos), src, pos),
{
    let array = byte_is(src, pos + 1, 0x5b);
    let p1 = if array {
        pos + 2
    } else {
        pos + 1
    };
    lemma_run_bounds(src, p1, Class::Blank);
    lemma_dotted_key_moves(src, skip_blank(src, p1), Seq::empty());
}

/// The end of a statement lies at or after where it is looked for, inside
/// the source.
pub proof fn lemma_line_end_bounds(src: Seq<u8>, pos: int)
    requires
        0 <= pos <= src.len(),
    ensures
        line_end(src, pos) matches Parsed::Done { pos: end, .. } ==> pos <= end <= src.len(),
{
    lemma_run_bounds(src, pos, Class::Blank);
}

/// The rule for dotted keys: a part, and after a `.`, with spaces and tabs
/// around it, the rest of the key.
pub proof fn law_dotted_key(src: Seq<u8>, pos: int, acc: Seq<KeyView>)
    requires
        0 <= pos,
    ensures
        dotted_key(src, pos, acc) == match key_part(src, pos) {
            Parsed::Failed(e) => Parsed::Failed(e),
            Parsed::Done { value: k, pos: p1 } => {
                let p2 = skip_blank(src, p1);
                if byte_is(src, p2, 0x2e) {
                    dotted_key(src, skip_blank(src, p2 + 1), acc.push(k))
                } else {
                    Parsed::Done { value: acc.push(k), pos: p2 }
                }
            },
        },
{
    lemma_key_part_moves(src, pos);
    match key_part(src, pos) {
        Parsed::Failed(_) => {},
        Parsed::Done { value: k, pos: p1 } => {
            lemma_run_bounds(src, p1, Class::Blank);
            let p2 = skip_blank(src, p1);
            if byte_is(src, p2, 0x2e) {
                lemma_run_bounds(src, p2 + 1, Class::Blank);
            }
        },
    }
}

/// The rule for a key with its value: the key, `=`, and the value, with
/// spaces and tabs around the `=`.
pub proof fn law_key_value(src: Seq<u8>, pos: int)
    requires
        0 <= pos,
    ensures
        key_value(src, pos) == match dotted_key(src, pos, Seq::empty()) {
            Parsed::Failed(e) => Parsed::Failed(e),
            Parsed::Done { value: keys, pos: p1 } => if !byte_is(src, p1, 0x3d) {
                Parsed::Failed(unexpected(src, p1, "an equals"@))
            } else {
                match value(src, skip_blank(src, p1 + 1)) {
                    Parsed::Failed(e) => Parsed::Failed(e),
                    Parsed::Done { value: v, pos: p2 } => Parsed::Done { value: (keys, v), pos: p2 },
                }
            },
        },
{
    lemma_dotted_key_moves(src, pos, Seq::empty());
    match dotted_key(src, pos, Seq::empty()) {
        Parsed::Failed(_) => {},
        Parsed::Done { value: keys, pos: p1 } => {
            if byte_is(src, p1, 0x3d) {
                lemma_run_bounds(src, p1 + 1, Class::Blank);
            }
        },
    }
}

/// The rule for the elements of an array: after spaces, tabs, line breaks
/// and comments, `]` ends the array; else a value follows, and after it
/// either `,` and the rest, or `]`.
pub proof fn law_array_items(src: Seq<u8>, start: int, pos: int, acc: Seq<ValueView>)
    requires
        0 <= pos <= src.len(),
    ensures
        array_items(src, start, pos, acc) == ({
            let p1 = skip_trivia(src, pos);
            if byte_is(src, p1, 0x5d) {
                Parsed::Done {
                    value: array_value(acc, span_of(start, p1 + 1)),
                    pos: p1 + 1,
                }
            } else {
                match value(src, p1) {
                    Parsed::Failed(e) => Parsed::Failed(e),
                    Parsed::Done { value: v, pos: p2 } => {
                        let p3 = skip_trivia(src, p2);
                        if byte_is(src, p3, 0x2c) {
                            array_items(src, start, p3 + 1, acc.push(v))
                        } else if byte_is(src, p3, 0x5d) {
                            Parsed::Done {
                                value: array_value(
                                    acc.push(v),
                                    span_of(start, p3 + 1),
                                ),
                                pos: p3 + 1,
                            }
                        } else {
                            Parsed::Failed(unexpected(src, p3, "a right bracket"@))
                        }
                    },
                }
            }
        }),
{
    lemma_trivia_bounds(src, pos);
    let p1 = skip_trivia(src, pos);
    lemma_lex_first_byte(src, p1);
    if !byte_is(src, p1, 0x5d) {
        lemma_value_moves(src, p1);
        match value(src, p1) {
            Parsed::Failed(_) => {},
            Parsed::Done { value: v, pos: p2 } => {
                lemma_trivia_bounds(src, p2);
            },
        }
    }
}

/// The rule for the entries of an inline table: `}` ends an empty table;
/// else a key with its value follows, and after it either `,` and the rest,
/// or `}`.
pub proof fn law_inline_items(src: Seq<u8>, start: int, pos: int, t: TableView, first: bool)
    requires
        0 <= pos <= src.len(),
    ensures
        inline_items(src, start, pos, t, first) == ({
            let p1 = skip_blank(src, pos);
            if first && byte_is(src, p1, 0x7d) {
                Parsed::Done {
                    value: table_value(t, span_of(start, p1 + 1)),
                    pos: p1 + 1,
                }
            } else {
                match key_value(src, p1) {
                    Parsed::Failed(e) => Parsed::Failed(e),
                    Parsed::Done { value: entry, pos: p2 } => match put(t, entry.0, 0, entry.1) {
                        Err(e) => Parsed::Failed(e),
                        Ok(t2) => {
                            let p3 = skip_blank(src, p2);
                            if byte_is(src, p3, 0x2c) {
                                inline_items(src, start, p3 + 1, t2, false)
                            } else if byte_is(src, p3, 0x7d) {
                                Parsed::Done {
                                    value: table_value(
                                        t2,
                                        span_of(start, p3 + 1),
                                    ),
                                    pos: p3 + 1,
                                }
                            } else {
                                Parsed::Failed(unexpected(src, p3, "a right brace"@))
                            }
                        },
                    },
                }
            }
        }),
{
    lemma_run_bounds(src, pos, Class::Blank);
    let p1 = skip_blank(src, pos);
    lemma_lex_first_byte(src, p1);
    if !(first && byte_is(src, p1, 0x7d)) {
        lemma_key_value_moves(src, p1);
        law_key_value(src, p1);
        lemma_dotted_key_moves(src, p1, Seq::empty());
        lemma_key_part_moves(src, p1);
        law_dotted_key(src, p1, Seq::empty());
        match key_value(src, p1) {
            Parsed::Failed(_) => {},
            Parsed::Done { value: entry, pos: p2 } => {
                lemma_run_bounds(src, p2, Class::Blank);
            },
        }
    }
}

/// The rule for a document: after spaces, tabs, line breaks and comments,
/// the end of the source ends it; else a statement follows, a header or a
/// key with its value, then the end of its line, and the rest of the
/// document. What begins neither is an error.
pub proof fn law_document(src: Seq<u8>, pos: int, root: TableView, path: Seq<KeyView>)
    requires
        0 <= pos <= src.len(),
    ensures
        document(src, pos, root, path) == ({
            let p1 = skip_trivia(src, pos);
            if p1 >= src.len() {
                Ok(root)
            } else if byte_is(src, p1, 0x5b) {
                match header(src, p1) {
                    Parsed::Failed(e) => Err(e),
                    Parsed::Done { value: h, pos: p2 } => match line_end(src, p2) {
                        Parsed::Failed(e) => Err(e),
                        Parsed::Done { pos: p3, .. } => match open_header(root, h.1, 0, h.0) {
                            Err(e) => Err(e),
                            Ok(next) => document(src, p3, next, h.1),
                        },
                    },
                }
            } else if starts_key(src[p1]) {
                match key_value(src, p1) {
                    Parsed::Failed(e) => Err(e),
                    Parsed::Done { value: entry, pos: p2 } => match line_end(src, p2) {
                        Parsed::Failed(e) => Err(e),
                        Parsed::Done { pos: p3, .. } => match put_in_section(
                            root,
                            path,
                            0,
                            entry.0,
                            entry.1,
                        ) {
                            Err(e) => Err(e),
                            Ok(next) => document(src, p3, next, path),
                        },
                    },
                }
            } else {
                Err(stray(src, p1))
            }
        }),
{
    lemma_trivia_bounds(src, pos);
    let p1 = skip_trivia(src, pos);
    if p1 < src.len() {
        if byte_is(src, p1, 0x5b) {
            lemma_header_moves(src, p1);
            match header(src, p1) {
                Parsed::Failed(_) => {},
                Parsed::Done { value: h, pos: p2 } => {
                    lemma_line_end_bounds(src, p2);
                },
            }
        } else {
            lemma_key_value_moves(src, p1);
            match key_value(src, p1) {
                Parsed::Failed(_) => {},
                Parsed::Done { value: entry, pos: p2 } => {
                    lemma_line_end_bounds(src, p2);
                },
            }
        }
    }
}

} // verus!
