//! A TOML parser that keeps, for every key and value, the byte range of the
//! source text it came from.
//!
//! [`parse`] reads a document into a tree of [`Value`]s, or reports the
//! first [`Error`]. [`tokens`] splits the source into tokens, [`grammar`]
//! says what a document is, [`de`] holds the parser, and [`assemble`] the
//! rules by which headers and keys build the tree. [`coverage`],
//! [`locality`], [`borrowing`], [`one_line`], [`separators`] and
//! [`progress`] state what holds of every tree and of the grammar.
//! [`de_helpers`] helps to read records out of a tree, and [`diagnostic`]
//! turns an error into a record with labelled spans.
//!
//! Every function comes with a contract. The contracts speak of views: a
//! value as a [`value::ValueView`], a string as its bytes, the source as the
//! sequence of its bytes.

use vstd::prelude::*;

pub mod assemble;
pub mod borrowing;
pub mod coverage;
pub mod de;
pub mod de_helpers;
pub mod diagnostic;
pub mod error;
pub mod grammar;
pub mod locality;
pub mod number;
pub mod one_line;
pub mod order;
pub mod pointer;
pub mod progress;
pub mod separators;
pub mod span;
pub mod strings;
pub mod table;
pub mod text;
pub mod tokens;
pub mod value;

pub use de::parse;
pub use error::{DeserError, Error, ErrorKind};
pub use span::Span;
pub use value::Value;

verus! {

/// A type that can be read out of a value tree.
pub trait Deserialize<'de>: Sized {
    /// Reads `Self` out of `value`, taking out what it uses. The value and
    /// everything below it must still have its payload. An error result
    /// holds at least one error.
    fn deserialize(value: &mut Value<'de>) -> (r: Result<Self, DeserError>)
        requires
            old(value)@.whole(),
        ensures
            r matches Err(e) ==> e.errors.len() > 0,
    ;
}

/// A type that can be read out of a value tree of any lifetime, and so
/// borrows nothing from it.
pub trait DeserializeOwned: for<'de> Deserialize<'de> {

}

impl<T> DeserializeOwned for T where T: for<'de> Deserialize<'de> {

}

} // verus!
