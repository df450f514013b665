//! A small verified JSON parser.
//!
//! The parser is a pure recursive-descent function over a text buffer.  Its
//! grammar is modelled by spec functions over `Seq<char>` in [`grammar`], the
//! executable parser in [`json`] is proved to agree with that model, and
//! [`laws`] states the general properties of the grammar as proof functions.

pub mod grammar;
pub mod json;
pub mod laws;
