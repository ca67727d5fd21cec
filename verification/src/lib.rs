//! A verified interpreter for a minimal esoteric language.
//!
//! The language has a six-symbol instruction set (plus a newline token)
//! operating on a fixed-size tape of 30,000 wrapping cells.  The crate is
//! split into a lexer ([`token`]), a verified decimal-input parser
//! ([`input`]), and the interpreter itself ([`machine`]), whose behaviour is
//! pinned down by a small-step operational semantics written as spec
//! functions.  The interpreter performs no I/O: input lines are handed in as
//! a script and output comes back as a stream of events for the caller to
//! render.

pub mod input;
pub mod machine;
pub mod token;
