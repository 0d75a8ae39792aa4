//! A dependency-free JSON parser with precise, localized error diagnostics.
//!
//! The parser turns UTF-8 text into a [`value::JsonValue`] tree or a
//! [`error::ParseError`] that carries an error kind, a source position
//! (a character index), and a context trail of the grammar rules that
//! were active at the point of failure.
//!
//! The whole grammar is stated mathematically in [`grammar`], and the
//! executable parser in [`parser`] is proved to return exactly what the
//! grammar assigns to its input. [`laws`] proves, from the grammar
//! alone, that every parse result is well-formed and that re-parsing
//! the canonical text of a well-formed value yields it back.

pub mod error;
pub mod grammar;
pub mod laws;
pub mod parser;
pub mod value;

pub use error::ErrorKind;
pub use error::ParseError;
pub use error::Rule;
pub use parser::DEFAULT_DEPTH_LIMIT;
pub use parser::parse;
pub use parser::parse_with_limit;
pub use value::JsonValue;
