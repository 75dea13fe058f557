//! A minimal delimited-text row reader.
//!
//! A `Parser` holds a configuration (whether the first line is a header to
//! discard, and the field delimiter) and turns a text source into a lazy,
//! forward-only sequence of rows, where each row is one input line split at
//! every occurrence of the delimiter.

pub mod reader;
pub mod text;

pub use reader::Builder;
pub use reader::Parser;
pub use reader::Rows;
