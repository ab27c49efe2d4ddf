//! A verified JSON codec: a decoder from text to a `Value` tree and a
//! pretty-printing encoder from a `Value` tree back to text.
//!
//! The decoder is a lexical scanner feeding a recursive-descent parser; the
//! encoder renders with two-space indentation and a trailing newline. Both
//! directions carry exact contracts: the executable code is proved equal to
//! a mathematical description of the grammar, stated over `Seq<char>`.

pub mod encode;
pub mod errors;
pub mod laws;
pub mod model;
pub mod parse;
pub mod scan;

pub use errors::ErrorKind;
pub use errors::JsonError;
pub use model::JsonVal;
pub use model::Value;
pub use parse::decode;
pub use parse::decode_with_limit;
pub use parse::DEFAULT_MAX_DEPTH;
pub use encode::encode;
pub use encode::encode_with_limit;
