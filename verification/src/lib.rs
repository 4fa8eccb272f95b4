//! A small JSON codec: a character-level tokenizer, a recursive-descent
//! parser producing a tree of `JsonValue`s, typed accessors, and compact
//! and indented formatters, with errors reported at character or token
//! granularity.

mod text;
mod num;
pub mod error;
pub mod tokenizer;
pub mod value;
pub mod parser;
pub mod laws;

pub use error::JsonError;
pub use parser::{parse_json, JsonParser};
pub use tokenizer::{tokenize, Token, Tokenizer};
pub use value::{escape_json_string, format_compact, format_indented, JsonValue};
