//! A minimal JSON core: a lexer from text to tokens, a recursive-descent
//! parser from tokens to a value tree, and a serializer back to text.
//!
//! The grammar covers `null`, booleans, unsigned decimal integers, quoted
//! strings without escape sequences, arrays and objects. The lexer is total:
//! unrecognized characters are skipped. All malformed input is reported by
//! the parser as a [`ParseError`].

pub mod digits;
pub mod lexer;
pub mod parser;
pub mod roundtrip;
pub mod ser;
pub mod text;
pub mod token;
pub mod value;

pub use lexer::tokenize;
pub use parser::parse;
pub use ser::serialize;
pub use token::ParseError;
pub use token::SpecToken;
pub use token::Token;
pub use value::SpecValue;
pub use value::Value;
