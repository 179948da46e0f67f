//! A reader and writer for a JSON-like notation.
//!
//! Text is cut into tokens by [`lexer::tokenize`], the tokens are read into a
//! [`Json`] tree by [`parser::parse`], and a tree is written back as compact
//! text by [`Json::serialize`].  [`Json::deserialize`] does the first two in
//! one call.
//!
//! Every executable function carries a contract over the mathematical model
//! of its data: [`lexer::grammar`] says what the tokens of a text are,
//! [`syntax`] what value a list of tokens holds, and [`codec`] what the text
//! of a value is.  [`laws`] proves what holds of reading and writing
//! together.
//!
//! A number is held as its literal, as it stood in the text.

pub mod access;
pub mod codec;
pub mod config;
pub mod convert;
pub mod equal;
pub mod error;
pub mod laws;
pub mod lexer;
pub mod parser;
pub mod syntax;
pub mod text;
pub mod value;

pub use config::JsonConfig;
pub use error::Error;
pub use value::{Json, JsonValue, Object};
