//! An event-driven (SAX-style) JSON parser with a newline-delimited-JSON
//! projection handler built on top of it.
//!
//! Bytes are tokenized by the lexer, the parser applies token-driven
//! transitions on a [`Context`] and dispatches typed events to a
//! user-supplied [`Handler`], which may continue or abort the parse at
//! every event.

mod common;
mod laws;
mod lexer;
mod numbers;
pub mod ndjson_handler;
mod parser;

pub use common::Context;
pub use common::Enclosing;
pub use common::Event;
pub use common::Handler;
pub use common::Observation;
pub use common::ParserStatus;
pub use common::Status;
pub use lexer::Lexed;
pub use lexer::TokenType;
pub use lexer::parse;
pub use lexer::token_at;
pub use parser::ParseError;
pub use parser::Parser;
