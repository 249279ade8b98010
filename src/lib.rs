//! A character-level scanner that turns JSON-like text into an ordered
//! sequence of typed tokens.

pub mod grammar;
pub mod laws;
pub mod scan;
pub mod token;

pub use token::{Number, Token, TokenType, TokenValue, TokenView, ValueView};
pub use grammar::ScanError;
pub use scan::Scanner;
