//! A lexical scanner for a small Python-like language.
//!
//! The scanner turns a text buffer into a sequence of classified tokens,
//! each carrying its 1-based position in the text, or reports the first
//! unrecognized character it meets.

pub mod lexer;
pub mod lemmas;

pub use lexer::check_keyword;
pub use lexer::lex;
pub use lexer::take_until;
pub use lexer::LexError;
pub use lexer::LexResult;
pub use lexer::Location;
pub use lexer::Token;
pub use lexer::TokenType;
