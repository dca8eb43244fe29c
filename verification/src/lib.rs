//! A tokenizer and a precedence-climbing parser for a small arithmetic
//! expression language: numeric literals, the four binary operators,
//! parenthesized groups, brace-delimited blocks and semicolons.
//!
//! The [`Lexer`] reads a source text token by token and gives every token
//! its span. The [`Parser`] pulls tokens from it, looks up in the registry
//! of [`parser::parselet`] which rule starts or extends an expression at a
//! token, and builds the tree of [`parser::ast`]. Nothing is evaluated and
//! nothing is read or written but the text.
//!
//! What the two compute is defined in [`lexer::model`] and
//! [`parser::model`] as functions on sequences of characters and of tokens;
//! every function here returns what those say. What holds of them in
//! general is proved in [`lexer::laws`], [`parser::laws`],
//! [`parser::shape`] and [`parser::instances`].
//!
//! Conventions:
//! - Spans are end-exclusive: the end of a span is the location just after
//!   the last character of its lexeme. Lines and columns count from 1,
//!   columns in characters, byte offsets in bytes of UTF-8.
//! - The line and column counters saturate at `usize::MAX`.
//! - A character that starts no token gives an error and is passed over:
//!   the tokenizer can be pulled again. The parser stops at the first error.
//! - A group that is open at the end of the text gives `UnexpectedEof`;
//!   another token in the place of its closing parenthesis gives
//!   `UnclosedGroup`.
//! - Nesting is as deep as the text makes it: the depth of the parser's
//!   recursion is not bounded.

use vstd::prelude::*;

pub mod lexer;
pub mod parser;

pub use lexer::span::{Loc, Span};
pub use lexer::token::{Token, TokenKind, TokenView};
pub use lexer::{Lexer, Tokens};
pub use parser::ast::{Block, Expr, Stmt};
pub use parser::{Parser, Precedence};

verus! {

/// Why tokenizing or parsing stopped.
#[derive(Copy, Clone, Debug, PartialEq, Eq, Structural)]
pub enum Error {
    /// A group was opened, and the token at `location` stands where its
    /// closing parenthesis was due.
    UnclosedGroup { location: Loc },
    /// The character at `location` starts no token.
    UnexpectedChar { character: char, location: Loc },
    /// The tokens ended where one more was needed.
    UnexpectedEof,
    /// The token at `location` cannot stand where it was found.
    UnexpectedToken { kind: TokenKind, location: Loc },
}

} // verus!
