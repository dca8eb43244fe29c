//! Tokens and their kinds.

use vstd::prelude::*;
use crate::lexer::span::Span;

verus! {

/// The closed set of token kinds.
#[derive(Copy, Clone, Debug, PartialEq, Eq, Structural)]
pub enum TokenKind {
    LeftParen,
    RightParen,
    LeftBrace,
    RightBrace,
    Semicolon,
    Plus,
    Minus,
    Slash,
    Asterisk,
    Number,
}

/// A token: its kind, the slice of the source text it was read from, and
/// where that slice lies.
#[derive(Copy, Clone, Debug, PartialEq, Eq)]
pub struct Token<'source> {
    pub kind: TokenKind,
    pub lexeme: &'source str,
    pub span: Span,
}

/// What a token is, with its lexeme as a sequence of characters.
pub struct TokenView {
    pub kind: TokenKind,
    pub lexeme: Seq<char>,
    pub span: Span,
}

impl<'source> View for Token<'source> {
    type V = TokenView;

    open spec fn view(&self) -> TokenView {
        TokenView { kind: self.kind, lexeme: self.lexeme@, span: self.span }
    }
}

} // verus!
