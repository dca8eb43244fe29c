//! The rule for brace-delimited blocks.

use vstd::prelude::*;
use crate::lexer::token::{Token, TokenKind};
use crate::parser::ast::Expr;
use crate::parser::model::{expr_result, parse_block, Parsed};
use crate::parser::Parser;
use crate::Error;

verus! {

/// The rule that parses a block from its opening brace on.
#[derive(Copy, Clone, Debug, PartialEq, Eq, Structural)]
pub struct Parselet;

impl Parselet {
    /// Parses the block that `token` opens: statements up to the closing
    /// brace.
    pub fn parse<'source>(&self, parser: &mut Parser<'source>, token: Token<'source>) -> (result:
        Result<Expr<'source>, Error>)
        requires
            old(parser).wf(),
        ensures
            final(parser).wf(),
            final(parser).source() == old(parser).source(),
            parse_block(old(parser).tokens(), token@) == (Parsed {
                result: expr_result(result),
                rest: final(parser).tokens(),
            }),
        decreases old(parser).tokens().len(), 5nat,
    {
        let open = token;
        let (inner, close) = parser.parse_block_inner(Some(TokenKind::RightBrace))?;
        match close {
            Some(close) => Ok(Expr::Block { open, inner, close }),
            None => Err(Error::UnexpectedEof),
        }
    }
}

} // verus!
