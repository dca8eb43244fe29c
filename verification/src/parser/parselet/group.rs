//! The rule for parenthesized groups.

use vstd::prelude::*;
use crate::lexer::token::{Token, TokenKind};
use crate::parser::ast::Expr;
use crate::parser::laws::lemma_rest_pull;
use crate::parser::model::{expr_result, parse_group, Parsed};
use crate::parser::Parser;
use crate::Error;

verus! {

/// The rule that parses a group from its opening parenthesis on.
#[derive(Copy, Clone, Debug, PartialEq, Eq, Structural)]
pub struct Parselet;

impl Parselet {
    /// Parses the group that `token` opens: a closing parenthesis at once, or
    /// an expression and then a closing parenthesis. Another token in the
    /// place of the closing parenthesis gives `UnclosedGroup` with that
    /// token's location; the end of the tokens gives `UnexpectedEof`.
    pub fn parse<'source>(&self, parser: &mut Parser<'source>, token: Token<'source>) -> (result:
        Result<Expr<'source>, Error>)
        requires
            old(parser).wf(),
        ensures
            final(parser).wf(),
            final(parser).source() == old(parser).source(),
            parse_group(old(parser).tokens(), token@) == (Parsed {
                result: expr_result(result),
                rest: final(parser).tokens(),
            }),
        decreases old(parser).tokens().len(), 3nat,
    {
        let open = token;
        proof {
            lemma_rest_pull(parser.tokens());
        }
        let next = parser.take()?;
        let (expr, close) = if next.kind == TokenKind::RightParen {
            (None, next)
        } else {
            let expr = Box::new(parser.parse_expr(next)?);
            let close = parser.take()?;
            (Some(expr), close)
        };
        if close.kind != TokenKind::RightParen {
            return Err(Error::UnclosedGroup { location: close.span.start });
        }
        Ok(Expr::Group { open, expr, close })
    }
}

} // verus!
