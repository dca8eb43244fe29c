//! The rule for numeric literals.

use vstd::prelude::*;
use crate::lexer::token::Token;
use crate::parser::ast::Expr;
use crate::parser::model::{done, expr_result, Parsed};
use crate::parser::Parser;
use crate::Error;

verus! {

/// The rule that makes a numeric literal of its token.
#[derive(Copy, Clone, Debug, PartialEq, Eq, Structural)]
pub struct Parselet;

impl Parselet {
    /// The literal that consists of `token`. Nothing is read.
    pub fn parse<'source>(&self, parser: &mut Parser<'source>, token: Token<'source>) -> (result:
        Result<Expr<'source>, Error>)
        ensures
            *final(parser) == *old(parser),
            done(crate::parser::ast::ExprView::Number(token@), old(parser).tokens()) == (Parsed {
                result: expr_result(result),
                rest: final(parser).tokens(),
            }),
    {
        Ok(Expr::Number(token))
    }
}

} // verus!
