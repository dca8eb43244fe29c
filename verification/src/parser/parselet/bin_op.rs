//! The rule for the four binary operators.

use vstd::prelude::*;
use crate::lexer::token::{Token, TokenKind};
use crate::parser::ast::Expr;
use crate::parser::laws::lemma_rest_pull;
use crate::parser::model::{expr_result, parse_binary, Parsed};
use crate::parser::parselet::{is_operator, operator_precedence};
use crate::parser::{Parser, Precedence};
use crate::Error;

verus! {

/// The rule that joins two operands at an operator of kind `kind`.
#[derive(Copy, Clone, Debug, PartialEq, Eq, Structural)]
pub struct Parselet {
    pub kind: TokenKind,
}

impl Parselet {
    /// The rule for the operator of kind `kind`.
    pub fn new(kind: TokenKind) -> (rule: Self)
        ensures
            rule == (Parselet { kind }),
    {
        Self { kind }
    }

    /// How tightly the operator binds: `+` and `-` as sums, `*` and `/` as
    /// products.
    pub fn precedence(&self) -> (binding: Precedence)
        requires
            is_operator(self.kind),
        ensures
            binding == operator_precedence(self.kind),
    {
        match self.kind {
            TokenKind::Plus | TokenKind::Minus => Precedence::Sum,
            _ => Precedence::Product,
        }
    }

    /// Parses the operand to the right of the operator `token` and joins it
    /// with `left`. The operand ends before the first operator that binds no
    /// tighter than this one.
    pub fn parse<'source>(
        &self,
        parser: &mut Parser<'source>,
        left: Expr<'source>,
        token: Token<'source>,
    ) -> (result: Result<Expr<'source>, Error>)
        requires
            old(parser).wf(),
            is_operator(self.kind),
        ensures
            final(parser).wf(),
            final(parser).source() == old(parser).source(),
            parse_binary(old(parser).tokens(), operator_precedence(self.kind), left@, token@) == (
            Parsed { result: expr_result(result), rest: final(parser).tokens() }),
        decreases old(parser).tokens().len(), 0nat,
    {
        proof {
            lemma_rest_pull(parser.tokens());
        }
        let next = parser.take()?;
        let right = Box::new(parser.parse_with_precedence(self.precedence(), next)?);
        Ok(Expr::BinOp { left: Box::new(left), op: token, right })
    }
}

} // verus!
