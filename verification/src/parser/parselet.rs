//! The registry of parsing rules: which rule starts an expression at a token
//! of a given kind, and which one extends an expression at it.

use vstd::prelude::*;
use crate::lexer::token::{Token, TokenKind};
use crate::parser::ast::Expr;
use crate::parser::model::{expr_result, parse_infix, parse_prefix, Parsed};
use crate::parser::{Parser, Precedence};
use crate::Error;

pub mod bin_op;
pub mod block;
pub mod group;
pub mod number;

verus! {

/// A rule that parses an expression from its first token on.
#[derive(Copy, Clone, Debug, PartialEq, Eq, Structural)]
pub enum PrefixParselet {
    Block(block::Parselet),
    Group(group::Parselet),
    Number(number::Parselet),
}

/// A rule that extends an expression at an operator.
#[derive(Copy, Clone, Debug, PartialEq, Eq, Structural)]
pub enum InfixParselet {
    BinOp(bin_op::Parselet),
}

/// Whether `kind` is one of the four binary operators.
pub open spec fn is_operator(kind: TokenKind) -> bool {
    kind == TokenKind::Plus || kind == TokenKind::Minus || kind == TokenKind::Slash || kind
        == TokenKind::Asterisk
}

/// The rule that starts an expression at a token of kind `kind`, if there
/// is one.
pub open spec fn prefix_rule(kind: TokenKind) -> Option<PrefixParselet> {
    match kind {
        TokenKind::LeftBrace => Some(PrefixParselet::Block(block::Parselet)),
        TokenKind::LeftParen => Some(PrefixParselet::Group(group::Parselet)),
        TokenKind::Number => Some(PrefixParselet::Number(number::Parselet)),
        _ => None,
    }
}

/// The rule that extends an expression at a token of kind `kind`, if there
/// is one.
pub open spec fn infix_rule(kind: TokenKind) -> Option<InfixParselet> {
    if is_operator(kind) {
        Some(InfixParselet::BinOp(bin_op::Parselet { kind }))
    } else {
        None
    }
}

/// How tightly the operator of kind `kind` binds: sums looser than products.
pub open spec fn operator_precedence(kind: TokenKind) -> Precedence {
    if kind == TokenKind::Plus || kind == TokenKind::Minus {
        Precedence::Sum
    } else {
        Precedence::Product
    }
}

/// The rule that starts an expression at `token`, if there is one: a block
/// at a left brace, a group at a left parenthesis, a literal at a number.
pub fn prefix_parselet(token: &Token<'_>) -> (rule: Option<PrefixParselet>)
    ensures
        rule == prefix_rule(token.kind),
{
    match token.kind {
        TokenKind::LeftBrace => Some(PrefixParselet::Block(block::Parselet)),
        TokenKind::LeftParen => Some(PrefixParselet::Group(group::Parselet)),
        TokenKind::Number => Some(PrefixParselet::Number(number::Parselet)),
        _ => None,
    }
}

/// The rule that extends an expression at `token`, if there is one: the
/// binary rule at each of the four operators.
pub fn infix_parselet(token: &Token<'_>) -> (rule: Option<InfixParselet>)
    ensures
        rule == infix_rule(token.kind),
{
    match token.kind {
        TokenKind::Plus | TokenKind::Minus | TokenKind::Slash | TokenKind::Asterisk => Some(
            InfixParselet::BinOp(bin_op::Parselet::new(token.kind)),
        ),
        _ => None,
    }
}

impl PrefixParselet {
    /// Parses an expression from its first token `token`, which has been
    /// read.
    pub fn parse<'source>(&self, parser: &mut Parser<'source>, token: Token<'source>) -> (result:
        Result<Expr<'source>, Error>)
        requires
            old(parser).wf(),
        ensures
            final(parser).wf(),
            final(parser).source() == old(parser).source(),
            parse_prefix(*self, old(parser).tokens(), token@) == (Parsed {
                result: expr_result(result),
                rest: final(parser).tokens(),
            }),
        decreases old(parser).tokens().len(), 6nat,
    {
        match self {
            PrefixParselet::Block(rule) => rule.parse(parser, token),
            PrefixParselet::Group(rule) => rule.parse(parser, token),
            PrefixParselet::Number(rule) => rule.parse(parser, token),
        }
    }
}

impl InfixParselet {
    /// How tightly this rule binds.
    pub open spec fn binding(self) -> Precedence {
        match self {
            InfixParselet::BinOp(rule) => operator_precedence(rule.kind),
        }
    }

    /// Whether this rule is one for an operator, as the registry hands
    /// them out.
    pub open spec fn wf(self) -> bool {
        match self {
            InfixParselet::BinOp(rule) => is_operator(rule.kind),
        }
    }

    /// How tightly this rule binds.
    pub fn precedence(&self) -> (binding: Precedence)
        requires
            self.wf(),
        ensures
            binding == self.binding(),
    {
        match self {
            InfixParselet::BinOp(rule) => rule.precedence(),
        }
    }

    /// Extends `left` at the operator `token`, which has been read.
    pub fn parse<'source>(
        &self,
        parser: &mut Parser<'source>,
        left: Expr<'source>,
        token: Token<'source>,
    ) -> (result: Result<Expr<'source>, Error>)
        requires
            old(parser).wf(),
            self.wf(),
        ensures
            final(parser).wf(),
            final(parser).source() == old(parser).source(),
            parse_infix(*self, old(parser).tokens(), left@, token@) == (Parsed {
                result: expr_result(result),
                rest: final(parser).tokens(),
            }),
        decreases old(parser).tokens().len(), 1nat,
    {
        match self {
            InfixParselet::BinOp(rule) => rule.parse(parser, left, token),
        }
    }
}

} // verus!
