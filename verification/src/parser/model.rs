//! What the parser computes, as functions on sequences of tokens.
//!
//! Each function takes the tokens that are yet to be read and returns a
//! result together with the tokens left after it.

use vstd::prelude::*;
use crate::lexer::model::Lexed;
use crate::lexer::token::{Token, TokenKind, TokenView};
use crate::parser::ast::{Block, BlockView, Expr, ExprView, Stmt, StmtView};
use crate::parser::parselet::{infix_rule, prefix_rule, InfixParselet, PrefixParselet};
use crate::parser::Precedence;
use crate::Error;

verus! {

/// The outcome of a parsing step: its result and the tokens left after it.
pub struct Parsed<T> {
    pub result: Result<T, Error>,
    pub rest: Seq<Lexed>,
}

/// A step that stops with `error`, leaving `rest`.
pub open spec fn failed<T>(error: Error, rest: Seq<Lexed>) -> Parsed<T> {
    Parsed { result: Err(error), rest }
}

/// A step that yields `value`, leaving `rest`.
pub open spec fn done<T>(value: T, rest: Seq<Lexed>) -> Parsed<T> {
    Parsed { result: Ok(value), rest }
}

/// The result of parsing an expression, with lexemes as sequences of
/// characters.
pub open spec fn expr_result(result: Result<Expr<'_>, Error>) -> Result<ExprView, Error> {
    match result {
        Ok(expr) => Ok(expr@),
        Err(error) => Err(error),
    }
}

/// The result of parsing a statement, with lexemes as sequences of
/// characters.
pub open spec fn stmt_result(result: Result<Stmt<'_>, Error>) -> Result<StmtView, Error> {
    match result {
        Ok(stmt) => Ok(stmt@),
        Err(error) => Err(error),
    }
}

/// The result of parsing the body of a block, with lexemes as sequences of
/// characters.
pub open spec fn items_result(result: Result<(Block<'_>, Option<Token<'_>>), Error>) -> Result<
    (BlockView, Option<TokenView>),
    Error,
> {
    match result {
        Ok((body, Some(close))) => Ok((body@, Some(close@))),
        Ok((body, None)) => Ok((body@, None)),
        Err(error) => Err(error),
    }
}

/// Reads a token that is needed: the end of the tokens is an error, and so
/// is a lexical error in the token's place.
pub open spec fn pull(ts: Seq<Lexed>) -> Parsed<TokenView> {
    if ts.len() == 0 {
        failed(Error::UnexpectedEof, ts)
    } else {
        Parsed { result: ts[0], rest: ts.drop_first() }
    }
}

/// The error for a token that cannot stand where it was found.
pub open spec fn unexpected(token: TokenView) -> Error {
    Error::UnexpectedToken { kind: token.kind, location: token.span.start }
}

/// How tightly the next token binds as an operator: `Lowest` if there is no
/// next token or if it is no operator.
pub open spec fn next_precedence(ts: Seq<Lexed>) -> Precedence {
    if ts.len() > 0 {
        match ts[0] {
            Ok(token) => match infix_rule(token.kind) {
                Some(rule) => rule.binding(),
                None => Precedence::Lowest,
            },
            Err(_) => Precedence::Lowest,
        }
    } else {
        Precedence::Lowest
    }
}

/// A body with nothing in it.
pub open spec fn empty_block() -> BlockView {
    BlockView { stmts: Seq::empty(), expr: None }
}

/// Parses the operand to the right of the operator `op`, whose rule binds
/// with `binding`, and joins it with `left`. Operators that bind no tighter
/// than `op` are left unread, which makes operators of one precedence
/// associate to the left.
pub open spec fn parse_binary(
    ts: Seq<Lexed>,
    binding: Precedence,
    left: ExprView,
    op: TokenView,
) -> Parsed<ExprView>
    decreases ts.len(), 0nat,
{
    let next = pull(ts);
    match next.result {
        Err(error) => failed(error, next.rest),
        Ok(token) => {
            let right = parse_with_precedence(next.rest, binding, token);
            match right.result {
                Err(error) => failed(error, right.rest),
                Ok(right_expr) => done(
                    ExprView::BinOp { left: Box::new(left), op, right: Box::new(right_expr) },
                    right.rest,
                ),
            }
        },
    }
}

/// Extends `left` by the infix rule `rule` at the operator `op`, which has
/// been read.
pub open spec fn parse_infix(
    rule: InfixParselet,
    ts: Seq<Lexed>,
    left: ExprView,
    op: TokenView,
) -> Parsed<ExprView>
    decreases ts.len(), 1nat,
{
    match rule {
        InfixParselet::BinOp(_) => parse_binary(ts, rule.binding(), left, op),
    }
}

/// Extends `left` for as long as the next token is an operator that binds
/// tighter than `min`.
///
/// The test on the length of what is left only serves to show that the
/// definition is well-founded: see `lemma_consumes`.
pub open spec fn climb(ts: Seq<Lexed>, min: Precedence, left: ExprView) -> Parsed<ExprView>
    decreases ts.len(), 2nat,
{
    if min.rank() < next_precedence(ts).rank() {
        let op = ts[0]->Ok_0;
        let joined = parse_infix(infix_rule(op.kind)->Some_0, ts.drop_first(), left, op);
        match joined.result {
            Err(_) => joined,
            Ok(expr) => if joined.rest.len() < ts.len() {
                climb(joined.rest, min, expr)
            } else {
                joined
            },
        }
    } else {
        done(left, ts)
    }
}

/// Parses a parenthesized group whose opening token `open` has been read:
/// either the closing parenthesis at once, or an expression and then the
/// closing parenthesis.
pub open spec fn parse_group(ts: Seq<Lexed>, open: TokenView) -> Parsed<ExprView>
    decreases ts.len(), 3nat,
{
    let next = pull(ts);
    match next.result {
        Err(error) => failed(error, next.rest),
        Ok(token) => if token.kind == TokenKind::RightParen {
            done(ExprView::Group { open, expr: None, close: token }, next.rest)
        } else {
            let inner = parse_with_precedence(next.rest, Precedence::Lowest, token);
            match inner.result {
                Err(error) => failed(error, inner.rest),
                Ok(expr) => {
                    let last = pull(inner.rest);
                    match last.result {
                        Err(error) => failed(error, last.rest),
                        Ok(close) => if close.kind == TokenKind::RightParen {
                            done(
                                ExprView::Group { open, expr: Some(Box::new(expr)), close },
                                last.rest,
                            )
                        } else {
                            failed(Error::UnclosedGroup { location: close.span.start }, last.rest)
                        },
                    }
                },
            }
        },
    }
}

/// Parses the statements of a block up to its closing token, or up to the
/// end of the tokens where `close_kind` is `None`, adding them to `body`.
/// An expression without a semicolon becomes the value of the block, and
/// must be followed by the closing token or the end.
///
/// The test on the length of what is left only serves to show that the
/// definition is well-founded: see `lemma_consumes`.
pub open spec fn parse_items(
    ts: Seq<Lexed>,
    close_kind: Option<TokenKind>,
    body: BlockView,
) -> Parsed<(BlockView, Option<TokenView>)>
    decreases ts.len(), 4nat,
{
    if ts.len() == 0 {
        if close_kind is Some {
            failed(Error::UnexpectedEof, ts)
        } else {
            done((body, None), ts)
        }
    } else {
        match ts[0] {
            Err(error) => failed(error, ts.drop_first()),
            Ok(token) => if close_kind == Some(token.kind) {
                done((body, Some(token)), ts.drop_first())
            } else {
                let stmt = parse_stmt(ts.drop_first(), token);
                match stmt.result {
                    Err(error) => failed(error, stmt.rest),
                    Ok(StmtView::Expr { expr, semicolon: None }) => {
                        if stmt.rest.len() > 0 && stmt.rest[0] is Ok && Some(
                            stmt.rest[0]->Ok_0.kind,
                        ) != close_kind {
                            failed(unexpected(stmt.rest[0]->Ok_0), stmt.rest.drop_first())
                        } else if stmt.rest.len() < ts.len() {
                            parse_items(
                                stmt.rest,
                                close_kind,
                                BlockView { stmts: body.stmts, expr: Some(Box::new(expr)) },
                            )
                        } else {
                            failed(Error::UnexpectedEof, stmt.rest)
                        }
                    },
                    Ok(with_semicolon) => if stmt.rest.len() < ts.len() {
                        parse_items(
                            stmt.rest,
                            close_kind,
                            BlockView { stmts: body.stmts.push(with_semicolon), expr: body.expr },
                        )
                    } else {
                        failed(Error::UnexpectedEof, stmt.rest)
                    },
                }
            },
        }
    }
}

/// Parses a block whose opening token `open` has been read.
pub open spec fn parse_block(ts: Seq<Lexed>, open: TokenView) -> Parsed<ExprView>
    decreases ts.len(), 5nat,
{
    let body = parse_items(ts, Some(TokenKind::RightBrace), empty_block());
    match body.result {
        Err(error) => failed(error, body.rest),
        Ok((inner, Some(close))) => done(ExprView::Block { open, inner, close }, body.rest),
        Ok((_, None)) => failed(Error::UnexpectedEof, body.rest),
    }
}

/// Parses an expression by the prefix rule `rule` from its first token
/// `token`, which has been read.
pub open spec fn parse_prefix(
    rule: PrefixParselet,
    ts: Seq<Lexed>,
    token: TokenView,
) -> Parsed<ExprView>
    decreases ts.len(), 6nat,
{
    match rule {
        PrefixParselet::Block(_) => parse_block(ts, token),
        PrefixParselet::Group(_) => parse_group(ts, token),
        PrefixParselet::Number(_) => done(ExprView::Number(token), ts),
    }
}

/// Parses an expression whose first token `token` has been read, up to the
/// first operator that binds no tighter than `min`.
///
/// The test on the length of what is left only serves to show that the
/// definition is well-founded: see `lemma_consumes`.
pub open spec fn parse_with_precedence(
    ts: Seq<Lexed>,
    min: Precedence,
    token: TokenView,
) -> Parsed<ExprView>
    decreases ts.len(), 7nat,
{
    match prefix_rule(token.kind) {
        None => failed(unexpected(token), ts),
        Some(rule) => {
            let first = parse_prefix(rule, ts, token);
            match first.result {
                Err(_) => first,
                Ok(left) => if first.rest.len() <= ts.len() {
                    climb(first.rest, min, left)
                } else {
                    first
                },
            }
        },
    }
}

/// Parses a whole expression whose first token `token` has been read.
pub open spec fn parse_expr(ts: Seq<Lexed>, token: TokenView) -> Parsed<ExprView>
    decreases ts.len(), 8nat,
{
    parse_with_precedence(ts, Precedence::Lowest, token)
}

/// Parses a statement whose first token `token` has been read: a semicolon
/// on its own, or an expression and the semicolon behind it, if there is
/// one.
pub open spec fn parse_stmt(ts: Seq<Lexed>, token: TokenView) -> Parsed<StmtView>
    decreases ts.len(), 9nat,
{
    if token.kind == TokenKind::Semicolon {
        done(StmtView::Empty { semicolon: token }, ts)
    } else {
        let parsed = parse_expr(ts, token);
        match parsed.result {
            Err(error) => failed(error, parsed.rest),
            Ok(expr) => {
                let rest = parsed.rest;
                if rest.len() > 0 && rest[0] is Ok && rest[0]->Ok_0.kind == TokenKind::Semicolon {
                    done(
                        StmtView::Expr { expr, semicolon: Some(rest[0]->Ok_0) },
                        rest.drop_first(),
                    )
                } else {
                    done(StmtView::Expr { expr, semicolon: None }, rest)
                }
            },
        }
    }
}

/// Parses an expression from its first token on, up to the first operator
/// that binds no tighter than `min`. The end of the tokens in the place of
/// the first token is an error.
pub open spec fn parse_expression(ts: Seq<Lexed>, min: Precedence) -> Parsed<ExprView> {
    let first = pull(ts);
    match first.result {
        Err(error) => failed(error, first.rest),
        Ok(token) => parse_with_precedence(first.rest, min, token),
    }
}

/// Parses a statement from its first token on. The end of the tokens in the
/// place of the first token is an error.
pub open spec fn parse_statement(ts: Seq<Lexed>) -> Parsed<StmtView> {
    let first = pull(ts);
    match first.result {
        Err(error) => failed(error, first.rest),
        Ok(token) => parse_stmt(first.rest, token),
    }
}

} // verus!
