//! The shape of the trees that the parser builds.

use vstd::prelude::*;
use crate::lexer::model::Lexed;
use crate::lexer::token::{TokenKind, TokenView};
use crate::parser::ast::{BlockView, ExprView, StmtView};
use crate::parser::laws::{
    lemma_infix_consumes, lemma_items_consume, lemma_prefix_consumes, lemma_stmt_consumes,
};
use crate::parser::model::{
    climb, empty_block, next_precedence, parse_binary, parse_block, parse_expr, parse_group,
    parse_infix, parse_items, parse_prefix, parse_stmt, parse_with_precedence, pull,
};
use crate::parser::parselet::{
    infix_rule, is_operator, operator_precedence, prefix_rule, PrefixParselet,
};
use crate::parser::Precedence;

verus! {

/// Whether `expr`, if it is a binary operation, has an operator that binds
/// tighter than `rank`. Literals, groups and blocks bind tightest.
pub open spec fn binds_above(expr: ExprView, rank: nat) -> bool {
    expr matches ExprView::BinOp { op, .. } ==> rank < operator_precedence(op.kind).rank()
}

/// Whether `expr`, if it is a binary operation, has an operator that binds
/// at least as tight as `rank`.
pub open spec fn binds_at_least(expr: ExprView, rank: nat) -> bool {
    expr matches ExprView::BinOp { op, .. } ==> rank <= operator_precedence(op.kind).rank()
}

/// Whether `expr` has the shape of a parsed expression, all through:
/// - a binary operation has one of the four operators; its right operand
///   binds tighter than the operator, and its left operand at least as
///   tight, so that products stand below sums and operators of one
///   precedence lean to the left;
/// - a group stands between parentheses, a block between braces, and a
///   literal is a number.
pub open spec fn well_formed(expr: ExprView) -> bool
    decreases expr,
{
    match expr {
        ExprView::BinOp { left, op, right } => {
            &&& is_operator(op.kind)
            &&& well_formed(*left)
            &&& well_formed(*right)
            &&& binds_at_least(*left, operator_precedence(op.kind).rank())
            &&& binds_above(*right, operator_precedence(op.kind).rank())
        },
        ExprView::Block { open, inner, close } => {
            &&& open.kind == TokenKind::LeftBrace
            &&& close.kind == TokenKind::RightBrace
            &&& body_well_formed(inner)
        },
        ExprView::Group { open, expr, close } => {
            &&& open.kind == TokenKind::LeftParen
            &&& close.kind == TokenKind::RightParen
            &&& match expr {
                Some(inner) => well_formed(*inner),
                None => true,
            }
        },
        ExprView::Number(token) => token.kind == TokenKind::Number,
    }
}

/// Whether `stmt` has the shape of a parsed statement: what stands as its
/// semicolon is one, and its expression is well-formed.
pub open spec fn stmt_well_formed(stmt: StmtView) -> bool
    decreases stmt,
{
    match stmt {
        StmtView::Empty { semicolon } => semicolon.kind == TokenKind::Semicolon,
        StmtView::Expr { expr, semicolon } => {
            &&& well_formed(expr)
            &&& match semicolon {
                Some(semicolon) => semicolon.kind == TokenKind::Semicolon,
                None => true,
            }
        },
    }
}

/// Whether `body` has the shape of a parsed body: every statement in it is
/// well-formed and ends in a semicolon, and its value, if it has one, is
/// well-formed.
pub open spec fn body_well_formed(body: BlockView) -> bool
    decreases body,
{
    &&& forall|i: int|
        0 <= i < body.stmts.len() ==> {
            &&& stmt_well_formed(#[trigger] body.stmts[i])
            &&& !(body.stmts[i] matches StmtView::Expr { semicolon: None, .. })
        }
    &&& match body.expr {
        Some(expr) => well_formed(*expr),
        None => true,
    }
}

/// Joining a well-formed operand to its operator gives a well-formed
/// operation, and stops before an operator that binds no tighter.
pub proof fn lemma_binary_shape(ts: Seq<Lexed>, left: ExprView, op: TokenView)
    requires
        is_operator(op.kind),
        well_formed(left),
        binds_at_least(left, operator_precedence(op.kind).rank()),
        parse_binary(ts, operator_precedence(op.kind), left, op).result is Ok,
    ensures
        ({
            let joined = parse_binary(ts, operator_precedence(op.kind), left, op);
            &&& well_formed(joined.result->Ok_0)
            &&& joined.result->Ok_0 matches ExprView::BinOp { op: top, .. } && top == op
            &&& next_precedence(joined.rest).rank() <= operator_precedence(op.kind).rank()
        }),
    decreases ts.len(), 0nat,
{
    let next = pull(ts);
    lemma_with_precedence_shape(next.rest, operator_precedence(op.kind), next.result->Ok_0);
}

/// Extending a well-formed expression by the rule of its operator gives a
/// well-formed operation, and stops before an operator that binds no
/// tighter.
pub proof fn lemma_infix_shape(ts: Seq<Lexed>, left: ExprView, op: TokenView)
    requires
        is_operator(op.kind),
        well_formed(left),
        binds_at_least(left, operator_precedence(op.kind).rank()),
        parse_infix(infix_rule(op.kind)->Some_0, ts, left, op).result is Ok,
    ensures
        ({
            let joined = parse_infix(infix_rule(op.kind)->Some_0, ts, left, op);
            &&& well_formed(joined.result->Ok_0)
            &&& joined.result->Ok_0 matches ExprView::BinOp { op: top, .. } && top == op
            &&& next_precedence(joined.rest).rank() <= operator_precedence(op.kind).rank()
        }),
    decreases ts.len(), 1nat,
{
    lemma_binary_shape(ts, left, op);
}

/// Climbing from a well-formed expression gives a well-formed expression,
/// and stops before an operator that binds no tighter than `min`.
pub proof fn lemma_climb_shape(ts: Seq<Lexed>, min: Precedence, left: ExprView)
    requires
        well_formed(left),
        binds_above(left, min.rank()),
        binds_at_least(left, next_precedence(ts).rank()),
        climb(ts, min, left).result is Ok,
    ensures
        well_formed(climb(ts, min, left).result->Ok_0),
        binds_above(climb(ts, min, left).result->Ok_0, min.rank()),
        next_precedence(climb(ts, min, left).rest).rank() <= min.rank(),
    decreases ts.len(), 2nat,
{
    if min.rank() < next_precedence(ts).rank() {
        let op = ts[0]->Ok_0;
        let rule = infix_rule(op.kind)->Some_0;
        let joined = parse_infix(rule, ts.drop_first(), left, op);
        lemma_infix_consumes(rule, ts.drop_first(), left, op);
        lemma_infix_shape(ts.drop_first(), left, op);
        lemma_climb_shape(joined.rest, min, joined.result->Ok_0);
    }
}

/// A group parsed behind a left parenthesis is well-formed.
pub proof fn lemma_group_shape(ts: Seq<Lexed>, open: TokenView)
    requires
        open.kind == TokenKind::LeftParen,
        parse_group(ts, open).result is Ok,
    ensures
        well_formed(parse_group(ts, open).result->Ok_0),
        parse_group(ts, open).result->Ok_0 is Group,
    decreases ts.len(), 3nat,
{
    let next = pull(ts);
    let token = next.result->Ok_0;
    if token.kind != TokenKind::RightParen {
        lemma_with_precedence_shape(next.rest, Precedence::Lowest, token);
    }
}

/// Adding parsed statements to a well-formed body gives a well-formed body.
pub proof fn lemma_items_shape(ts: Seq<Lexed>, close_kind: Option<TokenKind>, body: BlockView)
    requires
        body_well_formed(body),
        parse_items(ts, close_kind, body).result is Ok,
    ensures
        body_well_formed(parse_items(ts, close_kind, body).result->Ok_0.0),
    decreases ts.len(), 4nat,
{
    if ts.len() > 0 {
        let token = ts[0]->Ok_0;
        let tail = ts.drop_first();
        if close_kind != Some(token.kind) {
            let stmt = parse_stmt(tail, token);
            lemma_stmt_consumes(tail, token);
            lemma_stmt_shape(tail, token);
            let parsed = stmt.result->Ok_0;
            let next = match parsed {
                StmtView::Expr { expr, semicolon: None } => BlockView {
                    stmts: body.stmts,
                    expr: Some(Box::new(expr)),
                },
                _ => BlockView { stmts: body.stmts.push(parsed), expr: body.expr },
            };
            assert(body_well_formed(next)) by {
                assert forall|i: int| 0 <= i < next.stmts.len() implies stmt_well_formed(
                    #[trigger] next.stmts[i],
                ) && !(next.stmts[i] matches StmtView::Expr { semicolon: None, .. }) by {
                    if i < body.stmts.len() {
                        assert(next.stmts[i] == body.stmts[i]);
                    }
                }
            }
            lemma_items_shape(stmt.rest, close_kind, next);
        }
    }
}

/// A block parsed behind a left brace is well-formed.
pub proof fn lemma_block_shape(ts: Seq<Lexed>, open: TokenView)
    requires
        open.kind == TokenKind::LeftBrace,
        parse_block(ts, open).result is Ok,
    ensures
        well_formed(parse_block(ts, open).result->Ok_0),
        parse_block(ts, open).result->Ok_0 is Block,
    decreases ts.len(), 5nat,
{
    lemma_items_consume(ts, Some(TokenKind::RightBrace), empty_block());
    lemma_items_shape(ts, Some(TokenKind::RightBrace), empty_block());
}

/// What the rule that the registry gives for a token parses is well-formed,
/// and is no binary operation.
pub proof fn lemma_prefix_shape(ts: Seq<Lexed>, token: TokenView)
    requires
        prefix_rule(token.kind) is Some,
        parse_prefix(prefix_rule(token.kind)->Some_0, ts, token).result is Ok,
    ensures
        well_formed(parse_prefix(prefix_rule(token.kind)->Some_0, ts, token).result->Ok_0),
        !(parse_prefix(prefix_rule(token.kind)->Some_0, ts, token).result->Ok_0 is BinOp),
    decreases ts.len(), 6nat,
{
    match prefix_rule(token.kind)->Some_0 {
        PrefixParselet::Block(_) => lemma_block_shape(ts, token),
        PrefixParselet::Group(_) => lemma_group_shape(ts, token),
        PrefixParselet::Number(_) => {},
    }
}

/// Precedence and associativity. A parsed expression is well-formed: in
/// every binary operation in it the right operand binds tighter than the
/// operator and the left operand at least as tight. Its own operator, if
/// it is a binary operation, binds tighter than `min`, and the parse stops
/// before an operator that binds no tighter than `min`.
pub proof fn lemma_with_precedence_shape(ts: Seq<Lexed>, min: Precedence, token: TokenView)
    requires
        parse_with_precedence(ts, min, token).result is Ok,
    ensures
        well_formed(parse_with_precedence(ts, min, token).result->Ok_0),
        binds_above(parse_with_precedence(ts, min, token).result->Ok_0, min.rank()),
        next_precedence(parse_with_precedence(ts, min, token).rest).rank() <= min.rank(),
    decreases ts.len(), 7nat,
{
    let rule = prefix_rule(token.kind)->Some_0;
    let first = parse_prefix(rule, ts, token);
    lemma_prefix_consumes(rule, ts, token);
    lemma_prefix_shape(ts, token);
    lemma_climb_shape(first.rest, min, first.result->Ok_0);
}

/// A parsed whole expression is well-formed, and no operator follows it.
pub proof fn lemma_expr_shape(ts: Seq<Lexed>, token: TokenView)
    requires
        parse_expr(ts, token).result is Ok,
    ensures
        well_formed(parse_expr(ts, token).result->Ok_0),
        next_precedence(parse_expr(ts, token).rest) == Precedence::Lowest,
    decreases ts.len(), 8nat,
{
    lemma_with_precedence_shape(ts, Precedence::Lowest, token);
}

/// A parsed statement is well-formed.
pub proof fn lemma_stmt_shape(ts: Seq<Lexed>, token: TokenView)
    requires
        parse_stmt(ts, token).result is Ok,
    ensures
        stmt_well_formed(parse_stmt(ts, token).result->Ok_0),
    decreases ts.len(), 9nat,
{
    if token.kind != TokenKind::Semicolon {
        lemma_expr_shape(ts, token);
    }
}

/// A parsed body is well-formed: every statement in it ends in a semicolon,
/// and every expression in it is well-formed.
pub proof fn lemma_body_shape(ts: Seq<Lexed>, close_kind: Option<TokenKind>)
    requires
        parse_items(ts, close_kind, empty_block()).result is Ok,
    ensures
        body_well_formed(parse_items(ts, close_kind, empty_block()).result->Ok_0.0),
{
    lemma_items_shape(ts, close_kind, empty_block());
}

} // verus!
