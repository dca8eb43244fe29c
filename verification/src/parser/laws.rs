//! Laws of the parser.

use vstd::prelude::*;
use vstd::utf8::{encode_utf8, is_char_boundary};
use crate::lexer::laws::{
    in_order, lemma_in_order_rest, lemma_source_in_order, token_in_text,
};
use crate::lexer::model::{is_rest_of, lemma_rest_trans, scan_all, Lexed};
use crate::lexer::span::{Loc, Span};
use crate::lexer::token::{TokenKind, TokenView};
use crate::parser::ast::{lemma_span_bounds, stmts_tokens, BlockView, ExprView, StmtView};
use crate::parser::model::{
    climb, empty_block, next_precedence, parse_binary, parse_block, parse_expr, parse_expression,
    parse_group, parse_infix, parse_items, parse_prefix, parse_statement, parse_stmt,
    parse_with_precedence, pull,
};
use crate::parser::parselet::{infix_rule, prefix_rule, InfixParselet, PrefixParselet};
use crate::parser::Precedence;

verus! {

/// Reading one token leaves the others.
pub proof fn lemma_rest_pull(ts: Seq<Lexed>)
    ensures
        is_rest_of(pull(ts).rest, ts),
        is_rest_of(ts, ts),
        ts.len() > 0 ==> pull(ts).rest.len() < ts.len(),
{
    assert(ts =~= ts.skip(0));
    if ts.len() > 0 {
        assert(ts.drop_first() =~= ts.skip(1));
    }
}

/// Joining an operand to an operator reads tokens from the front only, and
/// at least one where it succeeds.
pub proof fn lemma_binary_consumes(
    ts: Seq<Lexed>,
    binding: Precedence,
    left: ExprView,
    op: TokenView,
)
    ensures
        is_rest_of(parse_binary(ts, binding, left, op).rest, ts),
        parse_binary(ts, binding, left, op).result is Ok ==> parse_binary(
            ts,
            binding,
            left,
            op,
        ).rest.len() < ts.len(),
    decreases ts.len(), 0nat,
{
    let next = pull(ts);
    lemma_rest_pull(ts);
    if let Ok(token) = next.result {
        lemma_with_precedence_consumes(next.rest, binding, token);
        lemma_rest_trans(parse_with_precedence(next.rest, binding, token).rest, next.rest, ts);
    }
}

/// Extending an expression at an operator reads tokens from the front only,
/// and at least one where it succeeds.
pub proof fn lemma_infix_consumes(
    rule: InfixParselet,
    ts: Seq<Lexed>,
    left: ExprView,
    op: TokenView,
)
    ensures
        is_rest_of(parse_infix(rule, ts, left, op).rest, ts),
        parse_infix(rule, ts, left, op).result is Ok ==> parse_infix(rule, ts, left, op).rest.len()
            < ts.len(),
    decreases ts.len(), 1nat,
{
    lemma_binary_consumes(ts, rule.binding(), left, op);
}

/// Climbing reads tokens from the front only.
pub proof fn lemma_climb_consumes(ts: Seq<Lexed>, min: Precedence, left: ExprView)
    ensures
        is_rest_of(climb(ts, min, left).rest, ts),
    decreases ts.len(), 2nat,
{
    lemma_rest_pull(ts);
    if min.rank() < next_precedence(ts).rank() {
        let op = ts[0]->Ok_0;
        let rule = infix_rule(op.kind)->Some_0;
        let joined = parse_infix(rule, ts.drop_first(), left, op);
        lemma_infix_consumes(rule, ts.drop_first(), left, op);
        lemma_rest_trans(joined.rest, ts.drop_first(), ts);
        if let Ok(expr) = joined.result {
            lemma_climb_consumes(joined.rest, min, expr);
            lemma_rest_trans(climb(joined.rest, min, expr).rest, joined.rest, ts);
        }
    }
}

/// Parsing a group reads tokens from the front only, and at least one where
/// it succeeds.
pub proof fn lemma_group_consumes(ts: Seq<Lexed>, open: TokenView)
    ensures
        is_rest_of(parse_group(ts, open).rest, ts),
        parse_group(ts, open).result is Ok ==> parse_group(ts, open).rest.len() < ts.len(),
    decreases ts.len(), 3nat,
{
    let next = pull(ts);
    lemma_rest_pull(ts);
    if let Ok(token) = next.result {
        if token.kind != TokenKind::RightParen {
            let inner = parse_with_precedence(next.rest, Precedence::Lowest, token);
            lemma_with_precedence_consumes(next.rest, Precedence::Lowest, token);
            lemma_rest_trans(inner.rest, next.rest, ts);
            if inner.result is Ok {
                lemma_rest_pull(inner.rest);
                lemma_rest_trans(pull(inner.rest).rest, inner.rest, ts);
            }
        }
    }
}

/// Parsing the statements of a block reads tokens from the front only.
/// Where a closing token was asked for and the parse succeeds, that token
/// has been read and is returned.
pub proof fn lemma_items_consume(ts: Seq<Lexed>, close_kind: Option<TokenKind>, body: BlockView)
    ensures
        is_rest_of(parse_items(ts, close_kind, body).rest, ts),
        parse_items(ts, close_kind, body).result is Ok && close_kind is Some ==> {
            &&& parse_items(ts, close_kind, body).rest.len() < ts.len()
            &&& parse_items(ts, close_kind, body).result->Ok_0.1 is Some
            &&& parse_items(ts, close_kind, body).result->Ok_0.1->Some_0.kind == close_kind->Some_0
        },
        parse_items(ts, close_kind, body).result is Ok && close_kind is None ==> {
            &&& parse_items(ts, close_kind, body).rest.len() == 0
            &&& parse_items(ts, close_kind, body).result->Ok_0.1 is None
        },
    decreases ts.len(), 4nat,
{
    lemma_rest_pull(ts);
    if ts.len() > 0 {
        if let Ok(token) = ts[0] {
            if close_kind != Some(token.kind) {
                let stmt = parse_stmt(ts.drop_first(), token);
                lemma_stmt_consumes(ts.drop_first(), token);
                lemma_rest_trans(stmt.rest, ts.drop_first(), ts);
                match stmt.result {
                    Err(_) => {},
                    Ok(StmtView::Expr { expr, semicolon: None }) => {
                        if stmt.rest.len() > 0 && stmt.rest[0] is Ok && Some(
                            stmt.rest[0]->Ok_0.kind,
                        ) != close_kind {
                            lemma_rest_pull(stmt.rest);
                            lemma_rest_trans(stmt.rest.drop_first(), stmt.rest, ts);
                        } else {
                            let next = BlockView { stmts: body.stmts, expr: Some(Box::new(expr)) };
                            lemma_items_consume(stmt.rest, close_kind, next);
                            lemma_rest_trans(
                                parse_items(stmt.rest, close_kind, next).rest,
                                stmt.rest,
                                ts,
                            );
                        }
                    },
                    Ok(with_semicolon) => {
                        let next = BlockView {
                            stmts: body.stmts.push(with_semicolon),
                            expr: body.expr,
                        };
                        lemma_items_consume(stmt.rest, close_kind, next);
                        lemma_rest_trans(
                            parse_items(stmt.rest, close_kind, next).rest,
                            stmt.rest,
                            ts,
                        );
                    },
                }
            }
        }
    }
}

/// Parsing a block reads tokens from the front only, and at least one where
/// it succeeds.
pub proof fn lemma_block_consumes(ts: Seq<Lexed>, open: TokenView)
    ensures
        is_rest_of(parse_block(ts, open).rest, ts),
        parse_block(ts, open).result is Ok ==> parse_block(ts, open).rest.len() < ts.len(),
    decreases ts.len(), 5nat,
{
    lemma_items_consume(ts, Some(TokenKind::RightBrace), empty_block());
}

/// A prefix rule reads tokens from the front only.
pub proof fn lemma_prefix_consumes(rule: PrefixParselet, ts: Seq<Lexed>, token: TokenView)
    ensures
        is_rest_of(parse_prefix(rule, ts, token).rest, ts),
    decreases ts.len(), 6nat,
{
    lemma_rest_pull(ts);
    match rule {
        PrefixParselet::Block(_) => lemma_block_consumes(ts, token),
        PrefixParselet::Group(_) => lemma_group_consumes(ts, token),
        PrefixParselet::Number(_) => {},
    }
}

/// Parsing an expression reads tokens from the front only.
pub proof fn lemma_with_precedence_consumes(ts: Seq<Lexed>, min: Precedence, token: TokenView)
    ensures
        is_rest_of(parse_with_precedence(ts, min, token).rest, ts),
    decreases ts.len(), 7nat,
{
    lemma_rest_pull(ts);
    if let Some(rule) = prefix_rule(token.kind) {
        let first = parse_prefix(rule, ts, token);
        lemma_prefix_consumes(rule, ts, token);
        if let Ok(left) = first.result {
            lemma_climb_consumes(first.rest, min, left);
            lemma_rest_trans(climb(first.rest, min, left).rest, first.rest, ts);
        }
    }
}

/// Parsing a whole expression reads tokens from the front only.
pub proof fn lemma_expr_consumes(ts: Seq<Lexed>, token: TokenView)
    ensures
        is_rest_of(parse_expr(ts, token).rest, ts),
    decreases ts.len(), 8nat,
{
    lemma_with_precedence_consumes(ts, Precedence::Lowest, token);
}

/// Parsing a statement reads tokens from the front only.
pub proof fn lemma_stmt_consumes(ts: Seq<Lexed>, token: TokenView)
    ensures
        is_rest_of(parse_stmt(ts, token).rest, ts),
    decreases ts.len(), 9nat,
{
    lemma_rest_pull(ts);
    if token.kind != TokenKind::Semicolon {
        let parsed = parse_expr(ts, token);
        lemma_expr_consumes(ts, token);
        if parsed.result is Ok && parsed.rest.len() > 0 {
            lemma_rest_pull(parsed.rest);
            lemma_rest_trans(parsed.rest.drop_first(), parsed.rest, ts);
        }
    }
}

/// The tokens `tokens` as the tokenizer yields them.
pub open spec fn yielded(tokens: Seq<TokenView>) -> Seq<Lexed> {
    tokens.map_values(|token: TokenView| Lexed::Ok(token))
}

/// The closing token `close`, if there is one, as the tokenizer yields it.
pub open spec fn yielded_close(close: Option<TokenView>) -> Seq<Lexed> {
    match close {
        Some(close) => seq![Lexed::Ok(close)],
        None => Seq::empty(),
    }
}

/// Whether a body to which statements are being added can take more: it
/// has no value yet, or no statement follows.
pub open spec fn can_extend(ts: Seq<Lexed>, close_kind: Option<TokenKind>, body: BlockView) -> bool {
    body.expr is Some ==> ts.len() == 0 || ts[0] is Err || close_kind == Some(ts[0]->Ok_0.kind)
}

/// Yielding two runs of tokens one after the other is yielding them joined.
pub proof fn lemma_yielded_concat(a: Seq<TokenView>, b: Seq<TokenView>)
    ensures
        yielded(a + b) == yielded(a) + yielded(b),
{
    assert(yielded(a + b) =~= yielded(a) + yielded(b));
}

/// Joining an operand to an operator reads exactly the tokens of the
/// operand.
pub proof fn lemma_binary_reads(ts: Seq<Lexed>, binding: Precedence, left: ExprView, op: TokenView)
    requires
        parse_binary(ts, binding, left, op).result is Ok,
    ensures
        yielded(left.tokens() + seq![op]) + ts == yielded(
            parse_binary(ts, binding, left, op).result->Ok_0.tokens(),
        ) + parse_binary(ts, binding, left, op).rest,
    decreases ts.len(), 0nat,
{
    let next = pull(ts);
    let token = next.result->Ok_0;
    let right = parse_with_precedence(next.rest, binding, token);
    lemma_with_precedence_reads(next.rest, binding, token);
    let operand = right.result->Ok_0;
    lemma_yielded_concat(left.tokens() + seq![op], operand.tokens());
    assert(ts =~= seq![Lexed::Ok(token)] + next.rest);
    assert(yielded(left.tokens() + seq![op]) + ts =~= yielded(left.tokens() + seq![op]) + (
    seq![Lexed::Ok(token)] + next.rest));
    assert(yielded(left.tokens() + seq![op]) + (yielded(operand.tokens()) + right.rest) =~= (
    yielded(left.tokens() + seq![op]) + yielded(operand.tokens())) + right.rest);
}

/// Extending an expression at an operator reads exactly the tokens that
/// the extension adds.
pub proof fn lemma_infix_reads(rule: InfixParselet, ts: Seq<Lexed>, left: ExprView, op: TokenView)
    requires
        parse_infix(rule, ts, left, op).result is Ok,
    ensures
        yielded(left.tokens() + seq![op]) + ts == yielded(
            parse_infix(rule, ts, left, op).result->Ok_0.tokens(),
        ) + parse_infix(rule, ts, left, op).rest,
    decreases ts.len(), 1nat,
{
    lemma_binary_reads(ts, rule.binding(), left, op);
}

/// Climbing reads exactly the tokens that it adds to the expression.
pub proof fn lemma_climb_reads(ts: Seq<Lexed>, min: Precedence, left: ExprView)
    requires
        climb(ts, min, left).result is Ok,
    ensures
        yielded(left.tokens()) + ts == yielded(climb(ts, min, left).result->Ok_0.tokens()) + climb(
            ts,
            min,
            left,
        ).rest,
    decreases ts.len(), 2nat,
{
    if min.rank() < next_precedence(ts).rank() {
        let op = ts[0]->Ok_0;
        let rule = infix_rule(op.kind)->Some_0;
        let tail = ts.drop_first();
        let joined = parse_infix(rule, tail, left, op);
        lemma_infix_consumes(rule, tail, left, op);
        lemma_infix_reads(rule, tail, left, op);
        let expr = joined.result->Ok_0;
        lemma_climb_reads(joined.rest, min, expr);
        lemma_yielded_concat(left.tokens(), seq![op]);
        assert(yielded(seq![op]) =~= seq![Lexed::Ok(op)]);
        assert(ts =~= seq![Lexed::Ok(op)] + tail);
        assert(yielded(left.tokens()) + ts =~= (yielded(left.tokens()) + seq![Lexed::Ok(op)])
            + tail);
    }
}

/// Parsing a group reads exactly the tokens of the group behind its opening
/// parenthesis.
pub proof fn lemma_group_reads(ts: Seq<Lexed>, open: TokenView)
    requires
        parse_group(ts, open).result is Ok,
    ensures
        seq![Lexed::Ok(open)] + ts == yielded(parse_group(ts, open).result->Ok_0.tokens())
            + parse_group(ts, open).rest,
    decreases ts.len(), 3nat,
{
    let next = pull(ts);
    let token = next.result->Ok_0;
    assert(ts =~= seq![Lexed::Ok(token)] + next.rest);
    if token.kind == TokenKind::RightParen {
        assert(yielded(seq![open, token]) =~= seq![Lexed::Ok(open), Lexed::Ok(token)]);
        assert(seq![Lexed::Ok(open)] + ts =~= seq![Lexed::Ok(open), Lexed::Ok(token)]
            + next.rest);
    } else {
        let inner = parse_with_precedence(next.rest, Precedence::Lowest, token);
        lemma_with_precedence_reads(next.rest, Precedence::Lowest, token);
        let expr = inner.result->Ok_0;
        let last = pull(inner.rest);
        let close = last.result->Ok_0;
        assert(inner.rest =~= seq![Lexed::Ok(close)] + last.rest);
        lemma_yielded_concat(seq![open] + expr.tokens(), seq![close]);
        lemma_yielded_concat(seq![open], expr.tokens());
        assert(yielded(seq![open]) =~= seq![Lexed::Ok(open)]);
        assert(yielded(seq![close]) =~= seq![Lexed::Ok(close)]);
        assert(seq![Lexed::Ok(open)] + ts =~= seq![Lexed::Ok(open)] + (yielded(expr.tokens()) + (
        seq![Lexed::Ok(close)] + last.rest)));
        assert(seq![Lexed::Ok(open)] + (yielded(expr.tokens()) + (seq![Lexed::Ok(close)]
            + last.rest)) =~= ((seq![Lexed::Ok(open)] + yielded(expr.tokens())) + seq![
            Lexed::Ok(close),
        ]) + last.rest);
    }
}

/// Parsing the statements of a block reads exactly the tokens that it adds
/// to the body, and the closing token.
pub proof fn lemma_items_read(ts: Seq<Lexed>, close_kind: Option<TokenKind>, body: BlockView)
    requires
        parse_items(ts, close_kind, body).result is Ok,
        can_extend(ts, close_kind, body),
    ensures
        yielded(body.tokens()) + ts == yielded(
            parse_items(ts, close_kind, body).result->Ok_0.0.tokens(),
        ) + yielded_close(parse_items(ts, close_kind, body).result->Ok_0.1) + parse_items(
            ts,
            close_kind,
            body,
        ).rest,
    decreases ts.len(), 4nat,
{
    let out = parse_items(ts, close_kind, body);
    if ts.len() == 0 {
        assert(yielded(body.tokens()) + ts =~= yielded(body.tokens()) + Seq::<Lexed>::empty()
            + ts);
    } else {
        let token = ts[0]->Ok_0;
        let tail = ts.drop_first();
        assert(ts =~= seq![Lexed::Ok(token)] + tail);
        if close_kind == Some(token.kind) {
            assert(yielded(body.tokens()) + ts =~= yielded(body.tokens()) + seq![
                Lexed::Ok(token),
            ] + tail);
        } else {
            let stmt = parse_stmt(tail, token);
            lemma_stmt_consumes(tail, token);
            lemma_stmt_reads(tail, token);
            let parsed = stmt.result->Ok_0;
            assert(body.expr is None);
            let next = match parsed {
                StmtView::Expr { expr, semicolon: None } => BlockView {
                    stmts: body.stmts,
                    expr: Some(Box::new(expr)),
                },
                _ => BlockView { stmts: body.stmts.push(parsed), expr: body.expr },
            };
            assert(out == parse_items(stmt.rest, close_kind, next));
            lemma_items_read(stmt.rest, close_kind, next);
            assert(next.tokens() =~= body.tokens() + parsed.tokens()) by {
                if !(parsed matches StmtView::Expr { semicolon: None, .. }) {
                    assert(next.stmts.drop_last() =~= body.stmts);
                }
            }
            lemma_yielded_concat(body.tokens(), parsed.tokens());
            assert(yielded(body.tokens()) + ts =~= yielded(body.tokens()) + (seq![
                Lexed::Ok(token),
            ] + tail));
            assert(yielded(body.tokens()) + (yielded(parsed.tokens()) + stmt.rest) =~= (yielded(
                body.tokens(),
            ) + yielded(parsed.tokens())) + stmt.rest);
        }
    }
}

/// Parsing a block reads exactly the tokens of the block behind its opening
/// brace.
pub proof fn lemma_block_reads(ts: Seq<Lexed>, open: TokenView)
    requires
        parse_block(ts, open).result is Ok,
    ensures
        seq![Lexed::Ok(open)] + ts == yielded(parse_block(ts, open).result->Ok_0.tokens())
            + parse_block(ts, open).rest,
    decreases ts.len(), 5nat,
{
    let body = parse_items(ts, Some(TokenKind::RightBrace), empty_block());
    lemma_items_read(ts, Some(TokenKind::RightBrace), empty_block());
    let inner = body.result->Ok_0.0;
    let close = body.result->Ok_0.1->Some_0;
    assert(empty_block().tokens() =~= Seq::<TokenView>::empty());
    assert(yielded(empty_block().tokens()) + ts =~= ts);
    lemma_yielded_concat(seq![open] + inner.tokens(), seq![close]);
    lemma_yielded_concat(seq![open], inner.tokens());
    assert(yielded(seq![open]) =~= seq![Lexed::Ok(open)]);
    assert(yielded(seq![close]) =~= seq![Lexed::Ok(close)]);
    assert(seq![Lexed::Ok(open)] + ts =~= seq![Lexed::Ok(open)] + (yielded(inner.tokens())
        + seq![Lexed::Ok(close)] + body.rest));
    assert(seq![Lexed::Ok(open)] + (yielded(inner.tokens()) + seq![Lexed::Ok(close)] + body.rest)
        =~= ((seq![Lexed::Ok(open)] + yielded(inner.tokens())) + seq![Lexed::Ok(close)])
        + body.rest);
}

/// A prefix rule reads exactly the tokens of its expression behind the
/// first.
pub proof fn lemma_prefix_reads(rule: PrefixParselet, ts: Seq<Lexed>, token: TokenView)
    requires
        parse_prefix(rule, ts, token).result is Ok,
    ensures
        seq![Lexed::Ok(token)] + ts == yielded(
            parse_prefix(rule, ts, token).result->Ok_0.tokens(),
        ) + parse_prefix(rule, ts, token).rest,
    decreases ts.len(), 6nat,
{
    match rule {
        PrefixParselet::Block(_) => lemma_block_reads(ts, token),
        PrefixParselet::Group(_) => lemma_group_reads(ts, token),
        PrefixParselet::Number(_) => {
            assert(yielded(seq![token]) =~= seq![Lexed::Ok(token)]);
        },
    }
}

/// Parsing an expression reads exactly the tokens of the expression: the
/// tokens at hand, with the first one put back, are those of the expression
/// followed by those that are left.
pub proof fn lemma_with_precedence_reads(ts: Seq<Lexed>, min: Precedence, token: TokenView)
    requires
        parse_with_precedence(ts, min, token).result is Ok,
    ensures
        seq![Lexed::Ok(token)] + ts == yielded(
            parse_with_precedence(ts, min, token).result->Ok_0.tokens(),
        ) + parse_with_precedence(ts, min, token).rest,
    decreases ts.len(), 7nat,
{
    let rule = prefix_rule(token.kind)->Some_0;
    let first = parse_prefix(rule, ts, token);
    lemma_prefix_consumes(rule, ts, token);
    lemma_prefix_reads(rule, ts, token);
    lemma_climb_reads(first.rest, min, first.result->Ok_0);
}

/// Parsing a whole expression reads exactly the tokens of the expression.
pub proof fn lemma_expr_reads(ts: Seq<Lexed>, token: TokenView)
    requires
        parse_expr(ts, token).result is Ok,
    ensures
        seq![Lexed::Ok(token)] + ts == yielded(parse_expr(ts, token).result->Ok_0.tokens())
            + parse_expr(ts, token).rest,
    decreases ts.len(), 8nat,
{
    lemma_with_precedence_reads(ts, Precedence::Lowest, token);
}

/// Parsing a statement reads exactly the tokens of the statement.
pub proof fn lemma_stmt_reads(ts: Seq<Lexed>, token: TokenView)
    requires
        parse_stmt(ts, token).result is Ok,
    ensures
        seq![Lexed::Ok(token)] + ts == yielded(parse_stmt(ts, token).result->Ok_0.tokens())
            + parse_stmt(ts, token).rest,
    decreases ts.len(), 9nat,
{
    if token.kind == TokenKind::Semicolon {
        assert(yielded(seq![token]) =~= seq![Lexed::Ok(token)]);
    } else {
        let parsed = parse_expr(ts, token);
        lemma_expr_reads(ts, token);
        let expr = parsed.result->Ok_0;
        let rest = parsed.rest;
        if rest.len() > 0 && rest[0] is Ok && rest[0]->Ok_0.kind == TokenKind::Semicolon {
            let semicolon = rest[0]->Ok_0;
            lemma_yielded_concat(expr.tokens(), seq![semicolon]);
            assert(yielded(seq![semicolon]) =~= seq![Lexed::Ok(semicolon)]);
            assert(rest =~= seq![Lexed::Ok(semicolon)] + rest.drop_first());
            assert(yielded(expr.tokens()) + (seq![Lexed::Ok(semicolon)] + rest.drop_first()) =~= (
            yielded(expr.tokens()) + seq![Lexed::Ok(semicolon)]) + rest.drop_first());
        }
    }
}

/// Whether the tokens `tokens` lie one after the other in the text with the
/// bytes `bytes`, each with its lexeme at the byte offsets of its span.
pub open spec fn run_in_text(bytes: Seq<u8>, tokens: Seq<TokenView>) -> bool {
    &&& forall|k: int| 0 <= k < tokens.len() ==> token_in_text(bytes, #[trigger] tokens[k])
    &&& forall|k: int, l: int|
        0 <= k < l < tokens.len() ==> (#[trigger] tokens[k]).span.end.byte_offset <= (
        #[trigger] tokens[l]).span.start.byte_offset
}

/// Whether `span` covers the tokens `tokens` and no more: it starts where
/// the first starts, ends where the last ends, holds every one of them
/// between these two places, and lies in the text with the bytes `bytes`,
/// where it starts and ends at character boundaries.
pub open spec fn span_covers(bytes: Seq<u8>, span: Span, tokens: Seq<TokenView>) -> bool {
    &&& tokens.len() > 0
    &&& span.start == tokens.first().span.start
    &&& span.end == tokens.last().span.end
    &&& span.start.byte_offset < span.end.byte_offset <= bytes.len()
    &&& is_char_boundary(bytes, span.start.byte_offset as int)
    &&& is_char_boundary(bytes, span.end.byte_offset as int)
    &&& forall|k: int|
        0 <= k < tokens.len() ==> span.start.byte_offset <= (
        #[trigger] tokens[k]).span.start.byte_offset && tokens[k].span.end.byte_offset
            <= span.end.byte_offset
}

/// Whether the span of `expr`, and of every expression inside it, covers
/// the tokens of that expression.
pub open spec fn spans_cover(bytes: Seq<u8>, expr: ExprView) -> bool
    decreases expr,
{
    &&& span_covers(bytes, expr.span(), expr.tokens())
    &&& match expr {
        ExprView::BinOp { left, right, .. } => spans_cover(bytes, *left) && spans_cover(
            bytes,
            *right,
        ),
        ExprView::Block { inner, .. } => body_spans_cover(bytes, inner),
        ExprView::Group { expr: Some(inner), .. } => spans_cover(bytes, *inner),
        _ => true,
    }
}

/// Whether the span of every expression in `stmt` covers the tokens of that
/// expression.
pub open spec fn stmt_spans_cover(bytes: Seq<u8>, stmt: StmtView) -> bool
    decreases stmt,
{
    match stmt {
        StmtView::Expr { expr, .. } => spans_cover(bytes, expr),
        StmtView::Empty { .. } => true,
    }
}

/// Whether the span of every expression in `body` covers the tokens of that
/// expression.
pub open spec fn body_spans_cover(bytes: Seq<u8>, body: BlockView) -> bool
    decreases body,
{
    &&& forall|i: int|
        0 <= i < body.stmts.len() ==> stmt_spans_cover(bytes, #[trigger] body.stmts[i])
    &&& match body.expr {
        Some(expr) => spans_cover(bytes, *expr),
        None => true,
    }
}

/// A part of a run of tokens that lie in a text in order lies in it in
/// order.
pub proof fn lemma_run_part(
    bytes: Seq<u8>,
    before: Seq<TokenView>,
    part: Seq<TokenView>,
    after: Seq<TokenView>,
)
    requires
        run_in_text(bytes, before + part + after),
    ensures
        run_in_text(bytes, part),
{
    let all = before + part + after;
    assert forall|k: int| 0 <= k < part.len() implies token_in_text(bytes, #[trigger] part[k]) by {
        assert(all[before.len() + k] == part[k]);
    }
    assert forall|k: int, l: int| 0 <= k < l < part.len() implies (
    #[trigger] part[k]).span.end.byte_offset <= (#[trigger] part[l]).span.start.byte_offset by {
        assert(all[before.len() + k] == part[k]);
        assert(all[before.len() + l] == part[l]);
    }
}

/// A span that runs from the first to the last of a run of tokens that lie
/// in a text in order covers them.
pub proof fn lemma_run_covered(bytes: Seq<u8>, span: Span, tokens: Seq<TokenView>)
    requires
        run_in_text(bytes, tokens),
        tokens.len() > 0,
        span.start == tokens.first().span.start,
        span.end == tokens.last().span.end,
    ensures
        span_covers(bytes, span, tokens),
{
    let last = tokens.len() - 1;
    assert(token_in_text(bytes, tokens[0]));
    assert(token_in_text(bytes, tokens[last]));
    assert forall|k: int| 0 <= k < tokens.len() implies span.start.byte_offset <= (
    #[trigger] tokens[k]).span.start.byte_offset && tokens[k].span.end.byte_offset
        <= span.end.byte_offset by {
        assert(token_in_text(bytes, tokens[k]));
        if 0 < k {
            assert(tokens[0].span.end.byte_offset <= tokens[k].span.start.byte_offset);
        }
        if k < last {
            assert(tokens[k].span.end.byte_offset <= tokens[last].span.start.byte_offset);
        }
    }
    if 0 < last {
        assert(tokens[0].span.end.byte_offset <= tokens[last].span.start.byte_offset);
    }
}

/// Where the tokens of statements lie in a text in order, the span of every
/// expression in them covers the tokens of that expression.
pub proof fn lemma_stmts_spans_cover(bytes: Seq<u8>, stmts: Seq<StmtView>)
    requires
        run_in_text(bytes, stmts_tokens(stmts)),
    ensures
        forall|i: int| 0 <= i < stmts.len() ==> stmt_spans_cover(bytes, #[trigger] stmts[i]),
    decreases stmts,
{
    if stmts.len() > 0 {
        let front = stmts.drop_last();
        let last = stmts.last();
        let none = Seq::<TokenView>::empty();
        assert(stmts_tokens(stmts) =~= stmts_tokens(front) + last.tokens() + none);
        lemma_run_part(bytes, stmts_tokens(front), last.tokens(), none);
        assert(stmts_tokens(stmts) =~= none + stmts_tokens(front) + last.tokens());
        lemma_run_part(bytes, none, stmts_tokens(front), last.tokens());
        lemma_stmts_spans_cover(bytes, front);
        match last {
            StmtView::Expr { expr, semicolon } => {
                match semicolon {
                    Some(semicolon) => {
                        assert(last.tokens() =~= none + expr.tokens() + seq![semicolon]);
                        lemma_run_part(bytes, none, expr.tokens(), seq![semicolon]);
                    },
                    None => {},
                }
                lemma_spans_cover(bytes, expr);
            },
            StmtView::Empty { .. } => {},
        }
        assert forall|i: int| 0 <= i < stmts.len() implies stmt_spans_cover(
            bytes,
            #[trigger] stmts[i],
        ) by {
            if i < stmts.len() - 1 {
                assert(stmts[i] == front[i]);
            }
        }
    }
}

/// Where the tokens of a body lie in a text in order, the span of every
/// expression in it covers the tokens of that expression.
pub proof fn lemma_body_spans_cover(bytes: Seq<u8>, body: BlockView)
    requires
        run_in_text(bytes, body.tokens()),
    ensures
        body_spans_cover(bytes, body),
    decreases body,
{
    let none = Seq::<TokenView>::empty();
    match body.expr {
        Some(expr) => {
            assert(body.tokens() =~= none + stmts_tokens(body.stmts) + expr.tokens());
            lemma_run_part(bytes, none, stmts_tokens(body.stmts), expr.tokens());
            assert(body.tokens() =~= stmts_tokens(body.stmts) + expr.tokens() + none);
            lemma_run_part(bytes, stmts_tokens(body.stmts), expr.tokens(), none);
            lemma_spans_cover(bytes, *expr);
        },
        None => {},
    }
    lemma_stmts_spans_cover(bytes, body.stmts);
}

/// Where the tokens of an expression lie in a text in order, the span of
/// the expression and of every expression inside it covers the tokens of
/// that expression.
pub proof fn lemma_spans_cover(bytes: Seq<u8>, expr: ExprView)
    requires
        run_in_text(bytes, expr.tokens()),
    ensures
        spans_cover(bytes, expr),
    decreases expr,
{
    let none = Seq::<TokenView>::empty();
    lemma_span_bounds(expr);
    lemma_run_covered(bytes, expr.span(), expr.tokens());
    match expr {
        ExprView::BinOp { left, op, right } => {
            assert(expr.tokens() =~= none + left.tokens() + (seq![op] + right.tokens()));
            lemma_run_part(bytes, none, left.tokens(), seq![op] + right.tokens());
            assert(expr.tokens() =~= (left.tokens() + seq![op]) + right.tokens() + none);
            lemma_run_part(bytes, left.tokens() + seq![op], right.tokens(), none);
            lemma_spans_cover(bytes, *left);
            lemma_spans_cover(bytes, *right);
        },
        ExprView::Block { open, inner, close } => {
            lemma_run_part(bytes, seq![open], inner.tokens(), seq![close]);
            lemma_body_spans_cover(bytes, inner);
        },
        ExprView::Group { open, expr: Some(inner), close } => {
            lemma_run_part(bytes, seq![open], inner.tokens(), seq![close]);
            lemma_spans_cover(bytes, *inner);
        },
        _ => {},
    }
}

/// The first tokens of a sequence that lies in a text in order, when they
/// are all tokens, lie in it in order.
pub proof fn lemma_yielded_run(bytes: Seq<u8>, tokens: Seq<TokenView>, rest: Seq<Lexed>, from: int)
    requires
        in_order(bytes, yielded(tokens) + rest, from),
    ensures
        run_in_text(bytes, tokens),
        forall|k: int| 0 <= k < tokens.len() ==> from <= (#[trigger] tokens[k]).span.start.byte_offset,
    decreases tokens.len(),
{
    if tokens.len() > 0 {
        let all = yielded(tokens) + rest;
        let first = tokens[0];
        let tail = tokens.drop_first();
        assert(all[0] == Lexed::Ok(first));
        assert(all.drop_first() =~= yielded(tail) + rest);
        lemma_yielded_run(bytes, tail, rest, first.span.end.byte_offset as int);
        assert forall|k: int| 0 <= k < tokens.len() implies token_in_text(
            bytes,
            #[trigger] tokens[k],
        ) && from <= tokens[k].span.start.byte_offset by {
            if k > 0 {
                assert(tokens[k] == tail[k - 1]);
            }
        }
        assert forall|k: int, l: int| 0 <= k < l < tokens.len() implies (
        #[trigger] tokens[k]).span.end.byte_offset <= (
        #[trigger] tokens[l]).span.start.byte_offset by {
            assert(tokens[l] == tail[l - 1]);
            assert(token_in_text(bytes, tail[l - 1]));
            if k > 0 {
                assert(tokens[k] == tail[k - 1]);
            }
        }
    }
}

/// Spans cover what was read. An expression parsed from the tokens of
/// `source` has a span that runs from the start of its first token to the
/// end of its last. Between the byte offsets of that span the text holds
/// every token of the expression, each with its lexeme at the offsets of
/// its own span. The same holds of every expression inside it.
pub proof fn lemma_expr_spans_cover_source(
    source: Seq<char>,
    ts: Seq<Lexed>,
    min: Precedence,
    token: TokenView,
)
    requires
        encode_utf8(source).len() <= usize::MAX,
        is_rest_of(seq![Lexed::Ok(token)] + ts, scan_all(source, Loc::origin())),
        parse_with_precedence(ts, min, token).result is Ok,
    ensures
        spans_cover(encode_utf8(source), parse_with_precedence(ts, min, token).result->Ok_0),
{
    let bytes = encode_utf8(source);
    let parsed = parse_with_precedence(ts, min, token);
    let expr = parsed.result->Ok_0;
    lemma_source_in_order(source);
    lemma_in_order_rest(bytes, scan_all(source, Loc::origin()), seq![Lexed::Ok(token)] + ts, 0);
    lemma_with_precedence_reads(ts, min, token);
    lemma_yielded_run(bytes, expr.tokens(), parsed.rest, 0);
    lemma_spans_cover(bytes, expr);
}

/// Spans cover what was read, for an expression parsed from its first token
/// on: its span, and that of every expression inside it, covers the tokens
/// of that expression in the text.
pub proof fn lemma_expression_spans_cover_source(
    source: Seq<char>,
    ts: Seq<Lexed>,
    min: Precedence,
)
    requires
        encode_utf8(source).len() <= usize::MAX,
        is_rest_of(ts, scan_all(source, Loc::origin())),
        parse_expression(ts, min).result is Ok,
    ensures
        spans_cover(encode_utf8(source), parse_expression(ts, min).result->Ok_0),
{
    let first = pull(ts);
    assert(ts =~= seq![Lexed::Ok(first.result->Ok_0)] + first.rest);
    lemma_expr_spans_cover_source(source, first.rest, min, first.result->Ok_0);
}

/// Spans cover what was read, for a statement parsed from its first token
/// on: the span of every expression in it covers the tokens of that
/// expression in the text.
pub proof fn lemma_statement_spans_cover_source(source: Seq<char>, ts: Seq<Lexed>)
    requires
        encode_utf8(source).len() <= usize::MAX,
        is_rest_of(ts, scan_all(source, Loc::origin())),
        parse_statement(ts).result is Ok,
    ensures
        stmt_spans_cover(encode_utf8(source), parse_statement(ts).result->Ok_0),
{
    let first = pull(ts);
    let token = first.result->Ok_0;
    assert(ts =~= seq![Lexed::Ok(token)] + first.rest);
    if token.kind != TokenKind::Semicolon {
        lemma_expr_spans_cover_source(source, first.rest, Precedence::Lowest, token);
    }
}

/// Spans cover what was read, in the body of a block: every expression in a
/// body parsed from the tokens of `source` has a span that covers the
/// tokens of that expression.
pub proof fn lemma_body_spans_cover_source(
    source: Seq<char>,
    ts: Seq<Lexed>,
    close_kind: Option<TokenKind>,
)
    requires
        encode_utf8(source).len() <= usize::MAX,
        is_rest_of(ts, scan_all(source, Loc::origin())),
        parse_items(ts, close_kind, empty_block()).result is Ok,
    ensures
        body_spans_cover(
            encode_utf8(source),
            parse_items(ts, close_kind, empty_block()).result->Ok_0.0,
        ),
{
    let bytes = encode_utf8(source);
    let parsed = parse_items(ts, close_kind, empty_block());
    let body = parsed.result->Ok_0.0;
    lemma_source_in_order(source);
    lemma_in_order_rest(bytes, scan_all(source, Loc::origin()), ts, 0);
    lemma_items_read(ts, close_kind, empty_block());
    assert(empty_block().tokens() =~= Seq::<TokenView>::empty());
    assert(yielded(empty_block().tokens()) + ts =~= ts);
    assert(ts =~= yielded(body.tokens()) + (yielded_close(parsed.result->Ok_0.1) + parsed.rest));
    lemma_yielded_run(bytes, body.tokens(), yielded_close(parsed.result->Ok_0.1) + parsed.rest, 0);
    lemma_body_spans_cover(bytes, body);
}

} // verus!
