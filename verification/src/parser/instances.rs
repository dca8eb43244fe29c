//! The rules of the grammar on the shortest texts that show them, for
//! whatever literals and operators stand in them.

use vstd::prelude::*;
use crate::lexer::model::Lexed;
use crate::lexer::token::{TokenKind, TokenView};
use crate::parser::ast::{BlockView, ExprView, StmtView};
use crate::parser::model::{
    climb, done, empty_block, next_precedence, parse_binary, parse_block, parse_expr,
    parse_group, parse_infix, parse_items, parse_prefix, parse_stmt, parse_with_precedence,
};
use crate::parser::parselet::{infix_rule, is_operator, operator_precedence, prefix_rule};
use crate::parser::Precedence;
use crate::Error;

verus! {

/// The operation that joins `left` and `right` at `op`.
pub open spec fn binary(left: ExprView, op: TokenView, right: ExprView) -> ExprView {
    ExprView::BinOp { left: Box::new(left), op, right: Box::new(right) }
}

/// A literal alone is parsed as itself, up to whatever follows that is no
/// operator binding tighter than `min`.
pub proof fn lemma_literal_alone(ts: Seq<Lexed>, min: Precedence, a: TokenView)
    requires
        a.kind == TokenKind::Number,
        next_precedence(ts).rank() <= min.rank(),
    ensures
        parse_with_precedence(ts, min, a) == done(ExprView::Number(a), ts),
{
}

/// Three literals joined by two operators. Where the second operator binds
/// tighter than the first, it takes the middle literal: `1 + 2 * 3` is
/// `1 + (2 * 3)`. Where it does not, the first one takes it: `3 - 2 - 1` is
/// `(3 - 2) - 1`.
pub proof fn lemma_two_operators(
    a: TokenView,
    op1: TokenView,
    b: TokenView,
    op2: TokenView,
    c: TokenView,
)
    requires
        a.kind == TokenKind::Number,
        b.kind == TokenKind::Number,
        c.kind == TokenKind::Number,
        is_operator(op1.kind),
        is_operator(op2.kind),
    ensures
        parse_expr(seq![Lexed::Ok(op1), Lexed::Ok(b), Lexed::Ok(op2), Lexed::Ok(c)], a) == done(
            if operator_precedence(op1.kind).rank() < operator_precedence(op2.kind).rank() {
                binary(
                    ExprView::Number(a),
                    op1,
                    binary(ExprView::Number(b), op2, ExprView::Number(c)),
                )
            } else {
                binary(
                    binary(ExprView::Number(a), op1, ExprView::Number(b)),
                    op2,
                    ExprView::Number(c),
                )
            },
            Seq::<Lexed>::empty(),
        ),
{
    let none = Seq::<Lexed>::empty();
    let ts3 = seq![Lexed::Ok(c)];
    let ts2 = seq![Lexed::Ok(op2), Lexed::Ok(c)];
    let ts1 = seq![Lexed::Ok(b), Lexed::Ok(op2), Lexed::Ok(c)];
    let ts0 = seq![Lexed::Ok(op1), Lexed::Ok(b), Lexed::Ok(op2), Lexed::Ok(c)];
    assert(ts3.drop_first() =~= none);
    assert(ts2.drop_first() =~= ts3);
    assert(ts1.drop_first() =~= ts2);
    assert(ts0.drop_first() =~= ts1);
    let first = operator_precedence(op1.kind);
    let second = operator_precedence(op2.kind);
    let rule1 = infix_rule(op1.kind)->Some_0;
    let rule2 = infix_rule(op2.kind)->Some_0;
    let ea = ExprView::Number(a);
    let eb = ExprView::Number(b);
    let ec = ExprView::Number(c);
    // The last literal, behind the second operator.
    lemma_literal_alone(none, second, c);
    assert(parse_binary(ts3, second, eb, op2) == done(binary(eb, op2, ec), none));
    assert(parse_binary(ts3, second, binary(ea, op1, eb), op2) == done(
        binary(binary(ea, op1, eb), op2, ec),
        none,
    ));
    if first.rank() < second.rank() {
        assert(parse_infix(rule2, ts3, eb, op2) == done(binary(eb, op2, ec), none));
        assert(climb(none, first, binary(eb, op2, ec)) == done(binary(eb, op2, ec), none));
        assert(climb(ts2, first, eb) == done(binary(eb, op2, ec), none));
        assert(parse_with_precedence(ts2, first, b) == done(binary(eb, op2, ec), none));
        assert(parse_binary(ts1, first, ea, op1) == done(
            binary(ea, op1, binary(eb, op2, ec)),
            none,
        ));
        assert(parse_infix(rule1, ts1, ea, op1) == done(
            binary(ea, op1, binary(eb, op2, ec)),
            none,
        ));
        assert(climb(none, Precedence::Lowest, binary(ea, op1, binary(eb, op2, ec))) == done(
            binary(ea, op1, binary(eb, op2, ec)),
            none,
        ));
        assert(climb(ts0, Precedence::Lowest, ea) == done(
            binary(ea, op1, binary(eb, op2, ec)),
            none,
        ));
    } else {
        lemma_literal_alone(ts2, first, b);
        assert(parse_binary(ts1, first, ea, op1) == done(binary(ea, op1, eb), ts2));
        assert(parse_infix(rule1, ts1, ea, op1) == done(binary(ea, op1, eb), ts2));
        assert(parse_infix(rule2, ts3, binary(ea, op1, eb), op2) == done(
            binary(binary(ea, op1, eb), op2, ec),
            none,
        ));
        assert(climb(none, Precedence::Lowest, binary(binary(ea, op1, eb), op2, ec)) == done(
            binary(binary(ea, op1, eb), op2, ec),
            none,
        ));
        assert(climb(ts2, Precedence::Lowest, binary(ea, op1, eb)) == done(
            binary(binary(ea, op1, eb), op2, ec),
            none,
        ));
        assert(climb(ts0, Precedence::Lowest, ea) == done(
            binary(binary(ea, op1, eb), op2, ec),
            none,
        ));
    }
}

/// A group is an operand whatever the operators are: `(1 + 2) * 3` is the
/// product of the group and `3`, and the group holds the sum.
pub proof fn lemma_group_is_operand(
    open: TokenView,
    a: TokenView,
    op1: TokenView,
    b: TokenView,
    close: TokenView,
    op2: TokenView,
    c: TokenView,
)
    requires
        open.kind == TokenKind::LeftParen,
        close.kind == TokenKind::RightParen,
        a.kind == TokenKind::Number,
        b.kind == TokenKind::Number,
        c.kind == TokenKind::Number,
        is_operator(op1.kind),
        is_operator(op2.kind),
    ensures
        parse_expr(
            seq![
                Lexed::Ok(a),
                Lexed::Ok(op1),
                Lexed::Ok(b),
                Lexed::Ok(close),
                Lexed::Ok(op2),
                Lexed::Ok(c),
            ],
            open,
        ) == done(
            binary(
                ExprView::Group {
                    open,
                    expr: Some(Box::new(binary(ExprView::Number(a), op1, ExprView::Number(b)))),
                    close,
                },
                op2,
                ExprView::Number(c),
            ),
            Seq::<Lexed>::empty(),
        ),
{
    let none = Seq::<Lexed>::empty();
    let ts5 = seq![Lexed::Ok(c)];
    let ts4 = seq![Lexed::Ok(op2), Lexed::Ok(c)];
    let ts3 = seq![Lexed::Ok(close), Lexed::Ok(op2), Lexed::Ok(c)];
    let ts2 = seq![Lexed::Ok(b), Lexed::Ok(close), Lexed::Ok(op2), Lexed::Ok(c)];
    let ts1 = seq![Lexed::Ok(op1), Lexed::Ok(b), Lexed::Ok(close), Lexed::Ok(op2), Lexed::Ok(c)];
    let ts0 = seq![
        Lexed::Ok(a),
        Lexed::Ok(op1),
        Lexed::Ok(b),
        Lexed::Ok(close),
        Lexed::Ok(op2),
        Lexed::Ok(c),
    ];
    assert(ts5.drop_first() =~= none);
    assert(ts4.drop_first() =~= ts5);
    assert(ts3.drop_first() =~= ts4);
    assert(ts2.drop_first() =~= ts3);
    assert(ts1.drop_first() =~= ts2);
    assert(ts0.drop_first() =~= ts1);
    let first = operator_precedence(op1.kind);
    let second = operator_precedence(op2.kind);
    let rule1 = infix_rule(op1.kind)->Some_0;
    let rule2 = infix_rule(op2.kind)->Some_0;
    let ea = ExprView::Number(a);
    let eb = ExprView::Number(b);
    let ec = ExprView::Number(c);
    let sum = binary(ea, op1, eb);
    let group = ExprView::Group { open, expr: Some(Box::new(sum)), close };
    // Inside the group.
    lemma_literal_alone(ts3, first, b);
    assert(parse_binary(ts2, first, ea, op1) == done(sum, ts3));
    assert(parse_infix(rule1, ts2, ea, op1) == done(sum, ts3));
    assert(climb(ts3, Precedence::Lowest, sum) == done(sum, ts3));
    assert(climb(ts1, Precedence::Lowest, ea) == done(sum, ts3));
    assert(parse_with_precedence(ts1, Precedence::Lowest, a) == done(sum, ts3));
    assert(parse_group(ts0, open) == done(group, ts4));
    // Behind the group.
    lemma_literal_alone(none, second, c);
    assert(parse_binary(ts5, second, group, op2) == done(binary(group, op2, ec), none));
    assert(parse_infix(rule2, ts5, group, op2) == done(binary(group, op2, ec), none));
    assert(climb(none, Precedence::Lowest, binary(group, op2, ec)) == done(
        binary(group, op2, ec),
        none,
    ));
    assert(climb(ts4, Precedence::Lowest, group) == done(binary(group, op2, ec), none));
    assert(parse_prefix(prefix_rule(open.kind)->Some_0, ts0, open) == done(group, ts4));
}

/// A group that is open where the tokens end gives `UnexpectedEof`:
/// `(1 + 2` has no closing parenthesis.
pub proof fn lemma_group_left_open(open: TokenView, a: TokenView, op: TokenView, b: TokenView)
    requires
        open.kind == TokenKind::LeftParen,
        a.kind == TokenKind::Number,
        b.kind == TokenKind::Number,
        is_operator(op.kind),
    ensures
        parse_expr(seq![Lexed::Ok(a), Lexed::Ok(op), Lexed::Ok(b)], open).result == Err::<
            ExprView,
            Error,
        >(Error::UnexpectedEof),
{
    let none = Seq::<Lexed>::empty();
    let ts2 = seq![Lexed::Ok(b)];
    let ts1 = seq![Lexed::Ok(op), Lexed::Ok(b)];
    let ts0 = seq![Lexed::Ok(a), Lexed::Ok(op), Lexed::Ok(b)];
    assert(ts2.drop_first() =~= none);
    assert(ts1.drop_first() =~= ts2);
    assert(ts0.drop_first() =~= ts1);
    let binding = operator_precedence(op.kind);
    let ea = ExprView::Number(a);
    let sum = binary(ea, op, ExprView::Number(b));
    lemma_literal_alone(none, binding, b);
    assert(parse_binary(ts2, binding, ea, op) == done(sum, none));
    assert(parse_infix(infix_rule(op.kind)->Some_0, ts2, ea, op) == done(sum, none));
    assert(climb(none, Precedence::Lowest, sum) == done(sum, none));
    assert(climb(ts1, Precedence::Lowest, ea) == done(sum, none));
    assert(parse_with_precedence(ts1, Precedence::Lowest, a) == done(sum, none));
    assert(parse_group(ts0, open).result == Err::<ExprView, Error>(Error::UnexpectedEof));
    assert(parse_prefix(prefix_rule(open.kind)->Some_0, ts0, open) == parse_group(ts0, open));
}

/// The last expression of a block is its value where no semicolon follows
/// it, and a statement where one does: `{ 1; 2 }` has one statement and the
/// value `2`, `{ 1; 2; }` has two statements and no value.
pub proof fn lemma_block_value(
    open: TokenView,
    a: TokenView,
    semi1: TokenView,
    b: TokenView,
    semi2: TokenView,
    close: TokenView,
)
    requires
        open.kind == TokenKind::LeftBrace,
        close.kind == TokenKind::RightBrace,
        a.kind == TokenKind::Number,
        b.kind == TokenKind::Number,
        semi1.kind == TokenKind::Semicolon,
        semi2.kind == TokenKind::Semicolon,
    ensures
        parse_expr(seq![Lexed::Ok(a), Lexed::Ok(semi1), Lexed::Ok(b), Lexed::Ok(close)], open)
            == done(
            ExprView::Block {
                open,
                inner: BlockView {
                    stmts: seq![
                        StmtView::Expr { expr: ExprView::Number(a), semicolon: Some(semi1) },
                    ],
                    expr: Some(Box::new(ExprView::Number(b))),
                },
                close,
            },
            Seq::<Lexed>::empty(),
        ),
        parse_expr(
            seq![
                Lexed::Ok(a),
                Lexed::Ok(semi1),
                Lexed::Ok(b),
                Lexed::Ok(semi2),
                Lexed::Ok(close),
            ],
            open,
        ) == done(
            ExprView::Block {
                open,
                inner: BlockView {
                    stmts: seq![
                        StmtView::Expr { expr: ExprView::Number(a), semicolon: Some(semi1) },
                        StmtView::Expr { expr: ExprView::Number(b), semicolon: Some(semi2) },
                    ],
                    expr: None,
                },
                close,
            },
            Seq::<Lexed>::empty(),
        ),
{
    let none = Seq::<Lexed>::empty();
    let brace = Some(TokenKind::RightBrace);
    let ea = ExprView::Number(a);
    let eb = ExprView::Number(b);
    let first = StmtView::Expr { expr: ea, semicolon: Some(semi1) };
    let second = StmtView::Expr { expr: eb, semicolon: Some(semi2) };
    let one = BlockView { stmts: seq![first], expr: None };
    assert(empty_block().stmts.push(first) =~= seq![first]);
    assert(one.stmts.push(second) =~= seq![first, second]);
    // With a value.
    {
        let ts3 = seq![Lexed::Ok(close)];
        let ts2 = seq![Lexed::Ok(b), Lexed::Ok(close)];
        let ts1 = seq![Lexed::Ok(semi1), Lexed::Ok(b), Lexed::Ok(close)];
        let ts0 = seq![Lexed::Ok(a), Lexed::Ok(semi1), Lexed::Ok(b), Lexed::Ok(close)];
        assert(ts3.drop_first() =~= none);
        assert(ts2.drop_first() =~= ts3);
        assert(ts1.drop_first() =~= ts2);
        assert(ts0.drop_first() =~= ts1);
        let valued = BlockView { stmts: seq![first], expr: Some(Box::new(eb)) };
        lemma_literal_alone(ts1, Precedence::Lowest, a);
        assert(parse_stmt(ts1, a) == done(first, ts2));
        lemma_literal_alone(ts3, Precedence::Lowest, b);
        assert(parse_stmt(ts3, b) == done(StmtView::Expr { expr: eb, semicolon: None }, ts3));
        assert(parse_items(ts3, brace, valued) == done((valued, Some(close)), none));
        assert(parse_items(ts2, brace, one) == done((valued, Some(close)), none));
        assert(parse_items(ts0, brace, empty_block()) == done((valued, Some(close)), none));
        assert(parse_prefix(prefix_rule(open.kind)->Some_0, ts0, open) == parse_block(ts0, open));
        assert(climb(none, Precedence::Lowest, parse_block(ts0, open).result->Ok_0)
            == parse_block(ts0, open));
    }
    // Without one.
    {
        let ts4 = seq![Lexed::Ok(close)];
        let ts3 = seq![Lexed::Ok(semi2), Lexed::Ok(close)];
        let ts2 = seq![Lexed::Ok(b), Lexed::Ok(semi2), Lexed::Ok(close)];
        let ts1 = seq![Lexed::Ok(semi1), Lexed::Ok(b), Lexed::Ok(semi2), Lexed::Ok(close)];
        let ts0 = seq![
            Lexed::Ok(a),
            Lexed::Ok(semi1),
            Lexed::Ok(b),
            Lexed::Ok(semi2),
            Lexed::Ok(close),
        ];
        assert(ts4.drop_first() =~= none);
        assert(ts3.drop_first() =~= ts4);
        assert(ts2.drop_first() =~= ts3);
        assert(ts1.drop_first() =~= ts2);
        assert(ts0.drop_first() =~= ts1);
        let two = BlockView { stmts: seq![first, second], expr: None };
        lemma_literal_alone(ts1, Precedence::Lowest, a);
        assert(parse_stmt(ts1, a) == done(first, ts2));
        lemma_literal_alone(ts3, Precedence::Lowest, b);
        assert(parse_stmt(ts3, b) == done(second, ts4));
        assert(parse_items(ts4, brace, two) == done((two, Some(close)), none));
        assert(parse_items(ts2, brace, one) == done((two, Some(close)), none));
        assert(parse_items(ts0, brace, empty_block()) == done((two, Some(close)), none));
        assert(parse_prefix(prefix_rule(open.kind)->Some_0, ts0, open) == parse_block(ts0, open));
        assert(climb(none, Precedence::Lowest, parse_block(ts0, open).result->Ok_0)
            == parse_block(ts0, open));
    }
}

} // verus!
