//! The syntax tree: expressions, statements and blocks.

use vstd::prelude::*;
use crate::lexer::span::Span;
use crate::lexer::token::{Token, TokenView};

verus! {

/// An expression. Every node owns its children.
#[derive(Debug, PartialEq, Eq)]
pub enum Expr<'source> {
    /// Two operands joined by one of `+`, `-`, `*` and `/`.
    BinOp { left: Box<Expr<'source>>, op: Token<'source>, right: Box<Expr<'source>> },
    /// Statements between braces.
    Block { open: Token<'source>, inner: Block<'source>, close: Token<'source> },
    /// An expression between parentheses, or an empty pair of them.
    Group { open: Token<'source>, expr: Option<Box<Expr<'source>>>, close: Token<'source> },
    /// A numeric literal.
    Number(Token<'source>),
}

/// A statement.
#[derive(Debug, PartialEq, Eq)]
#[allow(inconsistent_fields)]
pub enum Stmt<'source> {
    /// A semicolon on its own.
    Empty { semicolon: Token<'source> },
    /// An expression, followed by a semicolon unless it ends a block.
    Expr { expr: Expr<'source>, semicolon: Option<Token<'source>> },
}

/// The body of a block: its statements in order and, where the last
/// expression has no semicolon, that expression as the block's value.
#[derive(Debug, PartialEq, Eq)]
pub struct Block<'source> {
    pub stmts: Vec<Stmt<'source>>,
    pub expr: Option<Box<Expr<'source>>>,
}

/// What an expression is, with lexemes as sequences of characters.
pub enum ExprView {
    BinOp { left: Box<ExprView>, op: TokenView, right: Box<ExprView> },
    Block { open: TokenView, inner: BlockView, close: TokenView },
    Group { open: TokenView, expr: Option<Box<ExprView>>, close: TokenView },
    Number(TokenView),
}

/// What a statement is, with lexemes as sequences of characters.
#[allow(inconsistent_fields)]
pub enum StmtView {
    Empty { semicolon: TokenView },
    Expr { expr: ExprView, semicolon: Option<TokenView> },
}

/// What the body of a block is, with lexemes as sequences of characters.
pub struct BlockView {
    pub stmts: Seq<StmtView>,
    pub expr: Option<Box<ExprView>>,
}

impl<'source> Expr<'source> {
    /// What this expression is, with lexemes as sequences of characters.
    pub open spec fn view(&self) -> ExprView
        decreases self,
    {
        match self {
            Expr::BinOp { left, op, right } => ExprView::BinOp {
                left: Box::new(left.view()),
                op: op@,
                right: Box::new(right.view()),
            },
            Expr::Block { open, inner, close } => ExprView::Block {
                open: open@,
                inner: inner.view(),
                close: close@,
            },
            Expr::Group { open, expr, close } => ExprView::Group {
                open: open@,
                expr: match expr {
                    Some(expr) => Some(Box::new(expr.view())),
                    None => None,
                },
                close: close@,
            },
            Expr::Number(token) => ExprView::Number(token@),
        }
    }
}

impl<'source> Stmt<'source> {
    /// What this statement is, with lexemes as sequences of characters.
    pub open spec fn view(&self) -> StmtView
        decreases self,
    {
        match self {
            Stmt::Empty { semicolon } => StmtView::Empty { semicolon: semicolon@ },
            Stmt::Expr { expr, semicolon } => StmtView::Expr {
                expr: expr.view(),
                semicolon: match semicolon {
                    Some(semicolon) => Some(semicolon@),
                    None => None,
                },
            },
        }
    }
}

impl<'source> Block<'source> {
    /// What this body is, with lexemes as sequences of characters.
    pub open spec fn view(&self) -> BlockView
        decreases self,
    {
        BlockView {
            stmts: Seq::new(
                self.stmts@.len(),
                |i: int|
                    if 0 <= i < self.stmts@.len() {
                        self.stmts@[i].view()
                    } else {
                        arbitrary()
                    },
            ),
            expr: match self.expr {
                Some(expr) => Some(Box::new(expr.view())),
                None => None,
            },
        }
    }
}

impl ExprView {
    /// The span from the start of the expression's first token to the end of
    /// its last.
    pub open spec fn span(self) -> Span
        decreases self,
    {
        match self {
            ExprView::BinOp { left, right, .. } => Span {
                start: left.span().start,
                end: right.span().end,
            },
            ExprView::Block { open, close, .. } => Span {
                start: open.span.start,
                end: close.span.end,
            },
            ExprView::Group { open, close, .. } => Span {
                start: open.span.start,
                end: close.span.end,
            },
            ExprView::Number(token) => token.span,
        }
    }
}

/// The tokens of the statements `stmts`, in the order of the source.
pub open spec fn stmts_tokens(stmts: Seq<StmtView>) -> Seq<TokenView>
    decreases stmts,
{
    if stmts.len() == 0 {
        Seq::empty()
    } else {
        stmts_tokens(stmts.drop_last()) + stmts.last().tokens()
    }
}

impl ExprView {
    /// The tokens that the expression is made of, in the order of the
    /// source.
    pub open spec fn tokens(self) -> Seq<TokenView>
        decreases self,
    {
        match self {
            ExprView::BinOp { left, op, right } => left.tokens() + seq![op] + right.tokens(),
            ExprView::Block { open, inner, close } => seq![open] + inner.tokens() + seq![close],
            ExprView::Group { open, expr, close } => match expr {
                Some(expr) => seq![open] + expr.tokens() + seq![close],
                None => seq![open, close],
            },
            ExprView::Number(token) => seq![token],
        }
    }
}

impl BlockView {
    /// The tokens that the body is made of, in the order of the source.
    pub open spec fn tokens(self) -> Seq<TokenView>
        decreases self,
    {
        match self.expr {
            Some(expr) => stmts_tokens(self.stmts) + expr.tokens(),
            None => stmts_tokens(self.stmts),
        }
    }
}

impl StmtView {
    /// The tokens that the statement is made of, in the order of the source.
    pub open spec fn tokens(self) -> Seq<TokenView>
        decreases self,
    {
        match self {
            StmtView::Empty { semicolon } => seq![semicolon],
            StmtView::Expr { expr, semicolon } => match semicolon {
                Some(semicolon) => expr.tokens() + seq![semicolon],
                None => expr.tokens(),
            },
        }
    }

    /// The span from the start of the statement to the end of its semicolon,
    /// or of its expression where it has none.
    pub open spec fn span(self) -> Span {
        match self {
            StmtView::Empty { semicolon } => semicolon.span,
            StmtView::Expr { expr, semicolon } => Span {
                start: expr.span().start,
                end: match semicolon {
                    Some(semicolon) => semicolon.span.end,
                    None => expr.span().end,
                },
            },
        }
    }
}

/// An expression has at least one token, and its span runs from the start
/// of the first to the end of the last.
pub proof fn lemma_span_bounds(expr: ExprView)
    ensures
        expr.tokens().len() > 0,
        expr.span().start == expr.tokens().first().span.start,
        expr.span().end == expr.tokens().last().span.end,
    decreases expr,
{
    match expr {
        ExprView::BinOp { left, op, right } => {
            lemma_span_bounds(*left);
            lemma_span_bounds(*right);
        },
        ExprView::Group { expr: Some(inner), .. } => {
            lemma_span_bounds(*inner);
        },
        _ => {},
    }
}

impl<'source> Expr<'source> {
    /// The span from the start of the expression's first token to the end of
    /// its last.
    pub fn span(&self) -> (span: Span)
        ensures
            span == self@.span(),
        decreases self,
    {
        match self {
            Expr::BinOp { left, right, .. } => {
                let start = left.span().start;
                let end = right.span().end;
                Span { start, end }
            },
            Expr::Block { open, close, .. } => {
                let start = open.span.start;
                let end = close.span.end;
                Span { start, end }
            },
            Expr::Group { open, close, .. } => {
                let start = open.span.start;
                let end = close.span.end;
                Span { start, end }
            },
            Expr::Number(token) => token.span,
        }
    }
}

impl<'source> Stmt<'source> {
    /// The span from the start of the statement to the end of its semicolon,
    /// or of its expression where it has none.
    pub fn span(&self) -> (span: Span)
        ensures
            span == self@.span(),
    {
        match self {
            Stmt::Empty { semicolon } => semicolon.span,
            Stmt::Expr { expr, semicolon } => {
                let start = expr.span().start;
                let end = if let Some(semicolon) = semicolon {
                    semicolon.span.end
                } else {
                    expr.span().end
                };
                Span { start, end }
            },
        }
    }
}

impl<'source> Default for Block<'source> {
    fn default() -> (block: Self)
        ensures
            block@ == (BlockView { stmts: Seq::empty(), expr: None }),
    {
        let block = Block { stmts: Vec::new(), expr: None };
        assert(block@.stmts =~= Seq::empty());
        block
    }
}

} // verus!
