//! The precedence-climbing parser.

use vstd::prelude::*;
use vstd::utf8::encode_utf8;
use crate::lexer::model::{is_rest_of, lemma_scan_none, lexed_view, pull_view, scan_all, Lexed};
use crate::lexer::span::Loc;
use crate::lexer::token::{Token, TokenKind};
use crate::lexer::Lexer;
use crate::parser::ast::{Block, Expr, Stmt};
use crate::parser::laws::{
    body_spans_cover, lemma_body_spans_cover_source, lemma_expression_spans_cover_source,
    lemma_infix_consumes, lemma_prefix_consumes, lemma_statement_spans_cover_source,
    lemma_stmt_consumes, spans_cover, stmt_spans_cover,
};
use crate::parser::model::{
    climb, empty_block, expr_result, items_result, parse_items, pull, stmt_result, Parsed,
};
use crate::parser::parselet::{infix_parselet, prefix_parselet};
use crate::parser::shape::{
    binds_above, body_well_formed, lemma_body_shape, lemma_stmt_shape,
    lemma_with_precedence_shape, stmt_well_formed, well_formed,
};
use crate::Error;

pub mod ast;
pub mod instances;
pub mod laws;
pub mod model;
pub mod parselet;
pub mod shape;

verus! {

/// How tightly an operator binds: `Lowest < Sum < Product`.
#[derive(Copy, Clone, Debug, PartialEq, Eq, Structural, PartialOrd, Ord)]
pub enum Precedence {
    Lowest,
    Sum,
    Product,
}

impl Precedence {
    /// The rank of this precedence: a higher rank binds tighter.
    pub open spec fn rank(self) -> nat {
        match self {
            Precedence::Lowest => 0,
            Precedence::Sum => 1,
            Precedence::Product => 2,
        }
    }

    /// Whether `self` binds strictly looser than `other`.
    pub fn below(self, other: Precedence) -> (b: bool)
        ensures
            b == (self.rank() < other.rank()),
    {
        match (self, other) {
            (Precedence::Lowest, Precedence::Sum) => true,
            (Precedence::Lowest, Precedence::Product) => true,
            (Precedence::Sum, Precedence::Product) => true,
            _ => false,
        }
    }
}

/// A parser over one source text, with one token of lookahead.
pub struct Parser<'source> {
    lexer: Lexer<'source>,
    /// What the tokenizer yielded last, while the parser has looked at it
    /// and not read it.
    peeked: Option<Result<Token<'source>, Error>>,
}

/// Whether a token of kind `kind` is the closing token asked for.
fn closes(close_kind: Option<TokenKind>, kind: TokenKind) -> (b: bool)
    ensures
        b == (close_kind == Some(kind)),
{
    match close_kind {
        Some(close_kind) => close_kind == kind,
        None => false,
    }
}

impl<'source> Parser<'source> {
    /// The text that this parser reads.
    pub closed spec fn source(&self) -> Seq<char> {
        self.lexer.source()
    }

    /// Everything that the tokenizer has yet to yield to this parser, the
    /// token of lookahead included.
    pub closed spec fn tokens(&self) -> Seq<Lexed> {
        let unread = scan_all(self.lexer.rest(), self.lexer.loc());
        match self.peeked {
            Some(item) => seq![lexed_view(item)] + unread,
            None => unread,
        }
    }

    /// Holds of every parser between two calls: what is yet to be read is
    /// the end of what the whole text yields.
    pub closed spec fn wf(&self) -> bool {
        &&& self.lexer.wf()
        &&& is_rest_of(self.tokens(), scan_all(self.lexer.source(), Loc::origin()))
    }

    /// The tokens yet to be read are the last of those that the tokenizer
    /// yields on the whole text, whose encoding has a length that fits a
    /// `usize`.
    pub proof fn lemma_tokens_of_source(&self)
        requires
            self.wf(),
        ensures
            is_rest_of(self.tokens(), scan_all(self.source(), Loc::origin())),
            encode_utf8(self.source()).len() <= usize::MAX,
    {
        self.lexer.lemma_position();
    }

    /// A parser at the start of `source`.
    pub fn new(source: &'source str) -> (parser: Self)
        ensures
            parser.wf(),
            parser.source() == source@,
            parser.tokens() == scan_all(source@, Loc::origin()),
    {
        let lexer = Lexer::new(source);
        proof {
            lexer.lemma_position();
        }
        Self { lexer, peeked: None }
    }

    /// The next token or lexical error, which stays unread, or `None` at the
    /// end of the text.
    pub fn peek(&mut self) -> (item: Option<Result<Token<'source>, Error>>)
        requires
            old(self).wf(),
        ensures
            final(self).wf(),
            final(self).source() == old(self).source(),
            final(self).tokens() == old(self).tokens(),
            pull_view(item) == (if old(self).tokens().len() > 0 {
                Some(old(self).tokens()[0])
            } else {
                None
            }),
    {
        if self.peeked.is_none() {
            proof {
                lemma_scan_none(self.lexer.rest(), self.lexer.loc());
            }
            self.peeked = self.lexer.next();
            proof {
                self.lexer.lemma_position();
            }
        }
        self.peeked
    }

    /// Reads the next token or lexical error; `None` at the end of the text.
    pub fn next(&mut self) -> (item: Option<Result<Token<'source>, Error>>)
        requires
            old(self).wf(),
        ensures
            final(self).wf(),
            final(self).source() == old(self).source(),
            pull_view(item) == (if old(self).tokens().len() > 0 {
                Some(old(self).tokens()[0])
            } else {
                None
            }),
            final(self).tokens() == (if old(self).tokens().len() > 0 {
                old(self).tokens().drop_first()
            } else {
                old(self).tokens()
            }),
    {
        match self.peeked {
            Some(item) => {
                self.peeked = None;
                proof {
                    let unread = scan_all(self.lexer.rest(), self.lexer.loc());
                    assert((seq![lexed_view(item)] + unread).drop_first() =~= unread);
                    self.lexer.lemma_position();
                }
                Some(item)
            },
            None => {
                proof {
                    lemma_scan_none(self.lexer.rest(), self.lexer.loc());
                }
                let item = self.lexer.next();
                proof {
                    if let Some(first) = item {
                        let unread = scan_all(self.lexer.rest(), self.lexer.loc());
                        assert((seq![lexed_view(first)] + unread).drop_first() =~= unread);
                    }
                    self.lexer.lemma_position();
                }
                item
            },
        }
    }

    /// Reads a token that is needed: the end of the text gives
    /// `UnexpectedEof`, and a lexical error in the token's place is handed
    /// on.
    pub fn take(&mut self) -> (result: Result<Token<'source>, Error>)
        requires
            old(self).wf(),
        ensures
            final(self).wf(),
            final(self).source() == old(self).source(),
            pull(old(self).tokens()) == (Parsed {
                result: lexed_view(result),
                rest: final(self).tokens(),
            }),
    {
        match self.next() {
            Some(item) => item,
            None => Err(Error::UnexpectedEof),
        }
    }

    /// How tightly the next token binds as an operator: `Lowest` at the end
    /// of the text, at a lexical error and at a token that is no operator.
    /// Nothing is read.
    pub fn next_precedence(&mut self) -> (binding: Precedence)
        requires
            old(self).wf(),
        ensures
            final(self).wf(),
            final(self).source() == old(self).source(),
            final(self).tokens() == old(self).tokens(),
            binding == model::next_precedence(old(self).tokens()),
    {
        if let Some(Ok(token)) = self.peek() {
            if let Some(parselet) = infix_parselet(&token) {
                parselet.precedence()
            } else {
                Precedence::Lowest
            }
        } else {
            Precedence::Lowest
        }
    }

    /// Parses an expression whose first token `token` has been read, up to
    /// the first operator that binds no tighter than `precedence`. A first
    /// token that starts no expression gives `UnexpectedToken`.
    pub fn parse_with_precedence(&mut self, precedence: Precedence, token: Token<'source>) -> (result:
        Result<Expr<'source>, Error>)
        requires
            old(self).wf(),
        ensures
            final(self).wf(),
            final(self).source() == old(self).source(),
            model::parse_with_precedence(old(self).tokens(), precedence, token@) == (Parsed {
                result: expr_result(result),
                rest: final(self).tokens(),
            }),
        decreases old(self).tokens().len(), 7nat,
    {
        let prefix = match prefix_parselet(&token) {
            Some(prefix) => prefix,
            None => {
                return Err(
                    Error::UnexpectedToken { kind: token.kind, location: token.span.start },
                );
            },
        };
        proof {
            lemma_prefix_consumes(prefix, self.tokens(), token@);
        }
        let mut left = prefix.parse(self, token)?;
        loop
            invariant
                self.wf(),
                self.source() == old(self).source(),
                self.tokens().len() <= old(self).tokens().len(),
                model::parse_with_precedence(old(self).tokens(), precedence, token@) == climb(
                    self.tokens(),
                    precedence,
                    left@,
                ),
            decreases self.tokens().len(),
        {
            if !precedence.below(self.next_precedence()) {
                return Ok(left);
            }
            let ghost ts = self.tokens();
            let op = self.take()?;
            let infix = match infix_parselet(&op) {
                Some(infix) => infix,
                None => {
                    return Ok(left);
                },
            };
            proof {
                lemma_infix_consumes(infix, ts.drop_first(), left@, op@);
            }
            left = infix.parse(self, left, op)?;
        }
    }

    /// Parses an expression from its first token on, up to the first
    /// operator that binds no tighter than `min_precedence`:
    /// - the end of the text in the place of a token that is needed gives
    ///   `UnexpectedEof`, and a lexical error in its place is handed on;
    /// - a token that starts no expression gives `UnexpectedToken`.
    ///
    /// The expression is well-formed: products stand below sums and
    /// operators of one precedence lean to the left. Its span, and that of
    /// every expression inside it, covers the tokens of that expression in
    /// the text.
    pub fn parse_expression(&mut self, min_precedence: Precedence) -> (result: Result<
        Expr<'source>,
        Error,
    >)
        requires
            old(self).wf(),
        ensures
            final(self).wf(),
            final(self).source() == old(self).source(),
            model::parse_expression(old(self).tokens(), min_precedence) == (Parsed {
                result: expr_result(result),
                rest: final(self).tokens(),
            }),
            result matches Ok(expr) ==> well_formed(expr@) && binds_above(
                expr@,
                min_precedence.rank(),
            ) && spans_cover(encode_utf8(old(self).source()), expr@),
    {
        proof {
            self.lemma_tokens_of_source();
            let ts = self.tokens();
            if model::parse_expression(ts, min_precedence).result is Ok {
                lemma_expression_spans_cover_source(self.source(), ts, min_precedence);
                lemma_with_precedence_shape(
                    pull(ts).rest,
                    min_precedence,
                    pull(ts).result->Ok_0,
                );
            }
        }
        let token = self.take()?;
        self.parse_with_precedence(min_precedence, token)
    }

    /// Parses a statement from its first token on: a semicolon on its own,
    /// or an expression and the semicolon behind it, if there is one. The
    /// end of the text in the place of the first token gives
    /// `UnexpectedEof`.
    ///
    /// The statement is well-formed, and the span of every expression in it
    /// covers the tokens of that expression in the text.
    pub fn parse_statement(&mut self) -> (result: Result<Stmt<'source>, Error>)
        requires
            old(self).wf(),
        ensures
            final(self).wf(),
            final(self).source() == old(self).source(),
            model::parse_statement(old(self).tokens()) == (Parsed {
                result: stmt_result(result),
                rest: final(self).tokens(),
            }),
            result matches Ok(stmt) ==> stmt_well_formed(stmt@) && stmt_spans_cover(
                encode_utf8(old(self).source()),
                stmt@,
            ),
    {
        proof {
            self.lemma_tokens_of_source();
            let ts = self.tokens();
            if model::parse_statement(ts).result is Ok {
                lemma_statement_spans_cover_source(self.source(), ts);
                lemma_stmt_shape(pull(ts).rest, pull(ts).result->Ok_0);
            }
        }
        let token = self.take()?;
        self.parse_stmt(token)
    }

    /// Parses a whole expression whose first token `token` has been read.
    pub fn parse_expr(&mut self, token: Token<'source>) -> (result: Result<Expr<'source>, Error>)
        requires
            old(self).wf(),
        ensures
            final(self).wf(),
            final(self).source() == old(self).source(),
            model::parse_expr(old(self).tokens(), token@) == (Parsed {
                result: expr_result(result),
                rest: final(self).tokens(),
            }),
        decreases old(self).tokens().len(), 8nat,
    {
        self.parse_with_precedence(Precedence::Lowest, token)
    }

    /// Parses a statement whose first token `token` has been read: a
    /// semicolon on its own, or an expression and the semicolon behind it,
    /// if there is one.
    pub fn parse_stmt(&mut self, token: Token<'source>) -> (result: Result<Stmt<'source>, Error>)
        requires
            old(self).wf(),
        ensures
            final(self).wf(),
            final(self).source() == old(self).source(),
            model::parse_stmt(old(self).tokens(), token@) == (Parsed {
                result: stmt_result(result),
                rest: final(self).tokens(),
            }),
        decreases old(self).tokens().len(), 9nat,
    {
        if token.kind == TokenKind::Semicolon {
            return Ok(Stmt::Empty { semicolon: token });
        }
        let expr = self.parse_expr(token)?;
        let semicolon = if let Some(Ok(next)) = self.peek() {
            if next.kind == TokenKind::Semicolon {
                self.next();
                Some(next)
            } else {
                None
            }
        } else {
            None
        };
        Ok(Stmt::Expr { expr, semicolon })
    }

    /// Parses statements up to a token of kind `close_kind`, which is read
    /// and returned, or up to the end of the text where `close_kind` is
    /// `None`. Statements with a semicolon are collected in order. An
    /// expression without one becomes the value of the block; a token other
    /// than the closing one behind it gives `UnexpectedToken`. The end of
    /// the text before the closing token gives `UnexpectedEof`.
    ///
    /// The body is well-formed: products stand below sums, operators of one
    /// precedence lean to the left, and every statement in `stmts` ends in a
    /// semicolon. The span of every expression in it covers the tokens of
    /// that expression in the text.
    pub fn parse_block_inner(&mut self, close_kind: Option<TokenKind>) -> (result: Result<
        (Block<'source>, Option<Token<'source>>),
        Error,
    >)
        requires
            old(self).wf(),
        ensures
            final(self).wf(),
            final(self).source() == old(self).source(),
            parse_items(old(self).tokens(), close_kind, empty_block()) == (Parsed {
                result: items_result(result),
                rest: final(self).tokens(),
            }),
            result matches Ok((body, _)) ==> body_well_formed(body@) && body_spans_cover(
                encode_utf8(old(self).source()),
                body@,
            ),
        decreases old(self).tokens().len(), 4nat,
    {
        let mut inner = Block::default();
        proof {
            self.lemma_tokens_of_source();
            if parse_items(self.tokens(), close_kind, empty_block()).result is Ok {
                lemma_body_spans_cover_source(self.source(), self.tokens(), close_kind);
                lemma_body_shape(self.tokens(), close_kind);
            }
        }
        loop
            invariant
                self.wf(),
                self.source() == old(self).source(),
                self.tokens().len() <= old(self).tokens().len(),
                parse_items(old(self).tokens(), close_kind, empty_block()).result is Ok ==> {
                    let body = parse_items(
                        old(self).tokens(),
                        close_kind,
                        empty_block(),
                    ).result->Ok_0.0;
                    body_well_formed(body) && body_spans_cover(
                        encode_utf8(old(self).source()),
                        body,
                    )
                },
                parse_items(old(self).tokens(), close_kind, empty_block()) == parse_items(
                    self.tokens(),
                    close_kind,
                    inner@,
                ),
            decreases self.tokens().len(),
        {
            let ghost ts = self.tokens();
            let ghost body = inner@;
            let token = match self.next() {
                Some(Ok(token)) => token,
                Some(Err(error)) => {
                    return Err(error);
                },
                None => {
                    if close_kind.is_some() {
                        return Err(Error::UnexpectedEof);
                    }
                    return Ok((inner, None));
                },
            };
            if closes(close_kind, token.kind) {
                return Ok((inner, Some(token)));
            }
            proof {
                lemma_stmt_consumes(ts.drop_first(), token@);
            }
            let stmt = self.parse_stmt(token)?;
            match stmt {
                Stmt::Expr { expr, semicolon: None } => {
                    if let Some(Ok(next)) = self.peek() {
                        if !closes(close_kind, next.kind) {
                            self.next();
                            return Err(
                                Error::UnexpectedToken {
                                    kind: next.kind,
                                    location: next.span.start,
                                },
                            );
                        }
                    }
                    inner.expr = Some(Box::new(expr));
                },
                stmt => {
                    inner.stmts.push(stmt);
                    proof {
                        assert(inner@.stmts =~= body.stmts.push(stmt@));
                    }
                },
            }
        }
    }
}

} // verus!
