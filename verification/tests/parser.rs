use wit::parser::parselet::{bin_op, infix_parselet, prefix_parselet, InfixParselet, PrefixParselet};
use wit::{Block, Error, Expr, Loc, Parser, Precedence, Span, Stmt, Token, TokenKind};

fn loc(byte_offset: usize) -> Loc {
    Loc { byte_offset, line: 1, col: byte_offset + 1 }
}

/// The token of kind `kind` between two byte offsets of a text of one line.
fn token(kind: TokenKind, source: &str, start: usize, end: usize) -> Token<'_> {
    Token { kind, lexeme: &source[start..end], span: Span { start: loc(start), end: loc(end) } }
}

fn number(source: &str, start: usize, end: usize) -> Expr<'_> {
    Expr::Number(token(TokenKind::Number, source, start, end))
}

fn bin_op_at<'a>(left: Expr<'a>, kind: TokenKind, source: &'a str, at: usize, right: Expr<'a>) -> Expr<'a> {
    Expr::BinOp {
        left: Box::new(left),
        op: token(kind, source, at, at + 1),
        right: Box::new(right),
    }
}

/// Parses `source` as a sequence of statements up to the end of the text.
fn parse(source: &str) -> Result<Block<'_>, Error> {
    let mut parser = Parser::new(source);
    let (block, close) = parser.parse_block_inner(None)?;
    assert!(close.is_none());
    Ok(block)
}

/// Parses `source` as one expression without a semicolon.
fn parse_value(source: &str) -> Expr<'_> {
    let block = parse(source).unwrap();
    assert!(block.stmts.is_empty());
    *block.expr.unwrap()
}

#[test]
fn subtraction_associates_to_the_left() {
    let source = "3 - 2 - 1";
    let expected = bin_op_at(
        bin_op_at(number(source, 0, 1), TokenKind::Minus, source, 2, number(source, 4, 5)),
        TokenKind::Minus,
        source,
        6,
        number(source, 8, 9),
    );
    assert_eq!(parse_value(source), expected);
    let wrong = bin_op_at(
        number(source, 0, 1),
        TokenKind::Minus,
        source,
        2,
        bin_op_at(number(source, 4, 5), TokenKind::Minus, source, 6, number(source, 8, 9)),
    );
    assert_ne!(parse_value(source), wrong);
}

#[test]
fn division_associates_to_the_left() {
    let source = "8 / 4 / 2";
    let expected = bin_op_at(
        bin_op_at(number(source, 0, 1), TokenKind::Slash, source, 2, number(source, 4, 5)),
        TokenKind::Slash,
        source,
        6,
        number(source, 8, 9),
    );
    assert_eq!(parse_value(source), expected);
}

#[test]
fn product_binds_tighter_than_sum() {
    let source = "1 + 2 * 3";
    let expected = bin_op_at(
        number(source, 0, 1),
        TokenKind::Plus,
        source,
        2,
        bin_op_at(number(source, 4, 5), TokenKind::Asterisk, source, 6, number(source, 8, 9)),
    );
    assert_eq!(parse_value(source), expected);
}

#[test]
fn sum_behind_product() {
    let source = "1 * 2 + 3";
    let expected = bin_op_at(
        bin_op_at(number(source, 0, 1), TokenKind::Asterisk, source, 2, number(source, 4, 5)),
        TokenKind::Plus,
        source,
        6,
        number(source, 8, 9),
    );
    assert_eq!(parse_value(source), expected);
}

#[test]
fn mixed_operators() {
    let source = "1-2*3/4+5";
    let product = bin_op_at(
        bin_op_at(number(source, 2, 3), TokenKind::Asterisk, source, 3, number(source, 4, 5)),
        TokenKind::Slash,
        source,
        5,
        number(source, 6, 7),
    );
    let expected = bin_op_at(
        bin_op_at(number(source, 0, 1), TokenKind::Minus, source, 1, product),
        TokenKind::Plus,
        source,
        7,
        number(source, 8, 9),
    );
    assert_eq!(parse_value(source), expected);
}

#[test]
fn grouping_overrides_precedence() {
    let source = "(1 + 2) * 3";
    let group = Expr::Group {
        open: token(TokenKind::LeftParen, source, 0, 1),
        expr: Some(Box::new(bin_op_at(
            number(source, 1, 2),
            TokenKind::Plus,
            source,
            3,
            number(source, 5, 6),
        ))),
        close: token(TokenKind::RightParen, source, 6, 7),
    };
    let expected = bin_op_at(group, TokenKind::Asterisk, source, 8, number(source, 10, 11));
    assert_eq!(parse_value(source), expected);
}

#[test]
fn empty_group() {
    let source = "()";
    let expected = Expr::Group {
        open: token(TokenKind::LeftParen, source, 0, 1),
        expr: None,
        close: token(TokenKind::RightParen, source, 1, 2),
    };
    assert_eq!(parse_value(source), expected);
}

#[test]
fn nested_groups() {
    let source = "((7))";
    let inner = Expr::Group {
        open: token(TokenKind::LeftParen, source, 1, 2),
        expr: Some(Box::new(number(source, 2, 3))),
        close: token(TokenKind::RightParen, source, 3, 4),
    };
    let expected = Expr::Group {
        open: token(TokenKind::LeftParen, source, 0, 1),
        expr: Some(Box::new(inner)),
        close: token(TokenKind::RightParen, source, 4, 5),
    };
    assert_eq!(parse_value(source), expected);
}

#[test]
fn unclosed_group_at_the_end_of_the_text() {
    assert_eq!(parse("(1 + 2"), Err(Error::UnexpectedEof));
    assert_eq!(parse("("), Err(Error::UnexpectedEof));
}

#[test]
fn unclosed_group_before_another_token() {
    assert_eq!(parse("(1 + 2 3)"), Err(Error::UnclosedGroup { location: loc(7) }));
    assert_eq!(parse("(1 ;"), Err(Error::UnclosedGroup { location: loc(3) }));
    assert_eq!(parse("(1 }"), Err(Error::UnclosedGroup { location: loc(3) }));
}

#[test]
fn block_with_trailing_value() {
    let source = "{ 1; 2 }";
    let expected = Expr::Block {
        open: token(TokenKind::LeftBrace, source, 0, 1),
        inner: Block {
            stmts: vec![Stmt::Expr {
                expr: number(source, 2, 3),
                semicolon: Some(token(TokenKind::Semicolon, source, 3, 4)),
            }],
            expr: Some(Box::new(number(source, 5, 6))),
        },
        close: token(TokenKind::RightBrace, source, 7, 8),
    };
    assert_eq!(parse_value(source), expected);
}

#[test]
fn block_without_trailing_value() {
    let source = "{ 1; 2; }";
    let expected = Expr::Block {
        open: token(TokenKind::LeftBrace, source, 0, 1),
        inner: Block {
            stmts: vec![
                Stmt::Expr {
                    expr: number(source, 2, 3),
                    semicolon: Some(token(TokenKind::Semicolon, source, 3, 4)),
                },
                Stmt::Expr {
                    expr: number(source, 5, 6),
                    semicolon: Some(token(TokenKind::Semicolon, source, 6, 7)),
                },
            ],
            expr: None,
        },
        close: token(TokenKind::RightBrace, source, 8, 9),
    };
    assert_eq!(parse_value(source), expected);
}

#[test]
fn empty_block() {
    let source = "{}";
    let expected = Expr::Block {
        open: token(TokenKind::LeftBrace, source, 0, 1),
        inner: Block { stmts: vec![], expr: None },
        close: token(TokenKind::RightBrace, source, 1, 2),
    };
    assert_eq!(parse_value(source), expected);
}

#[test]
fn block_is_an_operand() {
    let source = "{1}+2";
    let block = Expr::Block {
        open: token(TokenKind::LeftBrace, source, 0, 1),
        inner: Block { stmts: vec![], expr: Some(Box::new(number(source, 1, 2))) },
        close: token(TokenKind::RightBrace, source, 2, 3),
    };
    let expected = bin_op_at(block, TokenKind::Plus, source, 3, number(source, 4, 5));
    assert_eq!(parse_value(source), expected);
}

#[test]
fn unclosed_block() {
    assert_eq!(parse("{ 1; 2"), Err(Error::UnexpectedEof));
    assert_eq!(parse("{ 1;"), Err(Error::UnexpectedEof));
    assert_eq!(parse("{"), Err(Error::UnexpectedEof));
}

#[test]
fn value_of_a_block_must_come_last() {
    assert_eq!(
        parse("{ 1 2 }"),
        Err(Error::UnexpectedToken { kind: TokenKind::Number, location: loc(4) })
    );
    assert_eq!(
        parse("{ 1 ) }"),
        Err(Error::UnexpectedToken { kind: TokenKind::RightParen, location: loc(4) })
    );
}

#[test]
fn statements_up_to_the_end_of_the_text() {
    let source = "1; ;2";
    let block = parse(source).unwrap();
    assert_eq!(
        block,
        Block {
            stmts: vec![
                Stmt::Expr {
                    expr: number(source, 0, 1),
                    semicolon: Some(token(TokenKind::Semicolon, source, 1, 2)),
                },
                Stmt::Empty { semicolon: token(TokenKind::Semicolon, source, 3, 4) },
            ],
            expr: Some(Box::new(number(source, 4, 5))),
        }
    );
}

#[test]
fn empty_text_is_an_empty_body() {
    assert_eq!(parse(""), Ok(Block { stmts: vec![], expr: None }));
    assert_eq!(parse(" \n\t"), Ok(Block { stmts: vec![], expr: None }));
    assert_eq!(Block::default(), Block { stmts: vec![], expr: None });
}

#[test]
fn closing_token_is_returned() {
    let source = "1; }2";
    let mut parser = Parser::new(source);
    let (block, close) = parser.parse_block_inner(Some(TokenKind::RightBrace)).unwrap();
    assert_eq!(block.stmts.len(), 1);
    assert_eq!(block.expr, None);
    assert_eq!(close, Some(token(TokenKind::RightBrace, source, 3, 4)));
    assert_eq!(parser.next(), Some(Ok(token(TokenKind::Number, source, 4, 5))));
    assert_eq!(parser.next(), None);
}

#[test]
fn top_level_value_must_come_last() {
    assert_eq!(
        parse("1 2"),
        Err(Error::UnexpectedToken { kind: TokenKind::Number, location: loc(2) })
    );
    assert_eq!(
        parse("1 }"),
        Err(Error::UnexpectedToken { kind: TokenKind::RightBrace, location: loc(2) })
    );
}

#[test]
fn token_that_starts_no_expression() {
    assert_eq!(
        parse(")"),
        Err(Error::UnexpectedToken { kind: TokenKind::RightParen, location: loc(0) })
    );
    assert_eq!(
        parse("1 + *"),
        Err(Error::UnexpectedToken { kind: TokenKind::Asterisk, location: loc(4) })
    );
    assert_eq!(
        parse("-1"),
        Err(Error::UnexpectedToken { kind: TokenKind::Minus, location: loc(0) })
    );
    assert_eq!(
        parse("}"),
        Err(Error::UnexpectedToken { kind: TokenKind::RightBrace, location: loc(0) })
    );
}

#[test]
fn operand_is_missing() {
    assert_eq!(parse("1 +"), Err(Error::UnexpectedEof));
    assert_eq!(parse("1 * (2 -"), Err(Error::UnexpectedEof));
}

#[test]
fn lexical_error_is_handed_on() {
    assert_eq!(
        parse("1 + a"),
        Err(Error::UnexpectedChar { character: 'a', location: loc(4) })
    );
    assert_eq!(
        parse("1 $"),
        Err(Error::UnexpectedChar { character: '$', location: loc(2) })
    );
    assert_eq!(
        parse("(1 ?"),
        Err(Error::UnexpectedChar { character: '?', location: loc(3) })
    );
    assert_eq!(
        parse("#"),
        Err(Error::UnexpectedChar { character: '#', location: loc(0) })
    );
}

#[test]
fn first_error_wins() {
    assert_eq!(
        parse("1; ) ; a"),
        Err(Error::UnexpectedToken { kind: TokenKind::RightParen, location: loc(3) })
    );
}

#[test]
fn expression_stops_before_a_looser_operator() {
    let source = "2 * 3 + 4";
    let mut parser = Parser::new(source);
    let first = parser.take().unwrap();
    let expr = parser.parse_with_precedence(Precedence::Sum, first).unwrap();
    assert_eq!(
        expr,
        bin_op_at(number(source, 0, 1), TokenKind::Asterisk, source, 2, number(source, 4, 5))
    );
    assert_eq!(parser.next_precedence(), Precedence::Sum);
    assert_eq!(parser.peek(), Some(Ok(token(TokenKind::Plus, source, 6, 7))));
    let mut parser = Parser::new(source);
    let first = parser.take().unwrap();
    let expr = parser.parse_with_precedence(Precedence::Product, first).unwrap();
    assert_eq!(expr, number(source, 0, 1));
    assert_eq!(parser.next_precedence(), Precedence::Product);
}

#[test]
fn statement_by_statement() {
    let source = "1 + 2; ; 3";
    let mut parser = Parser::new(source);
    let first = parser.take().unwrap();
    let stmt = parser.parse_stmt(first).unwrap();
    assert_eq!(
        stmt,
        Stmt::Expr {
            expr: bin_op_at(number(source, 0, 1), TokenKind::Plus, source, 2, number(source, 4, 5)),
            semicolon: Some(token(TokenKind::Semicolon, source, 5, 6)),
        }
    );
    let second = parser.take().unwrap();
    assert_eq!(
        parser.parse_stmt(second),
        Ok(Stmt::Empty { semicolon: token(TokenKind::Semicolon, source, 7, 8) })
    );
    let third = parser.take().unwrap();
    assert_eq!(
        parser.parse_stmt(third),
        Ok(Stmt::Expr { expr: number(source, 9, 10), semicolon: None })
    );
    assert_eq!(parser.take(), Err(Error::UnexpectedEof));
    assert_eq!(parser.next_precedence(), Precedence::Lowest);
}

#[test]
fn peek_reads_nothing() {
    let source = "1 2";
    let mut parser = Parser::new(source);
    assert_eq!(parser.peek(), Some(Ok(token(TokenKind::Number, source, 0, 1))));
    assert_eq!(parser.peek(), Some(Ok(token(TokenKind::Number, source, 0, 1))));
    assert_eq!(parser.next(), Some(Ok(token(TokenKind::Number, source, 0, 1))));
    assert_eq!(parser.peek(), Some(Ok(token(TokenKind::Number, source, 2, 3))));
    assert_eq!(parser.take(), Ok(token(TokenKind::Number, source, 2, 3)));
    assert_eq!(parser.peek(), None);
    assert_eq!(parser.next(), None);
}

#[test]
fn precedence_order() {
    assert!(Precedence::Lowest.below(Precedence::Sum));
    assert!(Precedence::Lowest.below(Precedence::Product));
    assert!(Precedence::Sum.below(Precedence::Product));
    assert!(!Precedence::Sum.below(Precedence::Sum));
    assert!(!Precedence::Product.below(Precedence::Sum));
    assert!(!Precedence::Lowest.below(Precedence::Lowest));
    assert!(Precedence::Lowest < Precedence::Sum && Precedence::Sum < Precedence::Product);
}

#[test]
fn registry_of_prefix_rules() {
    let source = "{(1)};+-*/";
    let kinds = [
        (TokenKind::LeftBrace, true),
        (TokenKind::LeftParen, true),
        (TokenKind::Number, true),
        (TokenKind::RightParen, false),
        (TokenKind::RightBrace, false),
        (TokenKind::Semicolon, false),
        (TokenKind::Plus, false),
        (TokenKind::Minus, false),
        (TokenKind::Asterisk, false),
        (TokenKind::Slash, false),
    ];
    for (i, (kind, has_rule)) in kinds.into_iter().enumerate() {
        assert_eq!(prefix_parselet(&token(kind, source, i, i + 1)).is_some(), has_rule);
    }
    assert!(matches!(
        prefix_parselet(&token(TokenKind::LeftBrace, source, 0, 1)),
        Some(PrefixParselet::Block(_))
    ));
    assert!(matches!(
        prefix_parselet(&token(TokenKind::LeftParen, source, 1, 2)),
        Some(PrefixParselet::Group(_))
    ));
    assert!(matches!(
        prefix_parselet(&token(TokenKind::Number, source, 2, 3)),
        Some(PrefixParselet::Number(_))
    ));
}

#[test]
fn registry_of_infix_rules() {
    let source = "+-*/(){};1";
    let sum = [TokenKind::Plus, TokenKind::Minus];
    let product = [TokenKind::Asterisk, TokenKind::Slash];
    for kind in sum {
        let rule = infix_parselet(&token(kind, source, 0, 1)).unwrap();
        assert_eq!(rule, InfixParselet::BinOp(bin_op::Parselet::new(kind)));
        assert_eq!(rule.precedence(), Precedence::Sum);
    }
    for kind in product {
        let rule = infix_parselet(&token(kind, source, 0, 1)).unwrap();
        assert_eq!(rule, InfixParselet::BinOp(bin_op::Parselet::new(kind)));
        assert_eq!(rule.precedence(), Precedence::Product);
    }
    for kind in [
        TokenKind::LeftParen,
        TokenKind::RightParen,
        TokenKind::LeftBrace,
        TokenKind::RightBrace,
        TokenKind::Semicolon,
        TokenKind::Number,
    ] {
        assert_eq!(infix_parselet(&token(kind, source, 0, 1)), None);
    }
}

#[test]
fn binary_rule() {
    assert_eq!(bin_op::Parselet::new(TokenKind::Plus).kind, TokenKind::Plus);
    assert_eq!(bin_op::Parselet::new(TokenKind::Minus).precedence(), Precedence::Sum);
    assert_eq!(bin_op::Parselet::new(TokenKind::Slash).precedence(), Precedence::Product);
    let source = "1 - 2 * 3 - 4";
    let mut parser = Parser::new(source);
    let left = Expr::Number(parser.take().unwrap());
    let op = parser.take().unwrap();
    let joined = bin_op::Parselet::new(op.kind).parse(&mut parser, left, op).unwrap();
    assert_eq!(
        joined,
        bin_op_at(
            number(source, 0, 1),
            TokenKind::Minus,
            source,
            2,
            bin_op_at(number(source, 4, 5), TokenKind::Asterisk, source, 6, number(source, 8, 9)),
        )
    );
    assert_eq!(parser.peek(), Some(Ok(token(TokenKind::Minus, source, 10, 11))));
}

#[test]
fn expression_from_its_first_token() {
    let source = "1 + 2 * 3 ; 4";
    let mut parser = Parser::new(source);
    let expr = parser.parse_expression(Precedence::Lowest).unwrap();
    assert_eq!(
        expr,
        bin_op_at(
            number(source, 0, 1),
            TokenKind::Plus,
            source,
            2,
            bin_op_at(number(source, 4, 5), TokenKind::Asterisk, source, 6, number(source, 8, 9)),
        )
    );
    assert_eq!(parser.peek(), Some(Ok(token(TokenKind::Semicolon, source, 10, 11))));
    let mut parser = Parser::new(source);
    assert_eq!(parser.parse_expression(Precedence::Sum), Ok(number(source, 0, 1)));
    assert_eq!(parser.peek(), Some(Ok(token(TokenKind::Plus, source, 2, 3))));
}

#[test]
fn expression_needs_a_first_token() {
    assert_eq!(Parser::new("").parse_expression(Precedence::Lowest), Err(Error::UnexpectedEof));
    assert_eq!(Parser::new("  ").parse_statement(), Err(Error::UnexpectedEof));
    assert_eq!(
        Parser::new("!").parse_expression(Precedence::Lowest),
        Err(Error::UnexpectedChar { character: '!', location: loc(0) })
    );
    assert_eq!(
        Parser::new(";").parse_expression(Precedence::Lowest),
        Err(Error::UnexpectedToken { kind: TokenKind::Semicolon, location: loc(0) })
    );
}

#[test]
fn statement_from_its_first_token() {
    let source = ";1;2";
    let mut parser = Parser::new(source);
    assert_eq!(
        parser.parse_statement(),
        Ok(Stmt::Empty { semicolon: token(TokenKind::Semicolon, source, 0, 1) })
    );
    assert_eq!(
        parser.parse_statement(),
        Ok(Stmt::Expr {
            expr: number(source, 1, 2),
            semicolon: Some(token(TokenKind::Semicolon, source, 2, 3)),
        })
    );
    assert_eq!(
        parser.parse_statement(),
        Ok(Stmt::Expr { expr: number(source, 3, 4), semicolon: None })
    );
    assert_eq!(parser.parse_statement(), Err(Error::UnexpectedEof));
}
