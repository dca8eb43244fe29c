use wit::{Block, Expr, Parser, Stmt};

fn text<'a>(source: &'a str, expr: &Expr<'a>) -> &'a str {
    let span = expr.span();
    &source[span.start.byte_offset..span.end.byte_offset]
}

fn parse(source: &str) -> Block<'_> {
    Parser::new(source).parse_block_inner(None).unwrap().0
}

/// Checks, of `expr` and of every expression in it, that the text under its
/// span starts with its first lexeme and ends with its last, and returns the
/// number of expressions seen.
fn check<'a>(source: &'a str, expr: &Expr<'a>) -> usize {
    let under = text(source, expr);
    assert_eq!(under, under.trim());
    match expr {
        Expr::Number(token) => {
            assert_eq!(under, token.lexeme);
            1
        }
        Expr::BinOp { left, op, right } => {
            assert!(under.starts_with(text(source, left)));
            assert!(under.ends_with(text(source, right)));
            assert!(left.span().end.byte_offset <= op.span.start.byte_offset);
            assert!(op.span.end.byte_offset <= right.span().start.byte_offset);
            1 + check(source, left) + check(source, right)
        }
        Expr::Group { open, expr, close } => {
            assert!(under.starts_with(open.lexeme));
            assert!(under.ends_with(close.lexeme));
            1 + expr.as_ref().map_or(0, |inner| check(source, inner))
        }
        Expr::Block { open, inner, close } => {
            assert!(under.starts_with(open.lexeme));
            assert!(under.ends_with(close.lexeme));
            1 + check_body(source, inner)
        }
    }
}

fn check_body<'a>(source: &'a str, body: &Block<'a>) -> usize {
    let mut seen = 0;
    for stmt in &body.stmts {
        if let Stmt::Expr { expr, .. } = stmt {
            seen += check(source, expr);
        }
    }
    if let Some(expr) = &body.expr {
        seen += check(source, expr);
    }
    seen
}

#[test]
fn span_of_a_number() {
    let source = "  12.5  ";
    let block = parse(source);
    assert_eq!(text(source, block.expr.as_ref().unwrap()), "12.5");
}

#[test]
fn span_of_a_binary_operation() {
    let source = " 1 +  2*3 ;";
    let block = parse(source);
    let Stmt::Expr { expr, .. } = &block.stmts[0] else { panic!("an expression was expected") };
    assert_eq!(text(source, expr), "1 +  2*3");
    let Expr::BinOp { left, right, .. } = expr else { panic!("an operation was expected") };
    assert_eq!(text(source, left), "1");
    assert_eq!(text(source, right), "2*3");
}

#[test]
fn span_of_a_group_and_of_a_block() {
    let source = "( 1 ) * { 2; ( ) }";
    let block = parse(source);
    let expr = block.expr.as_ref().unwrap();
    assert_eq!(text(source, expr), source);
    let Expr::BinOp { left, right, .. } = &**expr else { panic!("an operation was expected") };
    assert_eq!(text(source, left), "( 1 )");
    assert_eq!(text(source, right), "{ 2; ( ) }");
    let Expr::Block { inner, .. } = &**right else { panic!("a block was expected") };
    assert_eq!(text(source, inner.expr.as_ref().unwrap()), "( )");
}

#[test]
fn span_of_a_statement() {
    let source = "1 + 2 ;\n ; 3";
    let block = parse(source);
    let first = block.stmts[0].span();
    assert_eq!(&source[first.start.byte_offset..first.end.byte_offset], "1 + 2 ;");
    let second = block.stmts[1].span();
    assert_eq!(&source[second.start.byte_offset..second.end.byte_offset], ";");
    assert_eq!((second.start.line, second.start.col), (2, 2));
    let mut parser = Parser::new("4 * 5");
    let token = parser.take().unwrap();
    let stmt = parser.parse_stmt(token).unwrap();
    assert_eq!(stmt.span().start.byte_offset, 0);
    assert_eq!(stmt.span().end.byte_offset, 5);
}

#[test]
fn spans_over_lines_and_wide_characters() {
    let source = "\u{2003}(1 +\n\u{a0}\u{a0}22)\n* {\n 3 ; 4.\n}";
    let block = parse(source);
    let expr = block.expr.as_ref().unwrap();
    assert_eq!(text(source, expr), source.trim());
    let span = expr.span();
    assert_eq!((span.start.byte_offset, span.start.line, span.start.col), (3, 1, 2));
    assert_eq!((span.end.byte_offset, span.end.line, span.end.col), (source.len(), 5, 2));
    let Expr::BinOp { left, .. } = &**expr else { panic!("an operation was expected") };
    let inner = left.span();
    assert_eq!((inner.end.byte_offset, inner.end.line, inner.end.col), (15, 2, 6));
}

#[test]
fn every_span_covers_what_was_read() {
    for source in [
        "1",
        "3 - 2 - 1",
        "1 + 2 * 3",
        "(1 + 2) * 3",
        "{ 1; 2 }",
        "{ 1; 2; }",
        " ( ( 1.5 ) / { ; ; 2 * (3) ; 4 } ) - () ",
        "1;\n{ 2 +\n 3 };\n\n(4)",
    ] {
        let block = parse(source);
        assert!(check_body(source, &block) > 0);
    }
}
