use wit::lexer::span::len_utf8;
use wit::{Error, Lexer, Loc, Span, Token, TokenKind, Tokens};

fn loc(byte_offset: usize, line: usize, col: usize) -> Loc {
    Loc { byte_offset, line, col }
}

fn all(source: &str) -> Vec<Result<Token<'_>, Error>> {
    let mut lexer = Lexer::new(source);
    let mut items = Vec::new();
    while let Some(item) = lexer.next() {
        items.push(item);
    }
    items
}

fn kinds(source: &str) -> Vec<TokenKind> {
    all(source).into_iter().map(|item| item.unwrap().kind).collect()
}

#[test]
fn empty_text_yields_nothing() {
    assert!(all("").is_empty());
}

#[test]
fn whitespace_yields_nothing() {
    let mut lexer = Lexer::new(" \t\n\r \u{a0}\u{2003}\u{3000} ");
    assert!(lexer.next().is_none());
    assert!(lexer.next().is_none());
}

#[test]
fn number_alone_is_one_token() {
    for source in ["0", "7", "78", "78.", "3.14", "007.50", "1234567890.0987654321"] {
        let items = all(source);
        assert_eq!(items.len(), 1);
        let token = items[0].unwrap();
        assert_eq!(token.kind, TokenKind::Number);
        assert_eq!(token.lexeme, source);
        assert_eq!(
            token.span,
            Span { start: loc(0, 1, 1), end: loc(source.len(), 1, source.len() + 1) }
        );
    }
}

#[test]
fn number_with_trailing_point() {
    let mut lexer = Lexer::new("78.");
    let token = lexer.next().unwrap().unwrap();
    assert_eq!(token.kind, TokenKind::Number);
    assert_eq!(token.lexeme, "78.");
    assert_eq!(token.span, Span { start: loc(0, 1, 1), end: loc(3, 1, 4) });
    assert!(lexer.next().is_none());
}

#[test]
fn number_takes_one_point_only() {
    let items = all("1.2.3");
    assert_eq!(items.len(), 3);
    assert_eq!(items[0].unwrap().lexeme, "1.2");
    assert_eq!(
        items[1],
        Err(Error::UnexpectedChar { character: '.', location: loc(3, 1, 4) })
    );
    assert_eq!(items[2].unwrap().lexeme, "3");
}

#[test]
fn number_is_the_longest_match() {
    let items = all("12+345.6)");
    assert_eq!(items.len(), 4);
    assert_eq!(items[0].unwrap().lexeme, "12");
    assert_eq!(items[1].unwrap().lexeme, "+");
    assert_eq!(items[2].unwrap().lexeme, "345.6");
    assert_eq!(items[3].unwrap().lexeme, ")");
}

#[test]
fn point_without_digit_before_it_is_an_error() {
    let items = all(".5");
    assert_eq!(
        items[0],
        Err(Error::UnexpectedChar { character: '.', location: loc(0, 1, 1) })
    );
    assert_eq!(items[1].unwrap().lexeme, "5");
}

#[test]
fn single_character_tokens() {
    assert_eq!(
        kinds("(){};+-*/"),
        vec![
            TokenKind::LeftParen,
            TokenKind::RightParen,
            TokenKind::LeftBrace,
            TokenKind::RightBrace,
            TokenKind::Semicolon,
            TokenKind::Plus,
            TokenKind::Minus,
            TokenKind::Asterisk,
            TokenKind::Slash,
        ]
    );
}

#[test]
fn single_character_token_spans() {
    let items = all("(+");
    assert_eq!(
        items[0],
        Ok(Token {
            kind: TokenKind::LeftParen,
            lexeme: "(",
            span: Span { start: loc(0, 1, 1), end: loc(1, 1, 2) },
        })
    );
    assert_eq!(
        items[1],
        Ok(Token {
            kind: TokenKind::Plus,
            lexeme: "+",
            span: Span { start: loc(1, 1, 2), end: loc(2, 1, 3) },
        })
    );
}

#[test]
fn minus_is_no_part_of_a_number() {
    let items = all("-1");
    assert_eq!(items.len(), 2);
    assert_eq!(items[0].unwrap().kind, TokenKind::Minus);
    assert_eq!(items[1].unwrap().lexeme, "1");
}

#[test]
fn unexpected_char_is_passed_over() {
    let mut lexer = Lexer::new("1 @ 2");
    assert_eq!(lexer.next().unwrap().unwrap().lexeme, "1");
    assert_eq!(
        lexer.next().unwrap(),
        Err(Error::UnexpectedChar { character: '@', location: loc(2, 1, 3) })
    );
    assert_eq!(lexer.next().unwrap().unwrap().lexeme, "2");
    assert!(lexer.next().is_none());
}

#[test]
fn letters_are_unexpected() {
    assert_eq!(
        all("x")[0],
        Err(Error::UnexpectedChar { character: 'x', location: loc(0, 1, 1) })
    );
}

#[test]
fn non_ascii_digit_is_unexpected() {
    assert_eq!(
        all("\u{663}")[0],
        Err(Error::UnexpectedChar { character: '\u{663}', location: loc(0, 1, 1) })
    );
}

#[test]
fn lines_and_columns() {
    let items = all("1\n  22\n\n+");
    assert_eq!(items[0].unwrap().span, Span { start: loc(0, 1, 1), end: loc(1, 1, 2) });
    assert_eq!(items[1].unwrap().span, Span { start: loc(4, 2, 3), end: loc(6, 2, 5) });
    assert_eq!(items[2].unwrap().span, Span { start: loc(8, 4, 1), end: loc(9, 4, 2) });
}

#[test]
fn byte_offsets_count_bytes_and_columns_count_characters() {
    let source = "\u{a0}\u{2003}7 \u{e9}";
    let items = all(source);
    assert_eq!(items[0].unwrap().span, Span { start: loc(5, 1, 3), end: loc(6, 1, 4) });
    assert_eq!(
        items[1],
        Err(Error::UnexpectedChar { character: '\u{e9}', location: loc(7, 1, 5) })
    );
    assert_eq!(items.len(), 2);
}

#[test]
fn error_behind_a_wide_character_has_the_right_offset() {
    let items = all("\u{1f600}\u{20ac}1");
    assert_eq!(
        items[0],
        Err(Error::UnexpectedChar { character: '\u{1f600}', location: loc(0, 1, 1) })
    );
    assert_eq!(
        items[1],
        Err(Error::UnexpectedChar { character: '\u{20ac}', location: loc(4, 1, 2) })
    );
    assert_eq!(items[2].unwrap().span, Span { start: loc(7, 1, 3), end: loc(8, 1, 4) });
}

#[test]
fn lexeme_is_the_text_under_the_span() {
    let source = " (12.5 +\n\u{2003}3)*4 ";
    for item in all(source) {
        let token = item.unwrap();
        assert_eq!(
            &source[token.span.start.byte_offset..token.span.end.byte_offset],
            token.lexeme
        );
    }
}

#[test]
fn tokens_of_a_str() {
    let mut lexer = "1+2".tokens();
    assert_eq!(lexer.next().unwrap().unwrap().lexeme, "1");
    assert_eq!(lexer.next().unwrap().unwrap().kind, TokenKind::Plus);
    assert_eq!(lexer.next().unwrap().unwrap().lexeme, "2");
    assert!(lexer.next().is_none());
}

#[test]
fn end_of_text_is_final() {
    let mut lexer = Lexer::new("1 ");
    assert!(lexer.next().is_some());
    assert!(lexer.next().is_none());
    assert!(lexer.next().is_none());
}

#[test]
fn origin_is_the_default() {
    assert_eq!(Loc::default(), loc(0, 1, 1));
    assert_eq!(Span::default(), Span { start: loc(0, 1, 1), end: loc(0, 1, 1) });
}

#[test]
fn step_over_a_character() {
    assert_eq!(loc(0, 1, 1).step('a'), loc(1, 1, 2));
    assert_eq!(loc(10, 3, 7).step('\n'), loc(11, 4, 1));
    assert_eq!(loc(10, 3, 7).step('\u{e9}'), loc(12, 3, 8));
    assert_eq!(loc(10, 3, 7).step('\u{20ac}'), loc(13, 3, 8));
    assert_eq!(loc(10, 3, 7).step('\u{1f600}'), loc(14, 3, 8));
}

#[test]
fn step_saturates() {
    let max = usize::MAX;
    assert_eq!(loc(max, max, max).step('a'), loc(max, max, max));
    assert_eq!(loc(max - 1, max, 5).step('\n'), loc(max, max, 1));
}

#[test]
fn utf8_lengths() {
    assert_eq!(len_utf8('\0'), 1);
    assert_eq!(len_utf8('\u{7f}'), 1);
    assert_eq!(len_utf8('\u{80}'), 2);
    assert_eq!(len_utf8('\u{7ff}'), 2);
    assert_eq!(len_utf8('\u{800}'), 3);
    assert_eq!(len_utf8('\u{ffff}'), 3);
    assert_eq!(len_utf8('\u{10000}'), 4);
    assert_eq!(len_utf8('\u{10ffff}'), 4);
    for c in ['a', '\u{e9}', '\u{20ac}', '\u{1f600}'] {
        assert_eq!(len_utf8(c), c.len_utf8());
    }
}
