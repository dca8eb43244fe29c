//! What the tokenizer computes, as functions on sequences of characters.

use vstd::prelude::*;
use crate::lexer::span::{Loc, Span};
use crate::lexer::token::{Token, TokenKind, TokenView};
use crate::Error;

verus! {

/// What the tokenizer yields on one pull: a token or a lexical error.
pub type Lexed = Result<TokenView, Error>;

/// Whether `c` is one of the ten ASCII digits.
pub open spec fn is_digit(c: char) -> bool {
    '0' <= c && c <= '9'
}

/// Whether `char::is_whitespace` holds of `c`.
pub uninterp spec fn unicode_whitespace(c: char) -> bool;

/// `char::is_whitespace` is a function of the character alone; its result is
/// known here only by the name `unicode_whitespace`.
pub assume_specification[ char::is_whitespace ](c: char) -> (b: bool)
    ensures
        b == unicode_whitespace(c),
;

/// The kind of the token that consists of the single character `c`, if
/// there is one.
pub open spec fn single_char_kind(c: char) -> Option<TokenKind> {
    if c == '(' {
        Some(TokenKind::LeftParen)
    } else if c == ')' {
        Some(TokenKind::RightParen)
    } else if c == '{' {
        Some(TokenKind::LeftBrace)
    } else if c == '}' {
        Some(TokenKind::RightBrace)
    } else if c == ';' {
        Some(TokenKind::Semicolon)
    } else if c == '+' {
        Some(TokenKind::Plus)
    } else if c == '-' {
        Some(TokenKind::Minus)
    } else if c == '*' {
        Some(TokenKind::Asterisk)
    } else if c == '/' {
        Some(TokenKind::Slash)
    } else {
        None
    }
}

/// How many digits `s` begins with.
pub open spec fn digit_run(s: Seq<char>) -> nat
    decreases s.len(),
{
    if s.len() > 0 && is_digit(s[0]) {
        1 + digit_run(s.drop_first())
    } else {
        0
    }
}

/// The length of the longest numeric lexeme that `s` begins with: a run of
/// digits, then optionally a `.` and a second, possibly empty, run of digits.
pub open spec fn number_len(s: Seq<char>) -> nat {
    let whole = digit_run(s);
    if whole < s.len() && s[whole as int] == '.' {
        whole + 1 + digit_run(s.skip(whole as int + 1))
    } else {
        whole
    }
}

/// The outcome of one pull on the tokenizer: what it yields, the characters
/// left after it, and the location where they start.
pub struct Scan {
    pub item: Option<Lexed>,
    pub rest: Seq<char>,
    pub loc: Loc,
}

/// The token of kind `kind` made of the first `n` characters of `s`, which
/// start at `loc`.
pub open spec fn token_at(kind: TokenKind, s: Seq<char>, n: nat, loc: Loc) -> Scan {
    let end = loc.advance_over(s.take(n as int));
    Scan {
        item: Some(Ok(TokenView { kind, lexeme: s.take(n as int), span: Span { start: loc, end } })),
        rest: s.skip(n as int),
        loc: end,
    }
}

/// One pull on the characters `s`, which start at `loc`. Whitespace is
/// skipped; the end of the text yields nothing; a character that starts no
/// token yields an error and is passed over.
pub open spec fn scan(s: Seq<char>, loc: Loc) -> Scan
    decreases s.len(),
{
    if s.len() == 0 {
        Scan { item: None, rest: s, loc }
    } else {
        let c = s[0];
        match single_char_kind(c) {
            Some(kind) => token_at(kind, s, 1, loc),
            None => if is_digit(c) {
                token_at(TokenKind::Number, s, number_len(s), loc)
            } else if unicode_whitespace(c) {
                scan(s.drop_first(), loc.advance(c))
            } else {
                Scan {
                    item: Some(Err(Error::UnexpectedChar { character: c, location: loc })),
                    rest: s.drop_first(),
                    loc: loc.advance(c),
                }
            },
        }
    }
}

/// A run of digits lies within its text, holds digits only, and ends at the
/// end of the text or before a character that is no digit.
pub proof fn lemma_digit_run(s: Seq<char>)
    ensures
        digit_run(s) <= s.len(),
        forall|i: int| 0 <= i < digit_run(s) ==> is_digit(#[trigger] s[i]),
        digit_run(s) < s.len() ==> !is_digit(s[digit_run(s) as int]),
    decreases s.len(),
{
    if s.len() > 0 && is_digit(s[0]) {
        let tail = s.drop_first();
        lemma_digit_run(tail);
        assert forall|i: int| 0 <= i < digit_run(s) implies is_digit(#[trigger] s[i]) by {
            if i > 0 {
                assert(s[i] == tail[i - 1]);
            }
        }
        if digit_run(s) < s.len() {
            assert(s[digit_run(s) as int] == tail[digit_run(tail) as int]);
        }
    }
}

/// The run of digits is the only prefix of digits that cannot be extended.
pub proof fn lemma_digit_run_unique(s: Seq<char>, n: int)
    requires
        0 <= n <= s.len(),
        forall|i: int| 0 <= i < n ==> is_digit(#[trigger] s[i]),
        n < s.len() ==> !is_digit(s[n]),
    ensures
        digit_run(s) == n,
    decreases n,
{
    if n > 0 {
        let tail = s.drop_first();
        assert forall|i: int| 0 <= i < n - 1 implies is_digit(#[trigger] tail[i]) by {
            assert(tail[i] == s[i + 1]);
        }
        lemma_digit_run_unique(tail, n - 1);
    }
}

/// A numeric lexeme lies within its text, and is not empty where the text
/// begins with a digit.
pub proof fn lemma_number_len(s: Seq<char>)
    ensures
        number_len(s) <= s.len(),
        s.len() > 0 && is_digit(s[0]) ==> number_len(s) >= 1,
{
    lemma_digit_run(s);
    let whole = digit_run(s);
    if whole < s.len() {
        lemma_digit_run(s.skip(whole as int + 1));
    }
}

/// Every pull that yields something uses up at least one character, and none
/// adds any.
pub proof fn lemma_scan_consumes(s: Seq<char>, loc: Loc)
    ensures
        scan(s, loc).rest.len() <= s.len(),
        scan(s, loc).item is Some ==> scan(s, loc).rest.len() < s.len(),
    decreases s.len(),
{
    if s.len() > 0 {
        let c = s[0];
        lemma_number_len(s);
        if single_char_kind(c) is None && !is_digit(c) && unicode_whitespace(c) {
            lemma_scan_consumes(s.drop_first(), loc.advance(c));
        }
    }
}

/// A pull that yields nothing has reached the end of the text.
pub proof fn lemma_scan_none(s: Seq<char>, loc: Loc)
    ensures
        scan(s, loc).item is None ==> scan(s, loc).rest.len() == 0,
    decreases s.len(),
{
    if s.len() > 0 {
        let c = s[0];
        if single_char_kind(c) is None && !is_digit(c) && unicode_whitespace(c) {
            lemma_scan_none(s.drop_first(), loc.advance(c));
        }
    }
}

/// Everything the tokenizer yields on the characters `s`, which start at
/// `loc`, pull after pull until the text ends.
pub open spec fn scan_all(s: Seq<char>, loc: Loc) -> Seq<Lexed>
    decreases s.len(),
{
    let first = scan(s, loc);
    match first.item {
        None => Seq::empty(),
        Some(item) => {
            proof {
                lemma_scan_consumes(s, loc);
            }
            seq![item] + scan_all(first.rest, first.loc)
        },
    }
}

/// Whether `rest` is what is left of `ts` after some of its first tokens
/// have been read.
pub open spec fn is_rest_of(rest: Seq<Lexed>, ts: Seq<Lexed>) -> bool {
    rest.len() <= ts.len() && rest == ts.skip(ts.len() - rest.len())
}

/// What is left of what is left of `c` is left of `c`.
pub proof fn lemma_rest_trans(a: Seq<Lexed>, b: Seq<Lexed>, c: Seq<Lexed>)
    requires
        is_rest_of(a, b),
        is_rest_of(b, c),
    ensures
        is_rest_of(a, c),
{
    assert(a =~= c.skip(c.len() - a.len()));
}

/// What a pull yielded, with the token's lexeme as a sequence of characters.
pub open spec fn lexed_view(item: Result<Token<'_>, Error>) -> Lexed {
    match item {
        Ok(token) => Ok(token@),
        Err(error) => Err(error),
    }
}

/// What a pull yielded, if anything, with the token's lexeme as a sequence
/// of characters.
pub open spec fn pull_view(item: Option<Result<Token<'_>, Error>>) -> Option<Lexed> {
    match item {
        Some(item) => Some(lexed_view(item)),
        None => None,
    }
}

} // verus!
