//! The tokenizer: a pull-based, single-pass producer of tokens with spans.

use vstd::prelude::*;
use vstd::slice::axiom_spec_len;
use vstd::utf8::encode_utf8;
use itertools::PeekNth;
use std::str::Chars;
use crate::lexer::cursor::pending;
use crate::lexer::laws::lemma_token_at;
use crate::lexer::model::{
    digit_run, is_digit, is_rest_of, lemma_digit_run_unique, lemma_number_len, lemma_rest_trans,
    lemma_scan_consumes, lemma_scan_none, number_len, pull_view, scan, scan_all,
    single_char_kind, Scan,
};
use crate::lexer::span::{Loc, Span};
use crate::lexer::text::{lemma_byte_offset, lemma_loc_step, loc_at};
use crate::lexer::token::{Token, TokenKind, TokenView};
use crate::Error;

pub mod cursor;
pub mod laws;
pub mod model;
pub mod span;
pub mod text;
pub mod token;

verus! {

/// A tokenizer over one source text. Each call of `next` reads on from where
/// the last one stopped; to start over, make a new tokenizer.
pub struct Lexer<'source> {
    /// The whole text.
    source: &'source str,
    /// The characters of the text that are yet to be read.
    chars: PeekNth<Chars<'source>>,
    /// From the start of the lexeme that is being read to the characters
    /// that are yet to be read.
    span: Span,
    /// The index in the text of the character at which `span` starts.
    start: Ghost<int>,
}

/// Whether `c` is one of the ten ASCII digits.
fn digit(c: char) -> (b: bool)
    ensures
        b == is_digit(c),
{
    '0' <= c && c <= '9'
}

impl<'source> Lexer<'source> {
    /// The whole text that this tokenizer reads.
    pub closed spec fn source(&self) -> Seq<char> {
        self.source@
    }

    /// The characters that are yet to be read.
    pub closed spec fn rest(&self) -> Seq<char> {
        pending(self.chars)
    }

    /// The location at which the characters yet to be read start.
    pub closed spec fn loc(&self) -> Loc {
        self.span.end
    }

    /// How many characters have been read.
    pub closed spec fn pos(&self) -> int {
        self.source@.len() - pending(self.chars).len()
    }

    /// Holds at any moment: the span lies in the text between the start of
    /// the lexeme that is being read and the characters yet to be read.
    spec fn inv(&self) -> bool {
        &&& encode_utf8(self.source@).len() <= usize::MAX
        &&& 0 <= self.start@ <= self.pos()
        &&& pending(self.chars) == self.source@.skip(self.pos())
        &&& self.span.start == loc_at(self.source@, self.start@)
        &&& self.span.end == loc_at(self.source@, self.pos())
    }

    /// Holds where no lexeme is being read.
    spec fn settled(&self) -> bool {
        self.inv() && self.start@ == self.pos()
    }

    /// Holds between two pulls: no lexeme is being read, the location is the
    /// one reached from the origin over the characters read so far, and
    /// what is yet to be yielded is the end of what the whole text yields.
    pub closed spec fn wf(&self) -> bool {
        &&& self.settled()
        &&& is_rest_of(
            scan_all(self.rest(), self.loc()),
            scan_all(self.source@, Loc::origin()),
        )
    }

    /// Between two pulls the characters yet to be read are the text from
    /// `pos()` on, and they start at the location reached over those before.
    pub proof fn lemma_position(&self)
        requires
            self.wf(),
        ensures
            0 <= self.pos() <= self.source().len(),
            self.rest() == self.source().skip(self.pos()),
            self.loc() == loc_at(self.source(), self.pos()),
            encode_utf8(self.source()).len() <= usize::MAX,
            is_rest_of(
                scan_all(self.rest(), self.loc()),
                scan_all(self.source(), Loc::origin()),
            ),
    {
    }

    /// A tokenizer at the start of `source`.
    pub fn new(source: &'source str) -> (lexer: Self)
        ensures
            lexer.wf(),
            lexer.source() == source@,
            lexer.rest() == source@,
            lexer.loc() == Loc::origin(),
    {
        let chars = cursor::cursor(source.chars());
        // The bytes of the text are a slice, so that their number fits a `usize`.
        let bytes = source.as_bytes();
        proof {
            axiom_spec_len(bytes);
            assert(source@.skip(0) =~= source@);
            assert(source@.take(0) =~= Seq::<char>::empty());
            let all = scan_all(source@, Loc::origin());
            assert(all.skip(0) =~= all);
        }
        Lexer { source, chars, span: Span::default(), start: Ghost(0) }
    }

    /// The next character, which stays unread.
    fn peek(&mut self) -> (c: Option<char>)
        requires
            old(self).inv(),
        ensures
            final(self).inv(),
            final(self).source@ == old(self).source@,
            final(self).start@ == old(self).start@,
            final(self).pos() == old(self).pos(),
            final(self).span == old(self).span,
            c == (if old(self).pos() < old(self).source@.len() {
                Some(old(self).source@[old(self).pos()])
            } else {
                None
            }),
    {
        cursor::peek(&mut self.chars)
    }

    /// Reads the next character and extends the span over it.
    fn advance(&mut self) -> (c: Option<char>)
        requires
            old(self).inv(),
        ensures
            final(self).inv(),
            final(self).source@ == old(self).source@,
            final(self).start@ == old(self).start@,
            final(self).span.start == old(self).span.start,
            c == (if old(self).pos() < old(self).source@.len() {
                Some(old(self).source@[old(self).pos()])
            } else {
                None
            }),
            final(self).pos() == (if c is Some {
                old(self).pos() + 1
            } else {
                old(self).pos()
            }),
    {
        let next = cursor::advance(&mut self.chars);
        if let Some(c) = next {
            self.span.end = self.span.end.step(c);
            proof {
                let source = self.source@;
                let pos = old(self).pos();
                assert(source.skip(pos).drop_first() =~= source.skip(pos + 1));
                assert(source.take(pos + 1).drop_last() =~= source.take(pos));
            }
        }
        next
    }

    /// Ends the lexeme that was being read: the next one starts where it
    /// ended.
    fn close_span(&mut self)
        requires
            old(self).inv(),
        ensures
            final(self).settled(),
            final(self).source@ == old(self).source@,
            final(self).pos() == old(self).pos(),
    {
        self.span.start = self.span.end;
        self.start = Ghost(self.pos());
    }

    /// The text of the lexeme that is being read.
    fn get_lexeme(&self) -> (lexeme: &'source str)
        requires
            self.inv(),
        ensures
            lexeme@ == self.source@.subrange(self.start@, self.pos()),
    {
        proof {
            lemma_byte_offset(self.source@, self.start@);
            lemma_byte_offset(self.source@, self.pos());
        }
        text::slice(
            self.source,
            self.span.start.byte_offset,
            self.span.end.byte_offset,
            Ghost(self.start@),
            Ghost(self.pos()),
        )
    }

    /// The token of kind `kind` whose lexeme is the one that was being read.
    fn token(&mut self, kind: TokenKind) -> (token: Token<'source>)
        requires
            old(self).inv(),
        ensures
            final(self).settled(),
            final(self).source@ == old(self).source@,
            final(self).pos() == old(self).pos(),
            token@ == (TokenView {
                kind,
                lexeme: old(self).source@.subrange(old(self).start@, old(self).pos()),
                span: Span {
                    start: loc_at(old(self).source@, old(self).start@),
                    end: loc_at(old(self).source@, old(self).pos()),
                },
            }),
    {
        let token = Token { kind, lexeme: self.get_lexeme(), span: self.span };
        self.close_span();
        token
    }

    /// Reads on to the end of the run of digits that the next character
    /// starts, if it starts one.
    fn digits(&mut self)
        requires
            old(self).inv(),
        ensures
            final(self).inv(),
            final(self).source@ == old(self).source@,
            final(self).start@ == old(self).start@,
            final(self).pos() == old(self).pos() + digit_run(
                old(self).source@.skip(old(self).pos()),
            ),
    {
        let ghost begin = self.pos();
        let ghost text = self.source@.skip(begin);
        loop
            invariant
                self.inv(),
                self.source@ == old(self).source@,
                self.start@ == old(self).start@,
                begin == old(self).pos(),
                text == self.source@.skip(begin),
                0 <= begin <= self.pos() <= self.source@.len(),
                forall|i: int| 0 <= i < self.pos() - begin ==> is_digit(#[trigger] text[i]),
            ensures
                self.inv(),
                self.source@ == old(self).source@,
                self.start@ == old(self).start@,
                self.pos() == begin + digit_run(text),
            decreases self.source@.len() - self.pos(),
        {
            let more = match self.peek() {
                Some(c) => digit(c),
                None => false,
            };
            if !more {
                proof {
                    lemma_digit_run_unique(text, self.pos() - begin);
                }
                break;
            }
            let ghost before = self.pos();
            self.advance();
            assert forall|i: int| 0 <= i < self.pos() - begin implies is_digit(
                #[trigger] text[i],
            ) by {
                if i == before - begin {
                    assert(text[i] == self.source@[before]);
                }
            }
        }
    }

    /// The numeric token whose first digit has just been read.
    fn number(&mut self) -> (token: Token<'source>)
        requires
            old(self).inv(),
            old(self).pos() == old(self).start@ + 1,
            is_digit(old(self).source@[old(self).start@]),
        ensures
            final(self).settled(),
            final(self).source@ == old(self).source@,
            final(self).pos() == old(self).start@ + number_len(
                old(self).source@.skip(old(self).start@),
            ),
            token@ == (TokenView {
                kind: TokenKind::Number,
                lexeme: old(self).source@.subrange(old(self).start@, final(self).pos()),
                span: Span {
                    start: loc_at(old(self).source@, old(self).start@),
                    end: loc_at(old(self).source@, final(self).pos()),
                },
            }),
    {
        let ghost source = self.source@;
        let ghost start = self.start@;
        let ghost text = source.skip(start);
        self.digits();
        proof {
            let tail = text.drop_first();
            assert(tail =~= source.skip(start + 1));
            assert(digit_run(text) == 1 + digit_run(tail));
        }
        let point = match self.peek() {
            Some(c) => c == '.',
            None => false,
        };
        if point {
            self.advance();
            proof {
                let whole = digit_run(text) as int;
                assert(text.skip(whole + 1) =~= source.skip(start + whole + 1));
            }
            self.digits();
        }
        self.token(TokenKind::Number)
    }

    /// The error for the character `c` that has just been read and starts
    /// no token.
    fn unexpected_char(&mut self, c: char) -> (error: Error)
        requires
            old(self).inv(),
        ensures
            final(self).settled(),
            final(self).source@ == old(self).source@,
            final(self).pos() == old(self).pos(),
            error == (Error::UnexpectedChar {
                character: c,
                location: loc_at(old(self).source@, old(self).start@),
            }),
    {
        let error = Error::UnexpectedChar { character: c, location: self.span.start };
        self.close_span();
        error
    }

    /// The next token or lexical error, or `None` at the end of the text.
    /// Whitespace is skipped. A character that starts no token is passed
    /// over, so that the call after an error reads on behind it.
    pub fn next(&mut self) -> (item: Option<Result<Token<'source>, Error>>)
        requires
            old(self).wf(),
        ensures
            final(self).wf(),
            final(self).source() == old(self).source(),
            scan(old(self).rest(), old(self).loc()) == (Scan {
                item: pull_view(item),
                rest: final(self).rest(),
                loc: final(self).loc(),
            }),
    {
        proof {
            let first = scan(self.rest(), self.loc());
            let unread = scan_all(self.rest(), self.loc());
            lemma_scan_none(self.rest(), self.loc());
            lemma_scan_consumes(self.rest(), self.loc());
            let after = scan_all(first.rest, first.loc);
            assert(unread.skip(unread.len() - after.len()) =~= after);
            lemma_rest_trans(after, unread, scan_all(self.source@, Loc::origin()));
        }
        loop
            invariant
                self.settled(),
                self.source@ == old(self).source@,
                scan(old(self).rest(), old(self).loc()) == scan(self.rest(), self.loc()),
                is_rest_of(
                    scan_all(
                        scan(old(self).rest(), old(self).loc()).rest,
                        scan(old(self).rest(), old(self).loc()).loc,
                    ),
                    scan_all(self.source@, Loc::origin()),
                ),
            decreases self.source@.len() - self.pos(),
        {
            let ghost source = self.source@;
            let ghost pos = self.pos();
            let c = match self.advance() {
                Some(c) => c,
                None => {
                    return None;
                },
            };
            proof {
                assert(source.skip(pos)[0] == c);
                assert(source.skip(pos).drop_first() =~= source.skip(pos + 1));
                lemma_loc_step(source, pos);
                if let Some(kind) = single_char_kind(c) {
                    lemma_token_at(source, pos, 1, kind);
                }
            }
            let item = match c {
                '(' => Ok(self.token(TokenKind::LeftParen)),
                ')' => Ok(self.token(TokenKind::RightParen)),
                '{' => Ok(self.token(TokenKind::LeftBrace)),
                '}' => Ok(self.token(TokenKind::RightBrace)),
                ';' => Ok(self.token(TokenKind::Semicolon)),
                '+' => Ok(self.token(TokenKind::Plus)),
                '-' => Ok(self.token(TokenKind::Minus)),
                '*' => Ok(self.token(TokenKind::Asterisk)),
                '/' => Ok(self.token(TokenKind::Slash)),
                c if digit(c) => {
                    proof {
                        lemma_number_len(source.skip(pos));
                        lemma_token_at(
                            source,
                            pos,
                            number_len(source.skip(pos)),
                            TokenKind::Number,
                        );
                    }
                    Ok(self.number())
                },
                c if c.is_whitespace() => {
                    self.close_span();
                    continue ;
                },
                _ => Err(self.unexpected_char(c)),
            };
            return Some(item);
        }
    }
}

/// A text that can be tokenized.
pub trait Tokens<'source>: Sized {
    /// The characters of the text.
    spec fn text(self) -> Seq<char>;

    /// A tokenizer at the start of the text.
    fn tokens(self) -> (lexer: Lexer<'source>)
        ensures
            lexer.wf(),
            lexer.source() == self.text(),
            lexer.rest() == self.text(),
            lexer.loc() == Loc::origin(),
    ;
}

impl<'source> Tokens<'source> for &'source str {
    open spec fn text(self) -> Seq<char> {
        self@
    }

    fn tokens(self) -> (lexer: Lexer<'source>) {
        Lexer::new(self)
    }
}

} // verus!
