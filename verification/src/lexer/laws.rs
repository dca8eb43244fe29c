//! Laws of the tokenizer.

use vstd::prelude::*;
use vstd::utf8::{encode_utf8, is_char_boundary};
use crate::lexer::model::{
    is_digit, is_rest_of, lemma_digit_run_unique, lemma_number_len, lemma_scan_consumes,
    number_len, scan, scan_all, single_char_kind, token_at, unicode_whitespace, Lexed, Scan,
};
use crate::lexer::span::{Loc, Span};
use crate::lexer::text::{
    lemma_advance_concat, lemma_loc_boundary, lemma_loc_step, lemma_text_between, loc_at,
};
use crate::lexer::token::{TokenKind, TokenView};

verus! {

/// The token made of the `n` characters of `source` from index `i` on, in
/// terms of the text that starts at that index.
pub proof fn lemma_token_at(source: Seq<char>, i: int, n: nat, kind: TokenKind)
    requires
        0 <= i,
        i + n <= source.len(),
    ensures
        token_at(kind, source.skip(i), n, loc_at(source, i)) == (Scan {
            item: Some(
                Ok(
                    TokenView {
                        kind,
                        lexeme: source.subrange(i, i + n),
                        span: Span { start: loc_at(source, i), end: loc_at(source, i + n) },
                    },
                ),
            ),
            rest: source.skip(i + n),
            loc: loc_at(source, i + n),
        }),
{
    let text = source.skip(i);
    assert(text.take(n as int) =~= source.subrange(i, i + n));
    assert(text.skip(n as int) =~= source.skip(i + n));
    assert(source.take(i + n) =~= source.take(i) + source.subrange(i, i + n));
    lemma_advance_concat(Loc::origin(), source.take(i), source.subrange(i, i + n));
}

/// Whether the tokenizer passes over `c` as whitespace: `c` is whitespace and
/// starts no token.
pub open spec fn is_skipped(c: char) -> bool {
    single_char_kind(c) is None && !is_digit(c) && unicode_whitespace(c)
}

/// Whether `s` holds digits only.
pub open spec fn all_digits(s: Seq<char>) -> bool {
    forall|i: int| 0 <= i < s.len() ==> is_digit(#[trigger] s[i])
}

/// Whether `s` is a numeric lexeme: one or more digits, then optionally a
/// `.` and any number of digits.
pub open spec fn is_number(s: Seq<char>) -> bool {
    exists|n: int|
        1 <= n <= s.len() && #[trigger] all_digits(s.take(n)) && (n == s.len() || (s[n] == '.'
            && all_digits(s.skip(n + 1))))
}

/// A text of whitespace alone yields nothing: no token and no error.
pub proof fn lemma_whitespace_yields_nothing(s: Seq<char>, loc: Loc)
    requires
        forall|i: int| 0 <= i < s.len() ==> is_skipped(#[trigger] s[i]),
    ensures
        scan(s, loc).item is None,
        scan(s, loc).rest.len() == 0,
        scan_all(s, loc) == Seq::<Lexed>::empty(),
    decreases s.len(),
{
    if s.len() > 0 {
        let tail = s.drop_first();
        assert(is_skipped(s[0]));
        assert forall|i: int| 0 <= i < tail.len() implies is_skipped(#[trigger] tail[i]) by {
            assert(tail[i] == s[i + 1]);
        }
        lemma_whitespace_yields_nothing(tail, loc.advance(s[0]));
    }
}

/// A numeric lexeme alone yields exactly one token: a number whose lexeme is
/// the whole text.
pub proof fn lemma_number_yields_itself(s: Seq<char>, loc: Loc)
    requires
        is_number(s),
    ensures
        scan_all(s, loc) == seq![
            Lexed::Ok(
                TokenView {
                    kind: TokenKind::Number,
                    lexeme: s,
                    span: Span { start: loc, end: loc.advance_over(s) },
                },
            ),
        ],
{
    let n = choose|n: int|
        1 <= n <= s.len() && #[trigger] all_digits(s.take(n)) && (n == s.len() || (s[n] == '.'
            && all_digits(s.skip(n + 1))));
    assert forall|i: int| 0 <= i < n implies is_digit(#[trigger] s[i]) by {
        assert(s.take(n)[i] == s[i]);
    }
    lemma_digit_run_unique(s, n);
    if n < s.len() {
        let tail = s.skip(n + 1);
        lemma_digit_run_unique(tail, tail.len() as int);
    }
    assert(number_len(s) == s.len());
    assert(is_digit(s[0]));
    assert(s.take(s.len() as int) =~= s);
    let first = scan(s, loc);
    assert(first.rest.len() == 0);
    assert(scan(first.rest, first.loc).item is None);
    assert(scan_all(first.rest, first.loc) =~= Seq::empty());
    assert(scan_all(s, loc) =~= seq![first.item->Some_0]);
}

/// Whether the bytes `bytes` of a text hold the lexeme of `token` at the
/// byte offsets of its span, which is not empty and starts and ends at
/// character boundaries.
pub open spec fn token_in_text(bytes: Seq<u8>, token: TokenView) -> bool {
    &&& token.span.start.byte_offset < token.span.end.byte_offset <= bytes.len()
    &&& is_char_boundary(bytes, token.span.start.byte_offset as int)
    &&& is_char_boundary(bytes, token.span.end.byte_offset as int)
    &&& bytes.subrange(
        token.span.start.byte_offset as int,
        token.span.end.byte_offset as int,
    ) == encode_utf8(token.lexeme)
}

/// Whether the tokens among `ts` lie in the text with the bytes `bytes` one
/// after the other, none before the byte offset `from`, each with its lexeme
/// at its span.
pub open spec fn in_order(bytes: Seq<u8>, ts: Seq<Lexed>, from: int) -> bool
    decreases ts.len(),
{
    ts.len() > 0 ==> match ts[0] {
        Ok(token) => {
            &&& from <= token.span.start.byte_offset
            &&& token_in_text(bytes, token)
            &&& in_order(bytes, ts.drop_first(), token.span.end.byte_offset as int)
        },
        Err(_) => in_order(bytes, ts.drop_first(), from),
    }
}

/// What one pull from index `p` of a text yields, in terms of the text: the
/// pull reads on to some index `q`, and a token that it yields is the text
/// between an index `i` and `q`.
pub proof fn lemma_scan_at(source: Seq<char>, p: int)
    requires
        0 <= p <= source.len(),
    ensures
        ({
            let step = scan(source.skip(p), loc_at(source, p));
            let q = source.len() - step.rest.len();
            &&& p <= q <= source.len()
            &&& step.rest == source.skip(q)
            &&& step.loc == loc_at(source, q)
            &&& step.item matches Some(Ok(token)) ==> {
                let i = q - token.lexeme.len();
                &&& p <= i < q
                &&& token.lexeme == source.subrange(i, q)
                &&& token.span == (Span { start: loc_at(source, i), end: loc_at(source, q) })
            }
        }),
    decreases source.len() - p,
{
    let text = source.skip(p);
    if text.len() > 0 {
        let c = text[0];
        assert(text.drop_first() =~= source.skip(p + 1));
        lemma_loc_step(source, p);
        match single_char_kind(c) {
            Some(kind) => {
                lemma_token_at(source, p, 1, kind);
            },
            None => {
                if is_digit(c) {
                    lemma_number_len(text);
                    lemma_token_at(source, p, number_len(text), TokenKind::Number);
                } else if unicode_whitespace(c) {
                    lemma_scan_at(source, p + 1);
                }
            },
        }
    }
}

/// Tokens that lie in order behind an offset lie in order behind every
/// lower one.
pub proof fn lemma_in_order_from(bytes: Seq<u8>, ts: Seq<Lexed>, from: int, lower: int)
    requires
        in_order(bytes, ts, from),
        lower <= from,
    ensures
        in_order(bytes, ts, lower),
    decreases ts.len(),
{
    if ts.len() > 0 && ts[0] is Err {
        lemma_in_order_from(bytes, ts.drop_first(), from, lower);
    }
}

/// What is left of tokens that lie in order lies in order.
pub proof fn lemma_in_order_rest(bytes: Seq<u8>, ts: Seq<Lexed>, rest: Seq<Lexed>, from: int)
    requires
        in_order(bytes, ts, from),
        is_rest_of(rest, ts),
    ensures
        in_order(bytes, rest, from),
    decreases ts.len(),
{
    if rest.len() < ts.len() {
        let tail = ts.drop_first();
        assert(rest =~= tail.skip(tail.len() - rest.len()));
        match ts[0] {
            Ok(token) => {
                lemma_in_order_from(bytes, tail, token.span.end.byte_offset as int, from);
            },
            Err(_) => {},
        }
        lemma_in_order_rest(bytes, tail, rest, from);
    } else {
        assert(rest =~= ts);
    }
}

/// The tokens that a text yields from index `p` on lie in it in order, each
/// with its lexeme at the byte offsets of its span.
pub proof fn lemma_tokens_in_order(source: Seq<char>, p: int)
    requires
        0 <= p <= source.len(),
        encode_utf8(source).len() <= usize::MAX,
    ensures
        in_order(
            encode_utf8(source),
            scan_all(source.skip(p), loc_at(source, p)),
            loc_at(source, p).byte_offset as int,
        ),
    decreases source.len() - p,
{
    let bytes = encode_utf8(source);
    let step = scan(source.skip(p), loc_at(source, p));
    let all = scan_all(source.skip(p), loc_at(source, p));
    lemma_scan_at(source, p);
    lemma_scan_consumes(source.skip(p), loc_at(source, p));
    if let Some(item) = step.item {
        let q = source.len() - step.rest.len();
        let after = scan_all(source.skip(q), loc_at(source, q));
        assert(all.drop_first() =~= after);
        lemma_tokens_in_order(source, q);
        lemma_text_between(source, p, q);
        match item {
            Ok(token) => {
                let i = q - token.lexeme.len();
                lemma_text_between(source, i, q);
                lemma_text_between(source, p, i);
                lemma_loc_boundary(source, i);
                lemma_loc_boundary(source, q);
            },
            Err(_) => {
                lemma_in_order_from(
                    bytes,
                    after,
                    loc_at(source, q).byte_offset as int,
                    loc_at(source, p).byte_offset as int,
                );
            },
        }
    }
}

/// The tokens that a whole text yields lie in it in order, each with its
/// lexeme at the byte offsets of its span.
pub proof fn lemma_source_in_order(source: Seq<char>)
    requires
        encode_utf8(source).len() <= usize::MAX,
    ensures
        in_order(encode_utf8(source), scan_all(source, Loc::origin()), 0),
{
    assert(source.skip(0) =~= source);
    assert(source.take(0) =~= Seq::<char>::empty());
    lemma_tokens_in_order(source, 0);
}

} // verus!
