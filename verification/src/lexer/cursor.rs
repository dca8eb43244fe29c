//! The character cursor of the tokenizer: a peekable iterator over the
//! characters of the source text.

use vstd::prelude::*;
use itertools::PeekNth;
use std::str::Chars;
use vstd::std_specs::iter::IteratorSpec;

verus! {

/// `itertools::PeekNth`, of which the verifier sees nothing but what the
/// functions below say.
#[verifier::external_type_specification]
#[verifier::external_body]
#[verifier::reject_recursive_types(I)]
pub struct ExPeekNth<I: Iterator>(PeekNth<I>);

/// The characters that a cursor has yet to hand out, in order: those that it
/// has looked at and kept, and those that its iterator has left to yield.
pub uninterp spec fn pending(chars: PeekNth<Chars<'_>>) -> Seq<char>;

/// Calls `itertools::peek_nth`. The new cursor has pending what `iter` had
/// left to yield.
#[verifier::external_body]
pub(crate) fn cursor<'a>(iter: Chars<'a>) -> (chars: PeekNth<Chars<'a>>)
    ensures
        pending(chars) == iter.remaining(),
{
    itertools::peek_nth(iter)
}

/// Calls `PeekNth::peek`. It returns the first pending character, if there
/// is one, and leaves all of them pending.
#[verifier::external_body]
pub(crate) fn peek(chars: &mut PeekNth<Chars<'_>>) -> (c: Option<char>)
    ensures
        pending(*final(chars)) == pending(*old(chars)),
        c == (if pending(*old(chars)).len() > 0 {
            Some(pending(*old(chars))[0])
        } else {
            None
        }),
{
    chars.peek().copied()
}

/// Calls `PeekNth::next`. It returns the first pending character, if there
/// is one, and leaves the others pending.
#[verifier::external_body]
pub(crate) fn advance(chars: &mut PeekNth<Chars<'_>>) -> (c: Option<char>)
    ensures
        c == (if pending(*old(chars)).len() > 0 {
            Some(pending(*old(chars))[0])
        } else {
            None
        }),
        pending(*final(chars)) == (if pending(*old(chars)).len() > 0 {
            pending(*old(chars)).drop_first()
        } else {
            pending(*old(chars))
        }),
{
    chars.next()
}

} // verus!
