//! Byte offsets into a text and the characters they delimit.

use vstd::prelude::*;
use vstd::string::StringSliceAdditionalSpecFns;
use vstd::utf8::{
    encode_scalar, encode_utf8, encode_utf8_decode_utf8, encode_utf8_first_scalar,
    encode_utf8_valid_utf8, is_char_boundary, pop_first_scalar,
};
use crate::lexer::span::{utf8_len, Loc};

verus! {

/// The location reached from the origin over the first `i` characters of
/// `source`.
pub open spec fn loc_at(source: Seq<char>, i: int) -> Loc {
    Loc::origin().advance_over(source.take(i))
}

/// The encoding of a text is the encoding of its first part followed by the
/// encoding of the rest.
pub proof fn lemma_encode_concat(a: Seq<char>, b: Seq<char>)
    ensures
        encode_utf8(a + b) == encode_utf8(a) + encode_utf8(b),
    decreases a.len(),
{
    if a.len() == 0 {
        assert(a + b =~= b);
        assert(encode_utf8(a) + encode_utf8(b) =~= encode_utf8(b));
    } else {
        lemma_encode_concat(a.drop_first(), b);
        assert((a + b).drop_first() =~= a.drop_first() + b);
        assert(encode_utf8(a + b) =~= encode_utf8(a) + encode_utf8(b));
    }
}

/// A single character is encoded in `utf8_len` bytes.
pub proof fn lemma_encode_one(c: char)
    ensures
        encode_utf8(seq![c]).len() == utf8_len(c),
        1 <= utf8_len(c) <= 4,
{
    assert(seq![c].drop_first() =~= Seq::<char>::empty());
    assert(encode_utf8(seq![c]) =~= encode_scalar(c as u32)) by {
        reveal_with_fuel(encode_utf8, 2);
    }
}

/// Two texts with the same encoding are the same text.
pub proof fn lemma_encode_injective(a: Seq<char>, b: Seq<char>)
    requires
        encode_utf8(a) == encode_utf8(b),
    ensures
        a == b,
{
    encode_utf8_decode_utf8(a);
    encode_utf8_decode_utf8(b);
}

/// In the encoding of a text, the place where the encoding of a first part
/// ends is a character boundary.
pub proof fn lemma_prefix_boundary(a: Seq<char>, b: Seq<char>)
    ensures
        is_char_boundary(encode_utf8(a + b), encode_utf8(a).len() as int),
    decreases a.len(),
{
    let bytes = encode_utf8(a + b);
    encode_utf8_valid_utf8(a + b);
    if a.len() > 0 {
        let tail = a.drop_first();
        assert((a + b).drop_first() =~= tail + b);
        assert((a + b)[0] == a[0]);
        encode_utf8_first_scalar(a + b);
        lemma_prefix_boundary(tail, b);
        lemma_encode_concat(a, b);
        assert(pop_first_scalar(bytes) =~= encode_utf8(tail + b));
    }
}

/// The byte offset of a location reached from the origin over a prefix of a
/// text is the length of the encoding of that prefix, as long as the
/// encoding of the whole text has a length that fits a `usize`.
pub proof fn lemma_byte_offset(s: Seq<char>, i: int)
    requires
        0 <= i <= s.len(),
        encode_utf8(s).len() <= usize::MAX,
    ensures
        Loc::origin().advance_over(s.take(i)).byte_offset == encode_utf8(s.take(i)).len(),
        encode_utf8(s.take(i)).len() <= encode_utf8(s).len(),
    decreases i,
{
    assert(s =~= s.take(i) + s.skip(i));
    lemma_encode_concat(s.take(i), s.skip(i));
    if i > 0 {
        lemma_byte_offset(s, i - 1);
        assert(s.take(i).drop_last() =~= s.take(i - 1));
        assert(s.take(i) =~= s.take(i - 1) + seq![s[i - 1]]);
        lemma_encode_concat(s.take(i - 1), seq![s[i - 1]]);
        lemma_encode_one(s[i - 1]);
    }
}

/// Going over a text and then over a second one is going over the two
/// joined.
pub proof fn lemma_advance_concat(loc: Loc, a: Seq<char>, b: Seq<char>)
    ensures
        loc.advance_over(a + b) == loc.advance_over(a).advance_over(b),
    decreases b.len(),
{
    if b.len() == 0 {
        assert(a + b =~= a);
    } else {
        lemma_advance_concat(loc, a, b.drop_last());
        assert((a + b).drop_last() =~= a + b.drop_last());
    }
}

/// How many line breaks `s` holds.
pub open spec fn line_breaks(s: Seq<char>) -> nat
    decreases s.len(),
{
    if s.len() == 0 {
        0
    } else if s.last() == '\n' {
        line_breaks(s.drop_last()) + 1
    } else {
        line_breaks(s.drop_last())
    }
}

/// How many characters `s` holds behind its last line break.
pub open spec fn last_line_len(s: Seq<char>) -> nat
    decreases s.len(),
{
    if s.len() == 0 || s.last() == '\n' {
        0
    } else {
        last_line_len(s.drop_last()) + 1
    }
}

/// Lines and columns count from 1. The location reached from the origin
/// over a text is in the line behind its last line break and in the column
/// behind its last character, at the byte offset that is the length of its
/// encoding: no counter saturates on a text whose encoding is shorter than
/// `usize::MAX`.
pub proof fn lemma_location(s: Seq<char>)
    requires
        encode_utf8(s).len() < usize::MAX,
    ensures
        Loc::origin().advance_over(s) == (Loc {
            byte_offset: encode_utf8(s).len() as usize,
            line: (1 + line_breaks(s)) as usize,
            col: (1 + last_line_len(s)) as usize,
        }),
        line_breaks(s) <= s.len() <= encode_utf8(s).len(),
        last_line_len(s) <= s.len(),
    decreases s.len(),
{
    if s.len() > 0 {
        let front = s.drop_last();
        assert(s =~= front + seq![s.last()]);
        lemma_encode_concat(front, seq![s.last()]);
        lemma_encode_one(s.last());
        lemma_location(front);
    }
}

/// The location one character further on in a text is one step away.
pub proof fn lemma_loc_step(source: Seq<char>, i: int)
    requires
        0 <= i < source.len(),
    ensures
        loc_at(source, i + 1) == loc_at(source, i).advance(source[i]),
{
    assert(source.take(i + 1).drop_last() =~= source.take(i));
}

/// The byte offset of a location in a text is a character boundary of its
/// encoding.
pub proof fn lemma_loc_boundary(source: Seq<char>, i: int)
    requires
        0 <= i <= source.len(),
        encode_utf8(source).len() <= usize::MAX,
    ensures
        is_char_boundary(encode_utf8(source), loc_at(source, i).byte_offset as int),
{
    lemma_byte_offset(source, i);
    assert(source =~= source.take(i) + source.skip(i));
    lemma_prefix_boundary(source.take(i), source.skip(i));
}

/// The bytes between the offsets of two locations in a text are the
/// encoding of the characters between them.
pub proof fn lemma_text_between(source: Seq<char>, i: int, j: int)
    requires
        0 <= i <= j <= source.len(),
        encode_utf8(source).len() <= usize::MAX,
    ensures
        loc_at(source, i).byte_offset + encode_utf8(source.subrange(i, j)).len() == loc_at(
            source,
            j,
        ).byte_offset,
        loc_at(source, j).byte_offset <= encode_utf8(source).len(),
        i < j ==> loc_at(source, i).byte_offset < loc_at(source, j).byte_offset,
        encode_utf8(source).subrange(
            loc_at(source, i).byte_offset as int,
            loc_at(source, j).byte_offset as int,
        ) == encode_utf8(source.subrange(i, j)),
{
    lemma_byte_offset(source, i);
    lemma_byte_offset(source, j);
    let head = source.take(i);
    let part = source.subrange(i, j);
    let tail = source.skip(j);
    assert(source.take(j) =~= head + part);
    assert(source =~= source.take(j) + tail);
    lemma_encode_concat(head, part);
    lemma_encode_concat(source.take(j), tail);
    assert(encode_utf8(source).subrange(
        encode_utf8(head).len() as int,
        encode_utf8(source.take(j)).len() as int,
    ) =~= encode_utf8(part));
    if i < j {
        let c = part[0];
        assert(part =~= seq![c] + part.drop_first());
        lemma_encode_concat(seq![c], part.drop_first());
        lemma_encode_one(c);
    }
}

/// The characters of `source` from index `i` up to index `j`, given the byte
/// offsets `start` and `end` at which those two indices lie.
pub(crate) fn slice<'a>(source: &'a str, start: usize, end: usize, Ghost(i): Ghost<int>, Ghost(j): Ghost<int>) -> (part: &'a str)
    requires
        0 <= i <= j <= source@.len(),
        start == encode_utf8(source@.take(i)).len(),
        end == encode_utf8(source@.take(j)).len(),
    ensures
        part@ == source@.subrange(i, j),
{
    proof {
        assert(source@ =~= source@.take(j) + source@.skip(j));
        lemma_prefix_boundary(source@.take(j), source@.skip(j));
        lemma_encode_concat(source@.take(j), source@.skip(j));
    }
    let (head, _) = source.split_at(end);
    proof {
        assert(head.spec_bytes() =~= encode_utf8(source@.take(j)));
        lemma_encode_injective(head@, source@.take(j));
        assert(head@ =~= source@.take(i) + source@.subrange(i, j));
        lemma_prefix_boundary(source@.take(i), source@.subrange(i, j));
        lemma_encode_concat(source@.take(i), source@.subrange(i, j));
    }
    let (_, part) = head.split_at(start);
    proof {
        assert(part.spec_bytes() =~= encode_utf8(source@.subrange(i, j)));
        lemma_encode_injective(part@, source@.subrange(i, j));
    }
    part
}

} // verus!