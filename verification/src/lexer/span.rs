//! Source locations and spans.

use vstd::prelude::*;
use vstd::utf8::encode_scalar;

verus! {

/// A position in a source text. `line` and `col` are 1-based.
#[derive(Copy, Clone, Debug, PartialEq, Eq, Structural)]
pub struct Loc {
    pub byte_offset: usize,
    pub line: usize,
    pub col: usize,
}

/// A range of source text from `start` up to, but not including, `end`.
#[derive(Copy, Clone, Debug, PartialEq, Eq, Structural)]
pub struct Span {
    pub start: Loc,
    pub end: Loc,
}

/// The number of bytes in the UTF-8 encoding of `c`.
pub open spec fn utf8_len(c: char) -> nat {
    encode_scalar(c as u32).len()
}

/// `n` as a counter that stops at `usize::MAX`.
pub open spec fn clip(n: int) -> usize {
    if n > usize::MAX {
        usize::MAX
    } else {
        n as usize
    }
}

impl Loc {
    /// The location at the very beginning of a text.
    pub open spec fn origin() -> Loc {
        Loc { byte_offset: 0, line: 1, col: 1 }
    }

    /// The location just after `c`, when `c` starts at `self`: a newline
    /// moves to the first column of the next line, any other character to the
    /// next column. The counters saturate at `usize::MAX`.
    pub open spec fn advance(self, c: char) -> Loc {
        Loc {
            byte_offset: clip(self.byte_offset + utf8_len(c)),
            line: if c == '\n' {
                clip(self.line + 1)
            } else {
                self.line
            },
            col: if c == '\n' {
                1
            } else {
                clip(self.col + 1)
            },
        }
    }

    /// The location just after the characters `s`, when they start at `self`.
    pub open spec fn advance_over(self, s: Seq<char>) -> Loc
        decreases s.len(),
    {
        if s.len() == 0 {
            self
        } else {
            self.advance_over(s.drop_last()).advance(s.last())
        }
    }

    /// The location just after `c`, when `c` starts at `self`.
    pub fn step(self, c: char) -> (next: Loc)
        ensures
            next == self.advance(c),
    {
        let byte_offset = self.byte_offset.saturating_add(len_utf8(c));
        if c == '\n' {
            Loc { byte_offset, line: self.line.saturating_add(1), col: 1 }
        } else {
            Loc { byte_offset, line: self.line, col: self.col.saturating_add(1) }
        }
    }
}

/// The number of bytes in the UTF-8 encoding of `c`.
pub fn len_utf8(c: char) -> (n: usize)
    ensures
        n == utf8_len(c),
        1 <= n <= 4,
{
    let code = c as u32;
    if code < 0x80 {
        1
    } else if code < 0x800 {
        2
    } else if code < 0x10000 {
        3
    } else {
        4
    }
}

impl Default for Loc {
    fn default() -> (loc: Loc)
        ensures
            loc == Loc::origin(),
    {
        Loc { byte_offset: 0, line: 1, col: 1 }
    }
}

impl Default for Span {
    fn default() -> (span: Span)
        ensures
            span == (Span { start: Loc::origin(), end: Loc::origin() }),
    {
        Span { start: Loc::default(), end: Loc::default() }
    }
}

} // verus!
