//! Byte ranges into source text.

use vstd::prelude::*;

use crate::text::{byte_at, byte_len, byte_slice, chars_of, slice_bytes, width_of};

verus! {

/// A half-open byte range into the source text.
///
/// `start` and `end` are byte offsets, so a span can be used to slice the source text
/// directly (see [`Span::text`]).
#[derive(Clone, Copy, PartialEq, Eq, Structural, Debug)]
pub struct Span {
    /// Byte offset of the first byte of the span.
    pub start: u32,
    /// Byte offset one past the last byte of the span.
    pub end: u32,
}

/// The first index at or after `i` whose character does not start before byte `offset`.
pub open spec fn index_from(s: Seq<char>, i: int, offset: nat) -> int
    decreases s.len() - i,
{
    if 0 <= i < s.len() && byte_at(s, i) < offset {
        index_from(s, i + 1, offset)
    } else {
        i
    }
}

/// The number of characters of `s` that start before byte `offset`.
pub open spec fn chars_before(s: Seq<char>, offset: nat) -> int {
    index_from(s, 0, offset)
}

/// The number of line feeds in `s`.
pub open spec fn newlines(s: Seq<char>) -> nat
    decreases s.len(),
{
    if s.len() == 0 {
        0
    } else {
        newlines(s.drop_last()) + (if s.last() == '\n' {
            1nat
        } else {
            0
        })
    }
}

/// The text after the last line feed of `s`.
pub open spec fn last_line(s: Seq<char>) -> Seq<char>
    decreases s.len(),
{
    if s.len() == 0 || s.last() == '\n' {
        Seq::empty()
    } else {
        last_line(s.drop_last()).push(s.last())
    }
}

/// The 1-based line and column that follow the text `before`.
pub open spec fn position_after(before: Seq<char>) -> (int, int) {
    (1 + newlines(before) as int, 1 + last_line(before).len() as int)
}

pub proof fn lemma_index_from(s: Seq<char>, i: int, offset: nat)
    requires
        0 <= i <= s.len(),
    ensures
        i <= index_from(s, i, offset) <= s.len(),
    decreases s.len() - i,
{
    if i < s.len() && byte_at(s, i) < offset {
        lemma_index_from(s, i + 1, offset);
    }
}

pub proof fn lemma_line_bounds(s: Seq<char>)
    ensures
        newlines(s) <= s.len(),
        last_line(s).len() <= s.len(),
    decreases s.len(),
{
    if s.len() > 0 {
        lemma_line_bounds(s.drop_last());
    }
}

impl Span {
    pub open spec fn spec_none() -> Span {
        Span { start: 0, end: 0 }
    }

    /// The span of a synthesized node that has no source text.
    pub fn none() -> (r: Self)
        ensures
            r == Span::spec_none(),
    {
        Span { start: 0, end: 0 }
    }

    /// Creates a new span from a half-open byte range.
    pub fn new(start: u32, end: u32) -> (r: Self)
        ensures
            r.start == start,
            r.end == end,
    {
        Span { start, end }
    }

    pub open spec fn spec_is_none(self) -> bool {
        self.start == 0 && self.end == 0
    }

    /// Returns `true` if this is the [`Span::none`] placeholder.
    pub fn is_none(&self) -> (r: bool)
        ensures
            r == self.spec_is_none(),
            r == (*self == Span::spec_none()),
    {
        self.start == 0 && self.end == 0
    }

    /// The 1-based `(line, column)` of [`Span::start`] within `source`.
    ///
    /// Columns count `char`s, not bytes. An out-of-bounds span reports the position of the
    /// end of `source`.
    pub fn line_col(&self, source: &str) -> (r: (u32, u32))
        requires
            byte_len(source@) < u32::MAX,
        ensures
            (r.0 as int, r.1 as int) == position_after(
                source@.take(chars_before(source@, self.start as nat)),
            ),
    {
        let chars = chars_of(source);
        let ghost s = source@;
        let mut line: u32 = 1;
        let mut col: u32 = 1;
        let mut index: usize = 0;
        let mut offset: u32 = 0;
        assert(s.take(0) =~= Seq::<char>::empty());
        while index < chars.len() && offset < self.start
            invariant
                chars@ == s,
                byte_len(s) < u32::MAX,
                0 <= index <= s.len(),
                offset == byte_at(s, index as int),
                chars_before(s, self.start as nat) == index_from(
                    s,
                    index as int,
                    self.start as nat,
                ),
                (line as int, col as int) == position_after(s.take(index as int)),
            decreases s.len() - index,
        {
            let ch = chars[index];
            proof {
                crate::text::lemma_byte_at_step(s, index as int);
                crate::text::lemma_byte_at_mono(s, 0, index as int + 1);
                lemma_line_bounds(s.take(index as int));
                assert(s.take(index as int + 1).drop_last() =~= s.take(index as int));
            }
            if ch == '\n' {
                line = line + 1;
                col = 1;
            } else {
                col = col + 1;
            }
            offset = offset + width_of(ch);
            index = index + 1;
        }
        (line, col)
    }

    /// The text of the span within `s`; see [`Span::text`].
    pub open spec fn spec_text(self, s: Seq<char>) -> Seq<char> {
        byte_slice(s, self.start as nat, self.end as nat)
    }

    /// The exact source text covered by this span, or `""` if the span is out of bounds or
    /// does not fall on `char` boundaries.
    pub fn text<'s>(&self, source: &'s str) -> (r: &'s str)
        ensures
            r@ == self.spec_text(source@),
    {
        slice_bytes(source, self.start as usize, self.end as usize)
    }

    pub open spec fn spec_join(self, other: Span) -> Span {
        Span {
            start: if self.start <= other.start {
                self.start
            } else {
                other.start
            },
            end: if self.end >= other.end {
                self.end
            } else {
                other.end
            },
        }
    }

    /// The smallest span covering both `self` and `other`.
    pub fn join(self, other: Span) -> (r: Span)
        ensures
            r == self.spec_join(other),
    {
        Span {
            start: if self.start <= other.start {
                self.start
            } else {
                other.start
            },
            end: if self.end >= other.end {
                self.end
            } else {
                other.end
            },
        }
    }
}

impl Default for Span {
    fn default() -> (r: Self)
        ensures
            r == Span::spec_none(),
    {
        Span::none()
    }
}

/// Joining covers both spans, and every span that covers both covers the join.
pub proof fn law_join_is_least_cover(a: Span, b: Span, c: Span)
    ensures
        a.spec_join(b).start <= a.start && a.end <= a.spec_join(b).end,
        a.spec_join(b).start <= b.start && b.end <= a.spec_join(b).end,
        c.start <= a.start && a.end <= c.end && c.start <= b.start && b.end <= c.end ==> c.start
            <= a.spec_join(b).start && a.spec_join(b).end <= c.end,
        a.spec_join(b) == b.spec_join(a),
        a.spec_join(a) == a,
{
}

/// Lines and columns count from 1: an empty text ends at line 1, column 1; a line feed leads to
/// the first column of the next line, and every other character to the next column.
pub proof fn law_positions(before: Seq<char>, c: char)
    ensures
        position_after(Seq::empty()) == (1int, 1int),
        c == '\n' ==> position_after(before.push(c)) == (position_after(before).0 + 1, 1int),
        c != '\n' ==> position_after(before.push(c)) == (
            position_after(before).0,
            position_after(before).1 + 1,
        ),
{
    assert(before.push(c).drop_last() =~= before);
}

} // verus!
