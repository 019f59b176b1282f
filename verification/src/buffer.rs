//! The query surface movement needs from a text buffer, as a capability
//! trait, together with the line/column helpers derived from it.
use vstd::prelude::*;

use crate::selection::{ColPosition, SelRegion, Selection};
use crate::state::Mode;

verus! {

/// What movement may ask of a buffer: line structure, word boundaries, and a
/// post-movement pass that fills missing column affinities. Offsets and lines
/// are modelled as unbounded integers; every line, the last included, owns one
/// position past its characters (its line break, or the end of the buffer), so
/// the start of the line after the last lies one past the buffer's length.
pub trait Buffer: Sized {
    /// Well-formedness of the implementation's own representation.
    spec fn inv(&self) -> bool;

    spec fn len_spec(&self) -> int;

    spec fn last_line_spec(&self) -> int;

    spec fn offset_of_line_spec(&self, line: int) -> int;

    spec fn line_of_offset_spec(&self, offset: int) -> int;

    spec fn word_forward_spec(&self, offset: int) -> int;

    spec fn word_backward_spec(&self, offset: int) -> int;

    spec fn fill_horiz_spec(&self, s: Seq<SelRegion>) -> Seq<SelRegion>;

    /// Global facts: sizes are non-negative, line 0 starts at offset 0, and
    /// the line after the last starts one past the end of the buffer.
    proof fn lemma_basics(&self)
        requires
            self.inv(),
        ensures
            self.len_spec() >= 0,
            self.last_line_spec() >= 0,
            self.len_spec() + 1 <= usize::MAX,
            self.offset_of_line_spec(0) == 0,
            self.offset_of_line_spec(self.last_line_spec() + 1) == self.len_spec() + 1,
    ;

    /// Every line occupies at least one position.
    proof fn lemma_line_succ(&self, line: int)
        requires
            self.inv(),
            0 <= line <= self.last_line_spec(),
        ensures
            self.offset_of_line_spec(line) + 1 <= self.offset_of_line_spec(line + 1),
    ;

    /// An offset inside the buffer lies on a real line, at or past that line's
    /// start and before the next line's start.
    proof fn lemma_line_of_offset(&self, offset: int)
        requires
            self.inv(),
            0 <= offset <= self.len_spec(),
        ensures
            0 <= self.line_of_offset_spec(offset) <= self.last_line_spec(),
            self.offset_of_line_spec(self.line_of_offset_spec(offset)) <= offset,
            offset < self.offset_of_line_spec(self.line_of_offset_spec(offset) + 1),
    ;

    /// Word steps stay inside the buffer.
    proof fn lemma_word_bounds(&self, offset: int)
        requires
            self.inv(),
            0 <= offset <= self.len_spec(),
        ensures
            0 <= self.word_forward_spec(offset) <= self.len_spec(),
            0 <= self.word_backward_spec(offset) <= self.len_spec(),
    ;

    /// Filling affinities never moves a region and never overwrites an
    /// affinity that is already set.
    proof fn lemma_fill_horiz(&self, s: Seq<SelRegion>)
        requires
            self.inv(),
        ensures
            self.fill_horiz_spec(s).len() == s.len(),
            forall|i: int|
                0 <= i < s.len() ==> (#[trigger] self.fill_horiz_spec(s)[i]).start == s[i].start
                    && self.fill_horiz_spec(s)[i].end == s[i].end && (s[i].horiz is Some
                    ==> self.fill_horiz_spec(s)[i].horiz == s[i].horiz),
    ;

    fn len(&self) -> (r: usize)
        requires
            self.inv(),
        ensures
            r as int == self.len_spec(),
    ;

    fn last_line(&self) -> (r: usize)
        requires
            self.inv(),
        ensures
            r as int == self.last_line_spec(),
    ;

    fn offset_of_line(&self, line: usize) -> (r: usize)
        requires
            self.inv(),
            line as int <= self.last_line_spec() + 1,
        ensures
            r as int == self.offset_of_line_spec(line as int),
    ;

    fn line_of_offset(&self, offset: usize) -> (r: usize)
        requires
            self.inv(),
            offset as int <= self.len_spec(),
        ensures
            r as int == self.line_of_offset_spec(offset as int),
    ;

    fn word_forward(&self, offset: usize) -> (r: usize)
        requires
            self.inv(),
            offset as int <= self.len_spec(),
        ensures
            r as int == self.word_forward_spec(offset as int),
    ;

    fn word_backward(&self, offset: usize) -> (r: usize)
        requires
            self.inv(),
            offset as int <= self.len_spec(),
        ensures
            r as int == self.word_backward_spec(offset as int),
    ;

    fn fill_horiz(&self, selection: &Selection) -> (r: Selection)
        requires
            self.inv(),
            selection.wf(),
        ensures
            r@ == self.fill_horiz_spec(selection@),
            r.wf(),
    ;
}

/// Line starts never decrease, and grow at least as fast as the line index.
pub proof fn lemma_line_monotone<B: Buffer>(buffer: &B, a: int, b: int)
    requires
        buffer.inv(),
        0 <= a <= b <= buffer.last_line_spec() + 1,
    ensures
        buffer.offset_of_line_spec(a) + (b - a) <= buffer.offset_of_line_spec(b),
    decreases b - a,
{
    if a < b {
        lemma_line_monotone(buffer, a, b - 1);
        buffer.lemma_line_succ(b - 1);
    }
}

/// Bounds on a single line start: it lies between its index and the end of
/// the buffer (one past, for the line after the last).
pub proof fn lemma_line_bounds<B: Buffer>(buffer: &B, line: int)
    requires
        buffer.inv(),
        0 <= line <= buffer.last_line_spec() + 1,
    ensures
        line <= buffer.offset_of_line_spec(line),
        buffer.offset_of_line_spec(line) + (buffer.last_line_spec() + 1 - line)
            <= buffer.len_spec() + 1,
        buffer.last_line_spec() <= buffer.len_spec(),
{
    buffer.lemma_basics();
    lemma_line_monotone(buffer, 0, line);
    lemma_line_monotone(buffer, line, buffer.last_line_spec() + 1);
    lemma_line_monotone(buffer, 0, buffer.last_line_spec() + 1);
}

/// An offset at or past a line's start and before the next line's start lies
/// on that line.
pub proof fn lemma_line_of_inverse<B: Buffer>(buffer: &B, line: int, offset: int)
    requires
        buffer.inv(),
        0 <= line <= buffer.last_line_spec(),
        buffer.offset_of_line_spec(line) <= offset,
        offset < buffer.offset_of_line_spec(line + 1),
    ensures
        buffer.line_of_offset_spec(offset) == line,
{
    buffer.lemma_basics();
    lemma_line_bounds(buffer, line);
    lemma_line_monotone(buffer, line + 1, buffer.last_line_spec() + 1);
    buffer.lemma_line_of_offset(offset);
    let l2 = buffer.line_of_offset_spec(offset);
    if l2 < line {
        lemma_line_monotone(buffer, l2 + 1, line);
        assert(false);
    }
    if l2 > line {
        lemma_line_monotone(buffer, line + 1, l2);
        assert(false);
    }
}

/// The last column a caret may rest on: the position of the line break (one
/// past the characters), pulled back by one outside insert mode on a
/// non-empty line.
pub open spec fn max_col_spec<B: Buffer>(buffer: &B, mode: Mode, line: int) -> int {
    let mc = buffer.offset_of_line_spec(line + 1) - buffer.offset_of_line_spec(line) - 1;
    if mc > 0 && mode != Mode::Insert {
        mc - 1
    } else {
        mc
    }
}

/// The column chosen on `line` from a remembered affinity: `End` tracks the
/// line's last column, `Col(n)` tracks `n` clamped to it, anything else lands
/// on column 0.
pub open spec fn col_on_line_spec<B: Buffer>(
    buffer: &B,
    mode: Mode,
    line: int,
    horiz: Option<ColPosition>,
) -> int {
    match horiz {
        Some(ColPosition::End) => max_col_spec(buffer, mode, line),
        Some(ColPosition::Col(n)) => if max_col_spec(buffer, mode, line) > n as int {
            n as int
        } else {
            max_col_spec(buffer, mode, line)
        },
        _ => 0,
    }
}

/// The last addressable offset on the line holding `offset`.
pub open spec fn line_end_offset_spec<B: Buffer>(buffer: &B, mode: Mode, offset: int) -> int {
    let l = buffer.line_of_offset_spec(offset);
    buffer.offset_of_line_spec(l) + max_col_spec(buffer, mode, l)
}

/// The column of `offset` within its line.
pub open spec fn col_of_offset_spec<B: Buffer>(buffer: &B, offset: int) -> int {
    offset - buffer.offset_of_line_spec(buffer.line_of_offset_spec(offset))
}

pub proof fn lemma_max_col_in_line<B: Buffer>(buffer: &B, mode: Mode, line: int)
    requires
        buffer.inv(),
        0 <= line <= buffer.last_line_spec(),
    ensures
        0 <= max_col_spec(buffer, mode, line),
        buffer.offset_of_line_spec(line) + max_col_spec(buffer, mode, line)
            < buffer.offset_of_line_spec(line + 1),
        buffer.offset_of_line_spec(line) + max_col_spec(buffer, mode, line) <= buffer.len_spec(),
{
    buffer.lemma_basics();
    buffer.lemma_line_succ(line);
    lemma_line_monotone(buffer, line + 1, buffer.last_line_spec() + 1);
}

pub fn line_max_col<B: Buffer>(buffer: &B, mode: &Mode, line: usize) -> (r: usize)
    requires
        buffer.inv(),
        line as int <= buffer.last_line_spec(),
    ensures
        r as int == max_col_spec(buffer, *mode, line as int),
{
    proof {
        buffer.lemma_basics();
        buffer.lemma_line_succ(line as int);
        lemma_line_bounds(buffer, line as int);
        lemma_line_bounds(buffer, line as int + 1);
    }
    let next = buffer.offset_of_line(line + 1);
    let start = buffer.offset_of_line(line);
    let mut mc = next - start - 1;
    if mc > 0 && !mode.is_insert() {
        mc = mc - 1;
    }
    mc
}

pub fn offset_to_line_col<B: Buffer>(buffer: &B, offset: usize) -> (r: (usize, usize))
    requires
        buffer.inv(),
        offset as int <= buffer.len_spec(),
    ensures
        r.0 as int == buffer.line_of_offset_spec(offset as int),
        r.1 as int == col_of_offset_spec(buffer, offset as int),
{
    proof {
        buffer.lemma_line_of_offset(offset as int);
    }
    let line = buffer.line_of_offset(offset);
    let start = buffer.offset_of_line(line);
    (line, offset - start)
}

pub fn line_end_offset<B: Buffer>(buffer: &B, mode: &Mode, offset: usize) -> (r: usize)
    requires
        buffer.inv(),
        offset as int <= buffer.len_spec(),
    ensures
        r as int == line_end_offset_spec(buffer, *mode, offset as int),
        r as int <= buffer.len_spec(),
{
    proof {
        buffer.lemma_basics();
        buffer.lemma_line_of_offset(offset as int);
        lemma_max_col_in_line(buffer, *mode, buffer.line_of_offset_spec(offset as int));
    }
    let line = buffer.line_of_offset(offset);
    let start = buffer.offset_of_line(line);
    let mc = line_max_col(buffer, mode, line);
    start + mc
}

pub fn col_on_line<B: Buffer>(
    buffer: &B,
    mode: &Mode,
    line: usize,
    horiz: Option<ColPosition>,
) -> (r: usize)
    requires
        buffer.inv(),
        line as int <= buffer.last_line_spec(),
    ensures
        r as int == col_on_line_spec(buffer, *mode, line as int, horiz),
{
    let mc = line_max_col(buffer, mode, line);
    proof {
        lemma_max_col_in_line(buffer, *mode, line as int);
    }
    match horiz {
        Some(ColPosition::End) => mc,
        Some(ColPosition::Col(n)) => {
            if mc > n {
                n
            } else {
                mc
            }
        },
        _ => 0,
    }
}

} // verus!
