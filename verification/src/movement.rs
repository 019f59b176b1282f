//! Navigation commands and the pure computation mapping a region, a buffer
//! and a mode to the moved region.
use vstd::prelude::*;

use crate::buffer::{
    col_of_offset_spec, col_on_line, col_on_line_spec, lemma_line_bounds, lemma_line_of_inverse,
    lemma_max_col_in_line, line_end_offset, line_end_offset_spec, max_col_spec,
    offset_to_line_col, Buffer,
};
use crate::selection::{
    add_region_spec, ColPosition, SelRegion, Selection,
};
use crate::state::Mode;

verus! {

#[derive(Clone, Copy, PartialEq, Eq, Debug)]
pub enum LinePosition {
    First,
    Last,
    Line(usize),
}

/// The closed set of navigation intents, each with its repeat count where one
/// applies.
#[derive(Clone, Copy, PartialEq, Eq, Debug)]
pub enum Movement {
    Left(usize),
    Right(usize),
    Up(usize),
    Down(usize),
    StartOfLine,
    EndOfLine,
    Line(LinePosition),
    WordForward(usize),
    WordBackward(usize),
}

/// `n` word steps forward from `o`.
pub open spec fn word_forward_n_spec<B: Buffer>(buffer: &B, o: int, n: int) -> int
    decreases n,
{
    if n <= 0 {
        o
    } else {
        buffer.word_forward_spec(word_forward_n_spec(buffer, o, n - 1))
    }
}

/// `n` word steps backward from `o`.
pub open spec fn word_backward_n_spec<B: Buffer>(buffer: &B, o: int, n: int) -> int
    decreases n,
{
    if n <= 0 {
        o
    } else {
        buffer.word_backward_spec(word_backward_n_spec(buffer, o, n - 1))
    }
}

pub proof fn lemma_word_n_bounds<B: Buffer>(buffer: &B, o: int, n: int)
    requires
        buffer.inv(),
        0 <= o <= buffer.len_spec(),
        n >= 0,
    ensures
        0 <= word_forward_n_spec(buffer, o, n) <= buffer.len_spec(),
        0 <= word_backward_n_spec(buffer, o, n) <= buffer.len_spec(),
    decreases n,
{
    if n > 0 {
        lemma_word_n_bounds(buffer, o, n - 1);
        buffer.lemma_word_bounds(word_forward_n_spec(buffer, o, n - 1));
        buffer.lemma_word_bounds(word_backward_n_spec(buffer, o, n - 1));
    }
}

/// The moved `end` offset and the new affinity, per navigation command.
/// Horizontal moves clamp within the line (and, rightward, within the
/// buffer); vertical moves and line jumps clamp the target line and choose a
/// column from the remembered affinity, which they keep; word moves repeat a
/// buffer word step and record the resulting column.
pub open spec fn move_end_spec<B: Buffer>(m: Movement, r: SelRegion, buffer: &B, mode: Mode) -> (
    int,
    Option<ColPosition>,
) {
    match m {
        Movement::Left(count) => {
            let end = r.end as int;
            let line_start = buffer.offset_of_line_spec(buffer.line_of_offset_spec(end));
            let new_end = if end - count > line_start {
                end - count
            } else {
                line_start
            };
            (new_end, Some(ColPosition::Col(col_of_offset_spec(buffer, new_end) as usize)))
        },
        Movement::Right(count) => {
            let end = r.end as int;
            let line_end = line_end_offset_spec(buffer, mode, end);
            let stepped = if end + count <= buffer.len_spec() {
                end + count
            } else {
                buffer.len_spec()
            };
            let new_end = if stepped > line_end {
                line_end
            } else {
                stepped
            };
            (new_end, Some(ColPosition::Col(col_of_offset_spec(buffer, new_end) as usize)))
        },
        Movement::Up(count) => {
            let line0 = buffer.line_of_offset_spec(r.end as int);
            let line = if line0 - count > 0 {
                line0 - count
            } else {
                0
            };
            let col = col_on_line_spec(buffer, mode, line, r.horiz);
            (buffer.offset_of_line_spec(line) + col, r.horiz)
        },
        Movement::Down(count) => {
            let line0 = buffer.line_of_offset_spec(r.end as int);
            let last = buffer.last_line_spec();
            let line = if line0 + count > last {
                last
            } else {
                line0 + count
            };
            let col = col_on_line_spec(buffer, mode, line, r.horiz);
            (buffer.offset_of_line_spec(line) + col, r.horiz)
        },
        Movement::StartOfLine => {
            let line = buffer.line_of_offset_spec(r.end as int);
            (buffer.offset_of_line_spec(line), Some(ColPosition::Start))
        },
        Movement::EndOfLine => (
            line_end_offset_spec(buffer, mode, r.end as int),
            Some(ColPosition::End),
        ),
        Movement::Line(pos) => {
            let last = buffer.last_line_spec();
            let line = match pos {
                LinePosition::Line(n) => if n as int > last {
                    last
                } else {
                    n as int
                },
                LinePosition::First => 0,
                LinePosition::Last => last,
            };
            let col = col_on_line_spec(buffer, mode, line, r.horiz);
            (buffer.offset_of_line_spec(line) + col, r.horiz)
        },
        Movement::WordForward(count) => {
            let new_end = word_forward_n_spec(buffer, r.end as int, count as int);
            (new_end, Some(ColPosition::Col(col_of_offset_spec(buffer, new_end) as usize)))
        },
        Movement::WordBackward(count) => {
            let stepped = word_backward_n_spec(buffer, r.end as int, count as int);
            let line_end = line_end_offset_spec(buffer, mode, stepped);
            let new_end = if stepped > line_end {
                line_end
            } else {
                stepped
            };
            (new_end, Some(ColPosition::Col(col_of_offset_spec(buffer, new_end) as usize)))
        },
    }
}

/// The moved region: the new `end` and affinity from `move_end_spec`; the
/// anchor is kept in the range-preserving mode and collapses onto the new
/// `end` in every other mode.
pub open spec fn update_region_spec<B: Buffer>(
    m: Movement,
    r: SelRegion,
    buffer: &B,
    mode: Mode,
) -> SelRegion {
    let me = move_end_spec(m, r, buffer, mode);
    let start = if mode == Mode::Visual {
        r.start as int
    } else {
        me.0
    };
    SelRegion { start: start as usize, end: me.0 as usize, horiz: me.1 }
}

/// Every move lands inside the buffer.
pub proof fn lemma_move_end_bounds<B: Buffer>(m: Movement, r: SelRegion, buffer: &B, mode: Mode)
    requires
        buffer.inv(),
        r.end as int <= buffer.len_spec(),
    ensures
        0 <= move_end_spec(m, r, buffer, mode).0 <= buffer.len_spec(),
{
    buffer.lemma_basics();
    buffer.lemma_line_of_offset(r.end as int);
    let line0 = buffer.line_of_offset_spec(r.end as int);
    lemma_line_bounds(buffer, line0);
    match m {
        Movement::Left(count) => {},
        Movement::Right(count) => {
            lemma_max_col_in_line(buffer, mode, line0);
        },
        Movement::Up(count) => {
            let line = if line0 - count > 0 {
                line0 - count
            } else {
                0
            };
            lemma_line_bounds(buffer, line);
            lemma_max_col_in_line(buffer, mode, line);
        },
        Movement::Down(count) => {
            let last = buffer.last_line_spec();
            let line = if line0 + count > last {
                last
            } else {
                line0 + count
            };
            lemma_line_bounds(buffer, line);
            lemma_max_col_in_line(buffer, mode, line);
        },
        Movement::StartOfLine => {},
        Movement::EndOfLine => {
            lemma_max_col_in_line(buffer, mode, line0);
        },
        Movement::Line(pos) => {
            let last = buffer.last_line_spec();
            let line = match pos {
                LinePosition::Line(n) => if n as int > last {
                    last
                } else {
                    n as int
                },
                LinePosition::First => 0int,
                LinePosition::Last => last,
            };
            lemma_line_bounds(buffer, line);
            lemma_max_col_in_line(buffer, mode, line);
        },
        Movement::WordForward(count) => {
            lemma_word_n_bounds(buffer, r.end as int, count as int);
        },
        Movement::WordBackward(count) => {
            lemma_word_n_bounds(buffer, r.end as int, count as int);
            let stepped = word_backward_n_spec(buffer, r.end as int, count as int);
            buffer.lemma_line_of_offset(stepped);
            lemma_line_bounds(buffer, buffer.line_of_offset_spec(stepped));
            lemma_max_col_in_line(buffer, mode, buffer.line_of_offset_spec(stepped));
        },
    }
}

impl Movement {
    /// Compute the moved region for one navigation command.
    #[verifier::loop_isolation(false)]
    #[verifier::rlimit(60)]
    pub fn update_region<B: Buffer>(
        &self,
        region: &SelRegion,
        buffer: &B,
        mode: &Mode,
    ) -> (r: SelRegion)
        requires
            buffer.inv(),
            region.end as int <= buffer.len_spec(),
        ensures
            r == update_region_spec(*self, *region, buffer, *mode),
            r.end as int <= buffer.len_spec(),
    {
        proof {
            lemma_move_end_bounds(*self, *region, buffer, *mode);
            buffer.lemma_basics();
            buffer.lemma_line_of_offset(region.end as int);
        }
        let (end, horiz): (usize, Option<ColPosition>) = match self {
            Movement::Left(count) => {
                let end = region.end;
                let line = buffer.line_of_offset(end);
                let line_start_offset = buffer.offset_of_line(line);
                let step = if end >= *count {
                    end - *count
                } else {
                    0
                };
                let new_end = if step > line_start_offset {
                    step
                } else {
                    line_start_offset
                };
                let lc = offset_to_line_col(buffer, new_end);
                (new_end, Some(ColPosition::Col(lc.1)))
            },
            Movement::Right(count) => {
                let end = region.end;
                let len = buffer.len();
                let le = line_end_offset(buffer, mode, end);
                let stepped = if *count <= len - end {
                    end + *count
                } else {
                    len
                };
                let new_end = if stepped > le {
                    le
                } else {
                    stepped
                };
                let lc = offset_to_line_col(buffer, new_end);
                (new_end, Some(ColPosition::Col(lc.1)))
            },
            Movement::Up(count) => {
                let line0 = buffer.line_of_offset(region.end);
                let line = if line0 > *count {
                    line0 - *count
                } else {
                    0
                };
                let col = col_on_line(buffer, mode, line, region.horiz);
                proof {
                    lemma_max_col_in_line(buffer, *mode, line as int);
                }
                let new_end = buffer.offset_of_line(line) + col;
                (new_end, region.horiz)
            },
            Movement::Down(count) => {
                let last_line = buffer.last_line();
                let line0 = buffer.line_of_offset(region.end);
                let line = if *count <= last_line - line0 {
                    line0 + *count
                } else {
                    last_line
                };
                let col = col_on_line(buffer, mode, line, region.horiz);
                proof {
                    lemma_max_col_in_line(buffer, *mode, line as int);
                }
                let new_end = buffer.offset_of_line(line) + col;
                (new_end, region.horiz)
            },
            Movement::StartOfLine => {
                let line = buffer.line_of_offset(region.end);
                let new_end = buffer.offset_of_line(line);
                (new_end, Some(ColPosition::Start))
            },
            Movement::EndOfLine => {
                let new_end = line_end_offset(buffer, mode, region.end);
                (new_end, Some(ColPosition::End))
            },
            Movement::Line(position) => {
                let last_line = buffer.last_line();
                let line = match position {
                    LinePosition::Line(n) => if *n > last_line {
                        last_line
                    } else {
                        *n
                    },
                    LinePosition::First => 0,
                    LinePosition::Last => last_line,
                };
                let col = col_on_line(buffer, mode, line, region.horiz);
                proof {
                    lemma_max_col_in_line(buffer, *mode, line as int);
                }
                let new_end = buffer.offset_of_line(line) + col;
                (new_end, region.horiz)
            },
            Movement::WordForward(count) => {
                let mut new_end = region.end;
                let mut i: usize = 0;
                while i < *count
                    invariant
                        i <= *count,
                        new_end as int == word_forward_n_spec(buffer, region.end as int, i as int),
                        new_end as int <= buffer.len_spec(),
                    decreases *count - i,
                {
                    proof {
                        buffer.lemma_word_bounds(new_end as int);
                    }
                    new_end = buffer.word_forward(new_end);
                    i = i + 1;
                }
                let lc = offset_to_line_col(buffer, new_end);
                (new_end, Some(ColPosition::Col(lc.1)))
            },
            Movement::WordBackward(count) => {
                let mut stepped = region.end;
                let mut i: usize = 0;
                while i < *count
                    invariant
                        i <= *count,
                        stepped as int == word_backward_n_spec(buffer, region.end as int, i as int),
                        stepped as int <= buffer.len_spec(),
                    decreases *count - i,
                {
                    proof {
                        buffer.lemma_word_bounds(stepped as int);
                    }
                    stepped = buffer.word_backward(stepped);
                    i = i + 1;
                }
                let le = line_end_offset(buffer, mode, stepped);
                let new_end = if stepped > le {
                    le
                } else {
                    stepped
                };
                let lc = offset_to_line_col(buffer, new_end);
                (new_end, Some(ColPosition::Col(lc.1)))
            },
        };
        let start = if mode.is_visual() {
            region.start
        } else {
            end
        };
        SelRegion { start, end, horiz }
    }
}

/// The regions of `s` up to index `n`, each moved by `m` and folded into a
/// fresh selection through the merging insertion.
pub open spec fn updated_fold_spec<B: Buffer>(
    m: Movement,
    s: Seq<SelRegion>,
    buffer: &B,
    mode: Mode,
    n: int,
) -> Seq<SelRegion>
    decreases n,
{
    if n <= 0 {
        Seq::empty()
    } else {
        add_region_spec(
            updated_fold_spec(m, s, buffer, mode, n - 1),
            update_region_spec(m, s[n - 1], buffer, mode),
        )
    }
}

/// The whole selection after a navigation command: every region moved,
/// re-merged, and the buffer's affinity fill applied.
pub open spec fn update_selection_spec<B: Buffer>(
    m: Movement,
    s: Seq<SelRegion>,
    buffer: &B,
    mode: Mode,
) -> Seq<SelRegion> {
    buffer.fill_horiz_spec(updated_fold_spec(m, s, buffer, mode, s.len() as int))
}

impl Movement {
    /// Apply the command to every region, re-inserting each result so that
    /// crossing regions merge, then let the buffer fill missing affinities.
    #[verifier::loop_isolation(false)]
    pub fn update_selection<B: Buffer>(
        &self,
        selection: &Selection,
        buffer: &B,
        mode: &Mode,
    ) -> (r: Selection)
        requires
            buffer.inv(),
            selection.wf(),
            forall|i: int|
                0 <= i < selection@.len() ==> (#[trigger] selection@[i]).end as int
                    <= buffer.len_spec(),
        ensures
            r@ == update_selection_spec(*self, selection@, buffer, *mode),
            r.wf(),
    {
        let mut new_selection = Selection::new();
        let regs = selection.regions();
        let mut i: usize = 0;
        while i < regs.len()
            invariant
                i <= regs.len(),
                new_selection@ == updated_fold_spec(*self, selection@, buffer, *mode, i as int),
                new_selection.wf(),
            decreases regs.len() - i,
        {
            let moved = self.update_region(&regs[i], buffer, mode);
            new_selection.add_region(moved);
            i = i + 1;
        }
        buffer.fill_horiz(&new_selection)
    }
}

/// In the range-preserving mode a move never touches the anchor: `start`
/// stays fixed while `end` follows the command. In every other mode the
/// region collapses: `start` lands on the new `end`.
pub proof fn lemma_visual_mode_anchor<B: Buffer>(m: Movement, r: SelRegion, buffer: &B, mode: Mode)
    requires
        buffer.inv(),
        r.end as int <= buffer.len_spec(),
    ensures
        update_region_spec(m, r, buffer, Mode::Visual).start == r.start,
        mode != Mode::Visual ==> update_region_spec(m, r, buffer, mode).start == update_region_spec(
            m,
            r,
            buffer,
            mode,
        ).end,
{
    lemma_move_end_bounds(m, r, buffer, Mode::Visual);
    lemma_move_end_bounds(m, r, buffer, mode);
}

/// Jumping to the end of a line, moving `k` lines down and `k` lines back up
/// returns the caret to the original line's true end offset: the `End`
/// affinity set by the first jump survives both vertical moves and keeps
/// targeting each line's own last column rather than a fixed number.
pub proof fn lemma_vertical_affinity_stability<B: Buffer>(
    buffer: &B,
    mode: Mode,
    r: SelRegion,
    k: usize,
)
    requires
        buffer.inv(),
        r.end as int <= buffer.len_spec(),
        buffer.line_of_offset_spec(r.end as int) + k <= buffer.last_line_spec(),
    ensures
        ({
            let r1 = update_region_spec(Movement::EndOfLine, r, buffer, mode);
            let r2 = update_region_spec(Movement::Down(k), r1, buffer, mode);
            let r3 = update_region_spec(Movement::Up(k), r2, buffer, mode);
            r3.end == r1.end && r1.end as int == line_end_offset_spec(buffer, mode, r.end as int)
        }),
{
    buffer.lemma_basics();
    buffer.lemma_line_of_offset(r.end as int);
    let l0 = buffer.line_of_offset_spec(r.end as int);
    lemma_line_bounds(buffer, l0);
    lemma_max_col_in_line(buffer, mode, l0);
    let e1 = buffer.offset_of_line_spec(l0) + max_col_spec(buffer, mode, l0);
    let r1 = update_region_spec(Movement::EndOfLine, r, buffer, mode);
    assert(r1.end as int == e1);
    assert(r1.horiz == Some(ColPosition::End));
    lemma_line_of_inverse(buffer, l0, e1);
    lemma_line_bounds(buffer, l0 + k);
    lemma_max_col_in_line(buffer, mode, l0 + k);
    let e2 = buffer.offset_of_line_spec(l0 + k) + max_col_spec(buffer, mode, l0 + k);
    let r2 = update_region_spec(Movement::Down(k), r1, buffer, mode);
    assert(r2.end as int == e2);
    assert(r2.horiz == Some(ColPosition::End));
    lemma_line_of_inverse(buffer, l0 + k, e2);
    let r3 = update_region_spec(Movement::Up(k), r2, buffer, mode);
    assert(r3.end as int == e1);
}

} // verus!
