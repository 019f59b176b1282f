//! A minimal in-memory buffer: raw bytes plus the scanned line starts. It
//! implements the movement query surface with a simple blank-separated word
//! model, and serves the unit tests as the concrete buffer.
use vstd::prelude::*;

use crate::buffer::Buffer;
use crate::selection::{lemma_inv_pair, sel_inv, ColPosition, SelRegion, Selection};

verus! {

/// Bytes that end a word in the simple word model: space, tab, line break.
pub open spec fn is_blank_spec(b: u8) -> bool {
    b == 32 || b == 9 || b == 10
}

fn is_blank(b: u8) -> (r: bool)
    ensures
        r == is_blank_spec(b),
{
    b == 32 || b == 9 || b == 10
}

/// First position at or past `o` that is blank or the end of the text.
pub open spec fn skip_word_spec(t: Seq<u8>, o: int) -> int
    decreases t.len() - o,
{
    if 0 <= o < t.len() && !is_blank_spec(t[o]) {
        skip_word_spec(t, o + 1)
    } else {
        o
    }
}

/// First position at or past `o` that is not blank, or the end of the text.
pub open spec fn skip_blanks_spec(t: Seq<u8>, o: int) -> int
    decreases t.len() - o,
{
    if 0 <= o < t.len() && is_blank_spec(t[o]) {
        skip_blanks_spec(t, o + 1)
    } else {
        o
    }
}

/// Last position at or before `o` with no blank directly before it.
pub open spec fn skip_blanks_back_spec(t: Seq<u8>, o: int) -> int
    decreases o,
{
    if 0 < o <= t.len() && is_blank_spec(t[o - 1]) {
        skip_blanks_back_spec(t, o - 1)
    } else {
        o
    }
}

/// Last position at or before `o` with a blank (or the text start) directly
/// before it.
pub open spec fn skip_word_back_spec(t: Seq<u8>, o: int) -> int
    decreases o,
{
    if 0 < o <= t.len() && !is_blank_spec(t[o - 1]) {
        skip_word_back_spec(t, o - 1)
    } else {
        o
    }
}

proof fn lemma_skip_forward_bounds(t: Seq<u8>, o: int)
    requires
        0 <= o <= t.len(),
    ensures
        o <= skip_word_spec(t, o) <= t.len(),
        o <= skip_blanks_spec(t, o) <= t.len(),
    decreases t.len() - o,
{
    if o < t.len() {
        lemma_skip_forward_bounds(t, o + 1);
    }
}

proof fn lemma_skip_backward_bounds(t: Seq<u8>, o: int)
    requires
        0 <= o <= t.len(),
    ensures
        0 <= skip_blanks_back_spec(t, o) <= o,
        0 <= skip_word_back_spec(t, o) <= o,
    decreases o,
{
    if 0 < o {
        lemma_skip_backward_bounds(t, o - 1);
    }
}

proof fn lemma_skip_bounds(t: Seq<u8>, o: int)
    requires
        0 <= o <= t.len(),
    ensures
        o <= skip_word_spec(t, o) <= t.len(),
        o <= skip_blanks_spec(t, o) <= t.len(),
        0 <= skip_blanks_back_spec(t, o) <= o,
        0 <= skip_word_back_spec(t, o) <= o,
{
    lemma_skip_forward_bounds(t, o);
    lemma_skip_backward_bounds(t, o);
}

/// The greatest index `<= hi` whose line start is at or before `o` (or 0).
pub open spec fn line_find_spec(ls: Seq<usize>, o: int, hi: int) -> int
    decreases hi,
{
    if hi <= 0 {
        0
    } else if 0 <= hi < ls.len() && ls[hi] <= o {
        hi
    } else {
        line_find_spec(ls, o, hi - 1)
    }
}

proof fn lemma_line_find(ls: Seq<usize>, o: int, hi: int)
    requires
        0 <= hi < ls.len(),
    ensures
        0 <= line_find_spec(ls, o, hi) <= hi,
        forall|j: int|
            line_find_spec(ls, o, hi) < j <= hi ==> (#[trigger] ls[j]) > o,
        line_find_spec(ls, o, hi) > 0 ==> ls[line_find_spec(ls, o, hi)] <= o,
    decreases hi,
{
    if hi > 0 && !(ls[hi] <= o) {
        lemma_line_find(ls, o, hi - 1);
    }
}

/// Raw bytes and the positions where lines begin: 0, and each position
/// directly after a line break.
pub struct TextBuffer {
    text: Vec<u8>,
    line_starts: Vec<usize>,
}

impl TextBuffer {
    /// Build a buffer over raw bytes, scanning once for line breaks.
    #[verifier::loop_isolation(false)]
    pub fn from_text(text: Vec<u8>) -> (r: TextBuffer)
        requires
            text@.len() + 1 <= usize::MAX,
        ensures
            r.inv(),
            r.len_spec() == text@.len(),
    {
        let mut line_starts: Vec<usize> = Vec::new();
        line_starts.push(0);
        let mut i: usize = 0;
        while i < text.len()
            invariant
                i <= text@.len(),
                line_starts@.len() >= 1,
                line_starts@[0] == 0,
                forall|a: int, b: int|
                    0 <= a < b < line_starts@.len() ==> (#[trigger] line_starts@[a])
                        < (#[trigger] line_starts@[b]),
                forall|a: int| 0 <= a < line_starts@.len() ==> (#[trigger] line_starts@[a]) <= i,
            decreases text@.len() - i,
        {
            if text[i] == 10u8 {
                line_starts.push(i + 1);
            }
            i = i + 1;
        }
        TextBuffer { text, line_starts }
    }
}

impl Buffer for TextBuffer {
    closed spec fn inv(&self) -> bool {
        &&& self.line_starts@.len() >= 1
        &&& self.line_starts@[0] == 0
        &&& forall|a: int, b: int|
            0 <= a < b < self.line_starts@.len() ==> (#[trigger] self.line_starts@[a])
                < (#[trigger] self.line_starts@[b])
        &&& forall|a: int|
            0 <= a < self.line_starts@.len() ==> (#[trigger] self.line_starts@[a])
                <= self.text@.len()
        &&& self.text@.len() + 1 <= usize::MAX
    }

    closed spec fn len_spec(&self) -> int {
        self.text@.len() as int
    }

    closed spec fn last_line_spec(&self) -> int {
        self.line_starts@.len() - 1
    }

    closed spec fn offset_of_line_spec(&self, line: int) -> int {
        if line == self.line_starts@.len() {
            self.text@.len() as int + 1
        } else if 0 <= line < self.line_starts@.len() {
            self.line_starts@[line] as int
        } else {
            0
        }
    }

    closed spec fn line_of_offset_spec(&self, offset: int) -> int {
        line_find_spec(self.line_starts@, offset, self.line_starts@.len() - 1)
    }

    closed spec fn word_forward_spec(&self, offset: int) -> int {
        skip_blanks_spec(self.text@, skip_word_spec(self.text@, offset))
    }

    closed spec fn word_backward_spec(&self, offset: int) -> int {
        skip_word_back_spec(self.text@, skip_blanks_back_spec(self.text@, offset))
    }

    closed spec fn fill_horiz_spec(&self, s: Seq<SelRegion>) -> Seq<SelRegion> {
        Seq::new(s.len(), |i: int| self.fill_one_spec(s[i]))
    }

    proof fn lemma_basics(&self) {
    }

    proof fn lemma_line_succ(&self, line: int) {
    }

    proof fn lemma_line_of_offset(&self, offset: int) {
        lemma_line_find(self.line_starts@, offset, self.line_starts@.len() - 1);
        let l = line_find_spec(self.line_starts@, offset, self.line_starts@.len() - 1);
        if l + 1 < self.line_starts@.len() {
            assert(self.line_starts@[l + 1] > offset);
        }
    }

    proof fn lemma_word_bounds(&self, offset: int) {
        lemma_skip_bounds(self.text@, offset);
        lemma_skip_bounds(self.text@, skip_word_spec(self.text@, offset));
        lemma_skip_bounds(self.text@, skip_blanks_back_spec(self.text@, offset));
    }

    proof fn lemma_fill_horiz(&self, s: Seq<SelRegion>) {
    }

    fn len(&self) -> (r: usize) {
        self.text.len()
    }

    fn last_line(&self) -> (r: usize) {
        self.line_starts.len() - 1
    }

    fn offset_of_line(&self, line: usize) -> (r: usize) {
        if line == self.line_starts.len() {
            self.text.len() + 1
        } else {
            self.line_starts[line]
        }
    }

    #[verifier::loop_isolation(false)]
    fn line_of_offset(&self, offset: usize) -> (r: usize) {
        let ghost ls = self.line_starts@;
        let mut l: usize = self.line_starts.len() - 1;
        proof {
            lemma_line_find(ls, offset as int, l as int);
        }
        while l > 0 && self.line_starts[l] > offset
            invariant
                0 <= l < ls.len(),
                line_find_spec(ls, offset as int, self.line_starts@.len() - 1) == line_find_spec(
                    ls,
                    offset as int,
                    l as int,
                ),
            decreases l,
        {
            l = l - 1;
        }
        l
    }

    #[verifier::loop_isolation(false)]
    fn word_forward(&self, offset: usize) -> (r: usize) {
        let ghost t = self.text@;
        let mut o = offset;
        proof {
            lemma_skip_bounds(t, offset as int);
        }
        while o < self.text.len() && !is_blank(self.text[o])
            invariant
                offset <= o <= t.len(),
                skip_word_spec(t, offset as int) == skip_word_spec(t, o as int),
            decreases t.len() - o,
        {
            o = o + 1;
        }
        proof {
            lemma_skip_bounds(t, o as int);
        }
        while o < self.text.len() && is_blank(self.text[o])
            invariant
                o <= t.len(),
                skip_blanks_spec(t, skip_word_spec(t, offset as int)) == skip_blanks_spec(
                    t,
                    o as int,
                ),
            decreases t.len() - o,
        {
            o = o + 1;
        }
        o
    }

    #[verifier::loop_isolation(false)]
    fn word_backward(&self, offset: usize) -> (r: usize) {
        let ghost t = self.text@;
        let mut o = offset;
        proof {
            lemma_skip_bounds(t, offset as int);
        }
        while o > 0 && is_blank(self.text[o - 1])
            invariant
                0 <= o <= offset,
                skip_blanks_back_spec(t, offset as int) == skip_blanks_back_spec(t, o as int),
            decreases o,
        {
            o = o - 1;
        }
        proof {
            lemma_skip_bounds(t, o as int);
        }
        while o > 0 && !is_blank(self.text[o - 1])
            invariant
                0 <= o,
                o <= offset,
                skip_word_back_spec(t, skip_blanks_back_spec(t, offset as int))
                    == skip_word_back_spec(t, o as int),
            decreases o,
        {
            o = o - 1;
        }
        o
    }

    #[verifier::loop_isolation(false)]
    fn fill_horiz(&self, selection: &Selection) -> (r: Selection) {
        let regs = selection.regions();
        let mut filled: Vec<SelRegion> = Vec::new();
        let mut i: usize = 0;
        while i < regs.len()
            invariant
                i <= regs.len(),
                filled@ == Seq::new(i as nat, |j: int| self.fill_one_spec(selection@[j])),
            decreases regs.len() - i,
        {
            let region = regs[i];
            let one = self.fill_one(&region);
            filled.push(one);
            proof {
                assert(filled@ =~= Seq::new(
                    (i + 1) as nat,
                    |j: int| self.fill_one_spec(selection@[j]),
                ));
            }
            i = i + 1;
        }
        proof {
            let out = Seq::new(selection@.len(), |j: int| self.fill_one_spec(selection@[j]));
            assert(filled@ =~= out);
            assert(sel_inv(filled@)) by {
                assert forall|a: int| 0 <= a && a + 1 < filled@.len() implies #[trigger]
                    crate::selection::regions_ordered(filled@[a], filled@[a + 1]) by {
                    lemma_inv_pair(selection@, a);
                }
            }
            assert(out =~= self.fill_horiz_spec(selection@));
        }
        Selection::from_regions(filled)
    }
}

impl TextBuffer {
    /// What the affinity fill does to one region: a region with no affinity
    /// whose `end` lies inside the buffer learns its current column; any
    /// other region is kept as it is.
    pub closed spec fn fill_one_spec(&self, r: SelRegion) -> SelRegion {
        if r.horiz is Some || !(r.end as int <= self.text@.len()) {
            r
        } else {
            SelRegion {
                start: r.start,
                end: r.end,
                horiz: Some(
                    ColPosition::Col((r.end as int - self.offset_of_line_spec(
                        self.line_of_offset_spec(r.end as int),
                    )) as usize),
                ),
            }
        }
    }

    fn fill_one(&self, r: &SelRegion) -> (out: SelRegion)
        requires
            self.inv(),
        ensures
            out == self.fill_one_spec(*r),
    {
        if r.horiz.is_some() || !(r.end <= self.text.len()) {
            *r
        } else {
            proof {
                self.lemma_line_of_offset(r.end as int);
            }
            let line = self.line_of_offset(r.end);
            let start = self.offset_of_line(line);
            SelRegion { start: r.start, end: r.end, horiz: Some(ColPosition::Col(r.end - start)) }
        }
    }
}

} // verus!
