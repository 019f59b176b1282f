//! Caret/range regions over a text buffer and the ordered, merged set of them.
use vstd::prelude::*;

verus! {

/// Remembered horizontal position of a caret, used by vertical movement.
#[derive(Clone, Copy, PartialEq, Eq, Debug)]
pub enum ColPosition {
    FirstNonBlank,
    Start,
    End,
    Col(usize),
}

/// A directional range `start..end` (either order) with an optional column affinity.
#[derive(Clone, Copy, PartialEq, Eq, Debug)]
pub struct SelRegion {
    pub start: usize,
    pub end: usize,
    pub horiz: Option<ColPosition>,
}

impl SelRegion {
    /// Lower end of the extent, whatever the direction.
    pub open spec fn min_spec(self) -> usize {
        if self.start <= self.end {
            self.start
        } else {
            self.end
        }
    }

    /// Upper end of the extent, whatever the direction.
    pub open spec fn max_spec(self) -> usize {
        if self.start <= self.end {
            self.end
        } else {
            self.start
        }
    }

    pub open spec fn is_caret_spec(self) -> bool {
        self.start == self.end
    }

    /// A region absorbs `other` when their extents truly overlap, or when a
    /// zero-width region touches this region's upper bound.
    pub open spec fn should_merge_spec(self, other: SelRegion) -> bool {
        other.min_spec() < self.max_spec() || ((self.is_caret_spec() || other.is_caret_spec())
            && other.min_spec() == self.max_spec())
    }

    /// The merged region spans both extents; it is forward if either input was,
    /// and the affinity is dropped.
    pub open spec fn merge_spec(self, other: SelRegion) -> SelRegion {
        let is_forward = self.end > self.start || other.end > other.start;
        let new_min = if self.min_spec() <= other.min_spec() {
            self.min_spec()
        } else {
            other.min_spec()
        };
        let new_max = if self.max_spec() >= other.max_spec() {
            self.max_spec()
        } else {
            other.max_spec()
        };
        if is_forward {
            SelRegion { start: new_min, end: new_max, horiz: None }
        } else {
            SelRegion { start: new_max, end: new_min, horiz: None }
        }
    }

    pub fn new(start: usize, end: usize, horiz: Option<ColPosition>) -> (r: SelRegion)
        ensures
            r == (SelRegion { start, end, horiz }),
    {
        SelRegion { start, end, horiz }
    }

    pub fn min(self) -> (r: usize)
        ensures
            r == self.min_spec(),
    {
        if self.start <= self.end {
            self.start
        } else {
            self.end
        }
    }

    pub fn max(self) -> (r: usize)
        ensures
            r == self.max_spec(),
    {
        if self.start <= self.end {
            self.end
        } else {
            self.start
        }
    }

    pub fn start(self) -> (r: usize)
        ensures
            r == self.start,
    {
        self.start
    }

    pub fn end(self) -> (r: usize)
        ensures
            r == self.end,
    {
        self.end
    }

    pub fn horiz(&self) -> (r: Option<&ColPosition>)
        ensures
            (match r {
                Some(c) => self.horiz == Some(*c),
                None => self.horiz is None,
            }),
    {
        self.horiz.as_ref()
    }

    pub fn is_caret(self) -> (r: bool)
        ensures
            r == self.is_caret_spec(),
    {
        self.start == self.end
    }

    fn should_merge(self, other: SelRegion) -> (r: bool)
        ensures
            r == self.should_merge_spec(other),
    {
        let omin = other.min();
        let smax = self.max();
        omin < smax || ((self.is_caret() || other.is_caret()) && omin == smax)
    }

    fn merge_with(self, other: SelRegion) -> (r: SelRegion)
        ensures
            r == self.merge_spec(other),
    {
        let is_forward = self.end > self.start || other.end > other.start;
        let smin = self.min();
        let omin = other.min();
        let new_min = if smin <= omin {
            smin
        } else {
            omin
        };
        let smax = self.max();
        let omax = other.max();
        let new_max = if smax >= omax {
            smax
        } else {
            omax
        };
        if is_forward {
            SelRegion { start: new_min, end: new_max, horiz: None }
        } else {
            SelRegion { start: new_max, end: new_min, horiz: None }
        }
    }
}

/// Two neighbouring regions are legally placed when neither would absorb the
/// other: the extents do not overlap, and a touch at the boundary involves no
/// zero-width region.
pub open spec fn regions_ordered(a: SelRegion, b: SelRegion) -> bool {
    !a.should_merge_spec(b)
}

/// The ordering/merging invariant of a Selection: regions sorted ascending by
/// extent, with no overlap and no absorbable touch between neighbours.
pub open spec fn sel_inv(s: Seq<SelRegion>) -> bool {
    forall|i: int| 0 <= i && i + 1 < s.len() ==> #[trigger] regions_ordered(s[i], s[i + 1])
}

/// The invariant, instantiated at one neighbouring pair.
pub proof fn lemma_inv_pair(s: Seq<SelRegion>, i: int)
    requires
        sel_inv(s),
        0 <= i,
        i + 1 < s.len(),
    ensures
        regions_ordered(s[i], s[i + 1]),
{
}

/// Under the invariant, extents are totally ordered along the sequence and the
/// upper bounds are strictly increasing.
pub proof fn lemma_inv_sorted(s: Seq<SelRegion>)
    requires
        sel_inv(s),
    ensures
        forall|i: int, j: int|
            0 <= i < j < s.len() ==> (#[trigger] s[i]).max_spec() <= (#[trigger] s[j]).min_spec(),
        forall|i: int, j: int|
            0 <= i < j < s.len() ==> (#[trigger] s[i]).max_spec() < (#[trigger] s[j]).max_spec(),
{
    assert forall|i: int, j: int| 0 <= i < j < s.len() implies (#[trigger] s[i]).max_spec()
        <= (#[trigger] s[j]).min_spec() && s[i].max_spec() < s[j].max_spec() by {
        lemma_inv_chain(s, i, j);
    }
}

proof fn lemma_inv_chain(s: Seq<SelRegion>, i: int, j: int)
    requires
        sel_inv(s),
        0 <= i < j < s.len(),
    ensures
        s[i].max_spec() <= s[j].min_spec(),
        s[i].max_spec() < s[j].max_spec(),
    decreases j - i,
{
    if j == i + 1 {
        lemma_inv_pair(s, i);
    } else {
        lemma_inv_chain(s, i, j - 1);
        lemma_inv_pair(s, j - 1);
    }
}

/// Index of the first region whose upper extent is at or past `offset`, or the
/// length of the sequence when every region ends before it.
pub open spec fn search_spec(s: Seq<SelRegion>, offset: usize) -> int
    decreases s.len(),
{
    if s.len() == 0 {
        0
    } else if s[0].max_spec() >= offset {
        0
    } else {
        1 + search_spec(s.drop_first(), offset)
    }
}

pub proof fn lemma_search_spec_bounds(s: Seq<SelRegion>, offset: usize)
    ensures
        0 <= search_spec(s, offset) <= s.len(),
        forall|i: int| 0 <= i < search_spec(s, offset) ==> (#[trigger] s[i]).max_spec() < offset,
        search_spec(s, offset) < s.len() ==> s[search_spec(s, offset)].max_spec() >= offset,
    decreases s.len(),
{
    if s.len() == 0 {
    } else if s[0].max_spec() >= offset {
    } else {
        lemma_search_spec_bounds(s.drop_first(), offset);
        let r = search_spec(s, offset);
        assert forall|i: int| 0 <= i < r implies (#[trigger] s[i]).max_spec() < offset by {
            if i > 0 {
                assert(s.drop_first()[i - 1] == s[i]);
            }
        }
        if r < s.len() {
            assert(s.drop_first()[r - 1] == s[r]);
        }
    }
}

/// The set of simultaneously active regions, kept sorted and merged.
#[derive(Clone, Debug)]
pub struct Selection {
    regions: Vec<SelRegion>,
}

impl View for Selection {
    type V = Seq<SelRegion>;

    closed spec fn view(&self) -> Seq<SelRegion> {
        self.regions@
    }
}

impl Selection {
    pub open spec fn wf(self) -> bool {
        sel_inv(self@)
    }

    pub fn new() -> (r: Selection)
        ensures
            r@ == Seq::<SelRegion>::empty(),
            r.wf(),
    {
        let r = Selection { regions: Vec::new() };
        proof {
            assert(r@ =~= Seq::<SelRegion>::empty());
        }
        r
    }

    pub fn new_simple() -> (r: Selection)
        ensures
            r@ == seq![SelRegion { start: 0, end: 0, horiz: None }],
            r.wf(),
    {
        let mut v: Vec<SelRegion> = Vec::new();
        v.push(SelRegion { start: 0, end: 0, horiz: None });
        let r = Selection { regions: v };
        proof {
            assert(r@ =~= seq![SelRegion { start: 0, end: 0, horiz: None }]);
        }
        r
    }

    pub fn caret(offset: usize) -> (r: Selection)
        ensures
            r@ == seq![SelRegion { start: offset, end: offset, horiz: None }],
            r.wf(),
    {
        let mut v: Vec<SelRegion> = Vec::new();
        v.push(SelRegion { start: offset, end: offset, horiz: None });
        let r = Selection { regions: v };
        proof {
            assert(r@ =~= seq![SelRegion { start: offset, end: offset, horiz: None }]);
        }
        r
    }

    pub fn region(start: usize, end: usize) -> (r: Selection)
        ensures
            r@ == seq![SelRegion { start, end, horiz: None }],
            r.wf(),
    {
        let mut v: Vec<SelRegion> = Vec::new();
        v.push(SelRegion { start, end, horiz: None });
        let r = Selection { regions: v };
        proof {
            assert(r@ =~= seq![SelRegion { start, end, horiz: None }]);
        }
        r
    }

    /// Build a selection directly from regions already known to satisfy the
    /// invariant.
    pub(crate) fn from_regions(regions: Vec<SelRegion>) -> (r: Selection)
        requires
            sel_inv(regions@),
        ensures
            r@ == regions@,
            r.wf(),
    {
        Selection { regions }
    }

    /// The position reported for single-caret feedback: the `end` of the first
    /// region.
    pub fn get_cursor_offset(&self) -> (r: usize)
        requires
            self@.len() >= 1,
        ensures
            r == self@[0].end,
    {
        self.regions[0].end
    }

    /// The lower extent of the last region in order — not necessarily the
    /// global minimum over all regions, since the order is by upper extent.
    pub fn min(&self) -> (r: usize)
        requires
            self@.len() >= 1,
        ensures
            r == self@[self@.len() - 1].min_spec(),
    {
        self.regions[self.regions.len() - 1].min()
    }

    pub fn regions(&self) -> (r: &[SelRegion])
        ensures
            r@ == self@,
    {
        self.regions.as_slice()
    }

    /// A new selection holding only the first region.
    pub fn collapse(&self) -> (r: Selection)
        requires
            self@.len() >= 1,
        ensures
            r@ == seq![self@[0]],
            r.wf(),
    {
        let mut selection = Self::new();
        selection.add_region(self.regions[0].clone());
        proof {
            assert(selection@ =~= seq![self@[0]]);
        }
        selection
    }

    /// A new selection with the first region collapsed to a caret at its `end`,
    /// keeping its affinity.
    pub fn to_caret(&self) -> (r: Selection)
        requires
            self@.len() >= 1,
        ensures
            r@ == seq![
                SelRegion { start: self@[0].end, end: self@[0].end, horiz: self@[0].horiz },
            ],
            r.wf(),
    {
        let region = self.regions[0];
        let mut v: Vec<SelRegion> = Vec::new();
        v.push(SelRegion { start: region.end, end: region.end, horiz: region.horiz });
        let r = Selection { regions: v };
        proof {
            assert(r@ =~= seq![
                SelRegion { start: self@[0].end, end: self@[0].end, horiz: self@[0].horiz },
            ]);
        }
        r
    }

    /// Binary search for the first region whose upper extent is `>= offset`.
    #[verifier::loop_isolation(false)]
    #[verifier::rlimit(50)]
    pub fn search(&self, offset: usize) -> (r: usize)
        requires
            self.wf(),
        ensures
            r == search_spec(self@, offset),
    {
        proof {
            lemma_search_spec_bounds(self@, offset);
            lemma_inv_sorted(self@);
        }
        let len = self.regions.len();
        let mut lo: usize = 0;
        let mut hi: usize = len;
        while lo < hi
            invariant
                lo <= hi <= len,
                len == self@.len(),
                self.wf(),
                forall|i: int| 0 <= i < lo ==> (#[trigger] self@[i]).max_spec() < offset,
                forall|i: int| hi <= i < len ==> (#[trigger] self@[i]).max_spec() >= offset,
            decreases hi - lo,
        {
            let mid = lo + (hi - lo) / 2;
            if self.regions[mid].max() < offset {
                lo = mid + 1;
            } else {
                hi = mid;
            }
        }
        proof {
            let sp = search_spec(self@, offset);
            if sp < lo {
                assert(self@[sp].max_spec() < offset);
                assert(self@[sp].max_spec() >= offset);
            }
            if lo < sp {
                assert(self@[lo as int].max_spec() < offset);
                assert(self@[lo as int].max_spec() >= offset);
            }
        }
        lo
    }
}

/// Result of absorbing into `r` every region from index `i` on that `r` can
/// absorb: the grown region and the index of the first region left alone.
pub open spec fn merge_scan(s: Seq<SelRegion>, i: int, r: SelRegion) -> (SelRegion, int)
    decreases s.len() - i,
{
    if 0 <= i < s.len() && r.should_merge_spec(s[i]) {
        merge_scan(s, i + 1, r.merge_spec(s[i]))
    } else {
        (r, i)
    }
}

/// The sequence after inserting `region`, merging it with every region it
/// overlaps or absorbably touches.
pub open spec fn add_region_spec(s: Seq<SelRegion>, region: SelRegion) -> Seq<SelRegion> {
    let ix0 = search_spec(s, region.min_spec());
    if ix0 == s.len() {
        s.push(region)
    } else if s[ix0].min_spec() <= region.min_spec() {
        if s[ix0].should_merge_spec(region) {
            let m = merge_scan(s, ix0 + 1, s[ix0].merge_spec(region));
            s.take(ix0) + seq![m.0] + s.skip(m.1)
        } else {
            let m = merge_scan(s, ix0 + 1, region);
            s.take(ix0 + 1) + seq![m.0] + s.skip(m.1)
        }
    } else {
        let m = merge_scan(s, ix0, region);
        s.take(ix0) + seq![m.0] + s.skip(m.1)
    }
}

pub open spec fn min2(a: int, b: int) -> int {
    if a <= b {
        a
    } else {
        b
    }
}

pub open spec fn max2(a: int, b: int) -> int {
    if a >= b {
        a
    } else {
        b
    }
}

/// What the forward merge scan produces: where it stops, the extent of the
/// grown region, and that every region it passed over is covered by it.
pub proof fn lemma_merge_scan(s: Seq<SelRegion>, i: int, r: SelRegion)
    requires
        sel_inv(s),
        0 <= i <= s.len(),
    ensures
        ({
            let m = merge_scan(s, i, r);
            &&& i <= m.1 <= s.len()
            &&& (m.1 < s.len() ==> regions_ordered(m.0, s[m.1]))
            &&& m.0.min_spec() as int == (if m.1 > i {
                min2(r.min_spec() as int, s[i].min_spec() as int)
            } else {
                r.min_spec() as int
            })
            &&& m.0.max_spec() as int == (if m.1 > i {
                max2(r.max_spec() as int, s[m.1 - 1].max_spec() as int)
            } else {
                r.max_spec() as int
            })
            &&& (m.0.is_caret_spec() ==> r.is_caret_spec())
            &&& forall|j: int|
                i <= j < m.1 ==> m.0.min_spec() <= (#[trigger] s[j]).min_spec()
                    && s[j].max_spec() <= m.0.max_spec()
        }),
    decreases s.len() - i,
{
    lemma_inv_sorted(s);
    if 0 <= i < s.len() && r.should_merge_spec(s[i]) {
        let r2 = r.merge_spec(s[i]);
        lemma_merge_scan(s, i + 1, r2);
        let m = merge_scan(s, i, r);
        assert(m == merge_scan(s, i + 1, r2));
        assert(r2.min_spec() as int == min2(r.min_spec() as int, s[i].min_spec() as int));
        assert(r2.max_spec() as int == max2(r.max_spec() as int, s[i].max_spec() as int));
        if m.1 > i + 1 {
            assert(s[i].max_spec() <= s[i + 1].min_spec());
            assert(min2(r2.min_spec() as int, s[i + 1].min_spec() as int) == min2(
                r.min_spec() as int,
                s[i].min_spec() as int,
            ));
            assert(s[i].max_spec() < s[m.1 - 1].max_spec());
            assert(max2(r2.max_spec() as int, s[m.1 - 1].max_spec() as int) == max2(
                r.max_spec() as int,
                s[m.1 - 1].max_spec() as int,
            ));
        }
    }
}

/// Replacing the window `[ixx, me)` by a single region keeps the invariant,
/// provided the region is legally placed against both window neighbours.
proof fn lemma_window_inv(s: Seq<SelRegion>, ixx: int, m0: SelRegion, me: int)
    requires
        sel_inv(s),
        0 <= ixx <= me <= s.len(),
        me < s.len() ==> regions_ordered(m0, s[me]),
        ixx > 0 ==> regions_ordered(s[ixx - 1], m0),
    ensures
        sel_inv(s.take(ixx) + seq![m0] + s.skip(me)),
{
    let t = s.take(ixx) + seq![m0] + s.skip(me);
    assert forall|i: int| 0 <= i && i + 1 < t.len() implies #[trigger] regions_ordered(t[i], t[i + 1]) by {
        if i + 1 < ixx {
            lemma_inv_pair(s, i);
            assert(t[i] == s[i]);
            assert(t[i + 1] == s[i + 1]);
        } else if i + 1 == ixx {
            assert(t[i] == s[i]);
            assert(t[i + 1] == m0);
        } else if i == ixx {
            assert(t[i] == m0);
            assert(t[i + 1] == s[me]);
        } else {
            lemma_inv_pair(s, i - ixx - 1 + me);
            assert(t[i] == s[i - ixx - 1 + me]);
            assert(t[i + 1] == s[i - ixx + me]);
        }
    }
}

/// The insertion algorithm preserves the ordering/merging invariant, whatever
/// region is inserted and in whatever order calls are made.
pub proof fn lemma_add_region_preserves_inv(s: Seq<SelRegion>, region: SelRegion)
    requires
        sel_inv(s),
    ensures
        sel_inv(add_region_spec(s, region)),
{
    lemma_search_spec_bounds(s, region.min_spec());
    lemma_inv_sorted(s);
    let ix0 = search_spec(s, region.min_spec());
    if ix0 == s.len() {
        let t = s.push(region);
        assert forall|i: int| 0 <= i && i + 1 < t.len() implies #[trigger] regions_ordered(t[i], t[i + 1]) by {
            if i + 1 < s.len() {
                lemma_inv_pair(s, i);
                assert(t[i] == s[i]);
                assert(t[i + 1] == s[i + 1]);
            } else {
                assert(t[i] == s[i]);
                assert(t[i + 1] == region);
                assert(s[i].max_spec() < region.min_spec());
            }
        }
    } else if s[ix0].min_spec() <= region.min_spec() {
        if s[ix0].should_merge_spec(region) {
            let r1 = s[ix0].merge_spec(region);
            lemma_merge_scan(s, ix0 + 1, r1);
            let m = merge_scan(s, ix0 + 1, r1);
            assert(r1.min_spec() as int == min2(region.min_spec() as int, s[ix0].min_spec() as int));
            if ix0 > 0 {
                assert(s[ix0 - 1].max_spec() < region.min_spec());
                lemma_inv_pair(s, ix0 - 1);
                assert(regions_ordered(s[ix0 - 1], s[ix0]));
                if m.1 > ix0 + 1 {
                    assert(s[ix0].max_spec() <= s[ix0 + 1].min_spec());
                }
                assert(m.0.min_spec() as int == r1.min_spec() as int);
                assert(s[ix0 - 1].max_spec() <= m.0.min_spec());
                if s[ix0 - 1].max_spec() == m.0.min_spec() {
                    // the touch can only be against the old neighbour pair, where
                    // the invariant already rules out a zero-width participant
                    assert(m.0.min_spec() == s[ix0].min_spec());
                    assert(!s[ix0 - 1].is_caret_spec());
                    if m.0.is_caret_spec() {
                        assert(r1.is_caret_spec());
                        assert(s[ix0].is_caret_spec());
                        assert(false);
                    }
                }
                assert(regions_ordered(s[ix0 - 1], m.0));
            }
            lemma_window_inv(s, ix0, m.0, m.1);
        } else {
            lemma_merge_scan(s, ix0 + 1, region);
            let m = merge_scan(s, ix0 + 1, region);
            assert(region.min_spec() >= s[ix0].max_spec());
            if m.1 > ix0 + 1 {
                assert(s[ix0].max_spec() <= s[ix0 + 1].min_spec());
            }
            assert(s[ix0].max_spec() <= m.0.min_spec());
            if s[ix0].max_spec() == m.0.min_spec() {
                if m.0.min_spec() == region.min_spec() && region.min_spec() == s[ix0].max_spec() {
                    assert(!s[ix0].is_caret_spec());
                    assert(!region.is_caret_spec());
                    if m.0.is_caret_spec() {
                        assert(region.is_caret_spec());
                        assert(false);
                    }
                } else {
                    assert(m.1 > ix0 + 1);
                    assert(m.0.min_spec() == s[ix0 + 1].min_spec());
                    lemma_inv_pair(s, ix0);
                    assert(regions_ordered(s[ix0], s[ix0 + 1]));
                    assert(!s[ix0].is_caret_spec());
                    if m.0.is_caret_spec() {
                        assert(region.is_caret_spec());
                        assert(m.0.max_spec() >= region.max_spec());
                        assert(m.0.min_spec() <= region.min_spec());
                        assert(false);
                    }
                }
            }
            assert(regions_ordered(s[ix0], m.0));
            lemma_window_inv(s, ix0 + 1, m.0, m.1);
        }
    } else {
        lemma_merge_scan(s, ix0, region);
        let m = merge_scan(s, ix0, region);
        assert(m.0.min_spec() as int == region.min_spec() as int);
        if ix0 > 0 {
            assert(s[ix0 - 1].max_spec() < region.min_spec());
            assert(regions_ordered(s[ix0 - 1], m.0));
        }
        lemma_window_inv(s, ix0, m.0, m.1);
    }
}

impl Selection {
    /// Insert a region, merging it with every region it overlaps or touches as
    /// a caret, so that the ordering invariant is preserved.
    #[verifier::loop_isolation(false)]
    #[verifier::rlimit(100)]
    pub fn add_region(&mut self, region: SelRegion)
        requires
            old(self).wf(),
        ensures
            final(self)@ == add_region_spec(old(self)@, region),
            final(self).wf(),
    {
        let ghost s0 = self@;
        proof {
            lemma_search_spec_bounds(s0, region.min_spec());
            lemma_add_region_preserves_inv(s0, region);
        }
        let mut ix = self.search(region.min());
        if ix == self.regions.len() {
            self.regions.push(region);
            return ;
        }
        let mut region = region;
        let mut end_ix = ix;
        if self.regions[ix].min() <= region.min() {
            if self.regions[ix].should_merge(region) {
                region = self.regions[ix].merge_with(region);
            } else {
                ix += 1;
            }
            end_ix += 1;
        }
        let ghost scan0: int = end_ix as int;
        let ghost r1 = region;
        while end_ix < self.regions.len() && region.should_merge(self.regions[end_ix])
            invariant
                self@ == s0,
                scan0 <= end_ix <= s0.len(),
                merge_scan(s0, end_ix as int, region) == merge_scan(s0, scan0, r1),
            decreases s0.len() - end_ix,
        {
            region = region.merge_with(self.regions[end_ix]);
            end_ix += 1;
        }
        proof {
            assert(merge_scan(s0, end_ix as int, region) == (region, end_ix as int));
        }
        if ix == end_ix {
            self.regions.insert(ix, region);
            proof {
                assert(self@ =~= s0.take(ix as int) + seq![region] + s0.skip(end_ix as int));
            }
        } else {
            let picked = region;
            let _ = self.regions.remove(ix);
            self.regions.insert(ix, picked);
            proof {
                assert(self@ =~= s0.update(ix as int, picked));
            }
            remove_n_at(&mut self.regions, ix + 1, end_ix - ix - 1);
            proof {
                assert(self@ =~= s0.take(ix as int) + seq![picked] + s0.skip(end_ix as int));
            }
        }
    }
}

/// The window of regions the range query `[lo, hi]` yields: from the first
/// region ending at or past `lo` up to and including the region found for
/// `hi`, when that region begins at or before `hi`.
pub open spec fn range_query_spec(s: Seq<SelRegion>, lo: usize, hi: usize) -> Seq<SelRegion> {
    let first = search_spec(s, lo);
    let last0 = search_spec(s, hi);
    let last = if last0 < s.len() && s[last0].min_spec() <= hi {
        last0 + 1
    } else {
        last0
    };
    s.subrange(first, last)
}

impl Selection {
    /// The contiguous run of regions whose extents intersect `[start, end]`.
    pub fn regions_in_range(&self, start: usize, end: usize) -> (r: &[SelRegion])
        requires
            self.wf(),
            start <= end,
        ensures
            r@ == range_query_spec(self@, start, end),
    {
        proof {
            lemma_search_spec_bounds(self@, start);
            lemma_search_spec_bounds(self@, end);
        }
        let first = self.search(start);
        let mut last = self.search(end);
        if last < self.regions.len() && self.regions[last].min() <= end {
            last += 1;
        }
        proof {
            if last < first {
                assert(self@[last as int].max_spec() < start);
                assert(self@[last as int].max_spec() >= end);
            }
        }
        vstd::slice::slice_subrange(self.regions.as_slice(), first, last)
    }
}

/// Range queries are exact: a region is returned if and only if its extent
/// `[min, max]` intersects the closed query range `[lo, hi]`. The one
/// configuration left out is a region beginning exactly at `hi` directly after
/// a region ending exactly at `hi`: the query stops at the earlier of the two.
pub proof fn lemma_regions_in_range_exact(s: Seq<SelRegion>, lo: usize, hi: usize)
    requires
        sel_inv(s),
        lo <= hi,
        forall|i: int|
            0 <= i && i + 1 < s.len() ==> !((#[trigger] s[i]).max_spec() == hi && s[i
                + 1].min_spec() == hi),
    ensures
        ({
            let first = search_spec(s, lo);
            let last0 = search_spec(s, hi);
            let last = if last0 < s.len() && s[last0].min_spec() <= hi {
                last0 + 1
            } else {
                last0
            };
            forall|i: int|
                0 <= i < s.len() ==> (((#[trigger] s[i]).min_spec() <= hi && s[i].max_spec() >= lo)
                    <==> (first <= i < last))
        }),
{
    lemma_search_spec_bounds(s, lo);
    lemma_search_spec_bounds(s, hi);
    lemma_inv_sorted(s);
    let first = search_spec(s, lo);
    let last0 = search_spec(s, hi);
    let last = if last0 < s.len() && s[last0].min_spec() <= hi {
        last0 + 1
    } else {
        last0
    };
    assert forall|i: int| 0 <= i < s.len() implies (((#[trigger] s[i]).min_spec() <= hi
        && s[i].max_spec() >= lo) <==> (first <= i < last)) by {
        if i < first {
            assert(s[i].max_spec() < lo);
        } else if i < last {
            assert(s[first].max_spec() >= lo);
            if i < last0 {
                assert(s[i].max_spec() < hi);
            }
        } else {
            if i == last0 {
                assert(s[i].min_spec() > hi);
            } else {
                assert(last0 < i);
                assert(s[last0].max_spec() >= hi);
                assert(s[i - 1].max_spec() >= s[last0].max_spec() || i - 1 == last0);
                assert(s[i - 1].max_spec() <= s[i].min_spec());
                if s[i].min_spec() <= hi {
                    assert(s[i - 1].max_spec() == hi && s[i].min_spec() == hi);
                    assert(false);
                }
            }
        }
    }
}

/// Inserting a region whose extent truly overlaps the extent of the region at
/// index `i` yields a selection that is no larger and holds a single region
/// spanning the union of the two extents.
pub proof fn lemma_merge_on_overlap(s: Seq<SelRegion>, region: SelRegion, i: int)
    requires
        sel_inv(s),
        0 <= i < s.len(),
        region.min_spec() < s[i].max_spec(),
        s[i].min_spec() < region.max_spec(),
    ensures
        add_region_spec(s, region).len() <= s.len(),
        exists|j: int|
            0 <= j < add_region_spec(s, region).len() && (#[trigger] add_region_spec(s, region)[j]).min_spec()
                <= region.min_spec() && add_region_spec(s, region)[j].min_spec() <= s[i].min_spec()
                && add_region_spec(s, region)[j].max_spec() >= region.max_spec()
                && add_region_spec(s, region)[j].max_spec() >= s[i].max_spec(),
{
    lemma_search_spec_bounds(s, region.min_spec());
    lemma_inv_sorted(s);
    let ix0 = search_spec(s, region.min_spec());
    assert(ix0 <= i) by {
        if i < ix0 {
            assert(s[i].max_spec() < region.min_spec());
        }
    }
    let t = add_region_spec(s, region);
    if ix0 == i && s[ix0].min_spec() <= region.min_spec() {
        assert(s[ix0].should_merge_spec(region));
        let r1 = s[ix0].merge_spec(region);
        lemma_merge_scan(s, ix0 + 1, r1);
        let m = merge_scan(s, ix0 + 1, r1);
        assert(t =~= s.take(ix0) + seq![m.0] + s.skip(m.1));
        assert(t[ix0] == m.0);
        assert(m.0.min_spec() <= r1.min_spec() && m.0.max_spec() >= r1.max_spec());
    } else {
        // the scan starts at or before `i` and cannot stop sooner, since a
        // region it would stop at would begin past the inserted extent and yet
        // lie at or before `i`
        if s[ix0].min_spec() <= region.min_spec() {
            assert(s[ix0].should_merge_spec(region) == false || ix0 < i);
            if s[ix0].should_merge_spec(region) {
                let r1 = s[ix0].merge_spec(region);
                lemma_merge_scan(s, ix0 + 1, r1);
                let m = merge_scan(s, ix0 + 1, r1);
                lemma_scan_reaches(s, ix0 + 1, r1, i, region);
                assert(t =~= s.take(ix0) + seq![m.0] + s.skip(m.1));
                assert(t[ix0] == m.0);
            } else {
                let m = merge_scan(s, ix0 + 1, region);
                lemma_merge_scan(s, ix0 + 1, region);
                assert(ix0 < i) by {
                    if ix0 == i {
                        assert(region.min_spec() < s[i].max_spec());
                    }
                }
                lemma_scan_reaches(s, ix0 + 1, region, i, region);
                assert(t =~= s.take(ix0 + 1) + seq![m.0] + s.skip(m.1));
                assert(t[ix0 + 1] == m.0);
            }
        } else {
            let m = merge_scan(s, ix0, region);
            lemma_merge_scan(s, ix0, region);
            lemma_scan_reaches(s, ix0, region, i, region);
            assert(t =~= s.take(ix0) + seq![m.0] + s.skip(m.1));
            assert(t[ix0] == m.0);
        }
    }
}

/// Inserting a caret whose offset lies within (or on the boundary of) an
/// existing region's extent does not grow the selection: the caret is absorbed
/// into that region rather than duplicated beside it.
pub proof fn lemma_caret_coalesces(s: Seq<SelRegion>, o: usize, i: int)
    requires
        sel_inv(s),
        0 <= i < s.len(),
        s[i].min_spec() <= o <= s[i].max_spec(),
    ensures
        add_region_spec(s, SelRegion { start: o, end: o, horiz: None }).len() == s.len(),
{
    let region = SelRegion { start: o, end: o, horiz: None };
    lemma_search_spec_bounds(s, o);
    lemma_inv_sorted(s);
    let ix0 = search_spec(s, o);
    assert(ix0 <= i) by {
        if i < ix0 {
            assert(s[i].max_spec() < o);
        }
    }
    assert(ix0 < s.len());
    assert(s[ix0].min_spec() <= o) by {
        if s[ix0].min_spec() > o {
            // a region past `o` at the search index forces the previous region
            // to end exactly at `o`, which makes its extent empty
            assert(ix0 < i);
            assert(s[ix0].max_spec() <= s[i].min_spec() <= o);
            assert(s[ix0].max_spec() >= o);
            assert(s[ix0].min_spec() <= s[ix0].max_spec());
            assert(false);
        }
    }
    assert(s[ix0].should_merge_spec(region));
    let r1 = s[ix0].merge_spec(region);
    assert(r1.min_spec() == s[ix0].min_spec() && r1.max_spec() == s[ix0].max_spec());
    assert(r1.is_caret_spec() == s[ix0].is_caret_spec());
    let m = merge_scan(s, ix0 + 1, r1);
    assert(m == (r1, ix0 + 1)) by {
        if ix0 + 1 < s.len() {
            lemma_inv_pair(s, ix0);
            assert(regions_ordered(s[ix0], s[ix0 + 1]));
            assert(!r1.should_merge_spec(s[ix0 + 1]));
        }
    }
    assert(add_region_spec(s, region) == s.take(ix0) + seq![r1] + s.skip(ix0 + 1));
}

/// The forward scan started at or before an overlapped region cannot stop
/// before absorbing it.
proof fn lemma_scan_reaches(s: Seq<SelRegion>, start: int, r: SelRegion, i: int, region: SelRegion)
    requires
        sel_inv(s),
        0 <= start <= s.len(),
        start <= i < s.len(),
        r.max_spec() >= region.max_spec(),
        s[i].min_spec() < region.max_spec(),
    ensures
        merge_scan(s, start, r).1 > i,
        merge_scan(s, start, r).0.max_spec() >= s[i].max_spec(),
        merge_scan(s, start, r).0.min_spec() <= s[i].min_spec(),
    decreases s.len() - start,
{
    lemma_inv_sorted(s);
    lemma_merge_scan(s, start, r);
    let m = merge_scan(s, start, r);
    if m.1 <= i {
        assert(m.1 < s.len());
        assert(regions_ordered(m.0, s[m.1]));
        assert(s[m.1].min_spec() >= m.0.max_spec());
        assert(m.0.max_spec() >= r.max_spec() || m.1 > start) by {
            if m.1 == start {
            }
        }
        assert(m.0.max_spec() >= r.max_spec()) by {
            if m.1 > start {
                assert(m.0.max_spec() as int == max2(
                    r.max_spec() as int,
                    s[m.1 - 1].max_spec() as int,
                ));
            }
        }
        if m.1 < i {
            assert(s[m.1].min_spec() <= s[m.1].max_spec() <= s[i].min_spec());
        }
        assert(s[i].min_spec() >= region.max_spec());
        assert(false);
    }
}

/// Remove `n` consecutive elements starting at `index`.
#[verifier::loop_isolation(false)]
pub fn remove_n_at<T>(v: &mut Vec<T>, index: usize, n: usize)
    requires
        index + n <= old(v)@.len(),
    ensures
        final(v)@ == old(v)@.take(index as int) + old(v)@.skip(index + n),
{
    proof {
        assert(v@ =~= old(v)@.take(index as int) + old(v)@.skip(index as int));
    }
    let mut k: usize = 0;
    while k < n
        invariant
            k <= n,
            index + n <= old(v)@.len(),
            v@ == old(v)@.take(index as int) + old(v)@.skip(index + k),
        decreases n - k,
    {
        v.remove(index);
        k += 1;
        proof {
            assert(v@ =~= old(v)@.take(index as int) + old(v)@.skip(index + k));
        }
    }
}

} // verus!
