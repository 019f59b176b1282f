//! Rebasing a selection across a buffer edit: each region endpoint is mapped
//! through an edit delta's offset transform with a chosen bias, and the
//! results are re-merged.
use vstd::prelude::*;

use crate::selection::{add_region_spec, SelRegion, Selection};

verus! {

/// Whether a region boundary should count as lying inside or outside text
/// inserted exactly at that boundary when offsets are rebased across an edit.
#[derive(Clone, Copy, PartialEq, Eq, Debug)]
pub enum InsertDrift {
    /// Take the `after` flag as given for both endpoints.
    Default,
    /// Keep an insertion at a boundary inside a non-caret region.
    Inside,
    /// Keep an insertion at a boundary outside a non-caret region.
    Outside,
}

/// An edit delta of the rope library, held opaquely: this core only ever
/// hands it back to the rope library's offset transform.
#[verifier::external_body]
pub struct EditDelta {
    delta: xi_rope::rope::RopeDelta,
}

impl EditDelta {
    /// Relies on xi_rope's Delta::simple_edit: the delta that replaces
    /// `start..end` of a document of length `base_len` with `text` (an
    /// insertion when `start == end`, a deletion when `text` is empty).
    #[verifier::external_body]
    pub fn simple_edit(start: usize, end: usize, text: &str, base_len: usize) -> EditDelta
        requires
            start <= end,
            end <= base_len,
    {
        EditDelta {
            delta: xi_rope::Delta::simple_edit(
                xi_rope::Interval::new(start, end),
                xi_rope::Rope::from(text),
                base_len,
            ),
        }
    }
}

/// What xi_rope's transformer computes for one coordinate of a delta.
pub uninterp spec fn transform_of(delta: EditDelta, ix: usize, after: bool) -> usize;

/// Relies on xi_rope::Transformer: `new` only stores the borrowed delta, and
/// `transform` maps the coordinate through the delta's elements — a function
/// of the delta, the coordinate and the `after` flag alone.
#[verifier::external_body]
fn transform_offset(delta: &EditDelta, ix: usize, after: bool) -> (r: usize)
    ensures
        r == transform_of(*delta, ix, after),
{
    let mut transformer = xi_rope::Transformer::new(&delta.delta);
    transformer.transform(ix, after)
}

/// The `after` bias for the two endpoints of a region: a caret takes the
/// caller's flag for both; a true range biases its endpoints toward the
/// inside or the outside of its extent, by the drift and the direction.
pub open spec fn region_biases_spec(r: SelRegion, after: bool, drift: InsertDrift) -> (bool, bool) {
    let forward = r.start < r.end;
    match (drift, r.is_caret_spec()) {
        (InsertDrift::Inside, false) => (!forward, forward),
        (InsertDrift::Outside, false) => (forward, !forward),
        _ => (after, after),
    }
}

/// One region mapped through the edit: each endpoint rebased with its bias,
/// the stale affinity dropped.
pub open spec fn rebase_region_spec(
    delta: EditDelta,
    r: SelRegion,
    after: bool,
    drift: InsertDrift,
) -> SelRegion {
    let b = region_biases_spec(r, after, drift);
    SelRegion {
        start: transform_of(delta, r.start, b.0),
        end: transform_of(delta, r.end, b.1),
        horiz: None,
    }
}

/// The first `n` regions rebased and folded into a fresh selection through
/// the merging insertion.
pub open spec fn apply_delta_fold_spec(
    s: Seq<SelRegion>,
    delta: EditDelta,
    after: bool,
    drift: InsertDrift,
    n: int,
) -> Seq<SelRegion>
    decreases n,
{
    if n <= 0 {
        Seq::empty()
    } else {
        add_region_spec(
            apply_delta_fold_spec(s, delta, after, drift, n - 1),
            rebase_region_spec(delta, s[n - 1], after, drift),
        )
    }
}

impl Selection {
    /// Rebuild the selection after a buffer edit: every region's endpoints are
    /// passed through the edit's offset transform with the bias chosen by the
    /// drift, and the rebased regions are re-inserted one by one, so regions
    /// that the edit pushed together merge exactly as on manual insertion.
    #[verifier::loop_isolation(false)]
    pub fn apply_delta(
        &self,
        delta: &EditDelta,
        after: bool,
        drift: InsertDrift,
    ) -> (r: Selection)
        ensures
            r@ == apply_delta_fold_spec(self@, *delta, after, drift, self@.len() as int),
            r.wf(),
    {
        let mut result = Selection::new();
        let regs = self.regions();
        let mut i: usize = 0;
        while i < regs.len()
            invariant
                i <= regs.len(),
                result@ == apply_delta_fold_spec(self@, *delta, after, drift, i as int),
                result.wf(),
            decreases regs.len() - i,
        {
            let region = regs[i];
            let is_caret = region.start == region.end;
            let is_region_forward = region.start < region.end;
            let (start_after, end_after): (bool, bool) = match (drift, is_caret) {
                (InsertDrift::Inside, false) => (!is_region_forward, is_region_forward),
                (InsertDrift::Outside, false) => (is_region_forward, !is_region_forward),
                _ => (after, after),
            };
            let new_region = SelRegion::new(
                transform_offset(delta, region.start, start_after),
                transform_offset(delta, region.end, end_after),
                None,
            );
            result.add_region(new_region);
            i = i + 1;
        }
        result
    }
}

} // verus!
