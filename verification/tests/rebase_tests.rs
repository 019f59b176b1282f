use selcore::{ColPosition, EditDelta, InsertDrift, SelRegion, Selection};

// "hello world" has length 11 in every test below.

#[test]
fn insert_before_caret_shifts_it_by_the_inserted_length() {
    let s = Selection::caret(5);
    let d = EditDelta::simple_edit(2, 2, "ab", 11);
    let t = s.apply_delta(&d, true, InsertDrift::Default);
    assert_eq!(t.regions().len(), 1);
    assert_eq!(t.regions()[0].end(), 7);
    let t = s.apply_delta(&d, false, InsertDrift::Default);
    assert_eq!(t.regions()[0].end(), 7);
}

#[test]
fn insert_exactly_at_caret_lands_before_or_after_by_the_flag() {
    let s = Selection::caret(2);
    let d = EditDelta::simple_edit(2, 2, "ab", 11);
    let before = s.apply_delta(&d, false, InsertDrift::Default);
    assert_eq!(before.regions()[0].end(), 2);
    let after = s.apply_delta(&d, true, InsertDrift::Default);
    assert_eq!(after.regions()[0].end(), 4);
}

#[test]
fn delete_before_caret_pulls_it_back() {
    let s = Selection::caret(5);
    let d = EditDelta::simple_edit(2, 4, "", 11);
    let t = s.apply_delta(&d, true, InsertDrift::Default);
    assert_eq!(t.regions()[0].end(), 3);
}

#[test]
fn insert_after_caret_leaves_it_alone() {
    let s = Selection::caret(2);
    let d = EditDelta::simple_edit(7, 7, "xyz", 11);
    let t = s.apply_delta(&d, false, InsertDrift::Default);
    assert_eq!(t.regions()[0].end(), 2);
}

#[test]
fn inside_drift_keeps_insertion_at_start_inside_a_forward_range() {
    let s = Selection::region(2, 6);
    let d = EditDelta::simple_edit(2, 2, "ab", 11);
    let t = s.apply_delta(&d, false, InsertDrift::Inside);
    let r = t.regions()[0];
    // start biased before the insertion, end biased after: the range grows
    assert_eq!((r.start(), r.end()), (2, 8));
}

#[test]
fn outside_drift_keeps_insertion_at_start_outside_a_forward_range() {
    let s = Selection::region(2, 6);
    let d = EditDelta::simple_edit(2, 2, "ab", 11);
    let t = s.apply_delta(&d, false, InsertDrift::Outside);
    let r = t.regions()[0];
    assert_eq!((r.start(), r.end()), (4, 8));
}

#[test]
fn rebased_regions_drop_affinity_and_remerge() {
    let mut s = Selection::new();
    s.add_region(SelRegion::new(3, 3, Some(ColPosition::Col(3))));
    s.add_region(SelRegion::new(5, 5, None));
    // delete 3..5: both carets land on offset 3 and coalesce
    let d = EditDelta::simple_edit(3, 5, "", 11);
    let t = s.apply_delta(&d, true, InsertDrift::Default);
    assert_eq!(t.regions().len(), 1);
    let r = t.regions()[0];
    assert_eq!((r.start(), r.end()), (3, 3));
    assert!(r.horiz().is_none());
}

#[test]
fn adjacent_ranges_created_by_a_delete_stay_separate() {
    let mut s = Selection::new();
    s.add_region(SelRegion::new(0, 3, None));
    s.add_region(SelRegion::new(5, 8, None));
    // delete 3..5: the ranges now touch at 3 but neither is a caret
    let d = EditDelta::simple_edit(3, 5, "", 11);
    let t = s.apply_delta(&d, true, InsertDrift::Default);
    let ext: Vec<(usize, usize)> = t.regions().iter().map(|r| (r.min(), r.max())).collect();
    assert_eq!(ext, vec![(0, 3), (3, 6)]);
}

#[test]
fn backward_region_direction_biases_swap() {
    let s = Selection::region(6, 2);
    let d = EditDelta::simple_edit(2, 2, "ab", 11);
    let t = s.apply_delta(&d, false, InsertDrift::Inside);
    let r = t.regions()[0];
    // the backward range spans the same extent as the forward one would
    assert_eq!((r.min(), r.max()), (2, 8));
}

#[test]
fn caret_ignores_drift_and_follows_the_flag() {
    let s = Selection::caret(2);
    let d = EditDelta::simple_edit(2, 2, "ab", 11);
    let t = s.apply_delta(&d, false, InsertDrift::Inside);
    assert_eq!(t.regions()[0].end(), 2);
    let t = s.apply_delta(&d, true, InsertDrift::Outside);
    assert_eq!(t.regions()[0].end(), 4);
}
