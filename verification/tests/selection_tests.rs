use selcore::selection::remove_n_at;
use selcore::{ColPosition, SelRegion, Selection};

fn extents(s: &Selection) -> Vec<(usize, usize)> {
    s.regions().iter().map(|r| (r.min(), r.max())).collect()
}

#[test]
fn caret_then_range_merges_to_one() {
    let mut s = Selection::caret(0);
    s.add_region(SelRegion::new(0, 5, None));
    assert_eq!(extents(&s), vec![(0, 5)]);
}

#[test]
fn overlapping_ranges_merge_to_union() {
    let mut s = Selection::region(0, 5);
    s.add_region(SelRegion::new(3, 8, None));
    assert_eq!(extents(&s), vec![(0, 8)]);
    assert_eq!(s.regions()[0].start(), 0);
    assert_eq!(s.regions()[0].end(), 8);
}

#[test]
fn duplicate_caret_coalesces() {
    let mut s = Selection::caret(5);
    s.add_region(SelRegion::new(5, 5, None));
    assert_eq!(extents(&s), vec![(5, 5)]);
    assert_eq!(s.regions().len(), 1);
}

#[test]
fn caret_at_range_boundary_is_absorbed() {
    let mut s = Selection::region(0, 5);
    s.add_region(SelRegion::new(5, 5, None));
    assert_eq!(extents(&s), vec![(0, 5)]);
}

#[test]
fn touching_ranges_stay_separate() {
    let mut s = Selection::region(0, 5);
    s.add_region(SelRegion::new(5, 8, None));
    assert_eq!(extents(&s), vec![(0, 5), (5, 8)]);
}

#[test]
fn merge_of_backward_regions_stays_backward() {
    let mut s = Selection::region(5, 2);
    s.add_region(SelRegion::new(8, 4, None));
    let r = s.regions()[0];
    assert_eq!((r.start(), r.end()), (8, 2));
    assert!(r.horiz().is_none());
}

#[test]
fn merge_with_forward_region_is_forward() {
    let mut s = Selection::region(5, 2);
    s.add_region(SelRegion::new(4, 8, None));
    let r = s.regions()[0];
    assert_eq!((r.start(), r.end()), (2, 8));
}

#[test]
fn regions_stay_sorted_after_many_inserts() {
    let mut s = Selection::new();
    for (a, b) in [(20, 24), (0, 2), (10, 14), (30, 31), (4, 6)] {
        s.add_region(SelRegion::new(a, b, None));
    }
    let ext = extents(&s);
    assert_eq!(ext, vec![(0, 2), (4, 6), (10, 14), (20, 24), (30, 31)]);
    for w in ext.windows(2) {
        assert!(w[0].1 <= w[1].0);
    }
}

#[test]
fn insert_absorbing_several_regions() {
    let mut s = Selection::new();
    for (a, b) in [(0, 2), (4, 6), (10, 14), (20, 24)] {
        s.add_region(SelRegion::new(a, b, None));
    }
    s.add_region(SelRegion::new(5, 12, None));
    assert_eq!(extents(&s), vec![(0, 2), (4, 14), (20, 24)]);
}

#[test]
fn search_finds_first_region_ending_at_or_past_offset() {
    let mut s = Selection::new();
    for (a, b) in [(0, 2), (4, 6), (10, 14)] {
        s.add_region(SelRegion::new(a, b, None));
    }
    assert_eq!(s.search(0), 0);
    assert_eq!(s.search(2), 0);
    assert_eq!(s.search(3), 1);
    assert_eq!(s.search(6), 1);
    assert_eq!(s.search(7), 2);
    assert_eq!(s.search(14), 2);
    assert_eq!(s.search(15), 3);
}

#[test]
fn regions_in_range_is_exact() {
    let mut s = Selection::new();
    for (a, b) in [(0, 2), (4, 6), (10, 14)] {
        s.add_region(SelRegion::new(a, b, None));
    }
    let hits: Vec<(usize, usize)> =
        s.regions_in_range(3, 11).iter().map(|r| (r.min(), r.max())).collect();
    assert_eq!(hits, vec![(4, 6), (10, 14)]);
    // a region that only touches the upper bound is included
    let hits: Vec<(usize, usize)> =
        s.regions_in_range(3, 10).iter().map(|r| (r.min(), r.max())).collect();
    assert_eq!(hits, vec![(4, 6), (10, 14)]);
    assert_eq!(s.regions_in_range(3, 3).len(), 0);
    assert_eq!(s.regions_in_range(2, 2).len(), 1);
    assert_eq!(s.regions_in_range(15, 20).len(), 0);
}

#[test]
fn regions_in_range_stops_at_earlier_of_two_regions_meeting_at_bound() {
    // two ranges meeting at 5: the query [0,5] yields only the one ending at 5
    let mut s = Selection::region(0, 5);
    s.add_region(SelRegion::new(5, 9, None));
    let hits: Vec<(usize, usize)> =
        s.regions_in_range(0, 5).iter().map(|r| (r.min(), r.max())).collect();
    assert_eq!(hits, vec![(0, 5)]);
}

#[test]
fn collapse_keeps_first_region_only() {
    let mut s = Selection::new();
    s.add_region(SelRegion::new(4, 6, None));
    s.add_region(SelRegion::new(10, 14, None));
    let c = s.collapse();
    assert_eq!(extents(&c), vec![(4, 6)]);
}

#[test]
fn to_caret_collapses_first_region_to_its_end() {
    let mut s = Selection::new();
    s.add_region(SelRegion::new(6, 4, Some(ColPosition::Col(2))));
    s.add_region(SelRegion::new(10, 14, None));
    let c = s.to_caret();
    assert_eq!(c.regions().len(), 1);
    assert_eq!((c.regions()[0].start(), c.regions()[0].end()), (4, 4));
    assert_eq!(c.regions()[0].horiz(), Some(&ColPosition::Col(2)));
}

#[test]
fn cursor_offset_is_end_of_first_region() {
    let mut s = Selection::new();
    s.add_region(SelRegion::new(6, 4, None));
    s.add_region(SelRegion::new(10, 14, None));
    assert_eq!(s.get_cursor_offset(), 4);
}

#[test]
fn min_reports_lower_extent_of_last_region_not_global_minimum() {
    let mut s = Selection::new();
    s.add_region(SelRegion::new(0, 2, None));
    s.add_region(SelRegion::new(10, 7, None));
    // the last region in order is the backward 10..7 one
    assert_eq!(s.min(), 7);
}

#[test]
fn region_accessors() {
    let r = SelRegion::new(7, 3, Some(ColPosition::End));
    assert_eq!(r.start(), 7);
    assert_eq!(r.end(), 3);
    assert_eq!(r.min(), 3);
    assert_eq!(r.max(), 7);
    assert!(!r.is_caret());
    assert_eq!(r.horiz(), Some(&ColPosition::End));
    let c = SelRegion::new(4, 4, None);
    assert!(c.is_caret());
}

#[test]
fn empty_and_simple_constructors() {
    assert_eq!(Selection::new().regions().len(), 0);
    let s = Selection::new_simple();
    assert_eq!((s.regions()[0].start(), s.regions()[0].end()), (0, 0));
    let s = Selection::region(3, 9);
    assert_eq!((s.regions()[0].start(), s.regions()[0].end()), (3, 9));
}

#[test]
fn remove_n_at_removes_window() {
    let mut v = vec![1, 2, 3, 4, 5];
    remove_n_at(&mut v, 1, 2);
    assert_eq!(v, vec![1, 4, 5]);
    let mut v = vec![1, 2, 3];
    remove_n_at(&mut v, 0, 0);
    assert_eq!(v, vec![1, 2, 3]);
    let mut v = vec![1, 2, 3];
    remove_n_at(&mut v, 2, 1);
    assert_eq!(v, vec![1, 2]);
}
