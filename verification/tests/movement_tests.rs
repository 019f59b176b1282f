use selcore::{ColPosition, LinePosition, Mode, Movement, SelRegion, Selection, TextBuffer};

fn buf(text: &str) -> TextBuffer {
    TextBuffer::from_text(text.as_bytes().to_vec())
}

fn caret(offset: usize) -> SelRegion {
    SelRegion::new(offset, offset, None)
}

#[test]
fn left_at_line_start_stays_put_with_column_zero() {
    let b = buf("hello\nworld");
    // offset 6 is the start of "world"
    let r = Movement::Left(1).update_region(&caret(6), &b, &Mode::Normal);
    assert_eq!(r.end(), 6);
    assert_eq!(r.horiz(), Some(&ColPosition::Col(0)));
    let r = Movement::Left(1).update_region(&caret(0), &b, &Mode::Normal);
    assert_eq!(r.end(), 0);
    assert_eq!(r.horiz(), Some(&ColPosition::Col(0)));
}

#[test]
fn left_clamps_at_line_start_even_for_large_counts() {
    let b = buf("hello\nworld");
    let r = Movement::Left(100).update_region(&caret(9), &b, &Mode::Normal);
    assert_eq!(r.end(), 6);
    assert_eq!(r.horiz(), Some(&ColPosition::Col(0)));
}

#[test]
fn left_moves_within_line() {
    let b = buf("hello\nworld");
    let r = Movement::Left(2).update_region(&caret(4), &b, &Mode::Normal);
    assert_eq!(r.end(), 2);
    assert_eq!(r.horiz(), Some(&ColPosition::Col(2)));
}

#[test]
fn down_without_affinity_lands_on_column_zero() {
    let b = buf("hello\nworld");
    // caret at 5, the end of "hello"
    let r = Movement::Down(1).update_region(&caret(5), &b, &Mode::Insert);
    assert_eq!(r.end(), 6);
    assert_eq!(r.start(), 6);
}

#[test]
fn right_clamps_to_line_end_and_buffer_end() {
    let b = buf("hello\nworld");
    let r = Movement::Right(3).update_region(&caret(4), &b, &Mode::Insert);
    // insert mode line end of "hello" is 5 (on the line break)
    assert_eq!(r.end(), 5);
    let r = Movement::Right(100).update_region(&caret(7), &b, &Mode::Insert);
    // insert mode line end of "world" is one past 'd'
    assert_eq!(r.end(), 11);
    let r = Movement::Right(1).update_region(&caret(9), &b, &Mode::Normal);
    assert_eq!(r.end(), 10);
}

#[test]
fn end_of_line_depends_on_mode() {
    let b = buf("hello\nworld");
    let r = Movement::EndOfLine.update_region(&caret(1), &b, &Mode::Insert);
    assert_eq!(r.end(), 5);
    assert_eq!(r.horiz(), Some(&ColPosition::End));
    let r = Movement::EndOfLine.update_region(&caret(1), &b, &Mode::Normal);
    assert_eq!(r.end(), 4);
}

#[test]
fn start_of_line_jumps_to_line_start() {
    let b = buf("hello\nworld");
    let r = Movement::StartOfLine.update_region(&caret(9), &b, &Mode::Normal);
    assert_eq!(r.end(), 6);
    assert_eq!(r.horiz(), Some(&ColPosition::Start));
}

#[test]
fn vertical_moves_keep_end_affinity_back_to_long_line_end() {
    let b = buf("hello\nab\nc");
    let m = Mode::Insert;
    let r0 = caret(2);
    let r1 = Movement::EndOfLine.update_region(&r0, &b, &m);
    assert_eq!(r1.end(), 5);
    assert_eq!(r1.horiz(), Some(&ColPosition::End));
    let r2 = Movement::Down(1).update_region(&r1, &b, &m);
    assert_eq!(r2.end(), 8); // end of "ab"
    assert_eq!(r2.horiz(), Some(&ColPosition::End));
    let r3 = Movement::Down(1).update_region(&r2, &b, &m);
    assert_eq!(r3.end(), 10); // end of "c", also end of buffer
    let r4 = Movement::Up(2).update_region(&r3, &b, &m);
    assert_eq!(r4.end(), 5); // back to the true end of "hello"
}

#[test]
fn vertical_moves_keep_numeric_column_across_short_lines() {
    let b = buf("hello\nab\nlonger");
    let m = Mode::Insert;
    let r0 = SelRegion::new(4, 4, Some(ColPosition::Col(4)));
    let r1 = Movement::Down(1).update_region(&r0, &b, &m);
    // "ab" only reaches column 2 in insert mode
    assert_eq!(r1.end(), 8);
    assert_eq!(r1.horiz(), Some(&ColPosition::Col(4)));
    let r2 = Movement::Down(1).update_region(&r1, &b, &m);
    // "longer" has column 4 again
    assert_eq!(r2.end(), 13);
    assert_eq!(r2.horiz(), Some(&ColPosition::Col(4)));
}

#[test]
fn down_clamps_at_last_line() {
    let b = buf("hello\nworld");
    let r = Movement::Down(10).update_region(&caret(0), &b, &Mode::Insert);
    assert_eq!(r.end(), 6);
}

#[test]
fn line_jumps_clamp_and_use_affinity() {
    let b = buf("hello\nworld");
    let r = Movement::Line(LinePosition::Last).update_region(&caret(0), &b, &Mode::Insert);
    assert_eq!(r.end(), 6);
    let r = Movement::Line(LinePosition::Line(99)).update_region(&caret(0), &b, &Mode::Insert);
    assert_eq!(r.end(), 6);
    let r = Movement::Line(LinePosition::First).update_region(&caret(9), &b, &Mode::Insert);
    assert_eq!(r.end(), 0);
    let e = SelRegion::new(0, 0, Some(ColPosition::End));
    let r = Movement::Line(LinePosition::Last).update_region(&e, &b, &Mode::Insert);
    assert_eq!(r.end(), 11);
}

#[test]
fn word_forward_lands_on_next_word_start() {
    let b = buf("hello world foo");
    let r = Movement::WordForward(1).update_region(&caret(0), &b, &Mode::Insert);
    assert_eq!(r.end(), 6);
    let r = Movement::WordForward(2).update_region(&caret(0), &b, &Mode::Insert);
    assert_eq!(r.end(), 12);
    let r = Movement::WordForward(5).update_region(&caret(0), &b, &Mode::Insert);
    assert_eq!(r.end(), 15);
    assert_eq!(r.horiz(), Some(&ColPosition::Col(15)));
}

#[test]
fn word_backward_lands_on_word_start() {
    let b = buf("hello world foo");
    let r = Movement::WordBackward(1).update_region(&caret(11), &b, &Mode::Insert);
    assert_eq!(r.end(), 6);
    let r = Movement::WordBackward(2).update_region(&caret(14), &b, &Mode::Insert);
    assert_eq!(r.end(), 6);
    let r = Movement::WordBackward(9).update_region(&caret(14), &b, &Mode::Insert);
    assert_eq!(r.end(), 0);
}

#[test]
fn zero_counts_are_no_ops_on_the_offset() {
    let b = buf("hello\nworld");
    let r = Movement::Left(0).update_region(&caret(3), &b, &Mode::Normal);
    assert_eq!(r.end(), 3);
    let r = Movement::WordForward(0).update_region(&caret(3), &b, &Mode::Normal);
    assert_eq!(r.end(), 3);
}

#[test]
fn visual_mode_keeps_the_anchor_while_end_moves() {
    let b = buf("hello\nworld");
    let r0 = SelRegion::new(1, 1, None);
    let r1 = Movement::Right(1).update_region(&r0, &b, &Mode::Visual);
    assert_eq!((r1.start(), r1.end()), (1, 2));
    let r2 = Movement::Right(1).update_region(&r1, &b, &Mode::Visual);
    assert_eq!((r2.start(), r2.end()), (1, 3));
}

#[test]
fn default_mode_collapses_the_anchor_onto_the_end() {
    let b = buf("hello\nworld");
    let r0 = SelRegion::new(1, 3, None);
    let r1 = Movement::Right(1).update_region(&r0, &b, &Mode::Normal);
    assert_eq!((r1.start(), r1.end()), (4, 4));
}

#[test]
fn update_selection_moves_all_regions_and_merges() {
    let b = buf("hello\nworld");
    let mut s = Selection::caret(0);
    s.add_region(SelRegion::new(6, 6, None));
    // both carets move to column 0 of line 0 and merge into one
    let moved = Movement::Up(1).update_selection(&s, &b, &Mode::Insert);
    assert_eq!(moved.regions().len(), 1);
    assert_eq!(moved.regions()[0].end(), 0);
}

#[test]
fn update_selection_fills_missing_affinity_with_column() {
    let b = buf("hello\nworld");
    let s = Selection::caret(0);
    let moved = Movement::Down(1).update_selection(&s, &b, &Mode::Insert);
    assert_eq!(moved.regions()[0].end(), 6);
    // Down keeps the (absent) affinity; the buffer's fill pass adds the column
    assert_eq!(moved.regions()[0].horiz(), Some(&ColPosition::Col(0)));
}

#[test]
fn buffer_queries_on_empty_text() {
    let b = buf("");
    let r = Movement::Left(1).update_region(&caret(0), &b, &Mode::Normal);
    assert_eq!(r.end(), 0);
    let r = Movement::EndOfLine.update_region(&caret(0), &b, &Mode::Insert);
    assert_eq!(r.end(), 0);
    let r = Movement::Down(3).update_region(&caret(0), &b, &Mode::Insert);
    assert_eq!(r.end(), 0);
}
