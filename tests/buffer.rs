use spatial_text::buffer::{EditError, SpatialTextBuffer};
use spatial_text::element_range::ElementRange;
use spatial_text::geometry::{Point, POINT};
use spatial_text::token::Token;

fn tok(content: &str, h: i64, v: i64, w: i64, ht: i64) -> Token {
    Token::new(content.to_string(), h * POINT, v * POINT, w * POINT, ht * POINT)
}

fn sorted_and_disjoint(ranges: &[ElementRange]) -> bool {
    ranges.iter().all(|r| r.rope_start <= r.rope_end)
        && ranges.windows(2).all(|w| w[0].rope_end <= w[1].rope_start)
}

#[test]
fn mapper_builds_text_and_exact_ranges() {
    let tokens = vec![
        tok("Hello", 0, 0, 40, 10),
        tok("World", 50, 2, 40, 10),
        tok("Next", 0, 20, 30, 10),
    ];
    let buffer = SpatialTextBuffer::from_alto_elements(&tokens);
    assert_eq!(buffer.to_text(), "Hello World\nNext");
    assert_eq!(buffer.len_chars(), 16);
    let spans: Vec<(usize, usize, usize)> =
        buffer.element_ranges.iter().map(|r| (r.rope_start, r.rope_end, r.element_id)).collect();
    assert_eq!(spans, vec![(0, 5, 0), (6, 11, 1), (12, 16, 2)]);
    assert_eq!(buffer.element_text(1), "World");
    let first = &buffer.element_ranges[0];
    assert_eq!(first.visual_bounds, first.original_bounds);
    assert_eq!(first.visual_bounds.max, Point::new(40 * POINT, 10 * POINT));
    assert!(!first.modified && !first.overflow);
}

#[test]
fn insert_before_range_shifts_it() {
    let mut buffer = SpatialTextBuffer::from_alto_elements(&[tok("ab", 0, 0, 40, 10)]);
    assert_eq!((buffer.element_ranges[0].rope_start, buffer.element_ranges[0].rope_end), (0, 2));
    assert_eq!(buffer.insert_text(0, "X"), Ok(()));
    assert_eq!(buffer.to_text(), "Xab");
    assert_eq!((buffer.element_ranges[0].rope_start, buffer.element_ranges[0].rope_end), (1, 3));
}

#[test]
fn delete_over_range_collapses_it() {
    let mut buffer = SpatialTextBuffer::from_alto_elements(&[tok("ab", 0, 0, 40, 10)]);
    buffer.insert_text(0, "X").unwrap();
    assert_eq!(buffer.delete_range(1, 3), Ok(()));
    assert_eq!(buffer.to_text(), "X");
    let r = &buffer.element_ranges[0];
    assert_eq!((r.rope_start, r.rope_end), (1, 1));
    assert!(r.modified);
}

#[test]
fn insert_inside_range_grows_and_marks_it() {
    let mut buffer = SpatialTextBuffer::from_alto_elements(&[tok("ab", 0, 0, 40, 10)]);
    buffer.insert_text(1, "zz").unwrap();
    assert_eq!(buffer.to_text(), "azzb");
    let r = &buffer.element_ranges[0];
    assert_eq!((r.rope_start, r.rope_end), (0, 4));
    assert!(r.modified);
    assert!(!r.overflow);
}

#[test]
fn insert_at_range_end_grows_it() {
    let mut buffer = SpatialTextBuffer::from_alto_elements(&[tok("ab", 0, 0, 40, 10)]);
    buffer.insert_text(2, "c").unwrap();
    let r = &buffer.element_ranges[0];
    assert_eq!((r.rope_start, r.rope_end), (0, 3));
    assert!(r.modified);
}

#[test]
fn growing_past_the_box_sets_overflow() {
    // 2 characters in a 20 point box; 3 characters are estimated 24 points wide
    let mut buffer = SpatialTextBuffer::from_alto_elements(&[tok("ab", 0, 0, 20, 10)]);
    buffer.insert_text(1, "c").unwrap();
    assert!(buffer.element_ranges[0].overflow);
}

#[test]
fn insert_past_end_is_refused() {
    let mut buffer = SpatialTextBuffer::from_alto_elements(&[tok("ab", 0, 0, 40, 10)]);
    assert_eq!(buffer.insert_text(3, "X"), Err(EditError::PositionOutOfRange));
    assert_eq!(buffer.to_text(), "ab");
    assert_eq!((buffer.element_ranges[0].rope_start, buffer.element_ranges[0].rope_end), (0, 2));
}

#[test]
fn bad_delete_spans_are_refused() {
    let mut buffer = SpatialTextBuffer::from_alto_elements(&[tok("ab", 0, 0, 40, 10)]);
    assert_eq!(buffer.delete_range(2, 1), Err(EditError::PositionOutOfRange));
    assert_eq!(buffer.delete_range(1, 3), Err(EditError::PositionOutOfRange));
    assert_eq!(buffer.to_text(), "ab");
}

#[test]
fn lengths_follow_edits() {
    let mut buffer =
        SpatialTextBuffer::from_alto_elements(&[tok("one", 0, 0, 30, 10), tok("two", 40, 0, 30, 10)]);
    let before = buffer.len_chars();
    buffer.insert_text(4, "héllo").unwrap();
    assert_eq!(buffer.len_chars(), before + 5);
    buffer.delete_range(2, 6).unwrap();
    assert_eq!(buffer.len_chars(), before + 5 - 4);
}

#[test]
fn ranges_stay_sorted_through_edits() {
    let tokens = vec![
        tok("alpha", 0, 0, 50, 10),
        tok("beta", 60, 0, 40, 10),
        tok("gamma", 0, 20, 50, 10),
    ];
    let mut buffer = SpatialTextBuffer::from_alto_elements(&tokens);
    buffer.insert_text(5, "XY").unwrap();
    assert!(sorted_and_disjoint(&buffer.element_ranges));
    buffer.delete_range(3, 9).unwrap();
    assert!(sorted_and_disjoint(&buffer.element_ranges));
    buffer.insert_text(0, "\n").unwrap();
    buffer.delete_range(0, buffer.len_chars()).unwrap();
    assert!(sorted_and_disjoint(&buffer.element_ranges));
    assert_eq!(buffer.to_text(), "");
    assert!(buffer.element_ranges.iter().all(|r| r.rope_start == 0 && r.rope_end == 0));
}

#[test]
fn click_maps_to_character_offset() {
    let buffer = SpatialTextBuffer::from_alto_elements(&[tok("abcd", 0, 0, 40, 10)]);
    // zoom one, no pan: 25 points into a 40 point box of four characters
    assert_eq!(buffer.screen_to_rope_position(Point::new(25 * POINT, 5 * POINT)), Some(2));
    assert_eq!(buffer.screen_to_rope_position(Point::new(40 * POINT, 5 * POINT)), Some(4));
    assert_eq!(buffer.screen_to_rope_position(Point::new(90 * POINT, 5 * POINT)), None);
}

#[test]
fn caret_position_interpolates_within_element() {
    let buffer = SpatialTextBuffer::from_alto_elements(&[tok("abcd", 10, 20, 40, 10)]);
    assert_eq!(
        buffer.rope_to_screen_position(2),
        Some(Point::new(10 * POINT + 20 * POINT, 20 * POINT))
    );
    assert_eq!(buffer.rope_to_screen_position(4), None);
}

#[test]
fn caret_at_element_start_sits_on_its_left_edge() {
    let buffer = SpatialTextBuffer::from_alto_elements(&[tok("ab", 0, 0, 40, 10)]);
    assert_eq!(buffer.rope_to_screen_position(0), Some(Point::new(0, 0)));
}

#[test]
fn click_on_negative_width_box_goes_to_its_start() {
    // The box runs from x = 40 leftwards to x = 0; a click at x = 45 is right
    // of its left edge and gives a negative share.
    let buffer = SpatialTextBuffer::from_alto_elements(&[
        tok("ab", 40, 0, -40, 10),
        tok("cd", 45, 0, 10, 10),
        tok("ef", 0, 0, 10, 10),
    ]);
    assert_eq!(buffer.screen_to_rope_position(Point::new(45 * POINT, 5 * POINT)), Some(0));
    // A click at x = 20 lies left of the edge: half of the box's width.
    assert_eq!(buffer.screen_to_rope_position(Point::new(20 * POINT, 5 * POINT)), Some(1));
}
