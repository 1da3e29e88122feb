use spatial_text::buffer::SpatialTextBuffer;
use spatial_text::cursor::SpatialCursor;
use spatial_text::edit::{apply_edit_event, EditEvent, EditOutcome};
use spatial_text::geometry::{Point, POINT};
use spatial_text::token::Token;

fn buffer_of(words: &[&str]) -> SpatialTextBuffer {
    let tokens: Vec<Token> = words
        .iter()
        .enumerate()
        .map(|(i, w)| Token::new(w.to_string(), (i as i64) * 60 * POINT, 0, 50 * POINT, 10 * POINT))
        .collect();
    SpatialTextBuffer::from_alto_elements(&tokens)
}

#[test]
fn typing_inserts_at_cursor_and_advances() {
    let mut buffer = buffer_of(&["ab", "cd"]);
    let mut cursor = SpatialCursor::new(0);
    cursor.rope_pos = 1;
    let outcome = apply_edit_event(&mut buffer, &mut cursor, &EditEvent::Text("xyz".to_string()));
    assert_eq!(outcome, EditOutcome::Edited);
    assert_eq!(buffer.to_text(), "axyzb cd");
    assert_eq!(cursor.rope_pos, 4);
}

#[test]
fn backspace_and_enter() {
    let mut buffer = buffer_of(&["ab"]);
    let mut cursor = SpatialCursor::new(0);
    assert_eq!(apply_edit_event(&mut buffer, &mut cursor, &EditEvent::Backspace), EditOutcome::Unchanged);
    cursor.rope_pos = 2;
    assert_eq!(apply_edit_event(&mut buffer, &mut cursor, &EditEvent::Backspace), EditOutcome::Edited);
    assert_eq!(buffer.to_text(), "a");
    assert_eq!(cursor.rope_pos, 1);
    assert_eq!(apply_edit_event(&mut buffer, &mut cursor, &EditEvent::Enter), EditOutcome::Edited);
    assert_eq!(buffer.to_text(), "a\n");
    assert_eq!(cursor.rope_pos, 2);
}

#[test]
fn arrows_stay_within_the_buffer() {
    let mut buffer = buffer_of(&["ab"]);
    let mut cursor = SpatialCursor::new(0);
    assert_eq!(apply_edit_event(&mut buffer, &mut cursor, &EditEvent::ArrowLeft), EditOutcome::Unchanged);
    assert_eq!(apply_edit_event(&mut buffer, &mut cursor, &EditEvent::ArrowRight), EditOutcome::Moved);
    assert_eq!(apply_edit_event(&mut buffer, &mut cursor, &EditEvent::ArrowRight), EditOutcome::Moved);
    assert_eq!(apply_edit_event(&mut buffer, &mut cursor, &EditEvent::ArrowRight), EditOutcome::Unchanged);
    assert_eq!(cursor.rope_pos, 2);
    assert_eq!(apply_edit_event(&mut buffer, &mut cursor, &EditEvent::ArrowLeft), EditOutcome::Moved);
    assert_eq!(cursor.rope_pos, 1);
}

#[test]
fn edits_at_a_stale_cursor_change_nothing() {
    let mut buffer = buffer_of(&["ab"]);
    let mut cursor = SpatialCursor::new(0);
    cursor.rope_pos = 9;
    assert_eq!(
        apply_edit_event(&mut buffer, &mut cursor, &EditEvent::Text("q".to_string())),
        EditOutcome::Unchanged
    );
    assert_eq!(apply_edit_event(&mut buffer, &mut cursor, &EditEvent::Backspace), EditOutcome::Unchanged);
    assert_eq!(buffer.to_text(), "ab");
    assert_eq!(cursor.rope_pos, 9);
}

#[test]
fn cursor_moves_and_blinks() {
    let buffer = buffer_of(&["abcd"]);
    let mut cursor = SpatialCursor::new(1000);
    cursor.move_to_rope_position(99, &buffer, 1200);
    assert_eq!(cursor.rope_pos, 4);
    assert_eq!(cursor.screen_pos, None);
    assert!(cursor.visible);
    cursor.move_to_rope_position(2, &buffer, 1600);
    assert_eq!(cursor.screen_pos, Some(Point::new(25 * POINT, 0)));
    assert!(!cursor.visible);
    assert_eq!(cursor.blink_started_ms, 1600);
    cursor.move_to_screen_position(Point::new(40 * POINT, 5 * POINT), &buffer);
    assert_eq!(cursor.rope_pos, 3);
    assert_eq!(cursor.screen_pos, Some(Point::new(40 * POINT, 5 * POINT)));
    cursor.move_to_screen_position(Point::new(400 * POINT, 5 * POINT), &buffer);
    assert_eq!(cursor.rope_pos, 3);
}
