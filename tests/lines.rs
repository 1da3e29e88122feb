use spatial_text::buffer::SpatialTextBuffer;
use spatial_text::cursor::SpatialCursor;
use spatial_text::edit::{apply_edit_event, EditEvent, EditOutcome};
use spatial_text::geometry::POINT;
use spatial_text::lines::{
    get_cursor_line_char, line_char_to_rope_pos, line_lengths, move_vertically, total_line_span,
};
use spatial_text::token::Token;

#[test]
fn line_lengths_count_characters_per_line() {
    assert_eq!(line_lengths("ab\ncdé\r\n\nf"), vec![2, 3, 0, 1]);
    assert_eq!(line_lengths(""), Vec::<usize>::new());
    assert_eq!(line_lengths("x\n"), vec![1]);
}

#[test]
fn positions_map_to_line_and_column() {
    let lines = vec![2, 3, 0, 1];
    assert_eq!(get_cursor_line_char(&lines, 0), (0, 0));
    assert_eq!(get_cursor_line_char(&lines, 2), (0, 2));
    assert_eq!(get_cursor_line_char(&lines, 3), (1, 0));
    assert_eq!(get_cursor_line_char(&lines, 7), (2, 0));
    assert_eq!(get_cursor_line_char(&lines, 9), (3, 1));
    assert_eq!(get_cursor_line_char(&lines, 40), (3, 0));
    assert_eq!(get_cursor_line_char(&vec![], 5), (0, 0));
}

#[test]
fn line_and_column_map_back_to_positions() {
    let lines = vec![2, 3, 0, 1];
    assert_eq!(line_char_to_rope_pos(&lines, 0, 1), 1);
    assert_eq!(line_char_to_rope_pos(&lines, 1, 2), 5);
    assert_eq!(line_char_to_rope_pos(&lines, 3, 1), 9);
    assert_eq!(line_char_to_rope_pos(&lines, 9, 0), 10);
    assert_eq!(total_line_span(&lines), Some(10));
    assert_eq!(total_line_span(&vec![usize::MAX]), None);
}

#[test]
fn vertical_moves_keep_the_column_when_they_can() {
    let lines = vec![5, 2, 4];
    assert_eq!(move_vertically(&lines, 4, false), Some(8));
    assert_eq!(move_vertically(&lines, 8, false), Some(11));
    assert_eq!(move_vertically(&lines, 11, true), Some(8));
    assert_eq!(move_vertically(&lines, 2, true), None);
    assert_eq!(move_vertically(&lines, 12, false), None);
}

#[test]
fn arrow_keys_move_between_buffer_lines() {
    let tokens = vec![
        Token::new("hello".to_string(), 0, 0, 50 * POINT, 10 * POINT),
        Token::new("ab".to_string(), 0, 20 * POINT, 20 * POINT, 10 * POINT),
    ];
    let mut buffer = SpatialTextBuffer::from_alto_elements(&tokens);
    assert_eq!(buffer.to_text(), "hello\nab");
    let mut cursor = SpatialCursor::new(0);
    cursor.rope_pos = 4;
    assert_eq!(apply_edit_event(&mut buffer, &mut cursor, &EditEvent::ArrowDown), EditOutcome::Moved);
    assert_eq!(cursor.rope_pos, 8);
    assert_eq!(apply_edit_event(&mut buffer, &mut cursor, &EditEvent::ArrowDown), EditOutcome::Unchanged);
    assert_eq!(apply_edit_event(&mut buffer, &mut cursor, &EditEvent::ArrowUp), EditOutcome::Moved);
    assert_eq!(cursor.rope_pos, 2);
    assert_eq!(apply_edit_event(&mut buffer, &mut cursor, &EditEvent::ArrowUp), EditOutcome::Unchanged);
    assert_eq!(buffer.to_text(), "hello\nab");
}
