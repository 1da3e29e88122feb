use spatial_text::geometry::POINT;
use spatial_text::reconstruct::{cluster_lines, generate_readable_text, line_text, sort_ids};
use spatial_text::token::Token;

fn tok(content: &str, h: i64, v: i64, w: i64, ht: i64) -> Token {
    Token::new(content.to_string(), h * POINT, v * POINT, w * POINT, ht * POINT)
}

#[test]
fn same_line_small_gap_gives_one_space() {
    let tokens = vec![tok("Hello", 0, 0, 40, 10), tok("World", 50, 0, 40, 10)];
    assert_eq!(generate_readable_text(&tokens), "Hello World\n");
}

#[test]
fn section_gap_gives_blank_lines() {
    let tokens = vec![tok("A", 0, 0, 10, 10), tok("B", 0, 30, 10, 10)];
    let text = generate_readable_text(&tokens);
    assert!(text.contains("A\n\n"));
    assert_eq!(text, "A\n\n\nB\n");
}

#[test]
fn reconstruction_is_deterministic() {
    let tokens = vec![
        tok("b", 30, 2, 10, 10),
        tok("a", 0, 0, 10, 10),
        tok("c", 0, 40, 10, 10),
    ];
    let first = generate_readable_text(&tokens);
    let second = generate_readable_text(&tokens);
    assert_eq!(first, second);
    assert_eq!(first, "a  b\n\n\n\nc\n");
}

#[test]
fn empty_page_gives_empty_text() {
    assert_eq!(generate_readable_text(&[]), "");
}

#[test]
fn wide_gap_spaces_scale_with_gap() {
    // gap of 40 points: five space widths
    let tokens = vec![tok("x", 0, 0, 10, 10), tok("y", 50, 0, 10, 10)];
    assert_eq!(generate_readable_text(&tokens), "x     y\n");
}

#[test]
fn very_wide_gap_is_capped_at_ten_spaces() {
    let tokens = vec![tok("x", 0, 0, 10, 10), tok("y", 500, 0, 10, 10)];
    assert_eq!(generate_readable_text(&tokens), format!("x{}y\n", " ".repeat(10)));
}

#[test]
fn touching_tokens_still_get_one_space() {
    let tokens = vec![tok("x", 0, 0, 10, 10), tok("y", 10, 0, 10, 10)];
    assert_eq!(generate_readable_text(&tokens), "x y\n");
}

#[test]
fn large_section_gap_is_capped_at_three_blank_lines() {
    let tokens = vec![tok("A", 0, 0, 10, 10), tok("B", 0, 200, 10, 10)];
    assert_eq!(generate_readable_text(&tokens), "A\n\n\n\nB\n");
}

#[test]
fn small_vertical_gap_gives_plain_newline() {
    let tokens = vec![tok("A", 0, 0, 10, 10), tok("B", 0, 12, 10, 10)];
    assert_eq!(generate_readable_text(&tokens), "A\nB\n");
}

#[test]
fn tokens_are_ordered_left_to_right_within_a_line() {
    let tokens = vec![tok("second", 60, 1, 40, 10), tok("first", 0, 0, 40, 10)];
    assert_eq!(generate_readable_text(&tokens), "first  second\n");
}

#[test]
fn clustering_uses_first_matching_line() {
    // Sorted by vertical position: a(0), b(6), c(12). b joins a's line;
    // c is 12 from a (the line's first token), so it opens a new line.
    let tokens = vec![tok("c", 0, 12, 10, 10), tok("b", 20, 6, 10, 10), tok("a", 0, 0, 10, 10)];
    let ids: Vec<usize> = (0..tokens.len()).collect();
    let sorted = sort_ids(&tokens, &ids, false);
    assert_eq!(sorted, vec![2, 1, 0]);
    let lines = cluster_lines(&tokens, &sorted);
    assert_eq!(lines, vec![vec![2, 1], vec![0]]);
    assert_eq!(line_text(&tokens, &lines[0]), "a b");
}

#[test]
fn sort_is_stable_for_equal_keys() {
    let tokens = vec![tok("p", 5, 0, 1, 1), tok("q", 5, 0, 1, 1), tok("r", 1, 0, 1, 1)];
    let ids: Vec<usize> = vec![0, 1, 2];
    assert_eq!(sort_ids(&tokens, &ids, true), vec![2, 0, 1]);
}
