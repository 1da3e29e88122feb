use spatial_text::geometry::POINT;
use spatial_text::markup::{collect_tokens, MarkupEvent};
use spatial_text::number::{parse_coordinate, PARSED_COORD_MAX};

fn start(name: &str, attrs: &[(&str, &str)]) -> MarkupEvent {
    MarkupEvent::Start {
        name: name.to_string(),
        attributes: attrs.iter().map(|(k, v)| (k.to_string(), v.to_string())).collect(),
    }
}

fn end(name: &str) -> MarkupEvent {
    MarkupEvent::End { name: name.to_string() }
}

#[test]
fn coordinates_parse_to_hundredths() {
    assert_eq!(parse_coordinate("12"), 12 * POINT);
    assert_eq!(parse_coordinate("12.345"), 1234);
    assert_eq!(parse_coordinate("-0.5"), -50);
    assert_eq!(parse_coordinate("+3."), 300);
    assert_eq!(parse_coordinate(".25"), 25);
}

#[test]
fn exponents_scale_coordinates() {
    assert_eq!(parse_coordinate("1e2"), 100 * POINT);
    assert_eq!(parse_coordinate("1.5E-1"), 15);
    assert_eq!(parse_coordinate("2.5e+3"), 2500 * POINT);
    assert_eq!(parse_coordinate("-0.129"), -12);
    assert_eq!(parse_coordinate("1e400"), PARSED_COORD_MAX);
    assert_eq!(parse_coordinate("1e-400"), 0);
    assert_eq!(parse_coordinate("0e99999999999999999999"), 0);
    assert_eq!(parse_coordinate("-1e-0"), -POINT);
}

#[test]
fn infinities_saturate_and_nan_is_zero() {
    assert_eq!(parse_coordinate("inf"), PARSED_COORD_MAX);
    assert_eq!(parse_coordinate("-Infinity"), -PARSED_COORD_MAX);
    assert_eq!(parse_coordinate("+INF"), PARSED_COORD_MAX);
    assert_eq!(parse_coordinate("NaN"), 0);
}

#[test]
fn unparseable_coordinates_are_zero() {
    assert_eq!(parse_coordinate("1e"), 0);
    assert_eq!(parse_coordinate("e5"), 0);
    assert_eq!(parse_coordinate("1e+"), 0);
    assert_eq!(parse_coordinate("1e2.5"), 0);
    assert_eq!(parse_coordinate("infinit"), 0);
    assert_eq!(parse_coordinate(""), 0);
    assert_eq!(parse_coordinate("abc"), 0);
    assert_eq!(parse_coordinate("1.2.3"), 0);
    assert_eq!(parse_coordinate("-"), 0);
    assert_eq!(parse_coordinate("."), 0);
}

#[test]
fn huge_coordinates_saturate() {
    assert_eq!(parse_coordinate("99999999999999999999"), PARSED_COORD_MAX);
    assert_eq!(parse_coordinate("-99999999"), -PARSED_COORD_MAX);
}

#[test]
fn strings_inside_a_page_become_tokens() {
    let events = vec![
        start("String", &[("CONTENT", "outside")]),
        start("Page", &[]),
        MarkupEvent::Other,
        start("String", &[("CONTENT", "Hello"), ("HPOS", "1.5"), ("VPOS", "2"), ("WIDTH", "x"), ("HEIGHT", "10")]),
        start("String", &[("CONTENT", ""), ("HPOS", "3")]),
        start("TextLine", &[("CONTENT", "line")]),
        start("String", &[("HPOS", "4"), ("CONTENT", "World")]),
        end("Page"),
        start("String", &[("CONTENT", "after")]),
    ];
    let tokens = collect_tokens(&events);
    assert_eq!(tokens.len(), 2);
    assert_eq!(tokens[0].content, "Hello");
    assert_eq!(
        (tokens[0].h_pos, tokens[0].v_pos, tokens[0].width, tokens[0].height),
        (150, 200, 0, 1000)
    );
    assert_eq!(tokens[1].content, "World");
    assert_eq!(tokens[1].h_pos, 400);
}
