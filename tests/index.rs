use spatial_text::element_range::ElementRange;
use spatial_text::geometry::{Point, Rect, POINT};
use spatial_text::spatial_index::SpatialIndex;

fn range(id: usize, x: i64, y: i64, w: i64, h: i64) -> ElementRange {
    let b = Rect::from_min_size(x * POINT, y * POINT, w * POINT, h * POINT);
    ElementRange {
        rope_start: 0,
        rope_end: 0,
        element_id: id,
        visual_bounds: b,
        original_bounds: b,
        overflow: false,
        modified: false,
    }
}

#[test]
fn lookup_outside_and_inside_elements() {
    let ranges = vec![range(0, 0, 0, 40, 10), range(1, 200, 200, 40, 10)];
    let mut index = SpatialIndex::new();
    index.rebuild(&ranges);
    assert_eq!(index.find_element_at_position(Point::new(100 * POINT, 100 * POINT)), None);
    assert_eq!(index.find_element_at_position(Point::new(500 * POINT, 500 * POINT)), None);
    assert_eq!(index.find_element_at_position(Point::new(10 * POINT, 5 * POINT)), Some(0));
    assert_eq!(index.find_element_at_position(Point::new(210 * POINT, 205 * POINT)), Some(1));
}

#[test]
fn earliest_element_wins_a_shared_cell() {
    let ranges = vec![range(0, 0, 0, 10, 10), range(1, 20, 0, 10, 10)];
    let mut index = SpatialIndex::new();
    index.rebuild(&ranges);
    assert_eq!(index.find_element_at_position(Point::new(25 * POINT, 5 * POINT)), Some(0));
}

#[test]
fn empty_index_finds_nothing() {
    let mut index = SpatialIndex::new();
    assert_eq!(index.find_element_at_position(Point::new(10, 10)), None);
    index.rebuild(&[]);
    assert_eq!(index.find_element_at_position(Point::new(0, 0)), None);
}

#[test]
fn large_element_is_found_in_every_cell_it_spans() {
    let ranges = vec![range(0, 0, 0, 200, 120)];
    let mut index = SpatialIndex::new();
    index.rebuild(&ranges);
    assert_eq!(index.find_element_at_position(Point::new(180 * POINT, 110 * POINT)), Some(0));
    assert_eq!(index.find_element_at_position(Point::new(60 * POINT, 60 * POINT)), Some(0));
}

#[test]
fn dirty_regions_are_marked_and_cleared() {
    let mut index = SpatialIndex::new();
    index.mark_dirty_region(Rect::from_min_size(0, 0, 10, 10));
    index.clear_dirty_regions();
    assert_eq!(index.find_element_at_position(Point::new(5, 5)), None);
}
