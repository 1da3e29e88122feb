use spatial_text::geometry::{Point, Rect, POINT};
use spatial_text::transform::{CoordinateTransform, MILLI};

#[test]
fn round_trip_at_zoom_one_is_exact() {
    let mut t = CoordinateTransform::new();
    t.update_viewport(Rect::from_min_size(30 * POINT, 40 * POINT, 500 * POINT, 400 * POINT));
    let p = Point::new(123, -456);
    let d = t.screen_to_document(p);
    assert_eq!(d, Point::new(123 - 30 * POINT, -456 - 40 * POINT));
    assert_eq!(t.document_to_screen(d), p);
}

#[test]
fn round_trip_at_other_zooms_stays_within_a_unit() {
    let mut t = CoordinateTransform::new();
    t.update_viewport(Rect::from_min_size(7, 9, 1000, 1000));
    for scale in [250, 1500, 3000, 333] {
        t.scale_milli = scale;
        for p in [Point::new(0, 0), Point::new(1001, -77), Point::new(-5, 12345)] {
            let r = t.document_to_screen(t.screen_to_document(p));
            assert!(r.x <= p.x && (p.x - r.x) * MILLI < scale + MILLI);
            assert!(r.y <= p.y && (p.y - r.y) * MILLI < scale + MILLI);
        }
    }
}

#[test]
fn zoom_two_halves_document_distances() {
    let mut t = CoordinateTransform::new();
    t.scale_milli = 2 * MILLI;
    assert_eq!(t.screen_to_document(Point::new(400, -401)), Point::new(200, -201));
    assert_eq!(t.document_to_screen(Point::new(200, -201)), Point::new(400, -402));
}

#[test]
fn rect_helpers() {
    let r = Rect::from_min_size(10, 20, 30, 40);
    assert_eq!(r.width(), 30);
    assert_eq!(r.height(), 40);
    assert!(r.contains(Point::new(40, 60)));
    assert!(!r.contains(Point::new(41, 60)));
}

#[test]
fn document_round_trip_loses_less_than_a_screen_unit() {
    let mut t = CoordinateTransform::new();
    t.update_viewport(Rect::from_min_size(7, 9, 1000, 1000));
    for scale in [250, 1000, 1500, 333] {
        t.scale_milli = scale;
        for d in [Point::new(0, 0), Point::new(1001, -77), Point::new(-5, 12345)] {
            let r = t.screen_to_document(t.document_to_screen(d));
            assert!(r.x <= d.x && (d.x - r.x) * scale < scale + MILLI);
            assert!(r.y <= d.y && (d.y - r.y) * scale < scale + MILLI);
        }
    }
}
