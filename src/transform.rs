//! Conversion between screen and document coordinates.

use vstd::prelude::*;

use crate::geometry::{coord_ok, Point, Rect, POINT};

verus! {

/// Scale factors are given in thousandths: `MILLI` stands for a zoom of one.
pub const MILLI: i64 = 1000;

/// Largest zoom accepted, in thousandths (a zoom of one hundred).
pub const SCALE_MAX_MILLI: i64 = 100_000;

/// Largest magnitude of a document coordinate handed to `document_to_screen`.
pub const DOC_COORD_MAX: i64 = 10_000_000_000_000;

pub open spec fn doc_coord_ok(v: int) -> bool {
    -DOC_COORD_MAX <= v <= DOC_COORD_MAX
}

pub open spec fn scale_ok(scale_milli: int) -> bool {
    1 <= scale_milli <= SCALE_MAX_MILLI
}

/// Document coordinate of screen coordinate `p`: `(p - origin) / scale`,
/// rounded down.
pub open spec fn to_document_coord(p: int, origin: int, scale_milli: int) -> int {
    (p - origin) * MILLI / scale_milli
}

/// Screen coordinate of document coordinate `d`: `d * scale + origin`,
/// rounded down.
pub open spec fn to_screen_coord(d: int, origin: int, scale_milli: int) -> int {
    d * scale_milli / MILLI as int + origin
}

pub open spec fn to_document_point(p: Point, origin: Point, scale_milli: int) -> Point {
    Point {
        x: to_document_coord(p.x as int, origin.x as int, scale_milli) as i64,
        y: to_document_coord(p.y as int, origin.y as int, scale_milli) as i64,
    }
}

pub open spec fn to_screen_point(d: Point, origin: Point, scale_milli: int) -> Point {
    Point {
        x: to_screen_coord(d.x as int, origin.x as int, scale_milli) as i64,
        y: to_screen_coord(d.y as int, origin.y as int, scale_milli) as i64,
    }
}

/// `a / b` rounded towards negative infinity.
fn floor_div(a: i64, b: i64) -> (r: i64)
    requires
        b > 0,
    ensures
        r == a as int / b as int,
{
    if a >= 0 {
        a / b
    } else {
        let q = (-(a + 1)) / b;
        proof {
            let n = -(a + 1);
            assert(n >= 0);
            assert(n == q * b + n % (b as int)) by (nonlinear_arith)
                requires q == n / (b as int), b > 0, n >= 0;
            assert(a == (-q - 1) * b + (b - 1 - n % (b as int))) by (nonlinear_arith)
                requires n == q * b + n % (b as int), n == -(a + 1);
            assert(0 <= b - 1 - n % (b as int) < b);
            vstd::arithmetic::div_mod::lemma_fundamental_div_mod_converse(
                a as int,
                b as int,
                -q - 1,
                b - 1 - n % (b as int),
            );
        }
        -q - 1
    }
}

/// `a / b` rounded towards negative infinity, on wide integers.
pub(crate) fn floor_div_wide(a: i128, b: i128) -> (r: i128)
    requires
        b > 0,
        a > i128::MIN,
    ensures
        r == a as int / b as int,
{
    if a >= 0 {
        a / b
    } else {
        let q = (-(a + 1)) / b;
        proof {
            let n = -(a + 1);
            assert(n == q * b + n % (b as int)) by (nonlinear_arith)
                requires q == n / (b as int), b > 0, n >= 0;
            assert(a == (-q - 1) * b + (b - 1 - n % (b as int))) by (nonlinear_arith)
                requires n == q * b + n % (b as int), n == -(a + 1);
            vstd::arithmetic::div_mod::lemma_fundamental_div_mod_converse(
                a as int,
                b as int,
                -q - 1,
                b - 1 - n % (b as int),
            );
        }
        -q - 1
    }
}

/// Screen to document conversion about `origin` at the given zoom.
pub fn screen_to_document_point(p: Point, origin: Point, scale_milli: i64) -> (r: Point)
    requires
        p.wf(),
        origin.wf(),
        scale_ok(scale_milli as int),
    ensures
        r == to_document_point(p, origin, scale_milli as int),
        doc_coord_ok(r.x as int),
        doc_coord_ok(r.y as int),
{
    proof {
        lemma_document_coord_bounded(p.x as int, origin.x as int, scale_milli as int);
        lemma_document_coord_bounded(p.y as int, origin.y as int, scale_milli as int);
    }
    let x = floor_div((p.x - origin.x) * MILLI, scale_milli);
    let y = floor_div((p.y - origin.y) * MILLI, scale_milli);
    Point { x, y }
}

/// Document to screen conversion about `origin` at the given zoom.
pub fn document_to_screen_point(d: Point, origin: Point, scale_milli: i64) -> (r: Point)
    requires
        doc_coord_ok(d.x as int),
        doc_coord_ok(d.y as int),
        origin.wf(),
        scale_ok(scale_milli as int),
    ensures
        r == to_screen_point(d, origin, scale_milli as int),
{
    proof {
        lemma_screen_coord_bounded(d.x as int, scale_milli as int);
        lemma_screen_coord_bounded(d.y as int, scale_milli as int);
    }
    let x = floor_div(d.x * scale_milli, MILLI) + origin.x;
    let y = floor_div(d.y * scale_milli, MILLI) + origin.y;
    Point { x, y }
}

proof fn lemma_document_coord_bounded(p: int, origin: int, s: int)
    requires
        coord_ok(p),
        coord_ok(origin),
        scale_ok(s),
    ensures
        doc_coord_ok(to_document_coord(p, origin, s)),
        -2 * crate::geometry::COORD_MAX * MILLI <= (p - origin) * MILLI <= 2
            * crate::geometry::COORD_MAX * MILLI,
{
    let n = (p - origin) * MILLI;
    assert(-2_000_000_000_000 <= n <= 2_000_000_000_000);
    if n >= 0 {
        vstd::arithmetic::div_mod::lemma_div_is_ordered_by_denominator(n, 1, s);
        vstd::arithmetic::div_mod::lemma_div_pos_is_pos(n, s);
    } else {
        vstd::arithmetic::div_mod::lemma_div_is_ordered(-2_000_000_000_000, n, s);
        vstd::arithmetic::div_mod::lemma_div_is_ordered(n, 0, s);
        assert(-2_000_000_000_000 / s >= -2_000_000_000_000) by (nonlinear_arith)
            requires s >= 1;
    }
}

proof fn lemma_screen_coord_bounded(d: int, s: int)
    requires
        doc_coord_ok(d),
        scale_ok(s),
    ensures
        -DOC_COORD_MAX * SCALE_MAX_MILLI <= d * s <= DOC_COORD_MAX * SCALE_MAX_MILLI,
        -DOC_COORD_MAX * SCALE_MAX_MILLI / MILLI as int <= d * s / MILLI as int
            <= DOC_COORD_MAX * SCALE_MAX_MILLI / MILLI as int,
{
    assert(-DOC_COORD_MAX * SCALE_MAX_MILLI <= d * s <= DOC_COORD_MAX * SCALE_MAX_MILLI)
        by (nonlinear_arith)
        requires
            -DOC_COORD_MAX <= d <= DOC_COORD_MAX,
            1 <= s <= SCALE_MAX_MILLI,
    ;
    vstd::arithmetic::div_mod::lemma_div_is_ordered(
        -DOC_COORD_MAX * SCALE_MAX_MILLI,
        d * s,
        MILLI as int,
    );
    vstd::arithmetic::div_mod::lemma_div_is_ordered(
        d * s,
        DOC_COORD_MAX * SCALE_MAX_MILLI,
        MILLI as int,
    );
}

/// Converting a screen coordinate to the document and back lands at most
/// one document unit's worth of screen distance, plus one unit, before it.
pub proof fn lemma_coord_round_trip(p: int, origin: int, scale_milli: int)
    requires
        scale_ok(scale_milli),
    ensures
        ({
            let r = to_screen_coord(to_document_coord(p, origin, scale_milli), origin, scale_milli);
            r <= p && (p - r) * MILLI < scale_milli + MILLI
        }),
{
    let q = p - origin;
    let d = q * MILLI / scale_milli;
    let t = d * scale_milli / MILLI as int;
    vstd::arithmetic::div_mod::lemma_fundamental_div_mod(q * MILLI, scale_milli);
    vstd::arithmetic::div_mod::lemma_mod_bound(q * MILLI, scale_milli);
    vstd::arithmetic::div_mod::lemma_fundamental_div_mod(d * scale_milli, MILLI as int);
    vstd::arithmetic::div_mod::lemma_mod_bound(d * scale_milli, MILLI as int);
    assert(t <= q && (q - t) * MILLI < scale_milli + MILLI) by (nonlinear_arith)
        requires
            q * MILLI == scale_milli * d + (q * MILLI) % scale_milli,
            0 <= (q * MILLI) % scale_milli < scale_milli,
            d * scale_milli == MILLI * t + (d * scale_milli) % (MILLI as int),
            0 <= (d * scale_milli) % (MILLI as int) < MILLI,
    ;
}

/// Converting a document coordinate to the screen and back lands at or
/// before it, less than one unit plus `MILLI / scale_milli` units away.
pub proof fn lemma_coord_reverse_round_trip(d: int, origin: int, scale_milli: int)
    requires
        scale_ok(scale_milli),
    ensures
        ({
            let r = to_document_coord(to_screen_coord(d, origin, scale_milli), origin, scale_milli);
            r <= d && (d - r) * scale_milli < scale_milli + MILLI
        }),
{
    let t = d * scale_milli / MILLI as int;
    assert(to_screen_coord(d, origin, scale_milli) - origin == t);
    let r = t * MILLI / scale_milli;
    vstd::arithmetic::div_mod::lemma_fundamental_div_mod(d * scale_milli, MILLI as int);
    vstd::arithmetic::div_mod::lemma_mod_bound(d * scale_milli, MILLI as int);
    vstd::arithmetic::div_mod::lemma_fundamental_div_mod(t * MILLI, scale_milli);
    vstd::arithmetic::div_mod::lemma_mod_bound(t * MILLI, scale_milli);
    assert(r <= d && (d - r) * scale_milli < scale_milli + MILLI) by (nonlinear_arith)
        requires
            d * scale_milli == MILLI * t + (d * scale_milli) % (MILLI as int),
            0 <= (d * scale_milli) % (MILLI as int) < MILLI,
            t * MILLI == scale_milli * r + (t * MILLI) % scale_milli,
            0 <= (t * MILLI) % scale_milli < scale_milli,
            scale_milli >= 1,
    ;
}

/// A document point taken to the screen and back comes out at or up and to
/// the left of where it started, by less than one unit plus
/// `MILLI / scale_milli` units on each axis.
pub proof fn lemma_transform_reverse_round_trip(t: CoordinateTransform, d: Point)
    requires
        t.wf(),
    ensures
        ({
            let o = t.viewport_rect.min;
            let s = t.scale_milli as int;
            let rx = to_document_coord(to_screen_coord(d.x as int, o.x as int, s), o.x as int, s);
            let ry = to_document_coord(to_screen_coord(d.y as int, o.y as int, s), o.y as int, s);
            &&& rx <= d.x && (d.x - rx) * s < s + MILLI
            &&& ry <= d.y && (d.y - ry) * s < s + MILLI
        }),
{
    let o = t.viewport_rect.min;
    lemma_coord_reverse_round_trip(d.x as int, o.x as int, t.scale_milli as int);
    lemma_coord_reverse_round_trip(d.y as int, o.y as int, t.scale_milli as int);
}

/// Maps between the viewport (screen space) and the document.
#[derive(Clone, Copy, Debug)]
pub struct CoordinateTransform {
    /// Current viewport bounds on screen; its top left corner is the origin.
    pub viewport_rect: Rect,
    /// Document bounds in document space.
    pub document_rect: Rect,
    /// Current zoom, in thousandths.
    pub scale_milli: i64,
}

impl CoordinateTransform {
    pub open spec fn wf(&self) -> bool {
        self.viewport_rect.wf() && scale_ok(self.scale_milli as int)
    }

    /// A transform at zoom one over an empty viewport at the origin and an
    /// 800 by 600 point document.
    pub fn new() -> (r: CoordinateTransform)
        ensures
            r.wf(),
            r.viewport_rect.min == (Point { x: 0, y: 0 }),
            r.viewport_rect.max == (Point { x: 0, y: 0 }),
            r.document_rect.min == (Point { x: 0, y: 0 }),
            r.document_rect.max.x == 800 * POINT,
            r.document_rect.max.y == 600 * POINT,
            r.scale_milli == MILLI,
    {
        CoordinateTransform {
            viewport_rect: Rect::from_min_max(Point::new(0, 0), Point::new(0, 0)),
            document_rect: Rect::from_min_max(
                Point::new(0, 0),
                Point::new(800 * POINT, 600 * POINT),
            ),
            scale_milli: MILLI,
        }
    }

    pub fn update_viewport(&mut self, viewport_rect: Rect)
        ensures
            final(self).viewport_rect == viewport_rect,
            final(self).document_rect == old(self).document_rect,
            final(self).scale_milli == old(self).scale_milli,
    {
        self.viewport_rect = viewport_rect;
    }

    pub fn screen_to_document(&self, screen_pos: Point) -> (r: Point)
        requires
            self.wf(),
            screen_pos.wf(),
        ensures
            r == to_document_point(screen_pos, self.viewport_rect.min, self.scale_milli as int),
            doc_coord_ok(r.x as int),
            doc_coord_ok(r.y as int),
    {
        screen_to_document_point(screen_pos, self.viewport_rect.min, self.scale_milli)
    }

    pub fn document_to_screen(&self, doc_pos: Point) -> (r: Point)
        requires
            self.wf(),
            doc_coord_ok(doc_pos.x as int),
            doc_coord_ok(doc_pos.y as int),
        ensures
            r == to_screen_point(doc_pos, self.viewport_rect.min, self.scale_milli as int),
    {
        document_to_screen_point(doc_pos, self.viewport_rect.min, self.scale_milli)
    }
}

/// A screen point taken to the document and back comes out at most one
/// document unit's worth of screen distance (plus one unit) up and to the
/// left of where it started, and never below or right of it.
pub proof fn lemma_transform_round_trip(t: CoordinateTransform, p: Point)
    requires
        t.wf(),
        p.wf(),
    ensures
        ({
            let r = to_screen_point(
                to_document_point(p, t.viewport_rect.min, t.scale_milli as int),
                t.viewport_rect.min,
                t.scale_milli as int,
            );
            &&& r.x <= p.x
            &&& (p.x - r.x) * MILLI < t.scale_milli + MILLI
            &&& r.y <= p.y
            &&& (p.y - r.y) * MILLI < t.scale_milli + MILLI
        }),
{
    let o = t.viewport_rect.min;
    let s = t.scale_milli as int;
    lemma_document_coord_bounded(p.x as int, o.x as int, s);
    lemma_document_coord_bounded(p.y as int, o.y as int, s);
    let dx = to_document_coord(p.x as int, o.x as int, s);
    let dy = to_document_coord(p.y as int, o.y as int, s);
    lemma_screen_coord_bounded(dx, s);
    lemma_screen_coord_bounded(dy, s);
    lemma_coord_round_trip(p.x as int, o.x as int, s);
    lemma_coord_round_trip(p.y as int, o.y as int, s);
}

} // verus!
