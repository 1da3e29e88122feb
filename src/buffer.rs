//! The spatial text buffer: building it from tokens, editing it, and
//! mapping between buffer positions and the screen.

use vstd::prelude::*;

use ropey::Rope;

use crate::element_range::{
    estimated_width, ranges_sorted_disjoint, ranges_within, shift_for_delete, shift_for_insert,
    ElementRange, CHAR_WIDTH, lemma_monotone_map_keeps_order,
};
use crate::geometry::{Point, Rect};
use crate::spatial_index::{same_visuals, SpatialIndex};
use crate::text_rope::{
    rope_chars, rope_insert, rope_len_chars, rope_new, rope_remove, rope_slice_string,
    rope_to_string,
};
use crate::text_rope::rope_from_str;
use crate::token::{
    lemma_mapped_text_len_mono, line_v, mapped_end, mapped_start, mapped_text, separator,
    starts_line, Token,
    SAME_LINE_TOLERANCE,
};
use crate::spatial_index::bounds_of;
use crate::transform::{
    doc_coord_ok, document_to_screen_point, floor_div_wide, scale_ok, screen_to_document_point,
    to_document_point, to_screen_point, CoordinateTransform, MILLI,
};
use vstd::string::{StrSliceExecFns, StringExecFns};

verus! {

/// Why an edit was refused.
#[derive(Clone, Copy, Debug, PartialEq, Eq, Structural)]
pub enum EditError {
    /// A buffer position lies past the end of the buffer, or a range is
    /// reversed.
    PositionOutOfRange,
}

/// Whether text of `n` characters is estimated wider than `bounds`.
pub open spec fn overflows(n: int, bounds: Rect) -> bool {
    estimated_width(n) > bounds.spec_width()
}

/// An element range after `n` characters are inserted at `pos` into a
/// buffer; an insertion inside the range or at its end grows it and marks it
/// modified, and every modified range has its overflow estimated anew.
pub open spec fn range_after_insert(e: ElementRange, pos: int, n: int) -> ElementRange {
    let start = shift_for_insert(e.rope_start as int, pos, n);
    let end = shift_for_insert(e.rope_end as int, pos, n);
    let modified = e.modified || (e.rope_start < pos && pos <= e.rope_end);
    ElementRange {
        rope_start: start as usize,
        rope_end: end as usize,
        modified,
        overflow: if modified {
            overflows(end - start, e.original_bounds)
        } else {
            e.overflow
        },
        ..e
    }
}

/// An element range after the buffer's `[start, end)` is deleted; a range
/// that meets the deleted span is marked modified.
pub open spec fn range_after_delete(e: ElementRange, start: int, end: int) -> ElementRange {
    ElementRange {
        rope_start: shift_for_delete(e.rope_start as int, start, end) as usize,
        rope_end: shift_for_delete(e.rope_end as int, start, end) as usize,
        modified: e.modified || (e.rope_start <= end && e.rope_end > start),
        ..e
    }
}

/// Whether range `e` holds buffer position `pos`.
pub open spec fn range_holds(e: ElementRange, pos: int) -> bool {
    e.rope_start <= pos < e.rope_end
}

/// Index of the first range in `rs` that holds `pos`.
pub open spec fn first_holding(rs: Seq<ElementRange>, pos: int) -> Option<int>
    decreases rs.len(),
{
    if rs.len() == 0 {
        None
    } else {
        match first_holding(rs.drop_last(), pos) {
            Some(i) => Some(i),
            None => if range_holds(rs.last(), pos) {
                Some(rs.len() - 1)
            } else {
                None
            },
        }
    }
}

/// `v` limited to `[0, hi]`.
pub open spec fn clamp_to(v: int, hi: int) -> int {
    if v < 0 {
        0
    } else if v > hi {
        hi
    } else {
        v
    }
}

/// Character offset within an element of `len` characters and width
/// `width` at horizontal distance `local_x` from its left edge: the share
/// `local_x / width` of `len`, rounded down and limited to `[0, len]`. An
/// element without width puts every point right of its edge after its last
/// character and every other point before its first.
pub open spec fn char_offset_at(local_x: int, width: int, len: int) -> int {
    if len == 0 {
        0
    } else if width == 0 {
        if local_x > 0 {
            len
        } else {
            0
        }
    } else if width > 0 {
        clamp_to(local_x * len / width, len)
    } else {
        clamp_to((-local_x) * len / (-width), len)
    }
}

/// Document position of a caret at buffer position `pos` inside range `e`:
/// the offset's share of the visual width, from the left edge.
pub open spec fn caret_point(e: ElementRange, pos: int) -> Point {
    let len = e.rope_end - e.rope_start;
    let offset = pos - e.rope_start;
    Point {
        x: (e.visual_bounds.min.x + offset * e.visual_bounds.spec_width() / len) as i64,
        y: e.visual_bounds.min.y,
    }
}

/// The range recorded for token `i`: exactly its own text, with the
/// token's box as both visual and original bounds.
pub open spec fn mapped_range(ts: Seq<Token>, i: int) -> ElementRange {
    ElementRange {
        rope_start: mapped_start(ts, i) as usize,
        rope_end: mapped_end(ts, i) as usize,
        element_id: i as usize,
        visual_bounds: ts[i].bounds(),
        original_bounds: ts[i].bounds(),
        overflow: false,
        modified: false,
    }
}

/// `after` is `before` once `text` is inserted at `pos`: the text spliced,
/// each range moved by `range_after_insert`, the index kept with the
/// bounds of the first range now holding `pos` marked dirty, and the other
/// fields unchanged.
pub open spec fn inserted(
    before: SpatialTextBuffer,
    after: SpatialTextBuffer,
    pos: int,
    text: Seq<char>,
) -> bool {
    &&& after.wf()
    &&& after.text() == before.text().take(pos) + text + before.text().skip(pos)
    &&& after.text().len() == before.text().len() + text.len()
    &&& ranges_sorted_disjoint(after.element_ranges@)
    &&& after.element_ranges@.len() == before.element_ranges@.len()
    &&& forall|i: int|
        0 <= i < before.element_ranges@.len() ==> #[trigger] after.element_ranges@[i] == range_after_insert(
            before.element_ranges@[i],
            pos,
            text.len() as int,
        )
    &&& after.spatial_index.cells() == before.spatial_index.cells()
    &&& after.spatial_index.bounds() == before.spatial_index.bounds()
    &&& after.spatial_index.dirty() == match first_holding(
        after.element_ranges@,
        pos,
    ) {
        Some(i) => before.spatial_index.dirty().push(
            after.element_ranges@[i].visual_bounds,
        ),
        None => before.spatial_index.dirty(),
    }
    &&& after.cursor_pos == before.cursor_pos
    &&& after.selection == before.selection
    &&& after.zoom_milli == before.zoom_milli
    &&& after.pan == before.pan
    &&& after.viewport_to_document_transform == before.viewport_to_document_transform
}

/// `after` is `before` once `[start, end)` is deleted: the text cut, each
/// range moved by `range_after_delete`, the index rebuilt from the new
/// ranges, and the other fields unchanged.
pub open spec fn deleted(before: SpatialTextBuffer, after: SpatialTextBuffer, start: int, end: int) -> bool {
    &&& after.wf()
    &&& after.text() == before.text().take(start) + before.text().skip(end)
    &&& after.text().len() == before.text().len() - (end - start)
    &&& ranges_sorted_disjoint(after.element_ranges@)
    &&& after.element_ranges@.len() == before.element_ranges@.len()
    &&& forall|i: int|
        0 <= i < before.element_ranges@.len() ==> #[trigger] after.element_ranges@[i] == range_after_delete(
            before.element_ranges@[i],
            start,
            end,
        )
    &&& after.spatial_index.indexes(after.element_ranges@)
    &&& after.spatial_index.dirty() == before.spatial_index.dirty()
    &&& after.cursor_pos == before.cursor_pos
    &&& after.selection == before.selection
    &&& after.zoom_milli == before.zoom_milli
    &&& after.pan == before.pan
    &&& after.viewport_to_document_transform == before.viewport_to_document_transform
}

/// The linear buffer, its element ranges and their spatial index, kept
/// consistent by every edit.
#[derive(Debug)]
pub struct SpatialTextBuffer {
    /// The text, the single source of truth for content.
    pub rope: Rope,
    /// One range per token, sorted by start and pairwise disjoint.
    pub element_ranges: Vec<ElementRange>,
    /// Grid over the ranges' visual bounds.
    pub spatial_index: SpatialIndex,
    /// Cursor position in the buffer.
    pub cursor_pos: usize,
    /// Selected span of the buffer.
    pub selection: Option<(usize, usize)>,
    /// Zoom, in thousandths.
    pub zoom_milli: i64,
    /// Screen offset of the document origin.
    pub pan: Point,
    /// Viewport to document mapping.
    pub viewport_to_document_transform: CoordinateTransform,
}

impl SpatialTextBuffer {
    /// The characters of the buffer.
    pub open spec fn text(&self) -> Seq<char> {
        rope_chars(self.rope)
    }

    pub open spec fn wf(&self) -> bool {
        let rs = self.element_ranges@;
        &&& ranges_sorted_disjoint(rs)
        &&& ranges_within(rs, self.text().len() as int)
        &&& forall|i: int|
            0 <= i < rs.len() ==> (#[trigger] rs[i]).visual_bounds.wf()
                && rs[i].original_bounds.wf()
        &&& self.spatial_index.wf()
        &&& self.spatial_index.indexes(rs)
        &&& scale_ok(self.zoom_milli as int)
        &&& self.pan.wf()
        &&& self.viewport_to_document_transform.wf()
    }

    /// An empty buffer at zoom one.
    pub fn new() -> (r: SpatialTextBuffer)
        ensures
            r.wf(),
            r.text().len() == 0,
            r.element_ranges@.len() == 0,
            r.cursor_pos == 0,
            r.selection is None,
            r.zoom_milli == MILLI,
            r.pan == (Point { x: 0, y: 0 }),
    {
        let mut spatial_index = SpatialIndex::new();
        let element_ranges: Vec<ElementRange> = Vec::new();
        spatial_index.rebuild(element_ranges.as_slice());
        SpatialTextBuffer {
            rope: rope_new(),
            element_ranges,
            spatial_index,
            cursor_pos: 0,
            selection: None,
            zoom_milli: MILLI,
            pan: Point { x: 0, y: 0 },
            viewport_to_document_transform: CoordinateTransform::new(),
        }
    }

    /// Builds the buffer from tokens in input order: a newline before each
    /// token that lies further than the same-line tolerance from the current
    /// line, one space before the others, and one range per token covering
    /// exactly its own text.
    pub fn from_alto_elements(elements: &[Token]) -> (r: SpatialTextBuffer)
        requires
            forall|i: int| 0 <= i < elements@.len() ==> (#[trigger] elements@[i]).wf(),
            mapped_text(elements@, elements@.len() as int).len() <= usize::MAX,
        ensures
            r.wf(),
            r.text() == mapped_text(elements@, elements@.len() as int),
            r.element_ranges@.len() == elements@.len(),
            forall|i: int|
                0 <= i < elements@.len() ==> #[trigger] r.element_ranges@[i] == mapped_range(
                    elements@,
                    i,
                ),
            r.cursor_pos == 0,
            r.selection is None,
            r.zoom_milli == MILLI,
            r.pan == (Point { x: 0, y: 0 }),
    {
        let ghost ts = elements@;
        let n = elements.len();
        let mut buffer = Self::new();
        let mut text = String::new();
        let mut ranges: Vec<ElementRange> = Vec::new();
        let mut char_pos: usize = 0;
        let mut current_line_v: i64 = 0;
        let mut i: usize = 0;
        while i < n
            invariant
                ts == elements@,
                n == ts.len(),
                i <= n,
                forall|k: int| 0 <= k < n ==> (#[trigger] ts[k]).wf(),
                mapped_text(ts, n as int).len() <= usize::MAX,
                text@ == mapped_text(ts, i as int),
                char_pos == text@.len(),
                i > 0 ==> current_line_v == line_v(ts, i - 1),
                ranges@.len() == i,
                forall|k: int| 0 <= k < i ==> #[trigger] ranges@[k] == mapped_range(ts, k),
            decreases n - i,
        {
            let t = &elements[i];
            proof {
                lemma_mapped_text_len_mono(ts, i + 1, n as int);
            }
            if i > 0 {
                let d = t.v_pos - current_line_v;
                if d > SAME_LINE_TOLERANCE || d < -SAME_LINE_TOLERANCE {
                    assert(starts_line(ts, i as int));
                    text.append("\n");
                    proof {
                        reveal_strlit("\n");
                    }
                    assert("\n"@ =~= seq!['\n']);
                    current_line_v = t.v_pos;
                } else {
                    assert(!starts_line(ts, i as int));
                    text.append(" ");
                    proof {
                        reveal_strlit(" ");
                    }
                    assert(" "@ =~= seq![' ']);
                }
                char_pos = char_pos + 1;
            } else {
                assert(separator(ts, 0) =~= Seq::<char>::empty());
                assert(text@ + separator(ts, 0) =~= text@);
                current_line_v = t.v_pos;
            }
            assert(text@ == mapped_text(ts, i as int) + separator(ts, i as int));
            let start = char_pos;
            text.append(t.content.as_str());
            char_pos = char_pos + t.content.as_str().unicode_len();
            assert(text@ == mapped_text(ts, i + 1));
            let bounds = Rect::from_min_size(t.h_pos, t.v_pos, t.width, t.height);
            ranges.push(
                ElementRange {
                    rope_start: start,
                    rope_end: char_pos,
                    element_id: i,
                    visual_bounds: bounds,
                    original_bounds: bounds,
                    overflow: false,
                    modified: false,
                },
            );
            i = i + 1;
        }
        proof {
            let rs = ranges@;
            assert forall|k: int| 0 <= k < rs.len() implies #[trigger] rs[k].rope_start
                <= rs[k].rope_end by {
                lemma_mapped_text_len_mono(ts, k + 1, n as int);
            }
            assert forall|a: int, b: int| 0 <= a < b < rs.len() implies #[trigger] rs[a].rope_end
                <= #[trigger] rs[b].rope_start by {
                lemma_mapped_text_len_mono(ts, a + 1, b);
                lemma_mapped_text_len_mono(ts, b + 1, n as int);
            }
            assert forall|k: int| 0 <= k < rs.len() implies #[trigger] rs[k].rope_end <= text@.len() by {
                lemma_mapped_text_len_mono(ts, k + 1, n as int);
            }
        }
        buffer.rope = rope_from_str(text.as_str());
        buffer.element_ranges = ranges;
        buffer.spatial_index.rebuild(buffer.element_ranges.as_slice());
        buffer
    }

    /// The whole text of the buffer.
    pub fn to_text(&self) -> (s: String)
        ensures
            s@ == self.text(),
    {
        rope_to_string(&self.rope)
    }

    /// Number of characters in the buffer.
    pub fn len_chars(&self) -> (n: usize)
        ensures
            n == self.text().len(),
    {
        rope_len_chars(&self.rope)
    }

    /// The current text of range `idx`.
    pub fn element_text(&self, idx: usize) -> (s: String)
        requires
            self.wf(),
            idx < self.element_ranges@.len(),
        ensures
            s@ == self.text().subrange(
                self.element_ranges@[idx as int].rope_start as int,
                self.element_ranges@[idx as int].rope_end as int,
            ),
    {
        let e = self.element_ranges[idx];
        rope_slice_string(&self.rope, e.rope_start, e.rope_end)
    }

    /// Whether `n` characters are estimated wider than `bounds`.
    fn text_exceeds_bounds(n: usize, bounds: &Rect) -> (r: bool)
        requires
            bounds.wf(),
        ensures
            r == overflows(n as int, *bounds),
    {
        assert(CHAR_WIDTH == 800);
        assert(0 <= (n as int) * 800 <= 0x1_0000_0000_0000_0000 * 800) by (nonlinear_arith)
            requires
                0 <= n <= 0x1_0000_0000_0000_0000,
        ;
        (n as i128) * (CHAR_WIDTH as i128) > (bounds.width() as i128)
    }

    /// The first range holding buffer position `rope_pos`.
    fn find_element_containing_position(&self, rope_pos: usize) -> (r: Option<usize>)
        ensures
            r matches Some(i) ==> i < self.element_ranges@.len() && first_holding(
                self.element_ranges@,
                rope_pos as int,
            ) == Some(i as int),
            r is None ==> first_holding(self.element_ranges@, rope_pos as int) is None,
    {
        let ghost rs = self.element_ranges@;
        let mut i: usize = 0;
        while i < self.element_ranges.len()
            invariant
                rs == self.element_ranges@,
                i <= rs.len(),
                first_holding(rs.take(i as int), rope_pos as int) is None,
            decreases rs.len() - i,
        {
            let e = self.element_ranges[i];
            assert(rs.take(i as int + 1).drop_last() =~= rs.take(i as int));
            if e.rope_start <= rope_pos && rope_pos < e.rope_end {
                proof {
                    lemma_first_holding_prefix(rs, i as int + 1, rope_pos as int);
                }
                return Some(i);
            }
            i = i + 1;
        }
        assert(rs.take(rs.len() as int) =~= rs);
        None
    }

    /// Inserts `text` at buffer position `pos` and updates the element
    /// ranges; a position past the end is refused and changes nothing.
    pub fn insert_text(&mut self, pos: usize, text: &str) -> (r: Result<(), EditError>)
        requires
            old(self).wf(),
            old(self).text().len() + text@.len() <= usize::MAX,
        ensures
            pos > old(self).text().len() ==> r == Err::<(), EditError>(
                EditError::PositionOutOfRange,
            ) && *final(self) == *old(self),
            pos <= old(self).text().len() ==> r is Ok && inserted(*old(self), *final(self), pos as int, text@),
    {
        let len = rope_len_chars(&self.rope);
        if pos > len {
            return Err(EditError::PositionOutOfRange);
        }
        let n = text.unicode_len();
        rope_insert(&mut self.rope, pos, text);
        let ghost old_rs = self.element_ranges@;
        let ghost new_len = self.text().len();
        let ghost rope_after = self.rope;
        let mut i: usize = 0;
        while i < self.element_ranges.len()
            invariant
                self.spatial_index == old(self).spatial_index,
                self.rope == rope_after,
                self.cursor_pos == old(self).cursor_pos,
                self.selection == old(self).selection,
                self.zoom_milli == old(self).zoom_milli,
                self.pan == old(self).pan,
                self.viewport_to_document_transform == old(self).viewport_to_document_transform,
                old_rs == old(self).element_ranges@,
                self.element_ranges@.len() == old_rs.len(),
                i <= old_rs.len(),
                n == text@.len(),
                pos <= len,
                new_len == len + n,
                new_len <= usize::MAX,
                ranges_within(old_rs, len as int),
                forall|k: int|
                    0 <= k < i ==> #[trigger] self.element_ranges@[k] == range_after_insert(
                        old_rs[k],
                        pos as int,
                        n as int,
                    ),
                forall|k: int| i <= k < old_rs.len() ==> #[trigger] self.element_ranges@[k] == old_rs[k],
                forall|k: int|
                    0 <= k < old_rs.len() ==> (#[trigger] old_rs[k]).original_bounds.wf()
                        && old_rs[k].rope_start <= old_rs[k].rope_end,
            decreases old_rs.len() - i,
        {
            let e = self.element_ranges[i];
            assert(e.rope_end <= len);
            let mut ne = e;
            if e.rope_start >= pos {
                ne.rope_start = e.rope_start + n;
                ne.rope_end = e.rope_end + n;
            } else if e.rope_end >= pos {
                ne.rope_end = e.rope_end + n;
                ne.modified = true;
            }
            if ne.modified {
                ne.overflow = Self::text_exceeds_bounds(ne.rope_end - ne.rope_start, &ne.original_bounds);
            }
            self.element_ranges.set(i, ne);
            i = i + 1;
        }
        proof {
            let rs = self.element_ranges@;
            let f = |p: int| shift_for_insert(p, pos as int, n as int);
            lemma_monotone_map_keeps_order(old_rs, rs, f);
            assert(same_visuals(old_rs, rs));
            self.spatial_index.lemma_indexes_same_visuals(old_rs, rs);
        }
        let found = self.find_element_containing_position(pos);
        match found {
            Some(i) => {
                let b = self.element_ranges[i].visual_bounds;
                self.spatial_index.mark_dirty_region(b);
            },
            None => {},
        }
        Ok(())
    }

    /// Deletes buffer span `[start, end)` and updates the element ranges,
    /// then rebuilds the spatial index; a reversed span or one past the end
    /// is refused and changes nothing.
    pub fn delete_range(&mut self, start: usize, end: usize) -> (r: Result<(), EditError>)
        requires
            old(self).wf(),
        ensures
            !(start <= end <= old(self).text().len()) ==> r == Err::<(), EditError>(
                EditError::PositionOutOfRange,
            ) && *final(self) == *old(self),
            start <= end <= old(self).text().len() ==> r is Ok && deleted(
                *old(self),
                *final(self),
                start as int,
                end as int,
            ),
    {
        let len = rope_len_chars(&self.rope);
        if start > end || end > len {
            return Err(EditError::PositionOutOfRange);
        }
        let n = end - start;
        rope_remove(&mut self.rope, start, end);
        let ghost old_rs = self.element_ranges@;
        let ghost rope_after = self.rope;
        let mut i: usize = 0;
        while i < self.element_ranges.len()
            invariant
                self.spatial_index == old(self).spatial_index,
                self.rope == rope_after,
                self.cursor_pos == old(self).cursor_pos,
                self.selection == old(self).selection,
                self.zoom_milli == old(self).zoom_milli,
                self.pan == old(self).pan,
                self.viewport_to_document_transform == old(self).viewport_to_document_transform,
                old_rs == old(self).element_ranges@,
                self.element_ranges@.len() == old_rs.len(),
                i <= old_rs.len(),
                start <= end <= len,
                n == end - start,
                ranges_within(old_rs, len as int),
                forall|k: int|
                    0 <= k < old_rs.len() ==> (#[trigger] old_rs[k]).rope_start <= old_rs[k].rope_end,
                forall|k: int|
                    0 <= k < i ==> #[trigger] self.element_ranges@[k] == range_after_delete(
                        old_rs[k],
                        start as int,
                        end as int,
                    ),
                forall|k: int| i <= k < old_rs.len() ==> #[trigger] self.element_ranges@[k] == old_rs[k],
            decreases old_rs.len() - i,
        {
            let e = self.element_ranges[i];
            let mut ne = e;
            if e.rope_start > end {
                ne.rope_start = e.rope_start - n;
                ne.rope_end = e.rope_end - n;
            } else if e.rope_end > start {
                if e.rope_start >= start {
                    ne.rope_start = start;
                }
                if e.rope_end > end {
                    ne.rope_end = e.rope_end - n;
                } else {
                    ne.rope_end = start;
                }
                ne.modified = true;
            }
            self.element_ranges.set(i, ne);
            i = i + 1;
        }
        proof {
            let rs = self.element_ranges@;
            let f = |p: int| shift_for_delete(p, start as int, end as int);
            lemma_monotone_map_keeps_order(old_rs, rs, f);
            assert(same_visuals(old_rs, rs));
        }
        self.spatial_index.rebuild(self.element_ranges.as_slice());
        Ok(())
    }

    /// Document position under screen position `screen_pos`, through the
    /// buffer's pan and zoom.
    fn screen_to_document_pos(&self, screen_pos: Point) -> (r: Point)
        requires
            self.wf(),
            screen_pos.wf(),
        ensures
            r == to_document_point(screen_pos, self.pan, self.zoom_milli as int),
            doc_coord_ok(r.x as int),
            doc_coord_ok(r.y as int),
    {
        screen_to_document_point(screen_pos, self.pan, self.zoom_milli)
    }

    /// Screen position of document position `doc_pos`, through the buffer's
    /// pan and zoom.
    fn document_to_screen_pos(&self, doc_pos: Point) -> (r: Point)
        requires
            self.wf(),
            doc_coord_ok(doc_pos.x as int),
            doc_coord_ok(doc_pos.y as int),
        ensures
            r == to_screen_point(doc_pos, self.pan, self.zoom_milli as int),
    {
        document_to_screen_point(doc_pos, self.pan, self.zoom_milli)
    }

    /// Buffer position under a screen click: the element that the spatial
    /// index finds at the document position, and the character offset
    /// interpolated across its visual width.
    pub fn screen_to_rope_position(&self, screen_pos: Point) -> (r: Option<usize>)
        requires
            self.wf(),
            screen_pos.wf(),
        ensures
            r == self.screen_to_rope_position_spec(screen_pos),
            r matches Some(p) ==> p <= self.text().len(),
    {
        let doc = self.screen_to_document_pos(screen_pos);
        let found = self.spatial_index.find_element_at_position(doc);
        match found {
            None => None,
            Some(i) => {
                let count = self.element_ranges.len();
                proof {
                    self.spatial_index.lemma_lookup_first_registered(self.element_ranges@, doc);
                }
                let e = self.element_ranges[i];
                let local_x = doc.x - e.visual_bounds.min.x;
                let width = e.visual_bounds.width();
                let len = e.rope_end - e.rope_start;
                let offset: usize = if len == 0 {
                    0
                } else if width == 0 {
                    if local_x > 0 {
                        len
                    } else {
                        0
                    }
                } else {
                    assert(doc_coord_ok(doc.x as int));
                    assert(e.visual_bounds.wf());
                    let ghost l = len as int;
                    let ghost lx = local_x as int;
                    assert(-0x1_0000_0000_0000 * 0x1_0000_0000_0000_0000 <= lx * l
                        <= 0x1_0000_0000_0000 * 0x1_0000_0000_0000_0000) by (nonlinear_arith)
                        requires
                            -0x1_0000_0000_0000 <= lx <= 0x1_0000_0000_0000,
                            0 < l <= 0x1_0000_0000_0000_0000,
                    ;
                    let product = (local_x as i128) * (len as i128);
                    let q = if width > 0 {
                        floor_div_wide(product, width as i128)
                    } else {
                        floor_div_wide(-product, -(width as i128))
                    };
                    proof {
                        assert((-lx) * l == -(lx * l)) by (nonlinear_arith);
                    }
                    if q < 0 {
                        0
                    } else if q > len as i128 {
                        len
                    } else {
                        q as usize
                    }
                };
                Some(e.rope_start + offset)
            },
        }
    }

    /// Buffer position under screen position `screen_pos`, if the index
    /// finds an element there.
    pub open spec fn screen_to_rope_position_spec(&self, screen_pos: Point) -> Option<usize> {
        let doc = to_document_point(screen_pos, self.pan, self.zoom_milli as int);
        match self.spatial_index.lookup(doc) {
            None => None,
            Some(i) => {
                let e = self.element_ranges@[i as int];
                Some(
                    (e.rope_start + char_offset_at(
                        doc.x - e.visual_bounds.min.x,
                        e.visual_bounds.spec_width(),
                        e.rope_end - e.rope_start,
                    )) as usize,
                )
            },
        }
    }

    /// Screen position of a caret at buffer position `rope_pos`, inside the
    /// first element range holding it; none when no range holds it.
    pub fn rope_to_screen_position(&self, rope_pos: usize) -> (r: Option<Point>)
        requires
            self.wf(),
        ensures
            match first_holding(self.element_ranges@, rope_pos as int) {
                None => r is None,
                Some(i) => r == Some(
                    to_screen_point(
                        caret_point(self.element_ranges@[i], rope_pos as int),
                        self.pan,
                        self.zoom_milli as int,
                    ),
                ),
            },
    {
        match self.find_element_containing_position(rope_pos) {
            None => None,
            Some(i) => {
                proof {
                    lemma_first_holding_holds(self.element_ranges@, rope_pos as int);
                }
                let e = self.element_ranges[i];
                let b = e.visual_bounds;
                assert(b.wf());
                assert(-2_000_000_000 <= b.spec_width() <= 2_000_000_000);
                assert(-0x1_0000_0000_0000_0000_0000_0000 <= (rope_pos - e.rope_start) * b.spec_width()
                    <= 0x1_0000_0000_0000_0000_0000_0000) by (nonlinear_arith)
                    requires
                        0 <= rope_pos - e.rope_start <= 0x1_0000_0000_0000_0000,
                        -2_000_000_000 <= b.spec_width() <= 2_000_000_000,
                ;
                let len = e.rope_end - e.rope_start;
                let offset = rope_pos - e.rope_start;
                let width = b.width();
                let share = floor_div_wide((offset as i128) * (width as i128), len as i128);
                proof {
                    assert(b.wf());
                    let w = width as int;
                    let o = offset as int;
                    let ghost l = len as int;
                    assert(0 <= o < l);
                    if w >= 0 {
                        assert(0 <= o * w <= l * w) by (nonlinear_arith)
                            requires 0 <= o < l, w >= 0;
                        vstd::arithmetic::div_mod::lemma_div_is_ordered(0, o * w, l);
                        vstd::arithmetic::div_mod::lemma_div_is_ordered(o * w, l * w, l);
                        vstd::arithmetic::div_mod::lemma_div_by_multiple(w, l);
                    } else {
                        assert(l * w <= o * w <= 0) by (nonlinear_arith)
                            requires 0 <= o < l, w < 0;
                        vstd::arithmetic::div_mod::lemma_div_is_ordered(o * w, 0, l);
                        vstd::arithmetic::div_mod::lemma_div_is_ordered(l * w, o * w, l);
                        vstd::arithmetic::div_mod::lemma_fundamental_div_mod_converse(l * w, l, w, 0);
                    }
                }
                let doc = Point { x: b.min.x + (share as i64), y: b.min.y };
                Some(self.document_to_screen_pos(doc))
            },
        }
    }
}


/// The first range holding a position does hold it.
proof fn lemma_first_holding_holds(rs: Seq<ElementRange>, pos: int)
    ensures
        first_holding(rs, pos) matches Some(i) ==> 0 <= i < rs.len() && range_holds(rs[i], pos),
    decreases rs.len(),
{
    if rs.len() > 0 {
        lemma_first_holding_holds(rs.drop_last(), pos);
    }
}

/// When the range at `k - 1` holds `pos` and none before it does, it is the
/// first holding `pos` among the first `k`.
proof fn lemma_first_holding_prefix(rs: Seq<ElementRange>, k: int, pos: int)
    requires
        0 < k <= rs.len(),
        first_holding(rs.take(k - 1), pos) is None,
        range_holds(rs[k - 1], pos),
    ensures
        first_holding(rs, pos) == Some(k - 1),
    decreases rs.len() - k,
{
    assert(rs.take(k).drop_last() =~= rs.take(k - 1));
    assert(first_holding(rs.take(k), pos) == Some(k - 1));
    if k < rs.len() {
        lemma_first_holding_prefix_extend(rs, k, pos);
    } else {
        assert(rs.take(k) =~= rs);
    }
}

/// Once found in a prefix, the first holder stays first in longer prefixes.
proof fn lemma_first_holding_prefix_extend(rs: Seq<ElementRange>, k: int, pos: int)
    requires
        0 < k <= rs.len(),
        first_holding(rs.take(k), pos) is Some,
    ensures
        first_holding(rs, pos) == first_holding(rs.take(k), pos),
    decreases rs.len() - k,
{
    if k < rs.len() {
        assert(rs.take(k + 1).drop_last() =~= rs.take(k));
        lemma_first_holding_prefix_extend(rs, k + 1, pos);
    } else {
        assert(rs.take(k) =~= rs);
    }
}

} // verus!
