//! The editing cursor.

use vstd::prelude::*;

use crate::buffer::{caret_point, first_holding, SpatialTextBuffer};
use crate::geometry::Point;
use crate::text_rope::rope_len_chars;
use crate::transform::{to_document_point, to_screen_point};

verus! {

/// Milliseconds between two blinks of the cursor.
pub const BLINK_INTERVAL_MS: u64 = 500;

/// Screen position of a caret at `pos` in `b`, if some element holds `pos`.
pub open spec fn caret_screen_pos(b: SpatialTextBuffer, pos: int) -> Option<Point> {
    match first_holding(b.element_ranges@, pos) {
        None => None,
        Some(i) => Some(
            to_screen_point(caret_point(b.element_ranges@[i], pos), b.pan, b.zoom_milli as int),
        ),
    }
}

/// A cursor at a buffer position, with the screen position last resolved
/// for it and its blink state.
#[derive(Clone, Copy, Debug)]
pub struct SpatialCursor {
    /// Authoritative position in the buffer.
    pub rope_pos: usize,
    /// Where the cursor was last drawn, if anywhere.
    pub screen_pos: Option<Point>,
    /// Clock reading, in milliseconds, when the blink state last changed.
    pub blink_started_ms: u64,
    pub visible: bool,
}

impl SpatialCursor {
    /// A visible cursor at the start of the buffer; `now_ms` is the current
    /// clock reading.
    pub fn new(now_ms: u64) -> (r: SpatialCursor)
        ensures
            r.rope_pos == 0,
            r.screen_pos is None,
            r.blink_started_ms == now_ms,
            r.visible,
    {
        SpatialCursor { rope_pos: 0, screen_pos: None, blink_started_ms: now_ms, visible: true }
    }

    /// Resolves the screen position from the buffer and, once more than
    /// the blink interval has passed since the last change (by clock
    /// reading `now_ms`), toggles visibility.
    pub fn update_position(&mut self, buffer: &SpatialTextBuffer, now_ms: u64)
        requires
            buffer.wf(),
        ensures
            final(self).rope_pos == old(self).rope_pos,
            final(self).screen_pos == caret_screen_pos(*buffer, old(self).rope_pos as int),
            ({
                let blink = now_ms >= old(self).blink_started_ms && now_ms - old(self).blink_started_ms
                    > BLINK_INTERVAL_MS;
                &&& final(self).visible == (if blink {
                    !old(self).visible
                } else {
                    old(self).visible
                })
                &&& final(self).blink_started_ms == (if blink {
                    now_ms
                } else {
                    old(self).blink_started_ms
                })
            }),
    {
        self.screen_pos = buffer.rope_to_screen_position(self.rope_pos);
        if now_ms >= self.blink_started_ms && now_ms - self.blink_started_ms > BLINK_INTERVAL_MS {
            self.visible = !self.visible;
            self.blink_started_ms = now_ms;
        }
    }

    /// Moves to buffer position `pos`, clamped to the buffer's end, and
    /// resolves the screen position.
    pub fn move_to_rope_position(&mut self, pos: usize, buffer: &SpatialTextBuffer, now_ms: u64)
        requires
            buffer.wf(),
        ensures
            final(self).rope_pos == (if pos <= buffer.text().len() {
                pos as int
            } else {
                buffer.text().len() as int
            }),
            final(self).screen_pos == caret_screen_pos(*buffer, final(self).rope_pos as int),
    {
        let len = rope_len_chars(&buffer.rope);
        self.rope_pos = if pos <= len {
            pos
        } else {
            len
        };
        self.update_position(buffer, now_ms);
    }

    /// Moves to the buffer position under a screen click, when the click
    /// lands on an element; otherwise leaves the cursor as it is.
    pub fn move_to_screen_position(&mut self, screen_pos: Point, buffer: &SpatialTextBuffer)
        requires
            buffer.wf(),
            screen_pos.wf(),
        ensures
            buffer.spatial_index.lookup(
                to_document_point(screen_pos, buffer.pan, buffer.zoom_milli as int),
            ) is None ==> *final(self) == *old(self),
            buffer.spatial_index.lookup(
                to_document_point(screen_pos, buffer.pan, buffer.zoom_milli as int),
            ) is Some ==> {
                &&& Some(final(self).rope_pos) == buffer.screen_to_rope_position_spec(screen_pos)
                &&& final(self).screen_pos == Some(screen_pos)
                &&& final(self).visible == old(self).visible
                &&& final(self).blink_started_ms == old(self).blink_started_ms
            },
    {
        match buffer.screen_to_rope_position(screen_pos) {
            Some(rope_pos) => {
                self.rope_pos = rope_pos;
                self.screen_pos = Some(screen_pos);
            },
            None => {},
        }
    }
}

} // verus!
