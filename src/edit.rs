//! Input events and their effect on the buffer and cursor.

use vstd::prelude::*;

use crate::buffer::{deleted, inserted, SpatialTextBuffer};
use crate::cursor::SpatialCursor;
use crate::lines::{lengths, line_lengths, move_vertically, text_lines, vertical_target};
use crate::text_rope::rope_len_chars;
use vstd::string::StrSliceExecFns;

verus! {

/// One input event of the editor.
#[derive(Debug)]
pub enum EditEvent {
    /// Typed text, inserted at the cursor.
    Text(String),
    /// Deletes the character before the cursor.
    Backspace,
    /// Inserts a line break at the cursor.
    Enter,
    ArrowLeft,
    ArrowRight,
    /// Moves the cursor to the same column of the previous line.
    ArrowUp,
    /// Moves the cursor to the same column of the next line.
    ArrowDown,
}

/// What an event did.
#[derive(Clone, Copy, Debug, PartialEq, Eq, Structural)]
pub enum EditOutcome {
    /// The buffer's text changed.
    Edited,
    /// Only the cursor moved.
    Moved,
    /// Nothing changed.
    Unchanged,
}

/// Applies one event to the buffer and cursor: text and line breaks are
/// inserted at the cursor, which moves past them; backspace deletes the
/// character before the cursor; arrows move the cursor by one character
/// within the buffer. An edit at a cursor past the buffer's end changes
/// nothing.
pub fn apply_edit_event(
    buffer: &mut SpatialTextBuffer,
    cursor: &mut SpatialCursor,
    event: &EditEvent,
) -> (r: EditOutcome)
    requires
        old(buffer).wf(),
        old(buffer).text().len() + match event {
            EditEvent::Text(t) => t@.len() as int,
            _ => 1,
        } <= usize::MAX,
    ensures
        final(buffer).wf(),
        ({
            let pos = old(cursor).rope_pos as int;
            let len = old(buffer).text().len() as int;
            match event {
                EditEvent::Text(t) => if pos <= len {
                    &&& r == EditOutcome::Edited
                    &&& inserted(*old(buffer), *final(buffer), pos, t@)
                    &&& final(cursor).rope_pos == pos + t@.len()
                } else {
                    r == EditOutcome::Unchanged && *final(buffer) == *old(buffer) && *final(cursor)
                        == *old(cursor)
                },
                EditEvent::Enter => if pos <= len {
                    &&& r == EditOutcome::Edited
                    &&& inserted(*old(buffer), *final(buffer), pos, seq!['\n'])
                    &&& final(cursor).rope_pos == pos + 1
                } else {
                    r == EditOutcome::Unchanged && *final(buffer) == *old(buffer) && *final(cursor)
                        == *old(cursor)
                },
                EditEvent::Backspace => if 0 < pos <= len {
                    &&& r == EditOutcome::Edited
                    &&& deleted(*old(buffer), *final(buffer), pos - 1, pos)
                    &&& final(cursor).rope_pos == pos - 1
                } else {
                    r == EditOutcome::Unchanged && *final(buffer) == *old(buffer) && *final(cursor)
                        == *old(cursor)
                },
                EditEvent::ArrowLeft => if pos > 0 {
                    r == EditOutcome::Moved && *final(buffer) == *old(buffer) && final(cursor).rope_pos == pos - 1
                } else {
                    r == EditOutcome::Unchanged && *final(buffer) == *old(buffer) && *final(cursor)
                        == *old(cursor)
                },
                EditEvent::ArrowUp | EditEvent::ArrowDown => true,
                EditEvent::ArrowRight => if pos < len {
                    r == EditOutcome::Moved && *final(buffer) == *old(buffer) && final(cursor).rope_pos == pos + 1
                } else {
                    r == EditOutcome::Unchanged && *final(buffer) == *old(buffer) && *final(cursor)
                        == *old(cursor)
                },
            }
        }),
        ({
            let lines = lengths(text_lines(old(buffer).text()));
            let pos = old(cursor).rope_pos as int;
            match event {
                EditEvent::ArrowUp | EditEvent::ArrowDown => {
                    &&& *final(buffer) == *old(buffer)
                    &&& match vertical_target(lines, pos, event is ArrowUp) {
                        Some(t) => r == EditOutcome::Moved && final(cursor).rope_pos == t,
                        None => r == EditOutcome::Unchanged && *final(cursor) == *old(cursor),
                    }
                },
                _ => true,
            }
        }),
        final(cursor).screen_pos == old(cursor).screen_pos,
        final(cursor).visible == old(cursor).visible,
        final(cursor).blink_started_ms == old(cursor).blink_started_ms,
{
    let pos = cursor.rope_pos;
    let len = rope_len_chars(&buffer.rope);
    match event {
        EditEvent::Text(t) => {
            match buffer.insert_text(pos, t.as_str()) {
                Ok(()) => {
                    cursor.rope_pos = pos + t.as_str().unicode_len();
                    EditOutcome::Edited
                },
                Err(_) => EditOutcome::Unchanged,
            }
        },
        EditEvent::Enter => {
            proof {
                reveal_strlit("\n");
            }
            assert("\n"@.len() == 1);
            let r = buffer.insert_text(pos, "\n");
            match r {
                Ok(()) => {
                    assert("\n"@ =~= seq!['\n']);
                    cursor.rope_pos = pos + 1;
                    EditOutcome::Edited
                },
                Err(_) => EditOutcome::Unchanged,
            }
        },
        EditEvent::Backspace => {
            if pos == 0 {
                return EditOutcome::Unchanged;
            }
            match buffer.delete_range(pos - 1, pos) {
                Ok(()) => {
                    cursor.rope_pos = pos - 1;
                    EditOutcome::Edited
                },
                Err(_) => EditOutcome::Unchanged,
            }
        },
        EditEvent::ArrowLeft => {
            if pos > 0 {
                cursor.rope_pos = pos - 1;
                EditOutcome::Moved
            } else {
                EditOutcome::Unchanged
            }
        },
        EditEvent::ArrowUp | EditEvent::ArrowDown => {
            let text = buffer.to_text();
            let lines = line_lengths(text.as_str());
            match move_vertically(&lines, pos, matches!(event, EditEvent::ArrowUp)) {
                Some(t) => {
                    cursor.rope_pos = t;
                    EditOutcome::Moved
                },
                None => EditOutcome::Unchanged,
            }
        },
        EditEvent::ArrowRight => {
            if pos < len {
                cursor.rope_pos = pos + 1;
                EditOutcome::Moved
            } else {
                EditOutcome::Unchanged
            }
        },
    }
}

} // verus!
