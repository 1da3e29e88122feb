//! Positioned tokens and the layout of the linear buffer built from them.

use vstd::prelude::*;

use crate::geometry::{coord_ok, Point, Rect, POINT};

verus! {

/// Tokens further apart vertically than this start a new line of the
/// linear buffer.
pub const SAME_LINE_TOLERANCE: i64 = 5 * POINT;

/// A positioned word: its text and its bounding box.
#[derive(Debug)]
pub struct Token {
    pub content: String,
    pub h_pos: i64,
    pub v_pos: i64,
    pub width: i64,
    pub height: i64,
}

impl Token {
    /// The token's box lies within the accepted coordinate range.
    pub open spec fn wf(&self) -> bool {
        &&& coord_ok(self.h_pos as int)
        &&& coord_ok(self.v_pos as int)
        &&& coord_ok(self.h_pos + self.width)
        &&& coord_ok(self.v_pos + self.height)
    }

    pub open spec fn bounds(&self) -> Rect {
        Rect {
            min: Point { x: self.h_pos, y: self.v_pos },
            max: Point {
                x: (self.h_pos + self.width) as i64,
                y: (self.v_pos + self.height) as i64,
            },
        }
    }

    pub fn new(content: String, h_pos: i64, v_pos: i64, width: i64, height: i64) -> (r: Token)
        ensures
            r.content == content,
            r.h_pos == h_pos,
            r.v_pos == v_pos,
            r.width == width,
            r.height == height,
    {
        Token { content, h_pos, v_pos, width, height }
    }
}

pub open spec fn abs(v: int) -> int {
    if v < 0 {
        -v
    } else {
        v
    }
}

/// Vertical position of the buffer line that token `i` lies on: a line
/// takes the position of the token that opened it.
pub open spec fn line_v(ts: Seq<Token>, i: int) -> int
    decreases i,
{
    if i <= 0 {
        ts[0].v_pos as int
    } else {
        let prev = line_v(ts, i - 1);
        if abs(ts[i].v_pos - prev) > SAME_LINE_TOLERANCE {
            ts[i].v_pos as int
        } else {
            prev
        }
    }
}

/// Token `i` opens a new buffer line.
pub open spec fn starts_line(ts: Seq<Token>, i: int) -> bool {
    i > 0 && abs(ts[i].v_pos - line_v(ts, i - 1)) > SAME_LINE_TOLERANCE
}

/// The separator written before token `i`: nothing before the first, a
/// newline before one that opens a line, one space otherwise.
pub open spec fn separator(ts: Seq<Token>, i: int) -> Seq<char> {
    if i == 0 {
        Seq::empty()
    } else if starts_line(ts, i) {
        seq!['\n']
    } else {
        seq![' ']
    }
}

/// The linear buffer built from the first `k` tokens.
pub open spec fn mapped_text(ts: Seq<Token>, k: int) -> Seq<char>
    decreases k,
{
    if k <= 0 {
        Seq::empty()
    } else {
        mapped_text(ts, k - 1) + separator(ts, k - 1) + ts[k - 1].content@
    }
}

/// Start of token `i`'s own text in the linear buffer.
pub open spec fn mapped_start(ts: Seq<Token>, i: int) -> int {
    mapped_text(ts, i).len() + separator(ts, i).len() as int
}

/// End of token `i`'s own text in the linear buffer.
pub open spec fn mapped_end(ts: Seq<Token>, i: int) -> int {
    mapped_text(ts, i + 1).len() as int
}

/// Longer prefixes of the token stream give longer buffers.
pub proof fn lemma_mapped_text_len_mono(ts: Seq<Token>, a: int, b: int)
    requires
        0 <= a <= b,
    ensures
        mapped_text(ts, a).len() <= mapped_text(ts, b).len(),
    decreases b - a,
{
    if a < b {
        lemma_mapped_text_len_mono(ts, a, b - 1);
    }
}

} // verus!
