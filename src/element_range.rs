//! Element ranges: slices of the linear buffer tied to token bounds.

use vstd::prelude::*;

use crate::geometry::{Rect, POINT};

verus! {

/// Average width of one character, used to estimate rendered widths.
pub const CHAR_WIDTH: i64 = 8 * POINT;

/// Ties a slice of the linear buffer back to the token it was built from.
#[derive(Clone, Copy, Debug, PartialEq, Eq, Structural)]
pub struct ElementRange {
    /// First position of the slice in the linear buffer.
    pub rope_start: usize,
    /// One past the last position of the slice.
    pub rope_end: usize,
    /// Ordinal of the originating token; never changes.
    pub element_id: usize,
    /// Bounds used for display and hit testing.
    pub visual_bounds: Rect,
    /// The token's bounds as extracted.
    pub original_bounds: Rect,
    /// The slice's estimated width exceeds `original_bounds`.
    pub overflow: bool,
    /// The slice has been edited.
    pub modified: bool,
}

/// Each range is ordered, ranges are sorted by start and pairwise disjoint.
pub open spec fn ranges_sorted_disjoint(rs: Seq<ElementRange>) -> bool {
    &&& forall|i: int| 0 <= i < rs.len() ==> #[trigger] rs[i].rope_start <= rs[i].rope_end
    &&& forall|i: int, j: int|
        0 <= i < j < rs.len() ==> #[trigger] rs[i].rope_end <= #[trigger] rs[j].rope_start
}

/// Every range lies within a buffer of `len` characters.
pub open spec fn ranges_within(rs: Seq<ElementRange>, len: int) -> bool {
    forall|i: int| 0 <= i < rs.len() ==> #[trigger] rs[i].rope_end <= len
}

/// Where buffer position `p` moves when `n` characters are inserted at
/// `pos`: positions at or after the insertion point move right.
pub open spec fn shift_for_insert(p: int, pos: int, n: int) -> int {
    if p >= pos {
        p + n
    } else {
        p
    }
}

/// Where buffer position `p` moves when `[start, end)` is deleted:
/// positions inside collapse to `start`, later ones move left.
pub open spec fn shift_for_delete(p: int, start: int, end: int) -> int {
    if p <= start {
        p
    } else if p <= end {
        start
    } else {
        p - (end - start)
    }
}

/// Width estimate of `n` characters.
pub open spec fn estimated_width(n: int) -> int {
    n * CHAR_WIDTH
}

/// Applying a monotone position map to sorted, disjoint ranges keeps them
/// sorted and disjoint.
pub proof fn lemma_monotone_map_keeps_order(
    rs: Seq<ElementRange>,
    out: Seq<ElementRange>,
    f: spec_fn(int) -> int,
)
    requires
        ranges_sorted_disjoint(rs),
        out.len() == rs.len(),
        forall|a: int, b: int| a <= b ==> #[trigger] f(a) <= #[trigger] f(b),
        forall|i: int|
            0 <= i < rs.len() ==> {
                &&& (#[trigger] out[i]).rope_start == f(rs[i].rope_start as int)
                &&& out[i].rope_end == f(rs[i].rope_end as int)
            },
    ensures
        ranges_sorted_disjoint(out),
{
    assert forall|i: int| 0 <= i < out.len() implies #[trigger] out[i].rope_start
        <= out[i].rope_end by {
        assert(f(rs[i].rope_start as int) <= f(rs[i].rope_end as int));
    }
    assert forall|i: int, j: int| 0 <= i < j < out.len() implies #[trigger] out[i].rope_end
        <= #[trigger] out[j].rope_start by {
        assert(rs[i].rope_end <= rs[j].rope_start);
        assert(f(rs[i].rope_end as int) <= f(rs[j].rope_start as int));
    }
}

} // verus!
