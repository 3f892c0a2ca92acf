//! What a preview of cut-out ranges draws.
use vstd::prelude::*;
use crate::incise::InciseRange;

verus! {

/// The frame that a preview draws around `range`: one pixel outside its box on every side,
/// as (left, top, width, height).
pub fn preview_rect(range: &InciseRange) -> (r: (i32, i32, i32, i32))
    requires
        range.min_x > i32::MIN,
        range.min_y > i32::MIN,
        range.cols <= i32::MAX - 2,
        range.rows <= i32::MAX - 2,
    ensures
        r.0 == range.min_x - 1,
        r.1 == range.min_y - 1,
        r.2 == range.cols + 2,
        r.3 == range.rows + 2,
{
    (range.min_x - 1, range.min_y - 1, range.cols + 2, range.rows + 2)
}

} // verus!
