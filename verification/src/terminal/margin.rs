//! Where the margin guide stands: a thin vertical line drawn a fixed
//! number of character cells from a terminal's left edge.
use vstd::prelude::*;

verus! {

/// The column the margin guide marks.
pub const MARGIN_COLUMN: i32 = 80;

/// The largest character width, in pixels, whose guide offset still fits
/// in the `i32` that a widget margin takes.
pub const MAX_CHAR_WIDTH: i64 = 26843545;

/// The guide's offset from the left edge, in pixels, for a terminal whose
/// character cells are `char_width` pixels wide: `MARGIN_COLUMN` cells,
/// counting a cell as at least one pixel so the guide never sits on the
/// edge itself.
pub open spec fn margin_offset_of(char_width: int) -> int {
    (if char_width < 1 { 1 } else { char_width }) * MARGIN_COLUMN
}

/// The guide's offset from the left edge for the terminal's current
/// character width.
pub fn margin_offset(char_width: i64) -> (offset: i32)
    requires
        char_width <= MAX_CHAR_WIDTH,
    ensures
        offset == margin_offset_of(char_width as int),
        offset >= MARGIN_COLUMN,
{
    let width: i32 = if char_width < 1 {
        1
    } else {
        char_width as i32
    };
    width * MARGIN_COLUMN
}

} // verus!
