//! Geometry of the procedurally drawn button frames.

use vstd::prelude::*;

verus! {

/// The pixel `(x, y)` is one of the four corner pixels of a `w × h` frame,
/// which the frame leaves transparent to round its corners.
pub open spec fn is_rounded_corner_spec(x: int, y: int, w: int, h: int) -> bool {
    (x == 0 || x == w - 1) && (y == 0 || y == h - 1)
}

/// Whether `(x, y)` is a corner pixel of a `w × h` frame.
pub fn is_rounded_corner(x: usize, y: usize, w: usize, h: usize) -> (r: bool)
    requires
        w >= 1,
        h >= 1,
    ensures
        r == is_rounded_corner_spec(x as int, y as int, w as int, h as int),
{
    (x == 0 && y == 0) || (x == w - 1 && y == 0) || (x == 0 && y == h - 1) || (x == w - 1 && y == h - 1)
}

} // verus!
