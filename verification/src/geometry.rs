//! Screen rectangles and the cells a popup writes into a terminal buffer.

use vstd::prelude::*;

verus! {

/// `u16::saturating_add`.
pub open spec fn sat_add(a: u16, b: u16) -> u16 {
    if a + b > u16::MAX {
        u16::MAX
    } else {
        (a + b) as u16
    }
}

/// `u16::saturating_sub`.
pub open spec fn sat_sub(a: u16, b: u16) -> u16 {
    if a < b {
        0
    } else {
        (a - b) as u16
    }
}

/// The smaller of two numbers.
pub open spec fn min16(a: u16, b: u16) -> u16 {
    if a <= b {
        a
    } else {
        b
    }
}

/// The larger of two numbers.
pub open spec fn max16(a: u16, b: u16) -> u16 {
    if a >= b {
        a
    } else {
        b
    }
}

/// A rectangular area of the screen: its top-left corner and its size.
#[derive(Debug, Clone, Copy, PartialEq, Eq, Structural)]
pub struct Rect {
    pub x: u16,
    pub y: u16,
    pub width: u16,
    pub height: u16,
}

impl Rect {
    /// A rectangle whose size is cut down so that its right and bottom
    /// edges stay within `u16`.
    pub fn new(x: u16, y: u16, width: u16, height: u16) -> (res: Rect)
        ensures
            res == (Rect {
                x,
                y,
                width: (sat_add(x, width) - x) as u16,
                height: (sat_add(y, height) - y) as u16,
            }),
    {
        let width = x.saturating_add(width) - x;
        let height = y.saturating_add(height) - y;
        Rect { x, y, width, height }
    }

    /// Left edge.
    pub open spec fn left_spec(self) -> u16 {
        self.x
    }

    /// One past the right edge (saturating).
    pub open spec fn right_spec(self) -> u16 {
        sat_add(self.x, self.width)
    }

    /// Top edge.
    pub open spec fn top_spec(self) -> u16 {
        self.y
    }

    /// One past the bottom edge (saturating).
    pub open spec fn bottom_spec(self) -> u16 {
        sat_add(self.y, self.height)
    }

    /// Left edge.
    #[verifier::when_used_as_spec(left_spec)]
    pub fn left(self) -> (res: u16)
        ensures
            res == self.left_spec(),
    {
        self.x
    }

    /// One past the right edge (saturating).
    #[verifier::when_used_as_spec(right_spec)]
    pub fn right(self) -> (res: u16)
        ensures
            res == self.right_spec(),
    {
        self.x.saturating_add(self.width)
    }

    /// Top edge.
    #[verifier::when_used_as_spec(top_spec)]
    pub fn top(self) -> (res: u16)
        ensures
            res == self.top_spec(),
    {
        self.y
    }

    /// One past the bottom edge (saturating).
    #[verifier::when_used_as_spec(bottom_spec)]
    pub fn bottom(self) -> (res: u16)
        ensures
            res == self.bottom_spec(),
    {
        self.y.saturating_add(self.height)
    }

    /// Whether the cell at `(x, y)` lies inside the rectangle.
    pub open spec fn contains_spec(self, x: int, y: int) -> bool {
        self.left_spec() <= x < self.right_spec() && self.top_spec() <= y < self.bottom_spec()
    }
}

} // verus!
