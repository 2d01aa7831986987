use vstd::prelude::*;

verus! {

/// Coordinate on a Cartesian plane.
///
/// By this crate's convention `x` indexes buffer rows and `y` indexes buffer
/// columns; the convention is isolated behind the pixel-indexing functions in
/// `graphics::image`.
#[derive(Debug, PartialEq, Eq, Structural, Clone, Copy)]
pub struct Coordinate {
    pub x: i32,
    pub y: i32,
}

/// The two `Coordinate` endpoints of a line segment.  No order between the
/// endpoints is required; algorithms normalize via `ensure_x_lr`/`ensure_y_lr`.
#[derive(Debug, PartialEq, Eq, Structural, Clone, Copy)]
pub struct LineCoordinates {
    pub first: Coordinate,
    pub second: Coordinate,
}

/// Represents a circle on a Cartesian plane.
#[derive(Debug, PartialEq, Eq, Structural, Clone, Copy)]
pub struct CircleCoordinates {
    pub center: Coordinate,
    pub radius: u32,
}

/// The segment with endpoints swapped, if needed, so that the first endpoint
/// has the lesser `x`.
pub open spec fn x_normalized(l: LineCoordinates) -> LineCoordinates {
    if l.first.x <= l.second.x {
        l
    } else {
        LineCoordinates { first: l.second, second: l.first }
    }
}

/// The segment with endpoints swapped, if needed, so that the first endpoint
/// has the lesser `y`.
pub open spec fn y_normalized(l: LineCoordinates) -> LineCoordinates {
    if l.first.y <= l.second.y {
        l
    } else {
        LineCoordinates { first: l.second, second: l.first }
    }
}

impl Coordinate {
    pub fn new(x: i32, y: i32) -> (r: Self)
        ensures
            r == (Coordinate { x, y }),
    {
        Coordinate { x, y }
    }

    /// The change in the x & y coordinates of `other` with respect to `self`.
    pub fn delta_wrt(&self, other: &Coordinate) -> (r: (i32, i32))
        requires
            i32::MIN <= other.x - self.x <= i32::MAX,
            i32::MIN <= other.y - self.y <= i32::MAX,
        ensures
            r.0 == other.x - self.x,
            r.1 == other.y - self.y,
    {
        let dx = other.x - self.x;
        let dy = other.y - self.y;
        (dx, dy)
    }
}

impl LineCoordinates {
    pub fn new(a_x: i32, a_y: i32, b_x: i32, b_y: i32) -> (r: Self)
        ensures
            r == (LineCoordinates {
                first: Coordinate { x: a_x, y: a_y },
                second: Coordinate { x: b_x, y: b_y },
            }),
    {
        LineCoordinates { first: Coordinate::new(a_x, a_y), second: Coordinate::new(b_x, b_y) }
    }

    /// A copy of the segment whose first endpoint has the lesser `x`.
    pub fn ensure_x_lr(&self) -> (r: Self)
        ensures
            r == x_normalized(*self),
    {
        if self.first.x <= self.second.x {
            LineCoordinates::new(self.first.x, self.first.y, self.second.x, self.second.y)
        } else {
            LineCoordinates::new(self.second.x, self.second.y, self.first.x, self.first.y)
        }
    }

    /// A copy of the segment whose first endpoint has the lesser `y`.
    pub fn ensure_y_lr(&self) -> (r: Self)
        ensures
            r == y_normalized(*self),
    {
        if self.first.y <= self.second.y {
            LineCoordinates::new(self.first.x, self.first.y, self.second.x, self.second.y)
        } else {
            LineCoordinates::new(self.second.x, self.second.y, self.first.x, self.first.y)
        }
    }
}

impl CircleCoordinates {
    pub fn new(x: i32, y: i32, radius: u32) -> (r: Self)
        ensures
            r == (CircleCoordinates { center: Coordinate { x, y }, radius }),
    {
        CircleCoordinates { center: Coordinate::new(x, y), radius }
    }

    pub fn from_coordinate(coord: Coordinate, radius: u32) -> (r: Self)
        ensures
            r == (CircleCoordinates { center: coord, radius }),
    {
        CircleCoordinates { center: coord, radius }
    }
}

} // verus!
