//! Integer screen coordinates.
use vstd::prelude::*;

verus! {

/// A pixel position; x grows to the right, y grows downwards.
#[derive(Clone, Copy, Debug, PartialEq, Eq, Structural)]
pub struct Point2D {
    pub x: i32,
    pub y: i32,
}

impl Point2D {
    pub fn new(x: i32, y: i32) -> (p: Self)
        ensures
            p == (Point2D { x, y }),
    {
        Point2D { x, y }
    }
}

} // verus!
