use vstd::prelude::*;

verus! {

/// A position on the unbounded two-dimensional grid.
///
/// Equality and hashing are structural on `(x, y)`. The grid is conceptually
/// infinite; `i32` is wide enough for any realistic simulation, and the few
/// operations that step to a neighbouring position state the absence of
/// wraparound as a precondition.
#[derive(Clone, Copy, PartialEq, Eq, Structural, Hash, Debug)]
pub struct Point {
    pub x: i32,
    pub y: i32,
}

impl View for Point {
    type V = (int, int);

    open spec fn view(&self) -> (int, int) {
        (self.x as int, self.y as int)
    }
}

impl Point {
    /// Componentwise addition of an integer-pair offset, used to step from a
    /// cell to one of its neighbours.
    pub fn add(self, rhs: (i32, i32)) -> (r: Point)
        requires
            i32::MIN <= self.x + rhs.0 <= i32::MAX,
            i32::MIN <= self.y + rhs.1 <= i32::MAX,
        ensures
            r.x == self.x + rhs.0,
            r.y == self.y + rhs.1,
    {
        Point { x: self.x + rhs.0, y: self.y + rhs.1 }
    }
}

} // verus!
