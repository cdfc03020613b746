use vstd::prelude::*;

use crate::point::Point;

verus! {

/// One grid position's life status.
///
/// `alive` is the current status; `update` holds the next-generation status
/// computed during an evaluation pass and applied at commit time. A cell is
/// logically identified by its position: two cells compare equal exactly when
/// their positions do, whatever their status.
///
/// Placeholder cells (`alive == false`) are synthesised during neighbour
/// resolution to give every cell a uniform eight-entry neighbourhood; they are
/// never stored in the grid.
#[derive(Clone, Copy, Debug)]
pub struct Cell {
    pub alive: bool,
    pub update: bool,
    pub pos: Point,
}

impl Cell {
    /// Records `next` as the cell's pending next-generation status.
    pub fn update(&mut self, next: bool)
        ensures
            final(self).update == next,
            final(self).alive == old(self).alive,
            final(self).pos == old(self).pos,
    {
        self.update = next;
    }
}

impl PartialEq for Cell {
    fn eq(&self, other: &Self) -> (r: bool) {
        self.pos == other.pos
    }
}

impl vstd::std_specs::cmp::PartialEqSpecImpl for Cell {
    open spec fn obeys_eq_spec() -> bool {
        true
    }

    open spec fn eq_spec(&self, other: &Cell) -> bool {
        self.pos == other.pos
    }
}

} // verus!
