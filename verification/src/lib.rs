//! A sparse-grid engine for Conway's Game of Life on an unbounded plane.
//!
//! The grid stores only the currently live cells. One generation is advanced
//! by the classic synchronous rule: a live cell with two or three live
//! neighbours survives, a dead position with exactly three live neighbours is
//! born, and everything else is dead. The whole update is specified by the
//! mathematical `step` function in `rules`, and `Space::evaluate` is proved to
//! realise it exactly.

mod cell;
mod point;
mod rules;
mod space;

pub use cell::Cell;
pub use point::Point;
pub use rules::{
    born, is_neighbor, lemma_birth_exactness, lemma_evolution_deterministic,
    lemma_isolated_cell_dies, lemma_overcrowded_cell_dies, lemma_step_stays_near, live_neighbors,
    nbr_pos, offsets, step, step_n, survives,
};
pub use space::{
    get_alive_neighbours, get_all_neighbours, lemma_seeding_idempotent, pt_in_range,
    pt_well_inside, Space,
};
