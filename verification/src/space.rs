use vstd::prelude::*;

use crate::cell::Cell;
use crate::point::Point;
use crate::rules::{
    alive_nbrs_upto, born, is_neighbor, lemma_offsets_bounded, lemma_step_stays_near,
    live_neighbors, nbr_pos, offsets, step, survives,
};

verus! {

/// `p` is far enough from the edge of `i32` that all eight neighbouring
/// positions can be computed without wraparound.
pub open spec fn pt_in_range(p: (int, int)) -> bool {
    i32::MIN < p.0 < i32::MAX && i32::MIN < p.1 < i32::MAX
}

/// `p` is far enough from the edge of `i32` that the neighbours of its
/// neighbours can also be computed without wraparound.
pub open spec fn pt_well_inside(p: (int, int)) -> bool {
    i32::MIN + 2 <= p.0 <= i32::MAX - 2 && i32::MIN + 2 <= p.1 <= i32::MAX - 2
}

/// The sparse grid: a store of exactly the currently live cells.
pub struct Space {
    pub grid: Vec<Cell>,
}

impl Space {
    /// The set of live positions: the mathematical state of the simulation.
    pub open spec fn live_set(self) -> Set<(int, int)> {
        Set::new(
            |p: (int, int)|
                exists|i: int| 0 <= i < self.grid@.len() && (#[trigger] self.grid@[i]).pos@ == p,
        )
    }

    /// Well-formedness: the grid is a live-cell index. Every stored cell is
    /// alive with its pending status settled, and no position is stored
    /// twice.
    pub open spec fn wf(self) -> bool {
        &&& forall|i: int|
            0 <= i < self.grid@.len() ==> (#[trigger] self.grid@[i]).alive && self.grid@[i].update
        &&& forall|i: int, j: int|
            0 <= i < j < self.grid@.len() ==> (#[trigger] self.grid@[i].pos@) != (
            #[trigger] self.grid@[j].pos@)
    }

    /// Every stored position is well inside the coordinate range, so one
    /// generation can be evaluated without wraparound.
    pub open spec fn in_range(self) -> bool {
        forall|i: int|
            0 <= i < self.grid@.len() ==> pt_well_inside((#[trigger] self.grid@[i]).pos@)
    }
}

impl Default for Space {
    /// An empty universe: no live cells.
    fn default() -> (r: Space)
        ensures
            r.wf(),
            r.in_range(),
            r.grid@.len() == 0,
            r.live_set() == Set::<(int, int)>::empty(),
    {
        let s = Space { grid: Vec::new() };
        proof {
            assert(s.live_set() =~= Set::<(int, int)>::empty());
        }
        s
    }
}

/// Looks a position up in the grid: `Some` holds the stored cell there, and
/// `None` means the position is not live.
fn find_at(space: &Space, x: i32, y: i32) -> (r: Option<Cell>)
    ensures
        match r {
            Some(c) => space.live_set().contains((x as int, y as int)) && c.pos@ == (
            x as int,
            y as int,
            ) && (exists|i: int| 0 <= i < space.grid@.len() && space.grid@[i] == c),
            None => !space.live_set().contains((x as int, y as int)),
        },
{
    let n = space.grid.len();
    let mut i: usize = 0;
    while i < n
        invariant
            n == space.grid@.len(),
            i <= n,
            forall|k: int| 0 <= k < i ==> (#[trigger] space.grid@[k]).pos@ != (x as int, y as int),
        decreases n - i,
    {
        let c = space.grid[i];
        if c.pos.x == x && c.pos.y == y {
            proof {
                assert(space.grid@[i as int].pos@ == (x as int, y as int));
            }
            return Some(c);
        }
        i += 1;
    }
    None
}

/// The `j`-th of the eight neighbour offsets, in the fixed enumeration
/// order.
fn offset_at(j: usize) -> (r: (i32, i32))
    requires
        j < 8,
    ensures
        (r.0 as int, r.1 as int) == offsets()[j as int],
        -1 <= r.0 <= 1,
        -1 <= r.1 <= 1,
{
    match j {
        0 => (1, 1),
        1 => (1, 0),
        2 => (1, -1),
        3 => (0, -1),
        4 => (-1, -1),
        5 => (-1, 0),
        6 => (-1, 1),
        _ => (0, 1),
    }
}

/// Whether some cell in `v` sits at position `p`.
fn contains_pos(v: &Vec<Cell>, p: Point) -> (r: bool)
    ensures
        r <==> (exists|m: int| 0 <= m < v@.len() && (#[trigger] v@[m]).pos@ == p@),
{
    let n = v.len();
    let mut m: usize = 0;
    while m < n
        invariant
            n == v@.len(),
            m <= n,
            forall|k: int| 0 <= k < m ==> (#[trigger] v@[k]).pos@ != p@,
        decreases n - m,
    {
        let c = v[m];
        if c.pos.x == p.x && c.pos.y == p.y {
            proof {
                assert(v@[m as int].pos@ == p@);
            }
            return true;
        }
        m += 1;
    }
    false
}

/// The tracked cells among the eight neighbours of `cell`, in offset order.
///
/// At a generation boundary the grid holds exactly the live cells, so these
/// are exactly the live neighbours; the result's length is the live-neighbour
/// count of `cell`'s position.
pub fn get_alive_neighbours(space: &Space, cell: &Cell) -> (r: Vec<Cell>)
    requires
        space.wf(),
        pt_in_range(cell.pos@),
    ensures
        r@.len() == live_neighbors(space.live_set(), cell.pos@),
        forall|k: int|
            0 <= k < r@.len() ==> (#[trigger] r@[k]).pos@ == alive_nbrs_upto(
                space.live_set(),
                cell.pos@,
                8,
            )[k],
        forall|k: int|
            0 <= k < r@.len() ==> (#[trigger] r@[k]).alive && r@[k].update
                && space.live_set().contains(r@[k].pos@),
{
    let ghost s = space.live_set();
    let ghost p = cell.pos@;
    proof {
        reveal(live_neighbors);
    }
    let mut r: Vec<Cell> = Vec::new();
    let mut j: usize = 0;
    while j < 8
        invariant
            space.wf(),
            pt_in_range(cell.pos@),
            s == space.live_set(),
            p == cell.pos@,
            j <= 8,
            r@.len() == alive_nbrs_upto(s, p, j as int).len(),
            forall|k: int|
                0 <= k < r@.len() ==> (#[trigger] r@[k]).pos@ == alive_nbrs_upto(s, p, j as int)[k],
            forall|k: int|
                0 <= k < r@.len() ==> (#[trigger] r@[k]).alive && r@[k].update && s.contains(
                    r@[k].pos@,
                ),
        decreases 8 - j,
    {
        let (dx, dy) = offset_at(j);
        let q = cell.pos.add((dx, dy));
        proof {
            assert(q@ == nbr_pos(p, j as int));
        }
        match find_at(space, q.x, q.y) {
            Some(c) => {
                proof {
                    let i = choose|i: int|
                        0 <= i < space.grid@.len() && (#[trigger] space.grid@[i]) == c;
                    assert(space.grid@[i].alive && space.grid@[i].update);
                }
                r.push(c);
            },
            None => {},
        }
        j += 1;
    }
    proof {
        reveal(live_neighbors);
    }
    r
}

/// The full eight-entry neighbourhood of `cell`, in offset order: the tracked
/// cell where the grid has one, and a synthesised dead placeholder (never
/// inserted into the grid) where it has none. The placeholders let the
/// evaluator consider dead positions next to live cells for birth.
pub fn get_all_neighbours(space: &Space, cell: &Cell) -> (r: Vec<Cell>)
    requires
        space.wf(),
        pt_in_range(cell.pos@),
    ensures
        r@.len() == 8,
        forall|k: int| 0 <= k < 8 ==> (#[trigger] r@[k]).pos@ == nbr_pos(cell.pos@, k),
        forall|k: int|
            0 <= k < 8 ==> ((#[trigger] r@[k]).alive <==> space.live_set().contains(
                nbr_pos(cell.pos@, k),
            )),
        forall|k: int| 0 <= k < 8 ==> (#[trigger] r@[k]).update == r@[k].alive,
{
    let ghost s = space.live_set();
    let ghost p = cell.pos@;
    let mut r: Vec<Cell> = Vec::new();
    let mut j: usize = 0;
    while j < 8
        invariant
            space.wf(),
            pt_in_range(cell.pos@),
            s == space.live_set(),
            p == cell.pos@,
            j <= 8,
            r@.len() == j,
            forall|k: int| 0 <= k < j ==> (#[trigger] r@[k]).pos@ == nbr_pos(p, k),
            forall|k: int|
                0 <= k < j ==> ((#[trigger] r@[k]).alive <==> s.contains(nbr_pos(p, k))),
            forall|k: int| 0 <= k < j ==> (#[trigger] r@[k]).update == r@[k].alive,
        decreases 8 - j,
    {
        let (dx, dy) = offset_at(j);
        let q = cell.pos.add((dx, dy));
        proof {
            assert(q@ == nbr_pos(p, j as int));
        }
        match find_at(space, q.x, q.y) {
            Some(c) => {
                proof {
                    let i = choose|i: int|
                        0 <= i < space.grid@.len() && (#[trigger] space.grid@[i]) == c;
                    assert(space.grid@[i].alive && space.grid@[i].update);
                }
                r.push(c);
            },
            None => {
                r.push(Cell { alive: false, update: false, pos: q });
            },
        }
        j += 1;
    }
    r
}

impl Space {
    /// Seeds a live cell at `pos`. Idempotent: a position already tracked is
    /// left untouched, so the live set simply gains `pos`.
    pub fn setup(&mut self, pos: (i32, i32))
        requires
            old(self).wf(),
        ensures
            final(self).wf(),
            final(self).live_set() == old(self).live_set().insert((pos.0 as int, pos.1 as int)),
            old(self).in_range() && pt_well_inside((pos.0 as int, pos.1 as int))
                ==> final(self).in_range(),
    {
        let p = Point { x: pos.0, y: pos.1 };
        match find_at(self, p.x, p.y) {
            Some(_) => {
                proof {
                    assert(self.live_set().insert((pos.0 as int, pos.1 as int)) =~= self.live_set());
                }
            },
            None => {
                let ghost old_grid = self.grid@;
                self.grid.push(Cell { alive: true, update: true, pos: p });
                proof {
                    assert forall|q: (int, int)|
                        self.live_set().contains(q) implies old(self).live_set().insert(
                        (pos.0 as int, pos.1 as int),
                    ).contains(q) by {
                        let i = choose|i: int|
                            0 <= i < self.grid@.len() && (#[trigger] self.grid@[i]).pos@ == q;
                        if i < old_grid.len() {
                            assert(old(self).grid@[i].pos@ == q);
                        }
                    }
                    assert forall|q: (int, int)|
                        old(self).live_set().insert((pos.0 as int, pos.1 as int)).contains(
                            q,
                        ) implies self.live_set().contains(q) by {
                        if old(self).live_set().contains(q) {
                            let i = choose|i: int|
                                0 <= i < old(self).grid@.len() && (#[trigger] old(
                                    self,
                                ).grid@[i]).pos@ == q;
                            assert(self.grid@[i].pos@ == q);
                        } else {
                            assert(self.grid@[old_grid.len() as int].pos@ == q);
                        }
                    }
                    assert(self.live_set() =~= old(self).live_set().insert(
                        (pos.0 as int, pos.1 as int),
                    ));
                }
            },
        }
    }
}

/// Phase-one scan of one tracked cell: counts its live neighbours against
/// the snapshot `space`, and records a birth decision for every dead
/// neighbour of `cell` that has exactly three live neighbours. Recording is
/// idempotent per position: `births` never holds a position twice.
#[verifier::loop_isolation(false)]
#[verifier::rlimit(100)]
fn scan_cell(space: &Space, cell: &Cell, births: &mut Vec<Cell>) -> (count: u32)
    requires
        space.wf(),
        pt_well_inside(cell.pos@),
        forall|m: int|
            0 <= m < old(births)@.len() ==> born(
                space.live_set(),
                (#[trigger] old(births)@[m]).pos@,
            ),
        forall|m: int|
            0 <= m < old(births)@.len()
                ==> !(#[trigger] old(births)@[m]).alive && old(births)@[m].update,
        forall|m1: int, m2: int|
            0 <= m1 < m2 < old(births)@.len() ==> (#[trigger] old(births)@[m1].pos@) != (
            #[trigger] old(births)@[m2].pos@),
    ensures
        count as int == live_neighbors(space.live_set(), cell.pos@),
        old(births)@.len() <= final(births)@.len(),
        forall|m: int| 0 <= m < old(births)@.len() ==> final(births)@[m] == old(births)@[m],
        forall|m: int|
            0 <= m < final(births)@.len() ==> born(
                space.live_set(),
                (#[trigger] final(births)@[m]).pos@,
            ),
        forall|m: int|
            0 <= m < final(births)@.len()
                ==> !(#[trigger] final(births)@[m]).alive && final(births)@[m].update,
        forall|m1: int, m2: int|
            0 <= m1 < m2 < final(births)@.len() ==> (#[trigger] final(births)@[m1].pos@) != (
            #[trigger] final(births)@[m2].pos@),
        forall|o: int|
            0 <= o < 8 && born(space.live_set(), #[trigger] nbr_pos(cell.pos@, o)) ==> exists|
                m: int,
            |
                0 <= m < final(births)@.len() && (#[trigger] final(births)@[m]).pos@ == nbr_pos(
                    cell.pos@,
                    o,
                ),
{
    let ghost s0 = space.live_set();
    let ghost pc = cell.pos@;
    let ghost b0 = births@;
    let neighbours = get_all_neighbours(space, cell);
    let mut count: u32 = 0;
    let mut j: usize = 0;
    while j < 8
        invariant
            j <= 8,
            count <= j,
            count as int == alive_nbrs_upto(s0, pc, j as int).len(),
            b0.len() <= births@.len(),
            forall|m: int| 0 <= m < b0.len() ==> births@[m] == b0[m],
            forall|m: int| 0 <= m < births@.len() ==> born(s0, (#[trigger] births@[m]).pos@),
            forall|m: int|
                0 <= m < births@.len() ==> !(#[trigger] births@[m]).alive && births@[m].update,
            forall|m1: int, m2: int|
                0 <= m1 < m2 < births@.len() ==> (#[trigger] births@[m1].pos@) != (
                #[trigger] births@[m2].pos@),
            forall|o: int|
                0 <= o < j && born(s0, #[trigger] nbr_pos(pc, o)) ==> exists|m: int|
                    0 <= m < births@.len() && (#[trigger] births@[m]).pos@ == nbr_pos(pc, o),
        decreases 8 - j,
    {
        let ghost births_prev = births@;
        let nb = neighbours[j];
        if !nb.alive {
            proof {
                assert(!s0.contains(nbr_pos(pc, j as int)));
                lemma_offsets_bounded(j as int);
                assert(pt_in_range(nb.pos@));
            }
            let alive_of_nb = get_alive_neighbours(space, &nb);
            if alive_of_nb.len() == 3 {
                proof {
                    assert(born(s0, nb.pos@));
                }
                if !contains_pos(births, nb.pos) {
                    births.push(Cell { alive: false, update: true, pos: nb.pos });
                    proof {
                        assert(births@[births@.len() - 1].pos@ == nbr_pos(pc, j as int));
                    }
                }
            }
        } else {
            proof {
                assert(s0.contains(nbr_pos(pc, j as int)));
            }
            count += 1;
        }
        proof {
            assert(forall|m: int| 0 <= m < births_prev.len() ==> births@[m] == births_prev[m]);
            assert forall|o: int| 0 <= o < j + 1 && born(s0, #[trigger] nbr_pos(pc, o)) implies exists|
                m: int,
            |
                0 <= m < births@.len() && (#[trigger] births@[m]).pos@ == nbr_pos(pc, o) by {
                if o < j {
                    let m = choose|m: int|
                        0 <= m < births_prev.len() && (#[trigger] births_prev[m]).pos@ == nbr_pos(
                            pc,
                            o,
                        );
                    assert(births@[m].pos@ == nbr_pos(pc, o));
                } else {
                    if exists|m: int|
                        0 <= m < births_prev.len() && (#[trigger] births_prev[m]).pos@ == nbr_pos(
                            pc,
                            o,
                        ) {
                        let m = choose|m: int|
                            0 <= m < births_prev.len() && (#[trigger] births_prev[m]).pos@
                                == nbr_pos(pc, o);
                        assert(births@[m].pos@ == nbr_pos(pc, o));
                    } else {
                        assert(births@[births@.len() - 1].pos@ == nbr_pos(pc, o));
                    }
                }
            }
        }
        j += 1;
    }
    proof {
        assert(count as int == live_neighbors(s0, pc)) by {
            reveal(live_neighbors);
        }
    }
    count
}

/// Commit phase, first half: the next-generation cells for the tracked
/// positions whose decision was survival, in grid order, without duplicates.
#[verifier::loop_isolation(false)]
#[verifier::rlimit(100)]
fn commit_survivors(space: &Space, decisions: &Vec<Cell>) -> (out: Vec<Cell>)
    requires
        space.wf(),
        decisions@.len() == space.grid@.len(),
        forall|k: int|
            0 <= k < decisions@.len() ==> (#[trigger] decisions@[k]).pos@ == space.grid@[k].pos@,
        forall|k: int|
            0 <= k < decisions@.len() ==> ((#[trigger] decisions@[k]).update <==> survives(
                space.live_set(),
                space.grid@[k].pos@,
            )),
    ensures
        forall|t: int| 0 <= t < out@.len() ==> (#[trigger] out@[t]).alive && out@[t].update,
        forall|t: int|
            0 <= t < out@.len() ==> survives(space.live_set(), (#[trigger] out@[t]).pos@),
        forall|t: int| 0 <= t < out@.len() ==> space.live_set().contains((#[trigger] out@[t]).pos@),
        forall|k: int|
            0 <= k < space.grid@.len() && survives(
                space.live_set(),
                (#[trigger] space.grid@[k]).pos@,
            ) ==> exists|t: int|
                0 <= t < out@.len() && (#[trigger] out@[t]).pos@ == space.grid@[k].pos@,
        forall|t1: int, t2: int|
            0 <= t1 < t2 < out@.len() ==> (#[trigger] out@[t1].pos@) != (#[trigger] out@[t2].pos@),
{
    let ghost s0 = space.live_set();
    let n = space.grid.len();
    let mut out: Vec<Cell> = Vec::new();
    let mut i2: usize = 0;
    while i2 < n
        invariant
            i2 <= n,
            forall|t: int| 0 <= t < out@.len() ==> (#[trigger] out@[t]).alive && out@[t].update,
            forall|t: int| 0 <= t < out@.len() ==> survives(s0, (#[trigger] out@[t]).pos@),
            forall|t: int|
                0 <= t < out@.len() ==> exists|k: int|
                    0 <= k < i2 && (#[trigger] out@[t]).pos@ == space.grid@[k].pos@,
            forall|k: int|
                0 <= k < i2 && survives(s0, (#[trigger] space.grid@[k]).pos@) ==> exists|t: int|
                    0 <= t < out@.len() && (#[trigger] out@[t]).pos@ == space.grid@[k].pos@,
            forall|t1: int, t2: int|
                0 <= t1 < t2 < out@.len() ==> (#[trigger] out@[t1].pos@) != (
                #[trigger] out@[t2].pos@),
        decreases n - i2,
    {
        let ghost prev = out@;
        let d = decisions[i2];
        if d.update {
            out.push(Cell { alive: true, update: true, pos: d.pos });
            proof {
                assert forall|t1: int| 0 <= t1 < prev.len() implies prev[t1].pos@ != d.pos@ by {
                    let k = choose|k: int|
                        0 <= k < i2 && (#[trigger] prev[t1]).pos@ == space.grid@[k].pos@;
                    assert(space.grid@[k].pos@ != space.grid@[i2 as int].pos@);
                }
            }
        }
        proof {
            assert(forall|t: int| 0 <= t < prev.len() ==> out@[t] == prev[t]);
            assert forall|t: int| 0 <= t < out@.len() implies exists|k: int|
                0 <= k < i2 + 1 && (#[trigger] out@[t]).pos@ == space.grid@[k].pos@ by {
                if t < prev.len() {
                    let k = choose|k: int|
                        0 <= k < i2 && (#[trigger] prev[t]).pos@ == space.grid@[k].pos@;
                    assert(out@[t].pos@ == space.grid@[k].pos@);
                } else {
                    assert(out@[t].pos@ == space.grid@[i2 as int].pos@);
                }
            }
            assert forall|k: int|
                0 <= k < i2 + 1 && survives(s0, (#[trigger] space.grid@[k]).pos@) implies exists|
                t: int,
            |
                0 <= t < out@.len() && (#[trigger] out@[t]).pos@ == space.grid@[k].pos@ by {
                if k < i2 {
                    let t = choose|t: int|
                        0 <= t < prev.len() && (#[trigger] prev[t]).pos@ == space.grid@[k].pos@;
                    assert(out@[t].pos@ == space.grid@[k].pos@);
                } else {
                    assert(decisions@[k].update);
                    assert(out@[out@.len() - 1].pos@ == space.grid@[k].pos@);
                }
            }
        }
        i2 += 1;
    }
    proof {
        assert forall|t: int| 0 <= t < out@.len() implies s0.contains(
            (#[trigger] out@[t]).pos@,
        ) by {
            let k = choose|k: int| 0 <= k < n && (#[trigger] out@[t]).pos@ == space.grid@[k].pos@;
            assert(space.grid@[k].pos@ == out@[t].pos@);
        }
    }
    out
}

/// Commit phase, second half: appends a next-generation cell for every
/// recorded birth after the survivors, in order. The result is exactly the
/// survivors followed by the births, made alive with pending settled.
fn append_births(births: &Vec<Cell>, survivors: Vec<Cell>) -> (out: Vec<Cell>)
    ensures
        out@.len() == survivors@.len() + births@.len(),
        forall|t: int| 0 <= t < survivors@.len() ==> out@[t] == survivors@[t],
        forall|m: int|
            0 <= m < births@.len() ==> (#[trigger] out@[survivors@.len() + m]).alive
                && out@[survivors@.len() + m].update && out@[survivors@.len() + m].pos@
                == births@[m].pos@,
{
    let ghost sv = survivors@;
    let mut out: Vec<Cell> = survivors;
    let nb2 = births.len();
    let mut i3: usize = 0;
    while i3 < nb2
        invariant
            i3 <= nb2,
            nb2 == births@.len(),
            out@.len() == sv.len() + i3,
            forall|t: int| 0 <= t < sv.len() ==> out@[t] == sv[t],
            forall|m: int|
                0 <= m < i3 ==> (#[trigger] out@[sv.len() + m]).alive && out@[sv.len() + m].update
                    && out@[sv.len() + m].pos@ == births@[m].pos@,
        decreases nb2 - i3,
    {
        let b = births[i3];
        out.push(Cell { alive: true, update: true, pos: b.pos });
        i3 += 1;
    }
    out
}

impl Space {
    /// Advances the whole grid by exactly one synchronous generation.
    ///
    /// The update is two-phase. Phase one reads the grid as an immutable
    /// snapshot and computes every decision: for each tracked cell, whether it
    /// survives; for each dead neighbour of a tracked cell, whether it is
    /// born. Phase two commits all decisions at once, so no neighbour count
    /// ever observes a partial update. The resulting live set is exactly
    /// `step` of the previous one.
    #[verifier::loop_isolation(false)]
    #[verifier::rlimit(100)]
    pub fn evaluate(&mut self)
        requires
            old(self).wf(),
            old(self).in_range(),
        ensures
            final(self).wf(),
            final(self).live_set() == step(old(self).live_set()),
    {
        let ghost s0 = self.live_set();
        let n = self.grid.len();
        let mut decisions: Vec<Cell> = Vec::new();
        let mut births: Vec<Cell> = Vec::new();
        let mut i: usize = 0;
        while i < n
            invariant
                i <= n,
                decisions@.len() == i,
                forall|k: int|
                    0 <= k < i ==> (#[trigger] decisions@[k]).pos@ == self.grid@[k].pos@,
                forall|k: int| 0 <= k < i ==> (#[trigger] decisions@[k]).alive,
                forall|k: int|
                    0 <= k < i ==> ((#[trigger] decisions@[k]).update <==> survives(
                        s0,
                        self.grid@[k].pos@,
                    )),
                forall|m: int| 0 <= m < births@.len() ==> born(s0, (#[trigger] births@[m]).pos@),
                forall|m: int|
                    0 <= m < births@.len() ==> !(#[trigger] births@[m]).alive && births@[m].update,
                forall|m1: int, m2: int|
                    0 <= m1 < m2 < births@.len() ==> (#[trigger] births@[m1].pos@) != (
                    #[trigger] births@[m2].pos@),
                forall|k: int, o: int|
                    0 <= k < i && 0 <= o < 8 && born(
                        s0,
                        #[trigger] nbr_pos(self.grid@[k].pos@, o),
                    ) ==> exists|m: int|
                        0 <= m < births@.len() && (#[trigger] births@[m]).pos@ == nbr_pos(
                            self.grid@[k].pos@,
                            o,
                        ),
            decreases n - i,
        {
            let cell = self.grid[i];
            let ghost births_prev = births@;
            proof {
                assert(pt_well_inside(cell.pos@));
            }
            let count = scan_cell(self, &cell, &mut births);
            proof {
                assert forall|k: int, o: int|
                    0 <= k < i + 1 && 0 <= o < 8 && born(
                        s0,
                        #[trigger] nbr_pos(self.grid@[k].pos@, o),
                    ) implies exists|m: int|
                    0 <= m < births@.len() && (#[trigger] births@[m]).pos@ == nbr_pos(
                        self.grid@[k].pos@,
                        o,
                    ) by {
                    if k < i {
                        let m = choose|m: int|
                            0 <= m < births_prev.len() && (#[trigger] births_prev[m]).pos@
                                == nbr_pos(self.grid@[k].pos@, o);
                        assert(births@[m].pos@ == nbr_pos(self.grid@[k].pos@, o));
                    }
                }
                assert(s0.contains(cell.pos@)) by {
                    assert(self.grid@[i as int].pos@ == cell.pos@);
                }
            }
            let surv: bool = count == 2 || count == 3;
            decisions.push(Cell { alive: true, update: surv, pos: cell.pos });
            i += 1;
        }
        // Commit phase: survivors first, then births. No neighbour count
        // below reads the grid, so every decision above was taken against the
        // state at the start of the generation.
        let survivors = commit_survivors(self, &decisions);
        let ghost sv = survivors@;
        let new_grid = append_births(&births, survivors);
        let ghost ng = new_grid@;
        self.grid = new_grid;
        proof {
            assert(self.grid@ == ng);
            assert forall|t: int| 0 <= t < ng.len() implies (#[trigger] ng[t]).alive
                && ng[t].update by {
                if t >= sv.len() {
                    assert(ng[sv.len() + (t - sv.len())].alive);
                }
            }
            assert forall|t: int|
                0 <= t < ng.len() implies survives(s0, (#[trigger] ng[t]).pos@) || born(
                s0,
                ng[t].pos@,
            ) by {
                if t >= sv.len() {
                    let m = t - sv.len();
                    assert(ng[sv.len() + m].pos@ == births@[m].pos@);
                    assert(born(s0, births@[m].pos@));
                }
            }
            assert forall|t1: int, t2: int|
                0 <= t1 < t2 < ng.len() implies (#[trigger] ng[t1].pos@) != (
            #[trigger] ng[t2].pos@) by {
                if t2 < sv.len() {
                    assert(sv[t1].pos@ != sv[t2].pos@);
                } else if t1 >= sv.len() {
                    let m1 = t1 - sv.len();
                    let m2 = t2 - sv.len();
                    assert(ng[sv.len() + m1].pos@ == births@[m1].pos@);
                    assert(ng[sv.len() + m2].pos@ == births@[m2].pos@);
                    assert(births@[m1].pos@ != births@[m2].pos@);
                } else {
                    let m2 = t2 - sv.len();
                    assert(ng[sv.len() + m2].pos@ == births@[m2].pos@);
                    assert(born(s0, births@[m2].pos@));
                    assert(s0.contains(sv[t1].pos@));
                }
            }
            assert forall|p: (int, int)| self.live_set().contains(p) implies step(s0).contains(
                p,
            ) by {
                let t = choose|t: int|
                    0 <= t < self.grid@.len() && (#[trigger] self.grid@[t]).pos@ == p;
                assert(survives(s0, ng[t].pos@) || born(s0, ng[t].pos@));
            }
            assert forall|p: (int, int)| step(s0).contains(p) implies self.live_set().contains(
                p,
            ) by {
                if survives(s0, p) {
                    let k = choose|k: int|
                        0 <= k < old(self).grid@.len() && (#[trigger] old(self).grid@[k]).pos@ == p;
                    let t = choose|t: int|
                        0 <= t < sv.len() && (#[trigger] sv[t]).pos@ == old(self).grid@[k].pos@;
                    assert(ng[t] == sv[t]);
                    assert(self.grid@[t].pos@ == p);
                } else {
                    assert(born(s0, p));
                    lemma_step_stays_near(s0, p);
                    let q = choose|q: (int, int)| s0.contains(q) && is_neighbor(q, p);
                    let o2 = choose|o2: int| 0 <= o2 < 8 && p == nbr_pos(q, o2);
                    let k = choose|k: int|
                        0 <= k < old(self).grid@.len() && (#[trigger] old(self).grid@[k]).pos@ == q;
                    assert(born(s0, nbr_pos(old(self).grid@[k].pos@, o2)));
                    let m = choose|m: int|
                        0 <= m < births@.len() && (#[trigger] births@[m]).pos@ == nbr_pos(
                            old(self).grid@[k].pos@,
                            o2,
                        );
                    assert(ng[sv.len() + m].pos@ == births@[m].pos@);
                    assert(self.grid@[sv.len() + m].pos@ == p);
                }
            }
            assert(self.live_set() =~= step(s0));
        }
    }
}


impl Space {
    /// Inspection helper: the live y-coordinates of column `x` within the
    /// half-open range `[y1, y2)`, in increasing order.
    pub fn get_column(&self, x: i32, y1: i32, y2: i32) -> (r: Vec<i32>)
        ensures
            forall|k: int| 0 <= k < r@.len() ==> y1 <= #[trigger] r@[k] < y2,
            forall|k: int|
                0 <= k < r@.len() ==> self.live_set().contains((x as int, #[trigger] r@[k] as int)),
            forall|yy: int|
                y1 <= yy < y2 && self.live_set().contains((x as int, yy)) ==> exists|k: int|
                    0 <= k < r@.len() && #[trigger] r@[k] == yy,
            forall|k1: int, k2: int| 0 <= k1 < k2 < r@.len() ==> r@[k1] < r@[k2],
    {
        let mut r: Vec<i32> = Vec::new();
        if y1 >= y2 {
            return r;
        }
        let mut y: i32 = y1;
        while y < y2
            invariant
                y1 <= y <= y2,
                forall|k: int| 0 <= k < r@.len() ==> y1 <= #[trigger] r@[k] < y,
                forall|k: int|
                    0 <= k < r@.len() ==> self.live_set().contains(
                        (x as int, #[trigger] r@[k] as int),
                    ),
                forall|yy: int|
                    y1 <= yy < y && self.live_set().contains((x as int, yy)) ==> exists|k: int|
                        0 <= k < r@.len() && #[trigger] r@[k] == yy,
                forall|k1: int, k2: int| 0 <= k1 < k2 < r@.len() ==> r@[k1] < r@[k2],
            decreases y2 - y,
        {
            let ghost prev = r@;
            let ghost yo = y as int;
            match find_at(self, x, y) {
                Some(_) => {
                    r.push(y);
                },
                None => {},
            }
            proof {
                assert(forall|kk: int| 0 <= kk < prev.len() ==> r@[kk] == prev[kk]);
                assert forall|yy: int|
                    y1 <= yy < yo + 1 && self.live_set().contains((x as int, yy)) implies exists|
                    k: int,
                |
                    0 <= k < r@.len() && #[trigger] r@[k] == yy by {
                    if yy < yo {
                        let k = choose|k: int| 0 <= k < prev.len() && #[trigger] prev[k] == yy;
                        assert(r@[k] == yy);
                    } else {
                        assert(r@[r@.len() - 1] == yy);
                    }
                }
            }
            y += 1;
        }
        r
    }
}

/// Seeding the same position twice before evaluating leaves the same live set
/// as seeding it once: `setup` adds its position to the live set, and adding
/// a second time changes nothing.
pub proof fn lemma_seeding_idempotent(s: Set<(int, int)>, p: (int, int))
    ensures
        s.insert(p).insert(p) == s.insert(p),
{
    assert(s.insert(p).insert(p) =~= s.insert(p));
}

} // verus!
