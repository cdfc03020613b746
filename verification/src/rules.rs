use vstd::prelude::*;

verus! {

/// The eight neighbour offsets, in the fixed enumeration order used by every
/// part of the engine.
pub open spec fn offsets() -> Seq<(int, int)> {
    seq![
        (1int, 1int),
        (1int, 0int),
        (1int, -1int),
        (0int, -1int),
        (-1int, -1int),
        (-1int, 0int),
        (-1int, 1int),
        (0int, 1int),
    ]
}

/// The `i`-th neighbouring position of `p`, for `0 <= i < 8`.
pub open spec fn nbr_pos(p: (int, int), i: int) -> (int, int) {
    (p.0 + offsets()[i].0, p.1 + offsets()[i].1)
}

/// The live neighbouring positions of `p` among the first `n` offsets, in
/// offset order: the positions `nbr_pos(p, i)` with `i < n` that `s` contains.
pub open spec fn alive_nbrs_upto(s: Set<(int, int)>, p: (int, int), n: int) -> Seq<(int, int)>
    decreases n,
{
    if n <= 0 {
        Seq::empty()
    } else if s.contains(nbr_pos(p, n - 1)) {
        alive_nbrs_upto(s, p, n - 1).push(nbr_pos(p, n - 1))
    } else {
        alive_nbrs_upto(s, p, n - 1)
    }
}

/// How many of the eight neighbouring positions of `p` are live in `s`.
/// Opaque: proofs treat the count as an atom and reveal the definition only
/// where a neighbour-by-neighbour argument is made.
#[verifier::opaque]
pub open spec fn live_neighbors(s: Set<(int, int)>, p: (int, int)) -> int {
    alive_nbrs_upto(s, p, 8).len() as int
}

/// A live cell survives iff it has two or three live neighbours.
pub open spec fn survives(s: Set<(int, int)>, p: (int, int)) -> bool {
    s.contains(p) && (live_neighbors(s, p) == 2 || live_neighbors(s, p) == 3)
}

/// A dead position is born iff it has exactly three live neighbours.
pub open spec fn born(s: Set<(int, int)>, p: (int, int)) -> bool {
    !s.contains(p) && live_neighbors(s, p) == 3
}

/// One synchronous generation of the Game of Life: every neighbour count is
/// taken against the previous state `s`, never against a partial update.
pub open spec fn step(s: Set<(int, int)>) -> Set<(int, int)> {
    Set::new(|p: (int, int)| survives(s, p) || born(s, p))
}

/// `n` generations from seed `s`.
pub open spec fn step_n(s: Set<(int, int)>, n: nat) -> Set<(int, int)>
    decreases n,
{
    if n == 0 {
        s
    } else {
        step(step_n(s, (n - 1) as nat))
    }
}

/// `q` is one of the eight neighbouring positions of `p`.
pub open spec fn is_neighbor(p: (int, int), q: (int, int)) -> bool {
    exists|i: int| 0 <= i < 8 && q == nbr_pos(p, i)
}

/// A position with at least one live neighbour among the first `n` offsets
/// has a live cell at one of those offsets.
pub proof fn lemma_some_live_neighbor(s: Set<(int, int)>, p: (int, int), n: int)
    requires
        0 <= n,
        alive_nbrs_upto(s, p, n).len() > 0,
    ensures
        exists|i: int| 0 <= i < n && s.contains(nbr_pos(p, i)),
    decreases n,
{
    if n > 0 {
        if s.contains(nbr_pos(p, n - 1)) {
            assert(0 <= n - 1 < n && s.contains(nbr_pos(p, n - 1)));
        } else {
            lemma_some_live_neighbor(s, p, n - 1);
        }
    }
}

/// Each offset has its opposite in the table: `offsets()[i + 4 mod 8]` is the
/// componentwise negation of `offsets()[i]`.
pub proof fn lemma_offsets_opposite(i: int)
    requires
        0 <= i < 8,
    ensures
        offsets()[if i < 4 { i + 4 } else { i - 4 }].0 == -offsets()[i].0,
        offsets()[if i < 4 { i + 4 } else { i - 4 }].1 == -offsets()[i].1,
{
    if i == 0 {
        assert(offsets()[0] == (1int, 1int) && offsets()[4] == (-1int, -1int));
    } else if i == 1 {
        assert(offsets()[1] == (1int, 0int) && offsets()[5] == (-1int, 0int));
    } else if i == 2 {
        assert(offsets()[2] == (1int, -1int) && offsets()[6] == (-1int, 1int));
    } else if i == 3 {
        assert(offsets()[3] == (0int, -1int) && offsets()[7] == (0int, 1int));
    } else if i == 4 {
        assert(offsets()[4] == (-1int, -1int) && offsets()[0] == (1int, 1int));
    } else if i == 5 {
        assert(offsets()[5] == (-1int, 0int) && offsets()[1] == (1int, 0int));
    } else if i == 6 {
        assert(offsets()[6] == (-1int, 1int) && offsets()[2] == (1int, -1int));
    } else {
        assert(offsets()[7] == (0int, 1int) && offsets()[3] == (0int, -1int));
    }
}

/// Every offset component is `-1`, `0` or `1`: a neighbouring position is at
/// most one step away in each direction.
pub proof fn lemma_offsets_bounded(i: int)
    requires
        0 <= i < 8,
    ensures
        -1 <= offsets()[i].0 <= 1,
        -1 <= offsets()[i].1 <= 1,
{
    if i == 0 {
        assert(offsets()[0] == (1int, 1int));
    } else if i == 1 {
        assert(offsets()[1] == (1int, 0int));
    } else if i == 2 {
        assert(offsets()[2] == (1int, -1int));
    } else if i == 3 {
        assert(offsets()[3] == (0int, -1int));
    } else if i == 4 {
        assert(offsets()[4] == (-1int, -1int));
    } else if i == 5 {
        assert(offsets()[5] == (-1int, 0int));
    } else if i == 6 {
        assert(offsets()[6] == (-1int, 1int));
    } else {
        assert(offsets()[7] == (0int, 1int));
    }
}

/// The neighbour relation is symmetric.
pub proof fn lemma_neighbor_symmetric(p: (int, int), q: (int, int))
    requires
        is_neighbor(p, q),
    ensures
        is_neighbor(q, p),
{
    let i = choose|i: int| 0 <= i < 8 && q == nbr_pos(p, i);
    let j: int = if i < 4 { i + 4 } else { i - 4 };
    lemma_offsets_opposite(i);
    assert(nbr_pos(q, j) == p);
    assert(0 <= j < 8 && p == nbr_pos(q, j));
}

/// A live cell with no live neighbours is gone after one generation.
pub proof fn lemma_isolated_cell_dies(s: Set<(int, int)>, p: (int, int))
    requires
        s.contains(p),
        live_neighbors(s, p) == 0,
    ensures
        !step(s).contains(p),
{
}

/// A live cell with four or more live neighbours is gone after one
/// generation.
pub proof fn lemma_overcrowded_cell_dies(s: Set<(int, int)>, p: (int, int))
    requires
        s.contains(p),
        live_neighbors(s, p) >= 4,
    ensures
        !step(s).contains(p),
{
}

/// A dead position is live after one generation exactly when it has three
/// live neighbours: with two, four, or any other count it stays dead.
pub proof fn lemma_birth_exactness(s: Set<(int, int)>, p: (int, int))
    requires
        !s.contains(p),
    ensures
        step(s).contains(p) <==> live_neighbors(s, p) == 3,
{
}

/// A position live after one generation is an old live position or a
/// neighbour of one: the universe grows by at most one step in any direction.
/// This bounds how far coordinates can drift per generation, which is what a
/// caller must track to respect the coordinate-range precondition of the
/// engine.
pub proof fn lemma_step_stays_near(s: Set<(int, int)>, p: (int, int))
    requires
        step(s).contains(p),
    ensures
        s.contains(p) || exists|q: (int, int)| s.contains(q) && is_neighbor(q, p),
{
    reveal(live_neighbors);
    if !s.contains(p) {
        lemma_some_live_neighbor(s, p, 8);
        let o = choose|o: int| 0 <= o < 8 && s.contains(nbr_pos(p, o));
        let q = nbr_pos(p, o);
        assert(is_neighbor(p, q));
        lemma_neighbor_symmetric(p, q);
        assert(s.contains(q) && is_neighbor(q, p));
    }
}

/// Evolution is deterministic: equal seeds yield equal live-cell sets after
/// any number of generations. One generation is a function of the live set
/// alone, so no iteration order can influence the outcome.
pub proof fn lemma_evolution_deterministic(s: Set<(int, int)>, t: Set<(int, int)>, n: nat)
    requires
        s == t,
    ensures
        step_n(s, n) == step_n(t, n),
{
}

} // verus!
