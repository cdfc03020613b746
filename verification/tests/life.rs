use game_of_life::{get_alive_neighbours, get_all_neighbours, Cell, Point, Space};

fn seeded(cells: &[(i32, i32)]) -> Space {
    let mut s = Space::default();
    for &(x, y) in cells {
        s.setup((x, y));
    }
    s
}

fn live_positions(s: &Space) -> Vec<(i32, i32)> {
    let mut v: Vec<(i32, i32)> = s.grid.iter().map(|c| (c.pos.x, c.pos.y)).collect();
    v.sort();
    v
}

#[test]
fn block_is_still_life() {
    let mut s = seeded(&[(0, 0), (1, 0), (0, 1), (1, 1)]);
    s.evaluate();
    assert_eq!(live_positions(&s), vec![(0, 0), (0, 1), (1, 0), (1, 1)]);
    s.evaluate();
    assert_eq!(live_positions(&s), vec![(0, 0), (0, 1), (1, 0), (1, 1)]);
}

#[test]
fn blinker_oscillates_period_two() {
    let mut s = seeded(&[(0, 0), (1, 0), (2, 0)]);
    s.evaluate();
    assert_eq!(live_positions(&s), vec![(1, -1), (1, 0), (1, 1)]);
    s.evaluate();
    assert_eq!(live_positions(&s), vec![(0, 0), (1, 0), (2, 0)]);
}

#[test]
fn isolated_cell_dies() {
    let mut s = seeded(&[(0, 0)]);
    s.evaluate();
    assert_eq!(s.grid.len(), 0);
}

#[test]
fn overcrowded_cell_dies() {
    // (0, 0) has four live neighbours and must be absent afterwards.
    let mut s = seeded(&[(0, 0), (1, 1), (1, 0), (1, -1), (0, -1)]);
    s.evaluate();
    assert!(!live_positions(&s).contains(&(0, 0)));
    for c in s.grid.iter() {
        assert!(!(c.pos.x == 0 && c.pos.y == 0));
    }
}

#[test]
fn birth_with_exactly_three_neighbors() {
    // (1, 1) is dead with exactly three live neighbours: it is born, and the
    // corner grows into a block.
    let mut s = seeded(&[(0, 0), (1, 0), (0, 1)]);
    s.evaluate();
    assert_eq!(live_positions(&s), vec![(0, 0), (0, 1), (1, 0), (1, 1)]);
}

#[test]
fn no_birth_with_two_neighbors() {
    // Every dead position sees at most two live neighbours; the two live
    // cells themselves have one each. Everything dies, nothing is born.
    let mut s = seeded(&[(0, 0), (1, 0)]);
    s.evaluate();
    assert_eq!(s.grid.len(), 0);
}

#[test]
fn no_birth_with_four_neighbors() {
    // (1, 1) is dead with four live diagonal neighbours: no birth there.
    let mut s = seeded(&[(0, 0), (2, 0), (0, 2), (2, 2)]);
    s.evaluate();
    assert!(!live_positions(&s).contains(&(1, 1)));
    assert_eq!(s.grid.len(), 0);
}

#[test]
fn every_entry_alive_after_evaluation() {
    let mut s = seeded(&[(0, 0), (1, 0), (2, 0), (2, 1), (1, 2)]);
    for _ in 0..4 {
        s.evaluate();
        for c in s.grid.iter() {
            assert!(c.alive);
            assert!(c.update);
        }
        // No position is stored twice.
        let mut v = live_positions(&s);
        v.dedup();
        assert_eq!(v.len(), s.grid.len());
    }
}

#[test]
fn determinism_same_seed_same_history() {
    let seed = [(0, 0), (1, 0), (2, 0), (2, 1), (1, 2)];
    let mut a = seeded(&seed);
    let mut b = seeded(&seed);
    for _ in 0..6 {
        a.evaluate();
        b.evaluate();
        assert_eq!(live_positions(&a), live_positions(&b));
    }
}

#[test]
fn idempotent_seeding() {
    let mut s = Space::default();
    s.setup((3, 4));
    s.setup((3, 4));
    assert_eq!(s.grid.len(), 1);
    assert_eq!(live_positions(&s), vec![(3, 4)]);
    assert!(s.grid[0].alive);
}

#[test]
fn all_neighbours_has_eight_entries_in_offset_order() {
    let s = seeded(&[(0, 0), (1, 1)]);
    let cell = *s.grid.iter().find(|c| c.pos.x == 0 && c.pos.y == 0).unwrap();
    let r = get_all_neighbours(&s, &cell);
    assert_eq!(r.len(), 8);
    let expected = [
        (1, 1),
        (1, 0),
        (1, -1),
        (0, -1),
        (-1, -1),
        (-1, 0),
        (-1, 1),
        (0, 1),
    ];
    for (k, c) in r.iter().enumerate() {
        assert_eq!((c.pos.x, c.pos.y), expected[k]);
        // Only (1, 1) is tracked; the rest are dead placeholders.
        if expected[k] == (1, 1) {
            assert!(c.alive);
        } else {
            assert!(!c.alive);
            assert!(!c.update);
        }
    }
}

#[test]
fn alive_neighbours_returns_tracked_cells() {
    let s = seeded(&[(0, 0), (1, 0), (0, 1), (1, 1)]);
    let cell = *s.grid.iter().find(|c| c.pos.x == 0 && c.pos.y == 0).unwrap();
    let r = get_alive_neighbours(&s, &cell);
    assert_eq!(r.len(), 3);
    let mut got: Vec<(i32, i32)> = r.iter().map(|c| (c.pos.x, c.pos.y)).collect();
    got.sort();
    assert_eq!(got, vec![(0, 1), (1, 0), (1, 1)]);
    for c in r.iter() {
        assert!(c.alive);
    }

    // A placeholder far from everything has no live neighbours.
    let lone = Cell {
        alive: false,
        update: false,
        pos: Point { x: 50, y: 50 },
    };
    assert_eq!(get_alive_neighbours(&s, &lone).len(), 0);
}

#[test]
fn get_column_returns_live_ys_sorted() {
    let s = seeded(&[(2, 5), (2, 1), (2, 3), (3, 2)]);
    assert_eq!(s.get_column(2, 1, 6), vec![1, 3, 5]);
    // The range is half-open: y2 itself is excluded.
    assert_eq!(s.get_column(2, 1, 5), vec![1, 3]);
    assert_eq!(s.get_column(2, 2, 6), vec![3, 5]);
    assert_eq!(s.get_column(3, 0, 10), vec![2]);
    assert_eq!(s.get_column(7, 0, 10), Vec::<i32>::new());
    assert_eq!(s.get_column(2, 5, 1), Vec::<i32>::new());
}

#[test]
fn cell_update_sets_pending_status_only() {
    let mut c = Cell {
        alive: true,
        update: true,
        pos: Point { x: 2, y: -7 },
    };
    c.update(false);
    assert!(!c.update);
    assert!(c.alive);
    assert_eq!((c.pos.x, c.pos.y), (2, -7));
}

#[test]
fn cell_equality_is_by_position() {
    let a = Cell {
        alive: true,
        update: true,
        pos: Point { x: 1, y: 2 },
    };
    let b = Cell {
        alive: false,
        update: false,
        pos: Point { x: 1, y: 2 },
    };
    let c = Cell {
        alive: true,
        update: true,
        pos: Point { x: 2, y: 1 },
    };
    assert!(a == b);
    assert!(a != c);
}

#[test]
fn point_add_is_componentwise() {
    let p = Point { x: 3, y: -2 };
    let q = p.add((1, -1));
    assert_eq!(q, Point { x: 4, y: -3 });
    let r = q.add((-4, 3));
    assert_eq!(r, Point { x: 0, y: 0 });
}

#[test]
fn default_space_is_empty() {
    let s = Space::default();
    assert_eq!(s.grid.len(), 0);
}
