//! A second way to step a generation: every live cell adds one to the tally
//! of each of its eight neighbours, and the tallies decide who lives.
use vstd::prelude::*;
use std::collections::BTreeMap;
use vstd::std_specs::btree::spec_btree_map_iter;
use vstd::std_specs::iter::IteratorSpec;

use crate::grid::Grid;
use crate::rules::{alive_next, live_neighbors, near, next_generation, within_margin};

verus! {

broadcast use {vstd::std_specs::btree::group_btree_axioms, vstd::laws_cmp::group_laws_cmp};

/// Whether `(x, y)` is one of the eight neighbours of `p`.
pub open spec fn adjacent(p: (i32, i32), x: int, y: int) -> bool {
    near(p, x, y) && !(p.0 == x && p.1 == y)
}

/// The neighbours of `p` that the loops of `tick` have tallied: the rows
/// above `p.1 + ny`, and in row `p.1 + ny` the columns left of `p.0 + nx`.
spec fn tallied(p: (i32, i32), c: (i32, i32), nx: int, ny: int) -> bool {
    &&& c != p
    &&& {
        ||| (p.1 - 1 <= c.1 < p.1 + ny && p.0 - 1 <= c.0 <= p.0 + 1)
        ||| (c.1 == p.1 + ny && p.0 - 1 <= c.0 < p.0 + nx)
    }
}

/// Adding a live cell `p` raises the neighbour count of each of its eight
/// neighbours by one and leaves every other count as it was.
pub proof fn lemma_live_neighbors_insert(cells: Set<(i32, i32)>, p: (i32, i32), c: (i32, i32))
    requires
        !cells.contains(p),
    ensures
        live_neighbors(cells.insert(p), c.0 as int, c.1 as int) == live_neighbors(
            cells,
            c.0 as int,
            c.1 as int,
        ) + if adjacent(p, c.0 as int, c.1 as int) {
            1int
        } else {
            0int
        },
{
}

/// Advances `grid` by one generation by tallying, for every cell next to a
/// live cell, how many live neighbours it has.
pub fn tick(grid: &Grid) -> (next: Grid)
    requires
        within_margin(grid@, 1),
    ensures
        next@ == next_generation(grid@),
        forall|c: (i32, i32)| #[trigger]
            next@.contains(c) <==> if grid@.contains(c) {
                live_neighbors(grid@, c.0 as int, c.1 as int) == 2 || live_neighbors(
                    grid@,
                    c.0 as int,
                    c.1 as int,
                ) == 3
            } else {
                live_neighbors(grid@, c.0 as int, c.1 as int) == 3
            },
{
    let mut new_grid = Grid::new();
    let mut neighbor_counts: BTreeMap<(i32, i32), i32> = BTreeMap::new();
    let live = grid.live_cells();
    let mut i: usize = 0;
    while i < live.len()
        invariant
            live@.to_set() == grid@,
            live@.no_duplicates(),
            within_margin(grid@, 1),
            0 <= i <= live.len(),
            forall|c: (i32, i32)| #[trigger]
                neighbor_counts@.contains_key(c) <==> live_neighbors(
                    live@.take(i as int).to_set(),
                    c.0 as int,
                    c.1 as int,
                ) > 0,
            forall|c: (i32, i32)| #[trigger]
                neighbor_counts@.contains_key(c) ==> neighbor_counts@[c] == live_neighbors(
                    live@.take(i as int).to_set(),
                    c.0 as int,
                    c.1 as int,
                ),
        decreases live.len() - i,
    {
        let (x, y) = live[i];
        assert(grid@.contains(live@[i as int]));
        let ghost p = live@[i as int];
        let ghost seen = live@.take(i as int).to_set();
        assert(!seen.contains(p)) by {
            if seen.contains(p) {
                let k = choose|k: int| 0 <= k < i && live@.take(i as int)[k] == p;
                assert(live@[k] == live@[i as int]);
            }
        }
        let mut ny: i32 = -1;
        while ny <= 1
            invariant
                -1 <= ny <= 2,
                p == (x, y),
                i32::MIN < x < i32::MAX,
                i32::MIN < y < i32::MAX,
                forall|c: (i32, i32)| #[trigger]
                    neighbor_counts@.contains_key(c) <==> (live_neighbors(seen, c.0 as int, c.1 as int) > 0
                        || tallied(p, c, -1, ny as int)),
                forall|c: (i32, i32)| #[trigger]
                    neighbor_counts@.contains_key(c) ==> neighbor_counts@[c] == live_neighbors(
                        seen,
                        c.0 as int,
                        c.1 as int,
                    ) + if tallied(p, c, -1, ny as int) {
                        1int
                    } else {
                        0int
                    },
            decreases 2 - ny,
        {
            let mut nx: i32 = -1;
            while nx <= 1
                invariant
                    -1 <= ny <= 1,
                    -1 <= nx <= 2,
                    p == (x, y),
                    i32::MIN < x < i32::MAX,
                    i32::MIN < y < i32::MAX,
                    forall|c: (i32, i32)| #[trigger]
                        neighbor_counts@.contains_key(c) <==> (live_neighbors(seen, c.0 as int, c.1 as int)
                            > 0 || tallied(p, c, nx as int, ny as int)),
                    forall|c: (i32, i32)| #[trigger]
                        neighbor_counts@.contains_key(c) ==> neighbor_counts@[c] == live_neighbors(
                            seen,
                            c.0 as int,
                            c.1 as int,
                        ) + if tallied(p, c, nx as int, ny as int) {
                            1int
                        } else {
                            0int
                        },
                decreases 2 - nx,
            {
                if nx == 0 && ny == 0 {
                    nx += 1;
                    continue;
                }
                let key = (x + nx, y + ny);
                let count: i32 = match neighbor_counts.get(&key) {
                    Some(c) => *c,
                    None => 0,
                };
                neighbor_counts.insert(key, count + 1);
                nx += 1;
            }
            ny += 1;
        }
        proof {
            assert(live@.take(i + 1) =~= live@.take(i as int).push(p));
            live@.take(i as int).lemma_push_to_set_commute(p);
            assert(live@.take(i + 1).to_set() =~= seen.insert(p));
            assert forall|c: (i32, i32)| tallied(p, c, -1, 2) == adjacent(p, c.0 as int, c.1 as int) by {}
            assert forall|c: (i32, i32)|
                #[trigger] live_neighbors(live@.take(i + 1).to_set(), c.0 as int, c.1 as int)
                    == live_neighbors(seen, c.0 as int, c.1 as int) + if adjacent(
                    p,
                    c.0 as int,
                    c.1 as int,
                ) {
                    1int
                } else {
                    0int
                } by {
                lemma_live_neighbors_insert(seen, p, c);
            }
        }
        i += 1;
    }
    assert(live@.take(live@.len() as int) =~= live@);
    let ghost order = spec_btree_map_iter(&neighbor_counts).remaining();
    for entry in it: neighbor_counts.iter()
        invariant
            it.seq() == order,
            live@.to_set() == grid@,
            forall|k: (i32, i32)| #[trigger]
                neighbor_counts@.contains_key(k) <==> live_neighbors(grid@, k.0 as int, k.1 as int) > 0,
            forall|k: (i32, i32)| #[trigger]
                neighbor_counts@.contains_key(k) ==> neighbor_counts@[k] == live_neighbors(
                    grid@,
                    k.0 as int,
                    k.1 as int,
                ),
            forall|j: int|
                0 <= j < order.len() ==> neighbor_counts@.contains_key(*order[j].0)
                    && neighbor_counts@[*order[j].0] == *order[j].1,
            forall|c: (i32, i32)| #[trigger]
                new_grid@.contains(c) <==> (exists|j: int|
                    0 <= j < it.index() && *order[j].0 == c) && alive_next(
                    grid@,
                    c.0 as int,
                    c.1 as int,
                ),
    {
        let (cell, count) = entry;
        let cell = *cell;
        let count = *count;
        let ghost before = new_grid@;
        proof {
            assert(*order[it.index()].0 == cell);
            assert(neighbor_counts@.contains_key(cell));
        }
        if count == 3 || (count == 2 && grid.cells.contains(&cell)) {
            new_grid.insert(cell.0, cell.1);
        }
        proof {
            assert forall|c: (i32, i32)| #[trigger]
                new_grid@.contains(c) <==> (exists|j: int|
                    0 <= j < it.index() + 1 && *order[j].0 == c) && alive_next(
                    grid@,
                    c.0 as int,
                    c.1 as int,
                ) by {
                if c == cell {
                    assert(*order[it.index()].0 == c);
                } else {
                    assert(before.contains(c) == new_grid@.contains(c));
                }
            }
        }
    }
    proof {
        assert forall|c: (i32, i32)| #[trigger]
            new_grid@.contains(c) <==> next_generation(grid@).contains(c) by {
            if alive_next(grid@, c.0 as int, c.1 as int) {
                assert(neighbor_counts@.contains_key(c));
                assert(order.contains((&c, &neighbor_counts@[c])));
                let j = choose|j: int| 0 <= j < order.len() && order[j] == (&c, &neighbor_counts@[c]);
                assert(*order[j].0 == c);
            }
        }
        assert(new_grid@ =~= next_generation(grid@));
    }
    new_grid
}

} // verus!
