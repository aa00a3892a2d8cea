//! The grid of live cells and the step from one generation to the next.
use vstd::prelude::*;
use std::collections::BTreeSet;
use vstd::std_specs::btree::spec_btree_keys_iter;
use vstd::std_specs::iter::IteratorSpec;

use crate::rules::{
    alive_count, alive_next, is_alive, lemma_next_generation_within_neighborhood, live_neighbors, near,
    neighborhood, next_generation, within_margin,
};

verus! {

broadcast use {vstd::std_specs::btree::group_btree_axioms, vstd::laws_cmp::group_laws_cmp};

/// The live cells of one generation. The grid is unbounded: any pair of
/// `i32` coordinates names a cell, and only the live ones are stored.
#[derive(Debug, Clone, PartialEq, Eq)]
pub struct Grid {
    /// The coordinates of the living cells.
    pub cells: BTreeSet<(i32, i32)>,
}

/// The cells of `cells` with the cell `c` flipped: removed when alive, added when dead.
pub open spec fn toggled(cells: Set<(i32, i32)>, c: (i32, i32)) -> Set<(i32, i32)> {
    if cells.contains(c) {
        cells.remove(c)
    } else {
        cells.insert(c)
    }
}

/// Toggling flips the toggled cell, whatever its coordinates, and leaves
/// every other cell as it was.
pub proof fn lemma_toggle_flips_one_cell(cells: Set<(i32, i32)>, c: (i32, i32))
    ensures
        toggled(cells, c).contains(c) == !cells.contains(c),
        forall|d: (i32, i32)| d != c ==> toggled(cells, c).contains(d) == cells.contains(d),
{
}

/// Toggling the same cell twice gives back the grid one started from.
pub proof fn lemma_toggle_twice(cells: Set<(i32, i32)>, c: (i32, i32))
    ensures
        toggled(toggled(cells, c), c) == cells,
{
    assert(toggled(toggled(cells, c), c) =~= cells);
}

/// Making a dead cell alive and then dead again gives back the grid one
/// started from; making a live cell alive again changes nothing.
pub proof fn lemma_insert_remove(cells: Set<(i32, i32)>, c: (i32, i32))
    ensures
        !cells.contains(c) ==> cells.insert(c).remove(c) == cells,
        cells.contains(c) ==> cells.insert(c) == cells,
{
    assert(!cells.contains(c) ==> cells.insert(c).remove(c) =~= cells);
    assert(cells.contains(c) ==> cells.insert(c) =~= cells);
}

impl View for Grid {
    type V = Set<(i32, i32)>;

    open spec fn view(&self) -> Set<(i32, i32)> {
        self.cells@
    }
}

impl Default for Grid {
    fn default() -> (g: Self)
        ensures
            g@ == Set::<(i32, i32)>::empty(),
    {
        Self::new()
    }
}

impl Grid {
    /// An empty grid: every cell is dead.
    pub fn new() -> (g: Self)
        ensures
            g@ == Set::<(i32, i32)>::empty(),
    {
        Self { cells: BTreeSet::new() }
    }

    /// Makes the cell at `(x, y)` alive.
    pub fn insert(&mut self, x: i32, y: i32)
        ensures
            final(self)@ == old(self)@.insert((x, y)),
    {
        self.cells.insert((x, y));
    }

    /// Makes the cell at `(x, y)` dead.
    pub fn remove(&mut self, x: i32, y: i32)
        ensures
            final(self)@ == old(self)@.remove((x, y)),
    {
        self.cells.remove(&(x, y));
    }

    /// Flips the cell at `(x, y)`: a live cell dies, a dead cell comes alive.
    pub fn toggle(&mut self, x: i32, y: i32)
        ensures
            final(self)@ == toggled(old(self)@, (x, y)),
            final(self)@.contains((x, y)) == !old(self)@.contains((x, y)),
            forall|c: (i32, i32)| c != (x, y) ==> final(self)@.contains(c) == old(self)@.contains(c),
    {
        if self.cells.contains(&(x, y)) {
            self.remove(x, y);
        } else {
            self.insert(x, y);
        }
    }

    /// Kills every cell.
    pub fn clear(&mut self)
        ensures
            final(self)@ == Set::<(i32, i32)>::empty(),
    {
        self.cells.clear();
    }

    /// Whether every live cell lies at least `margin` cells away from the
    /// edges of the `i32` coordinate range.
    pub fn fits_within(&self, margin: u32) -> (fits: bool)
        ensures
            fits == within_margin(self@, margin as int),
    {
        let live = self.live_cells();
        let low: i64 = -2147483648i64 + margin as i64;
        let high: i64 = 2147483647i64 - margin as i64;
        let mut i: usize = 0;
        while i < live.len()
            invariant
                0 <= i <= live.len(),
                live@.to_set() == self@,
                low == i32::MIN + margin,
                high == i32::MAX - margin,
                forall|j: int|
                    0 <= j < i ==> {
                        &&& low <= (#[trigger] live@[j]).0 <= high
                        &&& low <= live@[j].1 <= high
                    },
            decreases live.len() - i,
        {
            let (x, y) = live[i];
            if (x as i64) < low || (x as i64) > high || (y as i64) < low || (y as i64) > high {
                assert(self@.contains(live@[i as int]));
                return false;
            }
            i += 1;
        }
        proof {
            assert forall|c: (i32, i32)| #[trigger] self@.contains(c) implies {
                &&& i32::MIN + margin <= c.0 <= i32::MAX - margin
                &&& i32::MIN + margin <= c.1 <= i32::MAX - margin
            } by {
                assert(live@.to_set().contains(c));
                let j = choose|j: int| 0 <= j < live@.len() && live@[j] == c;
            }
        }
        true
    }

    /// The live cells, each once, in increasing order of `(x, y)`.
    pub fn live_cells(&self) -> (v: Vec<(i32, i32)>)
        ensures
            v@.to_set() == self@,
            v@.no_duplicates(),
            v@.len() == self@.len(),
    {
        let mut v: Vec<(i32, i32)> = Vec::new();
        for p in it: self.cells.iter()
            invariant
                it.seq() == spec_btree_keys_iter(&self.cells).remaining(),
                v@ == it.seq().take(it.index()).unref(),
        {
            v.push(*p);
        }
        assert(v@ =~= spec_btree_keys_iter(&self.cells).remaining().unref());
        v
    }
}

/// The neighbour at offset `(dx, y)` of `(x, y)` counts one when alive; the
/// cell itself (offset `(0, 0)`) never counts.
spec fn offset_count(cells: Set<(i32, i32)>, x: int, y: int, dx: int, dy: int) -> int {
    if dx == 0 && dy == 0 {
        0
    } else {
        alive_count(cells, x + dx, y + dy)
    }
}

/// The count over column `dx` of the neighbourhood, rows `-1` up to but
/// excluding `upto`.
spec fn column_count(cells: Set<(i32, i32)>, x: int, y: int, dx: int, upto: int) -> int {
    (if -1 < upto {
        offset_count(cells, x, y, dx, -1)
    } else {
        0
    }) + (if 0 < upto {
        offset_count(cells, x, y, dx, 0)
    } else {
        0
    }) + (if 1 < upto {
        offset_count(cells, x, y, dx, 1)
    } else {
        0
    })
}

/// The count over the full columns `-1` up to but excluding `upto`.
spec fn block_count(cells: Set<(i32, i32)>, x: int, y: int, upto: int) -> int {
    (if -1 < upto {
        column_count(cells, x, y, -1, 2)
    } else {
        0
    }) + (if 0 < upto {
        column_count(cells, x, y, 0, 2)
    } else {
        0
    }) + (if 1 < upto {
        column_count(cells, x, y, 1, 2)
    } else {
        0
    })
}

/// Counts the live neighbours of the cell at `(x, y)`.
pub fn count_neighbors(grid: &Grid, x: i32, y: i32) -> (n: u8)
    requires
        i32::MIN < x < i32::MAX,
        i32::MIN < y < i32::MAX,
    ensures
        n == live_neighbors(grid@, x as int, y as int),
        n <= 8,
{
    let mut count: u8 = 0;
    let mut dx: i32 = -1;
    while dx <= 1
        invariant
            -1 <= dx <= 2,
            i32::MIN < x < i32::MAX,
            i32::MIN < y < i32::MAX,
            count == block_count(grid@, x as int, y as int, dx as int),
            count <= 3 * (dx + 1),
        decreases 2 - dx,
    {
        let mut dy: i32 = -1;
        while dy <= 1
            invariant
                -1 <= dx <= 1,
                -1 <= dy <= 2,
                i32::MIN < x < i32::MAX,
                i32::MIN < y < i32::MAX,
                count == block_count(grid@, x as int, y as int, dx as int) + column_count(
                    grid@,
                    x as int,
                    y as int,
                    dx as int,
                    dy as int,
                ),
                count <= 3 * (dx + 1) + (dy + 1),
            decreases 2 - dy,
        {
            if dx == 0 && dy == 0 {
                dy += 1;
                continue;
            }
            if grid.cells.contains(&(x + dx, y + dy)) {
                count += 1;
            }
            dy += 1;
        }
        dx += 1;
    }
    count
}

/// Whether `c` is near one of the first `k` cells of `s`.
spec fn covered(s: Seq<(i32, i32)>, k: int, c: (i32, i32)) -> bool {
    exists|j: int| 0 <= j < k && #[trigger] near(s[j], c.0 as int, c.1 as int)
}

/// The cells near `p` that the loops of `candidates` have added: the
/// columns left of `p.0 + dx`, and in column `p.0 + dx` the rows above `p.1 + dy`.
spec fn partially_near(p: (i32, i32), c: (i32, i32), dx: int, dy: int) -> bool {
    ||| (p.0 - 1 <= c.0 < p.0 + dx && p.1 - 1 <= c.1 <= p.1 + 1)
    ||| (c.0 == p.0 + dx && p.1 - 1 <= c.1 < p.1 + dy)
}

/// The cells that may be alive in the next generation: every live cell and
/// its eight neighbours.
pub fn candidates(grid: &Grid) -> (result: BTreeSet<(i32, i32)>)
    requires
        within_margin(grid@, 1),
    ensures
        result@ == neighborhood(grid@),
{
    let live = grid.live_cells();
    let mut candidates: BTreeSet<(i32, i32)> = BTreeSet::new();
    let mut i: usize = 0;
    while i < live.len()
        invariant
            live@.to_set() == grid@,
            within_margin(grid@, 1),
            0 <= i <= live.len(),
            forall|c: (i32, i32)| #[trigger] candidates@.contains(c) <==> covered(live@, i as int, c),
        decreases live.len() - i,
    {
        let (x, y) = live[i];
        assert(grid@.contains(live@[i as int]));
        let ghost p = live@[i as int];
        let mut dx: i32 = -1;
        while dx <= 1
            invariant
                -1 <= dx <= 2,
                i < live.len(),
                p == live@[i as int],
                p == (x, y),
                i32::MIN < x < i32::MAX,
                i32::MIN < y < i32::MAX,
                forall|c: (i32, i32)| #[trigger]
                    candidates@.contains(c) <==> (covered(live@, i as int, c) || partially_near(
                        p,
                        c,
                        dx as int,
                        -1,
                    )),
            decreases 2 - dx,
        {
            let mut dy: i32 = -1;
            while dy <= 1
                invariant
                    -1 <= dx <= 1,
                    -1 <= dy <= 2,
                    i < live.len(),
                    p == live@[i as int],
                    p == (x, y),
                    i32::MIN < x < i32::MAX,
                    i32::MIN < y < i32::MAX,
                    forall|c: (i32, i32)| #[trigger]
                        candidates@.contains(c) <==> (covered(live@, i as int, c) || partially_near(
                            p,
                            c,
                            dx as int,
                            dy as int,
                        )),
                decreases 2 - dy,
            {
                candidates.insert((x + dx, y + dy));
                dy += 1;
            }
            dx += 1;
        }
        proof {
            assert forall|c: (i32, i32)|
                covered(live@, i as int, c) || partially_near(p, c, 2, -1) <==> covered(
                    live@,
                    i + 1,
                    c,
                ) by {
                if partially_near(p, c, 2, -1) {
                    assert(near(live@[i as int], c.0 as int, c.1 as int));
                }
                if covered(live@, i + 1, c) && !covered(live@, i as int, c) {
                    let j = choose|j: int| 0 <= j < i + 1 && #[trigger] near(live@[j], c.0 as int, c.1 as int);
                    assert(j == i);
                }
            }
        }
        i += 1;
    }
    proof {
        assert forall|c: (i32, i32)| covered(live@, live@.len() as int, c) <==> #[trigger] neighborhood(
            grid@,
        ).contains(c) by {
            if covered(live@, live@.len() as int, c) {
                let j = choose|j: int| 0 <= j < live@.len() && #[trigger] near(live@[j], c.0 as int, c.1 as int);
                assert(live@.contains(live@[j]));
                assert(grid@.contains(live@[j]));
            }
            if neighborhood(grid@).contains(c) {
                let q = choose|q: (i32, i32)| grid@.contains(q) && #[trigger] near(q, c.0 as int, c.1 as int);
                assert(live@.to_set().contains(q));
                let j = choose|j: int| 0 <= j < live@.len() && live@[j] == q;
                assert(near(live@[j], c.0 as int, c.1 as int));
            }
        }
        assert(candidates@ =~= neighborhood(grid@));
    }
    candidates
}

/// Advances `current` by one generation under the rules of the game.
pub fn tick(current: &Grid) -> (next: Grid)
    requires
        within_margin(current@, 2),
    ensures
        next@ == next_generation(current@),
        forall|c: (i32, i32)| #[trigger]
            next@.contains(c) <==> if current@.contains(c) {
                live_neighbors(current@, c.0 as int, c.1 as int) == 2 || live_neighbors(
                    current@,
                    c.0 as int,
                    c.1 as int,
                ) == 3
            } else {
                live_neighbors(current@, c.0 as int, c.1 as int) == 3
            },
{
    let mut next = Grid::new();
    let candidates = candidates(current);
    let ghost order = spec_btree_keys_iter(&candidates).remaining();
    for p in it: candidates.iter()
        invariant
            it.seq() == order,
            order.unref().to_set() == neighborhood(current@),
            within_margin(current@, 2),
            forall|c: (i32, i32)| #[trigger]
                next@.contains(c) <==> (it.seq().take(it.index()).unref().contains(c) && alive_next(
                    current@,
                    c.0 as int,
                    c.1 as int,
                )),
    {
        let (x, y) = *p;
        proof {
            assert(order.unref()[it.index()] == (x, y));
            assert(neighborhood(current@).contains((x, y)));
        }
        let n = count_neighbors(current, x, y);
        let alive = current.cells.contains(&(x, y));
        let ghost before = next@;
        if alive && (n == 2 || n == 3) || (!alive && n == 3) {
            next.cells.insert((x, y));
        }
        proof {
            let prefix = it.seq().take(it.index()).unref();
            assert(alive == is_alive(current@, x as int, y as int));
            assert forall|c: (i32, i32)| #[trigger]
                next@.contains(c) <==> (prefix.push((x, y)).contains(c) && alive_next(
                    current@,
                    c.0 as int,
                    c.1 as int,
                )) by {
                if c == (x, y) {
                    assert(prefix.push((x, y))[prefix.len() as int] == c);
                } else {
                    assert(before.contains(c) == next@.contains(c));
                    if prefix.push((x, y)).contains(c) {
                        let k = choose|k: int| 0 <= k < prefix.len() + 1 && prefix.push((x, y))[k] == c;
                        assert(prefix[k] == c);
                    }
                    if prefix.contains(c) {
                        let k = choose|k: int| 0 <= k < prefix.len() && prefix[k] == c;
                        assert(prefix.push((x, y))[k] == c);
                    }
                }
            }
            assert(it.seq().take(it.index() + 1).unref() =~= prefix.push((x, y)));
        }
    }
    proof {
        lemma_next_generation_within_neighborhood(current@);
        assert(order.take(order.len() as int).unref() =~= order.unref());
        assert(next@ =~= next_generation(current@));
    }
    next
}

} // verus!
