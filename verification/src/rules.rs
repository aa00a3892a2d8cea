//! The rules of the game, stated over the set of live cells.
//!
//! A generation is a set of live cells, each named by its `(x, y)`
//! coordinates. A cell has eight neighbours: the cells whose coordinates
//! differ from its own by at most one in each direction, itself excluded.
//! A live cell stays alive when two or three of its neighbours are alive;
//! a dead cell comes alive when exactly three of its neighbours are alive;
//! every other cell is dead in the next generation.
use vstd::prelude::*;

verus! {

/// Whether the cell at integer coordinates `(x, y)` is alive in `cells`.
/// Coordinates outside the `i32` range are never alive.
pub open spec fn is_alive(cells: Set<(i32, i32)>, x: int, y: int) -> bool {
    &&& i32::MIN <= x <= i32::MAX
    &&& i32::MIN <= y <= i32::MAX
    &&& cells.contains((x as i32, y as i32))
}

/// One when the cell at `(x, y)` is alive, zero otherwise.
pub open spec fn alive_count(cells: Set<(i32, i32)>, x: int, y: int) -> int {
    if is_alive(cells, x, y) {
        1
    } else {
        0
    }
}

/// The number of live cells among the eight neighbours of `(x, y)`.
pub open spec fn live_neighbors(cells: Set<(i32, i32)>, x: int, y: int) -> int {
    alive_count(cells, x - 1, y - 1) + alive_count(cells, x - 1, y) + alive_count(cells, x - 1, y + 1)
        + alive_count(cells, x, y - 1) + alive_count(cells, x, y + 1) + alive_count(
        cells,
        x + 1,
        y - 1,
    ) + alive_count(cells, x + 1, y) + alive_count(cells, x + 1, y + 1)
}

/// Whether the cell at `(x, y)` is alive in the generation that follows `cells`:
/// it survives with two or three live neighbours, or is born with exactly three.
pub open spec fn alive_next(cells: Set<(i32, i32)>, x: int, y: int) -> bool {
    let n = live_neighbors(cells, x, y);
    (is_alive(cells, x, y) && (n == 2 || n == 3)) || (!is_alive(cells, x, y) && n == 3)
}

/// The generation that follows `cells`.
pub open spec fn next_generation(cells: Set<(i32, i32)>) -> Set<(i32, i32)> {
    Set::new(|c: (i32, i32)| alive_next(cells, c.0 as int, c.1 as int))
}

/// Whether `(x, y)` is `p` or one of its eight neighbours.
pub open spec fn near(p: (i32, i32), x: int, y: int) -> bool {
    &&& p.0 - 1 <= x <= p.0 + 1
    &&& p.1 - 1 <= y <= p.1 + 1
}

/// Every live cell together with its eight neighbours: the only cells that
/// can be alive in the next generation.
pub open spec fn neighborhood(cells: Set<(i32, i32)>) -> Set<(i32, i32)> {
    Set::new(|c: (i32, i32)| exists|p: (i32, i32)| cells.contains(p) && #[trigger] near(p, c.0 as int, c.1 as int))
}

/// Every live cell lies at least `margin` cells away from the edges of the
/// `i32` coordinate range, in both directions.
pub open spec fn within_margin(cells: Set<(i32, i32)>, margin: int) -> bool {
    forall|c: (i32, i32)|
        #![trigger cells.contains(c)]
        cells.contains(c) ==> {
            &&& i32::MIN + margin <= c.0 <= i32::MAX - margin
            &&& i32::MIN + margin <= c.1 <= i32::MAX - margin
        }
}

/// Only live cells and their neighbours can be alive in the next generation:
/// a cell that is neither alive nor next to a live cell stays dead.
pub proof fn lemma_next_generation_within_neighborhood(cells: Set<(i32, i32)>)
    ensures
        next_generation(cells).subset_of(neighborhood(cells)),
{
    assert forall|c: (i32, i32)| #[trigger] next_generation(cells).contains(c) implies neighborhood(
        cells,
    ).contains(c) by {
        let x = c.0 as int;
        let y = c.1 as int;
        if is_alive(cells, x, y) {
            assert(near(c, x, y));
        } else {
            lemma_live_neighbor_is_near(cells, x, y);
        }
    }
}

/// The rule of the game, cell by cell: a live cell is alive in the next
/// generation exactly when two or three of its eight neighbours are alive (so
/// it dies alone, with one neighbour, or with four or more), and a dead cell
/// is alive in the next generation exactly when three of its neighbours are.
pub proof fn lemma_next_generation_rule(cells: Set<(i32, i32)>, c: (i32, i32))
    ensures
        cells.contains(c) ==> (next_generation(cells).contains(c) <==> (live_neighbors(
            cells,
            c.0 as int,
            c.1 as int,
        ) == 2 || live_neighbors(cells, c.0 as int, c.1 as int) == 3)),
        !cells.contains(c) ==> (next_generation(cells).contains(c) <==> live_neighbors(
            cells,
            c.0 as int,
            c.1 as int,
        ) == 3),
        cells.contains(c) && live_neighbors(cells, c.0 as int, c.1 as int) >= 4
            ==> !next_generation(cells).contains(c),
        !cells.contains(c) && next_generation(cells).contains(c) ==> live_neighbors(
            cells,
            c.0 as int,
            c.1 as int,
        ) == 3,
{
    assert(is_alive(cells, c.0 as int, c.1 as int) == cells.contains(c));
}

/// Whether `p` is one of the eight cells around `(x, y)`: it differs by at
/// most one in each coordinate and is not `(x, y)` itself.
pub open spec fn neighbor_of(p: (i32, i32), x: int, y: int) -> bool {
    &&& -1 <= p.0 - x <= 1
    &&& -1 <= p.1 - y <= 1
    &&& !(p.0 == x && p.1 == y)
}

/// The neighbour count of a cell is the number of live cells among the
/// eight cells around it; the cell itself never counts.
pub proof fn lemma_live_neighbors_counts_neighbors(cells: Set<(i32, i32)>, x: int, y: int)
    requires
        cells.finite(),
    ensures
        live_neighbors(cells, x, y) == cells.filter(|p: (i32, i32)| neighbor_of(p, x, y)).len(),
    decreases cells.len(),
{
    let f = |p: (i32, i32)| neighbor_of(p, x, y);
    if cells.len() == 0 {
        assert(cells =~= Set::empty());
        assert(cells.filter(f) =~= Set::empty());
    } else {
        let p = cells.choose();
        let rest = cells.remove(p);
        lemma_live_neighbors_counts_neighbors(rest, x, y);
        assert(rest.insert(p) =~= cells);
        assert(!rest.contains(p));
        if f(p) {
            assert(cells.filter(f) =~= rest.filter(f).insert(p));
            assert(!rest.filter(f).contains(p));
        } else {
            assert(cells.filter(f) =~= rest.filter(f));
        }
        assert(live_neighbors(rest.insert(p), x, y) == live_neighbors(rest, x, y) + if f(p) {
            1int
        } else {
            0int
        });
    }
}

/// A cell is a candidate for the next generation exactly when it is a live
/// cell or one of the eight cells around a live cell.
pub proof fn lemma_neighborhood_members(cells: Set<(i32, i32)>, c: (i32, i32), p: (i32, i32))
    ensures
        cells.contains(p) && -1 <= c.0 - p.0 <= 1 && -1 <= c.1 - p.1 <= 1 ==> neighborhood(
            cells,
        ).contains(c),
        neighborhood(cells).contains(c) ==> exists|q: (i32, i32)|
            #![trigger cells.contains(q)]
            cells.contains(q) && -1 <= c.0 - q.0 <= 1 && -1 <= c.1 - q.1 <= 1,
{
    if cells.contains(p) && -1 <= c.0 - p.0 <= 1 && -1 <= c.1 - p.1 <= 1 {
        assert(near(p, c.0 as int, c.1 as int));
    }
    if neighborhood(cells).contains(c) {
        let q = choose|q: (i32, i32)| cells.contains(q) && #[trigger] near(q, c.0 as int, c.1 as int);
        assert(cells.contains(q));
    }
}

/// The cells of `cells` moved by `a` columns and `b` rows; cells that would
/// leave the `i32` coordinate range are dropped.
pub open spec fn shifted(cells: Set<(i32, i32)>, a: int, b: int) -> Set<(i32, i32)> {
    Set::new(|c: (i32, i32)| is_alive(cells, c.0 - a, c.1 - b))
}

/// An empty grid stays empty: no cell is ever born without live neighbours.
pub proof fn lemma_empty_stays_empty()
    ensures
        next_generation(Set::<(i32, i32)>::empty()) == Set::<(i32, i32)>::empty(),
{
    assert(next_generation(Set::<(i32, i32)>::empty()) =~= Set::<(i32, i32)>::empty());
}

/// The rules do not depend on where a pattern stands: moving a pattern and
/// then stepping it gives the same cells as stepping it and then moving it,
/// as long as the pattern, before and after the move, keeps one cell clear
/// of the edges of the `i32` coordinate range.
pub proof fn lemma_step_commutes_with_shift(cells: Set<(i32, i32)>, a: int, b: int)
    requires
        within_margin(cells, 1),
        forall|p: (i32, i32)|
            #![trigger cells.contains(p)]
            cells.contains(p) ==> {
                &&& i32::MIN + 1 <= p.0 + a <= i32::MAX - 1
                &&& i32::MIN + 1 <= p.1 + b <= i32::MAX - 1
            },
    ensures
        next_generation(shifted(cells, a, b)) == shifted(next_generation(cells), a, b),
{
    let moved = shifted(cells, a, b);
    assert forall|x: int, y: int| #[trigger] is_alive(moved, x, y) == is_alive(cells, x - a, y - b) by {
        if is_alive(cells, x - a, y - b) {
            let p: (i32, i32) = ((x - a) as i32, (y - b) as i32);
            assert(cells.contains(p));
        }
    }
    assert forall|c: (i32, i32)| #[trigger]
        next_generation(moved).contains(c) == shifted(next_generation(cells), a, b).contains(c) by {
        let x = c.0 as int;
        let y = c.1 as int;
        assert(live_neighbors(moved, x, y) == live_neighbors(cells, x - a, y - b));
        if !(i32::MIN <= x - a <= i32::MAX && i32::MIN <= y - b <= i32::MAX) {
            assert(!alive_next(cells, x - a, y - b)) by {
                if alive_next(cells, x - a, y - b) {
                    lemma_live_neighbor_is_near(cells, x - a, y - b);
                }
            }
        }
    }
    assert(next_generation(moved) =~= shifted(next_generation(cells), a, b));
}

/// A cell with a live neighbour lies in the neighbourhood of the live cells.
proof fn lemma_live_neighbor_is_near(cells: Set<(i32, i32)>, x: int, y: int)
    requires
        live_neighbors(cells, x, y) > 0,
        i32::MIN <= x <= i32::MAX,
        i32::MIN <= y <= i32::MAX,
    ensures
        exists|p: (i32, i32)| cells.contains(p) && #[trigger] near(p, x, y),
{
    let mut a: int = 0;
    let mut b: int = 0;
    if is_alive(cells, x - 1, y - 1) {
        a = -1;
        b = -1;
    } else if is_alive(cells, x - 1, y) {
        a = -1;
        b = 0;
    } else if is_alive(cells, x - 1, y + 1) {
        a = -1;
        b = 1;
    } else if is_alive(cells, x, y - 1) {
        a = 0;
        b = -1;
    } else if is_alive(cells, x, y + 1) {
        a = 0;
        b = 1;
    } else if is_alive(cells, x + 1, y - 1) {
        a = 1;
        b = -1;
    } else if is_alive(cells, x + 1, y) {
        a = 1;
        b = 0;
    } else {
        a = 1;
        b = 1;
    }
    let p: (i32, i32) = ((x + a) as i32, (y + b) as i32);
    assert(cells.contains(p) && near(p, x, y));
}

} // verus!
