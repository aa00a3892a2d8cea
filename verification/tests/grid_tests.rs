use std::collections::BTreeSet;

use game_of_life::counting;
use game_of_life::grid::{candidates, count_neighbors, tick, Grid};

fn grid_of(cells: &[(i32, i32)]) -> Grid {
    let mut g = Grid::new();
    for &(x, y) in cells {
        g.insert(x, y);
    }
    g
}

fn set_of(cells: &[(i32, i32)]) -> BTreeSet<(i32, i32)> {
    cells.iter().cloned().collect()
}

fn glider() -> Grid {
    grid_of(&[(1, 0), (2, 1), (0, 2), (1, 2), (2, 2)])
}

#[test]
fn new_grid_is_empty() {
    let g = Grid::new();
    assert!(g.cells.is_empty());
    assert_eq!(g.live_cells(), vec![]);
}

#[test]
fn default_grid_is_empty() {
    let g = Grid::default();
    assert_eq!(g, Grid::new());
}

#[test]
fn insert_makes_cell_alive_once() {
    let mut g = Grid::new();
    g.insert(3, -4);
    g.insert(3, -4);
    assert!(g.cells.contains(&(3, -4)));
    assert_eq!(g.cells.len(), 1);
}

#[test]
fn remove_kills_only_that_cell() {
    let mut g = grid_of(&[(0, 0), (1, 1)]);
    g.remove(0, 0);
    assert_eq!(g.cells, set_of(&[(1, 1)]));
    g.remove(5, 5);
    assert_eq!(g.cells, set_of(&[(1, 1)]));
}

#[test]
fn toggle_flips_a_cell() {
    let mut g = grid_of(&[(0, 0)]);
    g.toggle(0, 0);
    assert!(g.cells.is_empty());
    g.toggle(2, 7);
    assert_eq!(g.cells, set_of(&[(2, 7)]));
}

#[test]
fn toggle_twice_restores_grid() {
    let start = glider();
    let mut g = start.clone();
    g.toggle(1, 0);
    g.toggle(1, 0);
    assert_eq!(g, start);
    g.toggle(9, 9);
    g.toggle(9, 9);
    assert_eq!(g, start);
}

#[test]
fn insert_then_remove_restores_grid() {
    let start = glider();
    let mut g = start.clone();
    g.insert(-7, 3);
    g.remove(-7, 3);
    assert_eq!(g, start);
}

#[test]
fn clear_kills_everything() {
    let mut g = glider();
    g.clear();
    assert!(g.cells.is_empty());
}

#[test]
fn live_cells_lists_each_cell_in_order() {
    let g = grid_of(&[(2, 2), (-1, 5), (0, 0), (-1, 3)]);
    assert_eq!(g.live_cells(), vec![(-1, 3), (-1, 5), (0, 0), (2, 2)]);
}

#[test]
fn count_neighbors_counts_the_eight_around() {
    let mut all = Vec::new();
    for x in -1..=1 {
        for y in -1..=1 {
            all.push((x, y));
        }
    }
    let g = grid_of(&all);
    assert_eq!(count_neighbors(&g, 0, 0), 8);
    assert_eq!(count_neighbors(&g, 1, 1), 3);
    assert_eq!(count_neighbors(&g, 2, 0), 3);
    assert_eq!(count_neighbors(&g, 3, 0), 0);
}

#[test]
fn count_neighbors_ignores_the_cell_itself() {
    let g = grid_of(&[(5, 5)]);
    assert_eq!(count_neighbors(&g, 5, 5), 0);
    assert_eq!(count_neighbors(&g, 6, 4), 1);
}

#[test]
fn candidates_of_one_cell_are_its_block() {
    let g = grid_of(&[(0, 0)]);
    let c = candidates(&g);
    assert_eq!(c.len(), 9);
    for x in -1..=1 {
        for y in -1..=1 {
            assert!(c.contains(&(x, y)));
        }
    }
}

#[test]
fn candidates_of_two_cells_overlap() {
    let g = grid_of(&[(0, 0), (1, 0)]);
    let c = candidates(&g);
    assert_eq!(c.len(), 12);
    assert!(c.contains(&(2, 1)));
    assert!(!c.contains(&(3, 0)));
}

#[test]
fn candidates_of_empty_grid_are_empty() {
    assert!(candidates(&Grid::new()).is_empty());
}

#[test]
fn empty_grid_stays_empty() {
    assert_eq!(tick(&Grid::new()), Grid::new());
    assert_eq!(counting::tick(&Grid::new()), Grid::new());
}

#[test]
fn lonely_cell_dies() {
    let g = grid_of(&[(4, 4)]);
    assert!(tick(&g).cells.is_empty());
    assert!(counting::tick(&g).cells.is_empty());
}

#[test]
fn dead_cell_with_three_neighbours_is_born() {
    let g = grid_of(&[(0, 0), (2, 0), (1, 2)]);
    let next = tick(&g);
    assert_eq!(next.cells, set_of(&[(1, 1)]));
}

#[test]
fn crowded_cell_dies() {
    // plus sign: the centre has four live neighbours
    let g = grid_of(&[(0, 0), (1, 0), (-1, 0), (0, 1), (0, -1)]);
    let next = tick(&g);
    assert!(!next.cells.contains(&(0, 0)));
    assert!(next.cells.contains(&(1, 1)));
    assert_eq!(next, counting::tick(&g));
}

#[test]
fn block_is_still() {
    let g = grid_of(&[(0, 0), (1, 0), (0, 1), (1, 1)]);
    assert_eq!(tick(&g), g);
    assert_eq!(counting::tick(&g), g);
}

#[test]
fn blinker_oscillates() {
    let horizontal = grid_of(&[(-1, 0), (0, 0), (1, 0)]);
    let vertical = grid_of(&[(0, -1), (0, 0), (0, 1)]);
    assert_eq!(tick(&horizontal), vertical);
    assert_eq!(tick(&vertical), horizontal);
    assert_eq!(counting::tick(&horizontal), vertical);
}

#[test]
fn glider_moves_one_cell_diagonally_every_four_steps() {
    let mut g = glider();
    for _ in 0..4 {
        g = tick(&g);
    }
    assert_eq!(g.cells, set_of(&[(2, 1), (3, 2), (1, 3), (2, 3), (3, 3)]));
}

#[test]
fn both_steps_agree_on_r_pentomino() {
    let mut a = grid_of(&[(1, 0), (2, 0), (0, 1), (1, 1), (1, 2)]);
    let mut b = a.clone();
    for _ in 0..30 {
        a = tick(&a);
        b = counting::tick(&b);
        assert_eq!(a, b);
    }
    assert!(!a.cells.is_empty());
}

#[test]
fn shifted_pattern_steps_the_same() {
    let base = [(0, 0), (1, 0), (2, 0), (2, 1), (1, 2)];
    let moved: Vec<(i32, i32)> = base.iter().map(|&(x, y)| (x + 1000, y - 77)).collect();
    let stepped = tick(&grid_of(&base));
    let stepped_moved: BTreeSet<(i32, i32)> =
        stepped.cells.iter().map(|&(x, y)| (x + 1000, y - 77)).collect();
    assert_eq!(tick(&grid_of(&moved)).cells, stepped_moved);
}

#[test]
fn fits_within_checks_the_edges() {
    let g = grid_of(&[(i32::MAX - 2, 0), (0, i32::MIN + 2)]);
    assert!(g.fits_within(2));
    assert!(!g.fits_within(3));
    assert!(Grid::new().fits_within(u32::MAX));
    let edge = grid_of(&[(i32::MAX, 0)]);
    assert!(edge.fits_within(0));
    assert!(!edge.fits_within(1));
}

#[test]
fn tick_near_the_edge_of_the_coordinates() {
    let m = i32::MAX - 2;
    let g = grid_of(&[(m, 0), (m, 1), (m, 2)]);
    let next = tick(&g);
    assert_eq!(next.cells, set_of(&[(m - 1, 1), (m, 1), (m + 1, 1)]));
    assert_eq!(counting::tick(&g), next);
}
