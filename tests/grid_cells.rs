use grid_route::cell::{Cell, CellKind};
use grid_route::error::PathError;
use grid_route::grid::Grid;
use grid_route::heuristic::octile_distance;

fn kinds_of(g: &Grid) -> Vec<CellKind> {
    let mut out = Vec::new();
    for y in 0..g.row_count() {
        for x in 0..g.col_count() {
            out.push(g.get_cell(x, y).unwrap().passable);
        }
    }
    out
}

#[test]
fn new_rejects_zero_dimension() {
    assert_eq!(Grid::new(0, 5).err(), Some(PathError::InvalidDimension));
    assert_eq!(Grid::new(5, 0).err(), Some(PathError::InvalidDimension));
    assert_eq!(Grid::new(0, 0).err(), Some(PathError::InvalidDimension));
}

#[test]
fn new_grid_is_open_and_unmarked() {
    let g = Grid::new(3, 4).unwrap();
    assert_eq!(g.row_count(), 3);
    assert_eq!(g.col_count(), 4);
    assert_eq!(g.start_cell(), None);
    assert_eq!(g.finish_cell(), None);
    assert!(kinds_of(&g).iter().all(|k| *k == CellKind::Normal));
    assert_eq!(kinds_of(&g).len(), 12);
}

#[test]
fn get_cell_reports_position_and_kind() {
    let mut g = Grid::new(3, 4).unwrap();
    g.set_cell(3, 2, CellKind::Hard).unwrap();
    assert_eq!(g.get_cell(3, 2), Ok(Cell { y: 2, x: 3, passable: CellKind::Hard }));
    assert_eq!(g.get_cell(2, 3), Err(PathError::OutOfBounds));
    assert_eq!(g.get_cell(4, 0), Err(PathError::OutOfBounds));
}

#[test]
fn set_cell_out_of_range_leaves_grid_unchanged() {
    let mut g = Grid::new(10, 20).unwrap();
    g.set_start(1, 1).unwrap();
    g.set_finish(9, 9).unwrap();
    g.block(5, 5).unwrap();
    let before = kinds_of(&g);
    assert_eq!(g.set_cell(20, 0, CellKind::Hard), Err(PathError::OutOfBounds));
    assert_eq!(g.set_cell(0, 10, CellKind::Hard), Err(PathError::OutOfBounds));
    assert_eq!(g.set_cell(u32::MAX, u32::MAX, CellKind::Start), Err(PathError::OutOfBounds));
    assert_eq!(g.block(19, 10), Err(PathError::OutOfBounds));
    assert_eq!(g.set_start(20, 9), Err(PathError::OutOfBounds));
    assert_eq!(g.set_finish(0, 10), Err(PathError::OutOfBounds));
    assert_eq!(kinds_of(&g), before);
    assert_eq!(g.start_cell(), Some((1, 1)));
    assert_eq!(g.finish_cell(), Some((9, 9)));
}

#[test]
fn markers_stay_unique() {
    let mut g = Grid::new(4, 4).unwrap();
    g.set_start(1, 1).unwrap();
    g.set_start(2, 3).unwrap();
    assert_eq!(g.get_cell(1, 1).unwrap().passable, CellKind::Normal);
    assert_eq!(g.get_cell(2, 3).unwrap().passable, CellKind::Start);
    assert_eq!(g.start_cell(), Some((2, 3)));
    g.set_finish(0, 0).unwrap();
    g.set_finish(3, 0).unwrap();
    assert_eq!(g.get_cell(0, 0).unwrap().passable, CellKind::Normal);
    assert_eq!(g.finish_cell(), Some((3, 0)));
    let starts = kinds_of(&g).iter().filter(|k| **k == CellKind::Start).count();
    let finishes = kinds_of(&g).iter().filter(|k| **k == CellKind::Finish).count();
    assert_eq!((starts, finishes), (1, 1));
}

#[test]
fn overwriting_a_marker_cell_keeps_the_marker() {
    let mut g = Grid::new(4, 4).unwrap();
    g.set_start(1, 1).unwrap();
    g.set_finish(2, 2).unwrap();
    g.block(1, 1).unwrap();
    assert_eq!(g.start_cell(), Some((1, 1)));
    assert_eq!(g.get_cell(1, 1).unwrap().passable, CellKind::Blocked);
    g.set_start(3, 3).unwrap();
    assert_eq!(g.get_cell(1, 1).unwrap().passable, CellKind::Blocked);
    assert_eq!(g.start_cell(), Some((3, 3)));
    g.set_cell(2, 2, CellKind::Hard).unwrap();
    assert_eq!(g.finish_cell(), Some((2, 2)));
    assert_eq!(g.get_cell(2, 2).unwrap().passable, CellKind::Hard);
}

#[test]
fn movement_costs() {
    assert_eq!(CellKind::Easy.movement_cost(), Some(1));
    assert_eq!(CellKind::Normal.movement_cost(), Some(1));
    assert_eq!(CellKind::Hard.movement_cost(), Some(6));
    assert_eq!(CellKind::Blocked.movement_cost(), None);
    assert_eq!(CellKind::Start.movement_cost(), Some(1));
    assert_eq!(CellKind::Finish.movement_cost(), Some(3));
    let c = Cell { y: 0, x: 0, passable: CellKind::Hard };
    assert_eq!(c.get_penalty(), Some(6));
    let b = Cell { y: 0, x: 0, passable: CellKind::Blocked };
    assert_eq!(b.get_penalty(), None);
}

#[test]
fn octile_exact_values() {
    assert_eq!(octile_distance((0, 0), (3, 5)), 1414 * 3 + 1000 * 2);
    assert_eq!(octile_distance((4, 4), (4, 9)), 5000);
    assert_eq!(octile_distance((2, 2), (5, 5)), 4242);
    assert_eq!(octile_distance((7, 1), (7, 1)), 0);
    let a = Cell { y: 1, x: 1, passable: CellKind::Start };
    let b = Cell { y: 9, x: 9, passable: CellKind::Finish };
    assert_eq!(a.get_heuristic(&b), 8 * 1414);
}

#[test]
fn octile_symmetry_zero_and_triangle() {
    let pts = [(0u32, 0u32), (3, 5), (9, 1), (4, 4), (u32::MAX, 0), (7, 7)];
    for a in pts {
        assert_eq!(octile_distance(a, a), 0);
        for b in pts {
            assert_eq!(octile_distance(a, b), octile_distance(b, a));
            for c in pts {
                assert!(octile_distance(a, b) <= octile_distance(a, c) + octile_distance(c, b));
            }
        }
    }
}

#[test]
fn neighbors_in_row_major_order() {
    let g = Grid::new(3, 3).unwrap();
    assert_eq!(g.neighbors(0, 0), vec![(1, 0), (0, 1), (1, 1)]);
    assert_eq!(
        g.neighbors(1, 1),
        vec![(0, 0), (1, 0), (2, 0), (0, 1), (2, 1), (0, 2), (1, 2), (2, 2)]
    );
    assert_eq!(g.neighbors(1, 0), vec![(0, 0), (2, 0), (0, 1), (1, 1), (2, 1)]);
    assert_eq!(g.neighbors(2, 2), vec![(1, 1), (2, 1), (1, 2)]);
}

#[test]
fn neighbors_of_single_cell_grid() {
    let g = Grid::new(1, 1).unwrap();
    assert!(g.neighbors(0, 0).is_empty());
    let line = Grid::new(1, 3).unwrap();
    assert_eq!(line.neighbors(0, 0), vec![(1, 0)]);
}

#[test]
fn neighbor_counts_between_three_and_eight() {
    let g = Grid::new(4, 5).unwrap();
    for y in 0..4u32 {
        for x in 0..5u32 {
            let around = g.neighbors(x, y);
            assert!(around.len() >= 3 && around.len() <= 8);
            for (a, b) in around {
                assert!(a < 5 && b < 4);
                assert!((a, b) != (x, y));
                assert!(a.abs_diff(x) <= 1 && b.abs_diff(y) <= 1);
            }
        }
    }
    assert_eq!(g.neighbors(0, 0).len(), 3);
    assert_eq!(g.neighbors(2, 0).len(), 5);
    assert_eq!(g.neighbors(2, 2).len(), 8);
}

#[test]
fn get_adjacent_carries_kinds() {
    let mut g = Grid::new(3, 3).unwrap();
    g.block(1, 0).unwrap();
    g.set_cell(0, 1, CellKind::Easy).unwrap();
    let here = g.get_cell(0, 0).unwrap();
    let around = g.get_adjacent(&here);
    assert_eq!(
        around,
        vec![
            Cell { y: 0, x: 1, passable: CellKind::Blocked },
            Cell { y: 1, x: 0, passable: CellKind::Easy },
            Cell { y: 1, x: 1, passable: CellKind::Normal },
        ]
    );
}
