use grid_route::cell::CellKind;
use grid_route::error::PathError;
use grid_route::grid::Grid;
use grid_route::search::{calculate_route, find_path};

fn cost_of(g: &Grid, p: (u32, u32)) -> u64 {
    g.get_cell(p.0, p.1).unwrap().passable.movement_cost().unwrap() as u64
}

fn assert_route(g: &Grid, path: &[(u32, u32)], s: (u32, u32), f: (u32, u32)) {
    assert_eq!(path.first(), Some(&s));
    assert_eq!(path.last(), Some(&f));
    for p in path {
        let cell = g.get_cell(p.0, p.1).unwrap();
        assert_ne!(cell.passable, CellKind::Blocked);
    }
    for w in path.windows(2) {
        assert_ne!(w[0], w[1]);
        assert!(w[0].0.abs_diff(w[1].0) <= 1 && w[0].1.abs_diff(w[1].1) <= 1);
    }
}

fn route_cost(g: &Grid, path: &[(u32, u32)]) -> u64 {
    path.iter().skip(1).map(|p| cost_of(g, *p)).sum()
}

#[test]
fn missing_markers() {
    let mut g = Grid::new(5, 5).unwrap();
    assert_eq!(calculate_route(&g), Err(PathError::MissingMarker));
    g.set_start(0, 0).unwrap();
    assert_eq!(calculate_route(&g), Err(PathError::MissingMarker));
    g.set_finish(4, 4).unwrap();
    assert!(calculate_route(&g).is_ok());
    g.block(4, 4).unwrap();
    assert_eq!(g.finish_cell(), Some((4, 4)));
    assert_eq!(calculate_route(&g), Err(PathError::UnreachableEndpoint));
}

#[test]
fn unreachable_endpoints() {
    let mut g = Grid::new(5, 5).unwrap();
    g.block(2, 2).unwrap();
    assert_eq!(find_path(&g, (0, 0), (2, 2)), Err(PathError::UnreachableEndpoint));
    assert_eq!(find_path(&g, (2, 2), (0, 0)), Err(PathError::UnreachableEndpoint));
    assert_eq!(find_path(&g, (5, 0), (0, 0)), Err(PathError::UnreachableEndpoint));
    assert_eq!(find_path(&g, (0, 0), (0, 5)), Err(PathError::UnreachableEndpoint));
}

#[test]
fn walled_in_finish_has_no_route() {
    let mut g = Grid::new(7, 7).unwrap();
    g.set_start(0, 0).unwrap();
    g.set_finish(4, 4).unwrap();
    for (x, y) in [(3, 3), (4, 3), (5, 3), (3, 4), (5, 4), (3, 5), (4, 5), (5, 5)] {
        g.block(x, y).unwrap();
    }
    assert_eq!(calculate_route(&g), Err(PathError::NoPathExists));
    assert_eq!(find_path(&g, (6, 6), (4, 4)), Err(PathError::NoPathExists));
}

#[test]
fn walled_in_corner_finish_has_no_route() {
    let mut g = Grid::new(4, 4).unwrap();
    g.block(1, 0).unwrap();
    g.block(0, 1).unwrap();
    g.block(1, 1).unwrap();
    assert_eq!(find_path(&g, (3, 3), (0, 0)), Err(PathError::NoPathExists));
}

#[test]
fn same_start_and_finish() {
    let g = Grid::new(5, 5).unwrap();
    let path = find_path(&g, (2, 3), (2, 3)).unwrap();
    assert_eq!(path, vec![(2, 3)]);
    assert_eq!(route_cost(&g, &path), 0);
}

#[test]
fn open_grid_routes_take_chebyshev_steps() {
    let g = Grid::new(8, 12).unwrap();
    let cases = [((0, 0), (7, 3)), ((11, 7), (0, 0)), ((3, 3), (3, 7)), ((5, 1), (9, 6))];
    for (s, f) in cases {
        let path = find_path(&g, s, f).unwrap();
        assert_route(&g, &path, s, f);
        let steps = s.0.abs_diff(f.0).max(s.1.abs_diff(f.1)) as usize;
        assert_eq!(path.len() - 1, steps);
        assert_eq!(route_cost(&g, &path), steps as u64);
    }
}

#[test]
fn route_goes_through_gap_in_wall() {
    let mut g = Grid::new(6, 6).unwrap();
    for y in 0..5 {
        g.block(3, y).unwrap();
    }
    g.set_start(0, 0).unwrap();
    g.set_finish(5, 0).unwrap();
    let path = calculate_route(&g).unwrap();
    assert_route(&g, &path, (0, 0), (5, 0));
    assert!(path.contains(&(3, 5)));
}

#[test]
fn scenario_routes_around_blocked_cluster() {
    let mut g = Grid::new(10, 20).unwrap();
    g.block(5, 5).unwrap();
    g.block(5, 6).unwrap();
    g.block(6, 6).unwrap();
    g.set_start(1, 1).unwrap();
    g.set_finish(9, 9).unwrap();
    g.set_cell(4, 3, CellKind::Hard).unwrap();
    g.set_cell(4, 4, CellKind::Hard).unwrap();
    g.set_cell(4, 5, CellKind::Easy).unwrap();
    g.set_cell(4, 6, CellKind::Easy).unwrap();
    g.set_cell(4, 9, CellKind::Easy).unwrap();
    g.set_cell(5, 9, CellKind::Hard).unwrap();
    g.set_cell(4, 8, CellKind::Hard).unwrap();
    g.set_cell(5, 8, CellKind::Hard).unwrap();
    let path = calculate_route(&g).unwrap();
    assert_route(&g, &path, (1, 1), (9, 9));
    for p in [(5, 5), (5, 6), (6, 6)] {
        assert!(!path.contains(&p));
    }
    let mut so_far: u64 = 0;
    for k in 1..path.len() {
        let next = so_far + cost_of(&g, path[k]);
        assert!(next > so_far);
        so_far = next;
    }
    assert_eq!(so_far, route_cost(&g, &path));
    assert_eq!(calculate_route(&g), Ok(path));
}

#[test]
fn route_prefers_detour_over_heavy_terrain() {
    let mut g = Grid::new(3, 5).unwrap();
    g.set_cell(2, 0, CellKind::Hard).unwrap();
    g.set_cell(2, 1, CellKind::Hard).unwrap();
    let path = find_path(&g, (0, 0), (4, 0)).unwrap();
    assert_route(&g, &path, (0, 0), (4, 0));
    assert_eq!(route_cost(&g, &path), 4);
    assert!(path.contains(&(2, 2)));
}

#[test]
fn route_cost_counts_the_finish_marker() {
    let mut g = Grid::new(6, 6).unwrap();
    g.set_start(0, 0).unwrap();
    g.set_finish(5, 3).unwrap();
    let path = calculate_route(&g).unwrap();
    assert_route(&g, &path, (0, 0), (5, 3));
    assert_eq!(path.len() - 1, 5);
    assert_eq!(route_cost(&g, &path), 4 + 3);
}
