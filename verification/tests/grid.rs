use std::cell::RefCell;
use std::collections::HashSet;

use cinnabar::counter::Counter;
use cinnabar::graphs::grid::{adjacent, adjacent_vertices, edge_coords, inside, Coords};
use cinnabar::graphs::Grid;
use cinnabar::index::Unique;
use cinnabar::providers::{EdgeProvider, VertexProvider};
use cinnabar::topology::Topology;
use cinnabar::traversal::{bfs, dfs};
use cinnabar::utils::UnorderedPair;

const ROWS: usize = 3;
const COLS: usize = 4;

fn create_grid() -> Grid<Counter> {
    Grid::new(ROWS, COLS)
}

fn same_edges(left: &[UnorderedPair<Counter>], right: &[UnorderedPair<Counter>]) -> bool {
    left.iter().all(|edge| right.contains(edge)) && right.iter().all(|edge| left.contains(edge))
}

#[test]
fn inside_test() {
    assert!(inside(1, -1, 5));
    assert!(inside(5, -1, 5));
    assert!(inside(0, 1, 5));
    assert!(inside(3, 1, 5));
    assert!(!inside(4, 1, 5));
    assert!(!inside(0, -1, 5));
    assert!(!inside(5, 1, 5));
    assert!(!inside(6, 1, 5));
}

#[test]
fn adjacent_test() {
    assert!(adjacent(5, 3, 5, 4));
    assert!(adjacent(5, 4, 5, 3));
    assert!(adjacent(3, 5, 4, 5));
    assert!(adjacent(4, 5, 3, 5));
    assert!(!adjacent(4, 5, 4, 5));
    assert!(!adjacent(3, 5, 6, 5));
    assert!(!adjacent(6, 5, 3, 5));
    assert!(!adjacent(5, 3, 5, 6));
    assert!(!adjacent(5, 6, 5, 3));
    assert!(!adjacent(5, 3, 6, 4));
}

#[test]
fn grid_should_have_correct_order() {
    let grid = create_grid();
    assert_eq!(grid.order(), ROWS * COLS, "graph order is invalid");
}

#[test]
fn grid_should_have_correct_size() {
    let grid = create_grid();
    assert_eq!(grid.size(), ROWS * (COLS - 1) + COLS * (ROWS - 1));
}

#[test]
fn grid_traverse_should_visit_all_vertices() {
    let grid = create_grid();
    let ids = grid.traverse_by_rows();
    for i in 0..ROWS {
        for j in 0..COLS {
            let id = grid.at(i, j).unwrap();
            assert!(ids.contains(&id));
        }
    }
    assert_eq!(ids.len(), ROWS * COLS);
}

#[test]
fn grid_construction_can_be_inspected() {
    let mut inspector_ids = HashSet::new();
    let grid = Grid::with_inspector(ROWS, COLS, |id: Counter, _, _| {
        inspector_ids.insert(id);
    });
    let traversal_ids = grid.traverse_by_rows().into_iter().collect::<HashSet<_>>();
    assert_eq!(inspector_ids, traversal_ids);
}

#[test]
fn grid_vertices_can_be_dfs_traversed() {
    let grid = create_grid();
    let start = grid.at(0, 0).unwrap();
    let ids = dfs(&grid.vertices(), start);
    for i in 0..ROWS {
        for j in 0..COLS {
            let id = grid.at(i, j).unwrap();
            assert!(ids.contains(&id));
        }
    }
    assert_eq!(ids.len(), ROWS * COLS);
}

#[test]
fn grid_vertices_can_be_bfs_traversed() {
    let grid = create_grid();
    let start = grid.at(0, 0).unwrap();
    let ids = bfs(&grid.vertices(), start);
    for i in 0..ROWS {
        for j in 0..COLS {
            let id = grid.at(i, j).unwrap();
            assert!(ids.contains(&id));
        }
    }
    assert_eq!(ids.len(), ROWS * COLS);
}

#[test]
fn grid_edges_can_be_dfs_traversed() {
    let grid = create_grid();
    let a = grid.at(0, 0).unwrap();
    let b = grid.at(0, 1).unwrap();
    let dfs_edges = dfs(&grid.edges(), UnorderedPair(a, b));
    let all_edges = grid.edges().iter();
    assert!(same_edges(&dfs_edges, &all_edges));
    assert_eq!(dfs_edges.len(), all_edges.len());
}

#[test]
fn grid_edges_can_be_bfs_traversed() {
    let grid = create_grid();
    let a = grid.at(0, 0).unwrap();
    let b = grid.at(0, 1).unwrap();
    let dfs_edges = bfs(&grid.edges(), UnorderedPair(a, b));
    let all_edges = grid.edges().iter();
    assert!(same_edges(&dfs_edges, &all_edges));
    assert_eq!(dfs_edges.len(), all_edges.len());
}

#[test]
fn rows_are_walked_in_reading_order() {
    let seen = RefCell::new(Vec::new());
    let grid = Grid::with_inspector(2, 3, |id: Counter, row, column| {
        seen.borrow_mut().push((id, row, column));
    });
    let seen = seen.into_inner();
    let places: Vec<(usize, usize)> = seen.iter().map(|(_, row, column)| (*row, *column)).collect();
    assert_eq!(places, vec![(0, 0), (0, 1), (0, 2), (1, 0), (1, 1), (1, 2)]);
    let ids: Vec<Counter> = seen.iter().map(|(id, _, _)| *id).collect();
    assert_eq!(grid.traverse_by_rows(), ids);
    assert_eq!(grid.vertices().iter(), ids);
    assert_eq!(grid.at(0, 0), Some(ids[0]));
    assert_eq!(grid.at(1, 2), Some(ids[5]));
}

#[test]
fn lookups_answer_absent_out_of_range() {
    let grid = create_grid();
    assert_eq!(grid.at(ROWS, 0), None);
    assert_eq!(grid.at(0, COLS), None);
    assert_eq!(grid.at(usize::MAX, usize::MAX), None);
    let other: Grid<Counter> = Grid::new(5, 5);
    let stranger = other.at(4, 4).unwrap();
    assert!(grid.coords_of(stranger).is_none());
    assert!(!grid.vertices().contains(stranger));
    assert_eq!(grid.vertices().adjacent_to(stranger), None);
    assert_eq!(dfs(&grid.vertices(), stranger), vec![]);
}

#[test]
fn coords_and_identifiers_correspond() {
    let grid = create_grid();
    for row in 0..ROWS {
        for column in 0..COLS {
            let id = grid.at(row, column).unwrap();
            let Coords(r, c) = grid.coords_of(id).unwrap();
            assert_eq!((r, c), (row, column));
        }
    }
    let mut ids = grid.traverse_by_rows();
    ids.sort_by_key(|id| format!("{:?}", id));
    ids.dedup();
    assert_eq!(ids.len(), ROWS * COLS);
}

fn places(found: Vec<Coords>) -> Vec<(usize, usize)> {
    found.into_iter().map(|Coords(row, column)| (row, column)).collect()
}

#[test]
fn neighbors_are_right_left_below_above() {
    let grid = create_grid();
    assert_eq!(places(grid.neighbors_of(1, 1)), vec![(1, 2), (1, 0), (2, 1), (0, 1)]);
    assert_eq!(places(grid.neighbors_of(0, 0)), vec![(0, 1), (1, 0)]);
    assert_eq!(places(grid.neighbors_of(2, 3)), vec![(2, 2), (1, 3)]);
    assert_eq!(places(grid.neighbors_of(0, 3)), vec![(0, 2), (1, 3)]);
    assert_eq!(places(grid.neighbors_of(7, 7)), vec![]);
    let single: Grid<Counter> = Grid::new(1, 1);
    assert_eq!(places(single.neighbors_of(0, 0)), vec![]);
}

#[test]
fn grid_sizes_follow_the_formula() {
    for rows in 1..5usize {
        for columns in 1..5usize {
            let grid: Grid<Counter> = Grid::new(rows, columns);
            assert_eq!(grid.order(), rows * columns);
            assert_eq!(grid.size(), rows * (columns - 1) + columns * (rows - 1));
            assert_eq!(grid.edges().iter().len(), grid.size());
            assert_eq!(grid.traverse_by_rows().len(), rows * columns);
        }
    }
    let single: Grid<Counter> = Grid::new(1, 1);
    assert_eq!(single.size(), 0);
    assert_eq!(single.order(), 1);
}

#[test]
fn empty_grids_hold_nothing() {
    for (rows, columns) in [(0usize, 0usize), (0, 3), (3, 0)] {
        let grid: Grid<Counter> = Grid::new(rows, columns);
        assert_eq!(grid.order(), 0);
        assert_eq!(grid.size(), 0);
        assert_eq!(grid.traverse_by_rows(), vec![]);
        assert_eq!(grid.vertices().iter(), vec![]);
        assert_eq!(grid.edges().iter(), vec![]);
        assert_eq!(grid.at(0, 0), None);
    }
}

#[test]
fn edges_are_listed_along_rows_then_columns() {
    let grid: Grid<Counter> = Grid::new(2, 2);
    let id = |row, column| grid.at(row, column).unwrap();
    let listed = grid.edges().iter();
    let expected = vec![
        UnorderedPair(id(0, 0), id(0, 1)),
        UnorderedPair(id(1, 0), id(1, 1)),
        UnorderedPair(id(0, 0), id(1, 0)),
        UnorderedPair(id(0, 1), id(1, 1)),
    ];
    assert_eq!(listed.len(), 4);
    for (found, wanted) in listed.iter().zip(expected.iter()) {
        assert_eq!((found.0, found.1), (wanted.0, wanted.1));
    }
}

#[test]
fn edge_membership_is_adjacency_of_places() {
    let grid = create_grid();
    let id = |row, column| grid.at(row, column).unwrap();
    let edges = grid.edges();
    assert!(edges.contains(UnorderedPair(id(0, 0), id(0, 1))));
    assert!(edges.contains(UnorderedPair(id(0, 1), id(0, 0))));
    assert!(edges.contains(UnorderedPair(id(1, 2), id(2, 2))));
    assert!(!edges.contains(UnorderedPair(id(0, 0), id(1, 1))));
    assert!(!edges.contains(UnorderedPair(id(0, 0), id(0, 2))));
    assert!(!edges.contains(UnorderedPair(id(0, 0), id(0, 0))));
    assert!(!edges.contains(UnorderedPair(id(0, 3), id(1, 0))));
    for a in grid.traverse_by_rows() {
        for b in grid.traverse_by_rows() {
            let pair = UnorderedPair(a, b);
            assert_eq!(edges.adjacent_to(pair).is_none(), !edges.contains(pair));
        }
    }
}

#[test]
fn edges_next_to_an_edge_share_one_end() {
    let grid: Grid<Counter> = Grid::new(2, 2);
    let id = |row, column| grid.at(row, column).unwrap();
    let found = grid.edges().adjacent_to(UnorderedPair(id(0, 0), id(0, 1))).unwrap();
    let expected = vec![(id(0, 0), id(1, 0)), (id(0, 1), id(1, 1))];
    let found: Vec<(Counter, Counter)> = found.into_iter().map(Into::into).collect();
    assert_eq!(found, expected);
}

#[test]
fn helper_lookups_report_both_places() {
    let grid = create_grid();
    let a = grid.at(1, 1).unwrap();
    let b = grid.at(1, 2).unwrap();
    let (Coords(ar, ac), Coords(br, bc)) = edge_coords(&grid, a, b).unwrap();
    assert_eq!((ar, ac, br, bc), (1, 1, 1, 2));
    let other: Grid<Counter> = Grid::new(4, 4);
    let stranger = other.at(3, 3).unwrap();
    assert!(edge_coords(&grid, a, stranger).is_none());
    assert!(edge_coords(&grid, stranger, a).is_none());
    let spokes = adjacent_vertices(&grid, a, b).unwrap();
    assert_eq!(spokes, vec![(a, grid.at(1, 0).unwrap()), (a, grid.at(2, 1).unwrap()), (a, grid.at(0, 1).unwrap())]);
    assert!(adjacent_vertices(&grid, stranger, a).is_none());
}

#[test]
fn bfs_on_a_grid_visits_nearer_cells_first() {
    let grid = create_grid();
    let start = grid.at(0, 0).unwrap();
    let order = bfs(&grid.vertices(), start);
    let mut last = 0;
    for id in order {
        let Coords(row, column) = grid.coords_of(id).unwrap();
        assert!(row + column >= last);
        last = row + column;
    }
}

#[test]
fn a_shared_series_gives_grids_apart() {
    let mut source = Counter::first();
    let first: Grid<Counter> = Grid::with_source(2, 2, &mut source, |_, _, _| ());
    let second: Grid<Counter> = Grid::with_source(2, 2, &mut source, |_, _, _| ());
    for id in first.traverse_by_rows() {
        assert!(second.coords_of(id).is_none());
    }
    for id in second.traverse_by_rows() {
        assert!(first.coords_of(id).is_none());
    }
}

#[test]
fn a_grid_is_refused_where_the_series_is_too_short() {
    let mut source = Counter::first();
    assert!(source.has_room(usize::MAX));
    let first = source.generate();
    assert!(!source.has_room(usize::MAX));
    assert!(source.has_room(usize::MAX - 1));
    let refused: Option<Grid<Counter>> =
        Grid::try_with_source(usize::MAX, 1, &mut source, |_, _, _| ());
    assert!(refused.is_none());
    let too_wide: Option<Grid<Counter>> =
        Grid::try_with_source(usize::MAX / 2 + 1, 2, &mut source, |_, _, _| ());
    assert!(too_wide.is_none());
    // Nothing was issued meanwhile: the next grid starts right after `first`.
    let next = source;
    let grid: Grid<Counter> = Grid::try_with_source(1, 2, &mut source, |_, _, _| ()).unwrap();
    assert_eq!(grid.at(0, 0), Some(next));
    assert_ne!(grid.at(0, 0), Some(first));
    assert_eq!(grid.order(), 2);
}

#[test]
fn cells_take_the_identifiers_in_the_order_of_issue() {
    let mut series = Counter::first();
    let expected = cinnabar::index::generate_many(&mut series, 6);
    let grid: Grid<Counter> = Grid::new(2, 3);
    assert_eq!(grid.traverse_by_rows(), expected);
    assert_eq!(grid.at(1, 0), Some(expected[3]));
    let mut source = Counter::first();
    source.generate();
    let later: Grid<Counter> = Grid::with_source(1, 2, &mut source, |_, _, _| ());
    assert_eq!(later.traverse_by_rows(), vec![expected[1], expected[2]]);
    assert_eq!(source, expected[3]);
}
