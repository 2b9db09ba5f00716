use grid_pathfinding::grid::Grid;
use grid_pathfinding::map::Bounded;

#[test]
fn test_bounded() {
    let bounds = ((-1, 2), (3, 4));
    let grid = Grid::new(bounds, 0);

    assert_eq!(grid.boundaries(), bounds);
}

#[test]
fn grid_answers_as_bounded() {
    let bounds = ((-1, 2), (3, 4));
    let grid = Grid::new(bounds, 0);

    assert_eq!(Bounded::boundaries(&grid), bounds);
}

#[test]
fn grid_keeps_what_is_set() {
    let mut grid = Grid::new(((-100, -100), (100, 100)), 0);

    grid.set(&(-100, -100), 1);
    grid.set(&(0, 0), 2);
    grid.set(&(99, 99), 3);

    assert_eq!(grid.get(&(-100, -100)), 1);
    assert_eq!(grid.get(&(0, 0)), 2);
    assert_eq!(grid.get(&(99, 99)), 3);
    assert_eq!(grid.get(&(42, -42)), 0);
}

#[test]
fn grid_set_leaves_the_neighbours_alone() {
    let mut grid = Grid::new(((0, 0), (3, 2)), 'a');
    grid.set(&(1, 1), 'b');
    for x in 0..3 {
        for y in 0..2 {
            let want = if (x, y) == (1, 1) { 'b' } else { 'a' };
            assert_eq!(grid.get(&(x, y)), want);
        }
    }
    assert_eq!(grid.len(), 6);
}

#[test]
fn grid_from_rows_starts_at_the_origin() {
    let rows = vec![vec![1, 2, 3], vec![4, 5, 6]];
    let grid = Grid::from(rows);

    assert_eq!(grid.boundaries(), ((0, 0), (2, 3)));
    assert_eq!(grid.get(&(0, 0)), 1);
    assert_eq!(grid.get(&(0, 2)), 3);
    assert_eq!(grid.get(&(1, 0)), 4);
    assert_eq!(grid.get(&(1, 2)), 6);
}

#[test]
fn grid_from_no_rows_is_empty() {
    let rows: Vec<Vec<bool>> = Vec::new();
    let grid = Grid::from(rows);

    assert_eq!(grid.boundaries(), ((0, 0), (0, 0)));
    assert_eq!(grid.len(), 0);
}

#[test]
fn grid_without_cells() {
    let grid = Grid::new(((5, 5), (5, 9)), 1u8);
    assert_eq!(grid.boundaries(), ((5, 5), (5, 9)));
    assert_eq!(grid.len(), 0);
}
