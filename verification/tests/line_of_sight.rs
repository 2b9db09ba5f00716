use grid_pathfinding::grid::Grid;
use grid_pathfinding::line_of_sight::{
    all_free, all_free_in_grid, grid_line_of_sight, line_of_sight,
};
use grid_pathfinding::map::{GridMap, ObstacleMap};

#[test]
fn test_free_line_of_sight() {
    let obstacles = vec![vec![false; 10]; 10];

    assert_eq!(line_of_sight(&(0, 0), &(9, 9), &GridMap::new(Grid::from(obstacles))), true);
}

#[test]
fn test_blocked_line_of_sight() {
    let obstacles = {
        let mut arr = vec![vec![true; 10]; 10];
        arr[0][0] = false;
        arr[9][9] = false;
        arr
    };

    assert_eq!(line_of_sight(&(0, 0), &(9, 9), &GridMap::new(Grid::from(obstacles))), false);
}

fn one_blocked(width: usize, height: usize, blocked: (usize, usize)) -> GridMap {
    let mut arr = vec![vec![false; height]; width];
    arr[blocked.0][blocked.1] = true;
    GridMap::new(Grid::from(arr))
}

#[test]
fn a_blocked_cell_on_the_line_hides_the_end() {
    // The line from (0, 1) to (6, 4) runs over (1, 1), (2, 2), (3, 2), (4, 3), (5, 3).
    for blocked in [(1, 1), (2, 2), (3, 2), (4, 3), (5, 3)] {
        let map = one_blocked(7, 5, blocked);
        assert_eq!(line_of_sight(&(0, 1), &(6, 4), &map), false);
        assert_eq!(map.line_of_sight(&(0, 1), &(6, 4)), false);
    }
}

#[test]
fn a_blocked_cell_beside_the_line_hides_nothing() {
    for blocked in [(1, 2), (2, 1), (3, 3), (4, 2), (5, 4), (0, 0), (6, 0)] {
        let map = one_blocked(7, 5, blocked);
        assert_eq!(line_of_sight(&(0, 1), &(6, 4), &map), true);
        assert_eq!(map.line_of_sight(&(0, 1), &(6, 4)), true);
    }
}

#[test]
fn a_blocked_end_is_not_seen() {
    let map = one_blocked(7, 5, (6, 4));
    assert_eq!(line_of_sight(&(0, 1), &(6, 4), &map), false);
    let map = one_blocked(7, 5, (0, 1));
    assert_eq!(line_of_sight(&(0, 1), &(6, 4), &map), false);
}

#[test]
fn sight_along_a_diagonal_is_mutual() {
    // Both ways the line runs over (0, 0), (1, 1), (2, 2), (3, 3).
    for blocked in [(1, 1), (2, 2), (0, 3), (3, 0), (1, 2)] {
        let map = one_blocked(4, 4, blocked);
        assert_eq!(
            line_of_sight(&(0, 0), &(3, 3), &map),
            line_of_sight(&(3, 3), &(0, 0), &map)
        );
    }
    let map = one_blocked(4, 4, (1, 1));
    assert_eq!(line_of_sight(&(0, 0), &(3, 3), &map), false);
    let map = one_blocked(4, 4, (1, 2));
    assert_eq!(line_of_sight(&(3, 3), &(0, 0), &map), true);
}

#[test]
fn sight_need_not_be_mutual() {
    // From (0, 1) the line to (6, 4) runs over (1, 1); from (6, 4) it runs over (1, 2).
    let map = one_blocked(7, 5, (1, 1));
    assert_eq!(line_of_sight(&(0, 1), &(6, 4), &map), false);
    assert_eq!(line_of_sight(&(6, 4), &(0, 1), &map), true);
}

#[test]
fn a_free_cell_sees_itself() {
    let map = one_blocked(3, 3, (1, 1));
    assert_eq!(line_of_sight(&(0, 0), &(0, 0), &map), true);
    assert_eq!(map.line_of_sight(&(2, 2), &(2, 2)), true);
    assert_eq!(line_of_sight(&(1, 1), &(1, 1), &map), false);
    assert_eq!(map.line_of_sight(&(1, 1), &(1, 1)), false);
}

#[test]
fn neighbours_see_each_other_past_a_blocked_corner() {
    let mut arr = vec![vec![false; 2]; 2];
    arr[0][1] = true;
    arr[1][0] = true;
    let map = GridMap::new(Grid::from(arr));
    assert_eq!(line_of_sight(&(0, 0), &(1, 1), &map), true);
}

#[test]
fn sight_over_the_bare_grid() {
    let mut arr = vec![vec![false; 5]; 7];
    arr[3][2] = true;
    let grid = Grid::from(arr);
    assert_eq!(grid_line_of_sight(&(0, 1), &(6, 4), &grid), false);
    assert_eq!(grid_line_of_sight(&(0, 0), &(6, 0), &grid), true);
}

#[test]
fn cells_are_free_until_one_is_blocked() {
    let map = one_blocked(4, 4, (2, 1));
    assert_eq!(all_free(&vec![(0, 0), (1, 0), (3, 3)], &map), true);
    assert_eq!(all_free(&vec![(0, 0), (2, 1), (3, 3)], &map), false);
    assert_eq!(all_free(&vec![(2, 1)], &map), false);
    assert_eq!(all_free(&Vec::new(), &map), true);

    let mut arr = vec![vec![false; 4]; 4];
    arr[2][1] = true;
    let grid = Grid::from(arr);
    assert_eq!(all_free_in_grid(&vec![(0, 0), (1, 0), (3, 3)], &grid), true);
    assert_eq!(all_free_in_grid(&vec![(0, 0), (3, 3), (2, 1)], &grid), false);
    assert_eq!(all_free_in_grid(&Vec::new(), &grid), true);
}
