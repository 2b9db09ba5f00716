use grid_pathfinding::exit_red_zone::exit_red_zone_impl;
use grid_pathfinding::map::{Bounded, ObstacleMap};
use grid_pathfinding::point::Point2D;

struct StubMap {
    exit_cell: Option<Point2D>,
}

impl ObstacleMap for StubMap {
    fn spec_obstacle(&self, point: Point2D) -> bool {
        self.obstacle(&point)
    }

    fn spec_line_of_sight(&self, start: Point2D, end: Point2D) -> bool {
        self.line_of_sight(&start, &end)
    }

    fn obstacle(&self, point: &Point2D) -> bool {
        self.exit_cell.is_none() || self.exit_cell.unwrap() != *point
    }

    fn line_of_sight(&self, _: &(isize, isize), _: &(isize, isize)) -> bool {
        false
    }
}

impl Bounded for StubMap {
    fn spec_boundaries(&self) -> (Point2D, Point2D) {
        self.boundaries()
    }

    fn boundaries(&self) -> (Point2D, Point2D) {
        ((-20, -20), (20, 20))
    }
}

#[test]
fn no_exit_cell() {
    let result = exit_red_zone_impl(&StubMap { exit_cell: None }, &(-10, -10));
    assert_eq!(result.is_err(), true);
}

#[test]
fn exit_red_zone_happy_path() {
    let result = exit_red_zone_impl(&StubMap { exit_cell: Some((4, 2)) }, &(-10, -10));
    assert_eq!(result.is_ok(), true);
    assert_eq!(result.unwrap(), (4, 2));
}

use grid_pathfinding::grid::Grid;
use grid_pathfinding::map::GridMap;

fn blocked_where(width: usize, height: usize, blocked: impl Fn(usize, usize) -> bool) -> GridMap {
    let mut arr = vec![vec![false; height]; width];
    for x in 0..width {
        for y in 0..height {
            arr[x][y] = blocked(x, y);
        }
    }
    GridMap::new(Grid::from(arr))
}

#[test]
fn a_free_start_is_its_own_exit() {
    let map = blocked_where(7, 7, |x, y| (2..5).contains(&x) && (2..5).contains(&y));
    assert_eq!(exit_red_zone_impl(&map, &(0, 0)), Ok((0, 0)));
    assert_eq!(exit_red_zone_impl(&map, &(1, 3)), Ok((1, 3)));
    assert_eq!(exit_red_zone_impl(&map, &(6, 6)), Ok((6, 6)));
}

#[test]
fn the_exit_from_the_middle_of_a_block() {
    let map = blocked_where(7, 7, |x, y| (2..5).contains(&x) && (2..5).contains(&y));
    assert_eq!(exit_red_zone_impl(&map, &(3, 3)), Ok((1, 3)));
}

#[test]
fn the_exit_is_on_the_near_side() {
    let map = blocked_where(7, 7, |x, y| (1..6).contains(&x) && (2..5).contains(&y));
    assert_eq!(exit_red_zone_impl(&map, &(2, 3)), Ok((0, 3)));
    assert_eq!(exit_red_zone_impl(&map, &(4, 4)), Ok((4, 5)));
}

#[test]
fn the_exit_is_never_blocked() {
    let map = blocked_where(9, 9, |x, y| (x + 2 * y) % 3 != 0);
    for x in 0..9 {
        for y in 0..9 {
            let exit = exit_red_zone_impl(&map, &(x, y)).unwrap();
            assert_eq!((exit.0 + 2 * exit.1) % 3, 0);
        }
    }
}

#[test]
fn no_exit_where_all_is_blocked() {
    let map = blocked_where(5, 5, |_, _| true);
    assert_eq!(exit_red_zone_impl(&map, &(2, 2)).is_err(), true);
    assert_eq!(exit_red_zone_impl(&map, &(0, 0)).is_err(), true);
}

#[test]
fn the_one_free_cell_is_found() {
    let map = blocked_where(5, 5, |x, y| (x, y) != (4, 4));
    assert_eq!(exit_red_zone_impl(&map, &(0, 0)), Ok((4, 4)));
}

#[test]
fn exit_from_a_single_blocked_cell() {
    let map = blocked_where(1, 1, |_, _| true);
    assert_eq!(exit_red_zone_impl(&map, &(0, 0)).is_err(), true);
    let map = blocked_where(1, 1, |_, _| false);
    assert_eq!(exit_red_zone_impl(&map, &(0, 0)), Ok((0, 0)));
}
