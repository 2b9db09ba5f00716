use grid_pathfinding::neighbors::{
    down, downleft, downright, get_neighbors, left, right, up, upleft, upright,
};
use grid_pathfinding::point::Point2D;
use std::collections::HashSet;

fn assert_same_elements(got: &HashSet<Point2D>, want: &[Point2D]) {
    assert_eq!(got.len(), want.len());
    for pos in want.iter() {
        assert_eq!(got.contains(&pos), true);
    }
}

#[test]
fn test_neighbors_happy_path() {
    let neighbors: HashSet<Point2D> =
        get_neighbors((1, 1), ((0, 0), (100, 100))).into_iter().collect();
    let want = [(2, 1), (1, 2), (0, 1), (1, 0), (2, 2), (0, 2), (0, 0), (2, 0)];
    assert_same_elements(&neighbors, &want);
}

#[test]
fn test_neighbors_in_top_left_corner() {
    let neighbors: HashSet<Point2D> =
        get_neighbors((99, 99), ((0, 0), (100, 100))).into_iter().collect();
    let want = [(98, 99), (99, 98), (98, 98)];
    assert_same_elements(&neighbors, &want);
}

#[test]
fn test_neighbors_in_bottom_right_corner() {
    let neighbors: HashSet<Point2D> =
        get_neighbors((0, 0), ((0, 0), (100, 100))).into_iter().collect();
    let want = [(1, 1), (1, 0), (0, 1)];
    assert_same_elements(&neighbors, &want);
}

#[test]
fn neighbors_come_straight_first_then_diagonal() {
    let got = get_neighbors((1, 1), ((0, 0), (100, 100)));
    assert_eq!(
        got,
        vec![(2, 1), (1, 2), (0, 1), (1, 0), (2, 2), (0, 2), (0, 0), (2, 0)]
    );
}

#[test]
fn neighbors_at_the_corners_in_order() {
    let bounds = ((0, 0), (100, 100));
    assert_eq!(get_neighbors((0, 0), bounds), vec![(1, 0), (0, 1), (1, 1)]);
    assert_eq!(get_neighbors((99, 99), bounds), vec![(98, 99), (99, 98), (98, 98)]);
    assert_eq!(get_neighbors((0, 99), bounds), vec![(1, 99), (0, 98), (1, 98)]);
    assert_eq!(get_neighbors((99, 0), bounds), vec![(99, 1), (98, 0), (98, 1)]);
}

#[test]
fn neighbors_on_an_edge_below_zero() {
    let bounds = ((-5, -5), (5, 5));
    assert_eq!(
        get_neighbors((-5, 0), bounds),
        vec![(-4, 0), (-5, 1), (-5, -1), (-4, 1), (-4, -1)]
    );
}

#[test]
fn single_cell_has_no_neighbors() {
    assert_eq!(get_neighbors((3, 3), ((3, 3), (4, 4))), Vec::<Point2D>::new());
}

#[test]
fn steps_stop_at_the_bounds() {
    let bounds = ((0, 0), (3, 3));
    assert_eq!(right(&(1, 1), &bounds), Some((2, 1)));
    assert_eq!(right(&(2, 1), &bounds), None);
    assert_eq!(up(&(1, 1), &bounds), Some((1, 2)));
    assert_eq!(up(&(1, 2), &bounds), None);
    assert_eq!(left(&(1, 1), &bounds), Some((0, 1)));
    assert_eq!(left(&(0, 1), &bounds), None);
    assert_eq!(down(&(1, 1), &bounds), Some((1, 0)));
    assert_eq!(down(&(1, 0), &bounds), None);
}

#[test]
fn diagonal_steps_need_both_straight_steps() {
    let bounds = ((0, 0), (3, 3));
    assert_eq!(upright(&(1, 1), &bounds), Some((2, 2)));
    assert_eq!(upright(&(2, 1), &bounds), None);
    assert_eq!(upright(&(1, 2), &bounds), None);
    assert_eq!(upleft(&(1, 1), &bounds), Some((0, 2)));
    assert_eq!(upleft(&(0, 1), &bounds), None);
    assert_eq!(downright(&(1, 1), &bounds), Some((2, 0)));
    assert_eq!(downright(&(1, 0), &bounds), None);
    assert_eq!(downleft(&(1, 1), &bounds), Some((0, 0)));
    assert_eq!(downleft(&(0, 0), &bounds), None);
}

#[test]
fn steps_at_the_end_of_the_numbers() {
    let bounds = ((isize::MIN, isize::MIN), (isize::MAX, isize::MAX));
    assert_eq!(left(&(isize::MIN, 0), &bounds), None);
    assert_eq!(down(&(0, isize::MIN), &bounds), None);
    assert_eq!(right(&(isize::MAX - 1, 0), &bounds), None);
    assert_eq!(up(&(0, isize::MAX - 1), &bounds), None);
    assert_eq!(right(&(isize::MAX - 2, 0), &bounds), Some((isize::MAX - 1, 0)));
}
