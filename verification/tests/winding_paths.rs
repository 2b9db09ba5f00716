use grid_pathfinding::find_path::find_path_impl;
use grid_pathfinding::grid::Grid;
use grid_pathfinding::map::GridMap;

/// The map drawn by `columns`: one string for each `x`, one character for each
/// `y` from 0 up, `#` where the cell is blocked.
fn map_of(columns: &[&str]) -> GridMap {
    let arr: Vec<Vec<bool>> =
        columns.iter().map(|column| column.chars().map(|c| c == '#').collect()).collect();
    GridMap::new(Grid::from(arr))
}

#[test]
fn first_winding_path() {
    let map = map_of(&[
        "......#.",
        "...#.##.",
        "###..##.",
        "#.#...#.",
        ".....#.#",
        ".#.....#",
        ".#......",
    ]);
    let got = find_path_impl(&map, (3, 7), (0, 0)).unwrap();
    assert_eq!(got, vec![(3, 7), (4, 6), (3, 5), (1, 2), (0, 0)]);
}

#[test]
fn second_winding_path() {
    let map = map_of(&[
        "...#...",
        ".......",
        "....#..",
        "......#",
        ".....#.",
        "......#",
        "#....#.",
        ".......",
        ".#.....",
    ]);
    let got = find_path_impl(&map, (6, 1), (1, 5)).unwrap();
    assert_eq!(got, vec![(6, 1), (3, 4), (2, 5), (1, 5)]);
}

#[test]
fn third_winding_path() {
    let map = map_of(&[
        ".#...",
        ".#.#.",
        ".###.",
        "..#.#",
        "....#",
    ]);
    let got = find_path_impl(&map, (4, 0), (1, 2)).unwrap();
    assert_eq!(got, vec![(4, 0), (3, 1), (2, 4), (0, 3), (1, 2)]);
}

#[test]
fn fourth_winding_path() {
    let map = map_of(&[
        "#...#",
        ".....",
        "...#.",
        ".....",
        ".###.",
        ".#.##",
        "#.##.",
        ".##..",
        "#...#",
    ]);
    let got = find_path_impl(&map, (8, 2), (2, 0)).unwrap();
    assert_eq!(got, vec![(8, 2), (7, 0), (6, 1), (5, 0), (2, 0)]);
}

#[test]
fn fifth_winding_path() {
    let map = map_of(&[
        ".....##.",
        ".#.....#",
        "..#.#.##",
        ".#..##.#",
        "#..#.##.",
        ".#..##..",
    ]);
    let got = find_path_impl(&map, (0, 7), (3, 3)).unwrap();
    assert_eq!(got, vec![(0, 7), (1, 6), (2, 3), (3, 3)]);
}

#[test]
fn sixth_winding_path() {
    let map = map_of(&[
        "#....",
        "#..#.",
        ".#...",
        ".#...",
        ".....",
        "..##.",
        ".#.#.",
        "#..#.",
        "#....",
    ]);
    let got = find_path_impl(&map, (2, 2), (8, 3)).unwrap();
    assert_eq!(got, vec![(2, 2), (4, 1), (6, 2), (8, 3)]);
}

#[test]
fn seventh_winding_path() {
    let map = map_of(&[
        ".....#..",
        ".#...##.",
        "......#.",
        "..#.....",
        "......#.",
    ]);
    let got = find_path_impl(&map, (4, 7), (0, 0)).unwrap();
    assert_eq!(got, vec![(4, 7), (3, 6), (1, 3), (1, 2), (0, 1), (0, 0)]);
}

#[test]
fn eighth_winding_path() {
    let map = map_of(&[
        "##.#..#",
        "...##..",
        "#.#.#.#",
        ".....#.",
        ".#####.",
        "..##...",
        ".....#.",
        ".###.#.",
        "#.#..#.",
    ]);
    let got = find_path_impl(&map, (3, 0), (8, 4)).unwrap();
    assert_eq!(got, vec![(3, 0), (6, 2), (7, 4), (8, 4)]);
}

#[test]
fn ninth_winding_path() {
    let map = map_of(&[
        "....##.",
        "....#..",
        "#...#.#",
        ".#.#...",
        ".......",
        "...##.#",
        "#.#..#.",
        ".#...#.",
        "..#.#..",
    ]);
    let got = find_path_impl(&map, (7, 6), (6, 1)).unwrap();
    assert_eq!(got, vec![(7, 6), (8, 5), (7, 4), (6, 1)]);
}

#[test]
fn tenth_winding_path() {
    let map = map_of(&[
        ".#.#.##",
        "##....#",
        "#.#.#..",
        "#.#...#",
        "....###",
        "...#...",
        "#.#.###",
    ]);
    let got = find_path_impl(&map, (1, 5), (5, 6)).unwrap();
    assert_eq!(got, vec![(1, 5), (2, 3), (5, 4), (5, 6)]);
}
