use grid_pathfinding::errors::NoPathFoundError;

#[test]
fn no_path_found_says_so() {
    assert_eq!(NoPathFoundError().to_string(), "no path found error");
}
