use grid_pathfinding::point::{
    add_costs, euclidean_distance, is_in_bounds, COST_UNIT, INFINITE_COST,
};

#[test]
fn distance_of_whole_length_is_exact() {
    assert_eq!(euclidean_distance(&(0, 0), &(3, 4)), 5 * COST_UNIT);
    assert_eq!(euclidean_distance(&(-3, -4), &(0, 0)), 5 * COST_UNIT);
    assert_eq!(euclidean_distance(&(7, -2), &(7, -2)), 0);
    assert_eq!(euclidean_distance(&(0, 9), &(0, -1)), 10 * COST_UNIT);
}

#[test]
fn distance_is_rounded_down() {
    // The square root of 2, times 2^32, is 6074000999.95...
    assert_eq!(euclidean_distance(&(0, 0), &(1, 1)), 6_074_000_999);
    assert_eq!(euclidean_distance(&(1, 1), &(0, 0)), 6_074_000_999);
    // The square root of 5, times 2^32, is 9603838834.99...
    assert_eq!(euclidean_distance(&(0, 0), &(1, 2)), 9_603_838_834);
}

#[test]
fn distance_between_far_points() {
    let far_left = (-(1isize << 62), 0);
    let far_right = ((1isize << 62) - 1, 0);
    assert_eq!(
        euclidean_distance(&far_left, &far_right),
        ((1u128 << 63) - 1) * COST_UNIT
    );
}

#[test]
fn costs_add_up() {
    assert_eq!(add_costs(0, 0), 0);
    assert_eq!(add_costs(3 * COST_UNIT, 4 * COST_UNIT), 7 * COST_UNIT);
}

#[test]
fn costs_stay_infinite() {
    assert_eq!(add_costs(INFINITE_COST, 0), INFINITE_COST);
    assert_eq!(add_costs(INFINITE_COST, COST_UNIT), INFINITE_COST);
    assert_eq!(add_costs(COST_UNIT, INFINITE_COST), INFINITE_COST);
    assert_eq!(add_costs(INFINITE_COST - 1, 1), INFINITE_COST);
    assert_eq!(add_costs(INFINITE_COST - 2, 1), INFINITE_COST - 1);
    assert_eq!(add_costs(INFINITE_COST, INFINITE_COST), INFINITE_COST);
}

#[test]
fn bounds_are_half_open() {
    let bounds = ((-2, -3), (4, 5));
    assert!(is_in_bounds((-2, -3), bounds));
    assert!(is_in_bounds((3, 4), bounds));
    assert!(is_in_bounds((0, 0), bounds));
    assert!(!is_in_bounds((4, 0), bounds));
    assert!(!is_in_bounds((0, 5), bounds));
    assert!(!is_in_bounds((-3, 0), bounds));
    assert!(!is_in_bounds((0, -4), bounds));
}

#[test]
fn distance_is_the_euclidean_distance() {
    // Against the square root in floating point, which is right to about 16
    // digits: the two agree to within one unit of cost in ten thousand
    // millions.
    for ax in -6isize..=6 {
        for ay in -6isize..=6 {
            for bx in [-40isize, -3, 0, 1, 2, 17, 1000] {
                for by in [-1000isize, -2, 0, 3, 5, 99] {
                    let got = euclidean_distance(&(ax, ay), &(bx, by));
                    let dx = (ax - bx) as f64;
                    let dy = (ay - by) as f64;
                    let want = (dx * dx + dy * dy).sqrt() * (COST_UNIT as f64);
                    assert!((got as f64 - want).abs() <= 1.0 + want * 1e-10);
                    assert!(got as f64 <= want * (1.0 + 1e-15) + 1e-3);
                }
            }
        }
    }
}

#[test]
fn distance_grows_with_the_squared_distance() {
    let mut gaps: Vec<(isize, isize)> = Vec::new();
    for dx in 0isize..=12 {
        for dy in 0isize..=12 {
            gaps.push((dx, dy));
        }
    }
    for a in &gaps {
        for b in &gaps {
            let (sa, sb) = (a.0 * a.0 + a.1 * a.1, b.0 * b.0 + b.1 * b.1);
            let (da, db) = (euclidean_distance(&(0, 0), a), euclidean_distance(&(0, 0), b));
            assert_eq!(sa < sb, da < db);
            assert_eq!(sa == sb, da == db);
        }
    }
}
