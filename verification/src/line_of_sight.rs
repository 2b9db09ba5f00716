//! Whether a straight segment between two cells is free of blocked cells.

use crate::grid::Grid;
use crate::map::ObstacleMap;
use crate::point::{in_bounds, valid_extent, Point2D};
use vstd::prelude::*;

verus! {

/// The cells that `bresenham::Bresenham::new(start, end)` yields, in the
/// order in which it yields them.
pub uninterp spec fn bresenham_cells(start: (isize, isize), end: (isize, isize)) -> Seq<
    (isize, isize),
>;

/// The line from `start` to `end` can be drawn without leaving `isize`:
/// no coordinate is `isize::MIN`, whose negative does not exist, and the
/// two points are no further apart along an axis than `isize::MAX`.
pub open spec fn line_defined(start: Point2D, end: Point2D) -> bool {
    &&& start.0 > isize::MIN && start.1 > isize::MIN
    &&& end.0 > isize::MIN && end.1 > isize::MIN
    &&& -isize::MAX <= end.0 - start.0 <= isize::MAX
    &&& -isize::MAX <= end.1 - start.1 <= isize::MAX
}

/// `c` lies in the smallest rectangle that holds both `a` and `b`.
pub open spec fn between(a: Point2D, b: Point2D, c: Point2D) -> bool {
    &&& (a.0 <= c.0 <= b.0 || b.0 <= c.0 <= a.0)
    &&& (a.1 <= c.1 <= b.1 || b.1 <= c.1 <= a.1)
}

/// The cells that a sight line from `start` to `end` visits: the drawn
/// line, which leaves `end` out, and then `end`.
pub open spec fn sight_line(start: Point2D, end: Point2D) -> Seq<Point2D> {
    bresenham_cells(start, end).push(end)
}

/// None of the cells is blocked on the map.
pub open spec fn free_of_obstacles<M: ObstacleMap>(map: &M, cells: Seq<Point2D>) -> bool {
    forall|i: int| 0 <= i < cells.len() ==> !map.spec_obstacle(#[trigger] cells[i])
}

/// None of the cells is blocked in the grid.
pub open spec fn free_in_grid(grid: Grid<bool>, cells: Seq<Point2D>) -> bool {
    forall|i: int| 0 <= i < cells.len() ==> !grid.at(#[trigger] cells[i])
}

/// No cell of the sight line from `start` to `end` is blocked on the map.
pub open spec fn unobstructed<M: ObstacleMap>(map: &M, start: Point2D, end: Point2D) -> bool {
    free_of_obstacles(map, sight_line(start, end))
}

/// No cell of the sight line from `start` to `end` is blocked in `grid`.
pub open spec fn grid_unobstructed(grid: Grid<bool>, start: Point2D, end: Point2D) -> bool {
    free_in_grid(grid, sight_line(start, end))
}

/// Calls `bresenham::Bresenham::new(start, end)` and collects what the
/// iterator yields. Believed of it, from the crate's source: the cells come
/// as `bresenham_cells` names them, and each lies in the rectangle spanned
/// by the two end points (the line is drawn in the first octant, where `x`
/// runs from the start's to just before the end's and `y` never passes the
/// end's, and is turned back by the inverse of the turn that brought the end
/// points there).
#[verifier::external_body]
fn bresenham_line(start: Point2D, end: Point2D) -> (cells: Vec<Point2D>)
    requires
        line_defined(start, end),
    ensures
        cells@ == bresenham_cells(start, end),
        forall|i: int| 0 <= i < cells@.len() ==> between(start, end, #[trigger] cells@[i]),
{
    bresenham::Bresenham::new(start, end).collect()
}

/// Two cells of a valid rectangle that keeps clear of `isize::MIN` have a
/// line, and whatever lies between them lies in the rectangle.
pub proof fn lemma_line_in_bounds(start: Point2D, end: Point2D, bounds: (Point2D, Point2D))
    requires
        valid_extent(bounds),
        bounds.0.0 > isize::MIN,
        bounds.0.1 > isize::MIN,
        in_bounds(start, bounds),
        in_bounds(end, bounds),
    ensures
        line_defined(start, end),
        forall|c: Point2D| between(start, end, c) ==> in_bounds(c, bounds),
{
}

/// Where the sight line from `a` to `b` and the one from `b` to `a` visit
/// the same cells, `a` sees `b` exactly if `b` sees `a`.
pub proof fn lemma_sight_is_mutual<M: ObstacleMap>(map: &M, a: Point2D, b: Point2D)
    requires
        sight_line(a, b).to_set() == sight_line(b, a).to_set(),
    ensures
        unobstructed(map, a, b) == unobstructed(map, b, a),
{
    let there = sight_line(a, b);
    let back = sight_line(b, a);
    if unobstructed(map, a, b) {
        assert forall|i: int| 0 <= i < back.len() implies !map.spec_obstacle(#[trigger] back[i]) by {
            assert(back.to_set().contains(back[i]));
            assert(there.to_set().contains(back[i]));
            let k = choose|k: int| 0 <= k < there.len() && there[k] == back[i];
            assert(!map.spec_obstacle(there[k]));
        }
    }
    if unobstructed(map, b, a) {
        assert forall|i: int| 0 <= i < there.len() implies !map.spec_obstacle(#[trigger] there[i]) by {
            assert(there.to_set().contains(there[i]));
            assert(back.to_set().contains(there[i]));
            let k = choose|k: int| 0 <= k < back.len() && back[k] == there[i];
            assert(!map.spec_obstacle(back[k]));
        }
    }
}

/// The same of a grid of blocked cells: where the two sight lines visit the
/// same cells, one is free exactly if the other is.
pub proof fn lemma_grid_sight_is_mutual(grid: Grid<bool>, a: Point2D, b: Point2D)
    requires
        sight_line(a, b).to_set() == sight_line(b, a).to_set(),
    ensures
        grid_unobstructed(grid, a, b) == grid_unobstructed(grid, b, a),
{
    let there = sight_line(a, b);
    let back = sight_line(b, a);
    if grid_unobstructed(grid, a, b) {
        assert forall|i: int| 0 <= i < back.len() implies !grid.at(#[trigger] back[i]) by {
            assert(back.to_set().contains(back[i]));
            assert(there.to_set().contains(back[i]));
            let k = choose|k: int| 0 <= k < there.len() && there[k] == back[i];
            assert(!grid.at(there[k]));
        }
    }
    if grid_unobstructed(grid, b, a) {
        assert forall|i: int| 0 <= i < there.len() implies !grid.at(#[trigger] there[i]) by {
            assert(there.to_set().contains(there[i]));
            assert(back.to_set().contains(there[i]));
            let k = choose|k: int| 0 <= k < back.len() && back[k] == there[i];
            assert(!grid.at(back[k]));
        }
    }
}

/// Whether none of the cells is blocked on the map. The cells are looked
/// at in their order, up to the first that is blocked.
pub fn all_free<M: ObstacleMap>(cells: &Vec<Point2D>, map: &M) -> (free: bool)
    requires
        forall|i: int| 0 <= i < cells@.len() ==> in_bounds(#[trigger] cells@[i], map.spec_boundaries()),
    ensures
        free == free_of_obstacles(map, cells@),
{
    let mut i: usize = 0;
    while i < cells.len()
        invariant
            i <= cells.len(),
            forall|k: int|
                0 <= k < cells@.len() ==> in_bounds(#[trigger] cells@[k], map.spec_boundaries()),
            forall|k: int| 0 <= k < i ==> !map.spec_obstacle(#[trigger] cells@[k]),
        decreases cells.len() - i,
    {
        if map.obstacle(&cells[i]) {
            return false;
        }
        i = i + 1;
    }
    true
}

/// Whether none of the cells is blocked in the grid.
pub fn all_free_in_grid(cells: &Vec<Point2D>, obstacles: &Grid<bool>) -> (free: bool)
    requires
        obstacles.wf(),
        forall|i: int| 0 <= i < cells@.len() ==> in_bounds(#[trigger] cells@[i], obstacles.bounds()),
    ensures
        free == free_in_grid(*obstacles, cells@),
{
    let mut i: usize = 0;
    while i < cells.len()
        invariant
            i <= cells.len(),
            obstacles.wf(),
            forall|k: int|
                0 <= k < cells@.len() ==> in_bounds(#[trigger] cells@[k], obstacles.bounds()),
            forall|k: int| 0 <= k < i ==> !obstacles.at(#[trigger] cells@[k]),
        decreases cells.len() - i,
    {
        if obstacles.get(&cells[i]) {
            return false;
        }
        i = i + 1;
    }
    true
}

/// The cells of the sight line from `start` to `end`, all of them between
/// the two.
fn sight_cells(start: &Point2D, end: &Point2D) -> (cells: Vec<Point2D>)
    requires
        line_defined(*start, *end),
    ensures
        cells@ == sight_line(*start, *end),
        forall|i: int| 0 <= i < cells@.len() ==> between(*start, *end, #[trigger] cells@[i]),
{
    let mut cells: Vec<Point2D> = bresenham_line(*start, *end);
    cells.push(*end);
    cells
}

/// Walks the line from `start` to `end`, `end` included, and reports
/// whether every cell on it is free on the map.
pub fn line_of_sight<M: ObstacleMap>(start: &Point2D, end: &Point2D, map: &M) -> (clear: bool)
    requires
        in_bounds(*start, map.spec_boundaries()),
        in_bounds(*end, map.spec_boundaries()),
        line_defined(*start, *end),
    ensures
        clear == unobstructed(map, *start, *end),
{
    let cells: Vec<Point2D> = sight_cells(start, end);
    assert forall|i: int| 0 <= i < cells@.len() implies in_bounds(
        #[trigger] cells@[i],
        map.spec_boundaries(),
    ) by {
        assert(between(*start, *end, cells@[i]));
    }
    all_free(&cells, map)
}

/// Walks the line from `start` to `end`, `end` included, and reports
/// whether every cell on it is free in the grid of blocked cells.
pub fn grid_line_of_sight(start: &Point2D, end: &Point2D, obstacles: &Grid<bool>) -> (clear: bool)
    requires
        obstacles.wf(),
        in_bounds(*start, obstacles.bounds()),
        in_bounds(*end, obstacles.bounds()),
        line_defined(*start, *end),
    ensures
        clear == grid_unobstructed(*obstacles, *start, *end),
        *start == *end ==> clear == !obstacles.at(*start),
{
    let cells: Vec<Point2D> = sight_cells(start, end);
    assert forall|i: int| 0 <= i < cells@.len() implies in_bounds(
        #[trigger] cells@[i],
        obstacles.bounds(),
    ) by {
        assert(between(*start, *end, cells@[i]));
    }
    if start.0 == end.0 && start.1 == end.1 {
        assert forall|i: int| 0 <= i < cells@.len() implies cells@[i] == *start by {
            assert(between(*start, *end, cells@[i]));
        }
        assert(cells@[cells@.len() - 1] == *start);
    }
    all_free_in_grid(&cells, obstacles)
}

} // verus!
