//! What a search asks of a map, and the two maps that answer it.

use crate::find_path::spec_find_path;
use crate::grid::Grid;
use crate::line_of_sight::{grid_line_of_sight, grid_unobstructed, lemma_line_in_bounds};
use crate::point::{floor_sqrt, in_bounds, lemma_floor_sqrt_exists, Point2D};
use vstd::prelude::*;

verus! {

/// Something that covers a half-open rectangle `(min, max)` of cells.
pub trait Bounded {
    /// The rectangle covered.
    spec fn spec_boundaries(&self) -> (Point2D, Point2D);

    /// The rectangle covered, `(min, max)`: `min` is in it, `max` is not.
    fn boundaries(&self) -> (r: (Point2D, Point2D))
        ensures
            r == self.spec_boundaries(),
    ;
}

/// A snapshot of the obstacles that a search runs on. It does not change
/// while it is read: each answer is a function of the question.
pub trait ObstacleMap: Bounded {
    /// Whether the cell `point` is blocked.
    spec fn spec_obstacle(&self, point: Point2D) -> bool;

    /// Whether `end` can be seen from `start` along a straight segment.
    spec fn spec_line_of_sight(&self, start: Point2D, end: Point2D) -> bool;

    /// Whether the cell `point` is blocked.
    fn obstacle(&self, point: &Point2D) -> (r: bool)
        requires
            in_bounds(*point, self.spec_boundaries()),
        ensures
            r == self.spec_obstacle(*point),
    ;

    /// Whether `end` can be seen from `start`.
    fn line_of_sight(&self, start: &Point2D, end: &Point2D) -> (r: bool)
        requires
            in_bounds(*start, self.spec_boundaries()),
            in_bounds(*end, self.spec_boundaries()),
        ensures
            r == self.spec_line_of_sight(*start, *end),
    ;
}

/// The rectangle keeps clear of `isize::MIN`, so that every coordinate in
/// it has a negative.
pub open spec fn clear_of_min(bounds: (Point2D, Point2D)) -> bool {
    bounds.0.0 > isize::MIN && bounds.0.1 > isize::MIN
}

/// A map of blocked cells: a cell is blocked where the grid says so. A
/// cell sees itself if it is free, and two cells see each other where the
/// sight line between them crosses no blocked cell.
pub struct GridMap {
    obstacles: Grid<bool>,
}

impl GridMap {
    #[verifier::type_invariant]
    spec fn well_formed(self) -> bool {
        self.obstacles.wf() && clear_of_min(self.obstacles.bounds())
    }

    /// The grid of blocked cells.
    pub closed spec fn grid(&self) -> Grid<bool> {
        self.obstacles
    }

    /// The map of the blocked cells of `obstacles`.
    pub fn new(obstacles: Grid<bool>) -> (map: GridMap)
        requires
            obstacles.wf(),
            clear_of_min(obstacles.bounds()),
        ensures
            map.grid() == obstacles,
    {
        GridMap { obstacles }
    }
}

impl Bounded for GridMap {
    open spec fn spec_boundaries(&self) -> (Point2D, Point2D) {
        self.grid().bounds()
    }

    fn boundaries(&self) -> (r: (Point2D, Point2D)) {
        self.obstacles.boundaries()
    }
}

impl ObstacleMap for GridMap {
    open spec fn spec_obstacle(&self, point: Point2D) -> bool {
        self.grid().at(point)
    }

    open spec fn spec_line_of_sight(&self, start: Point2D, end: Point2D) -> bool {
        if start == end {
            !self.grid().at(start)
        } else {
            grid_unobstructed(self.grid(), start, end)
        }
    }

    fn obstacle(&self, point: &Point2D) -> (r: bool) {
        proof {
            use_type_invariant(self);
        }
        self.obstacles.get(point)
    }

    fn line_of_sight(&self, start: &Point2D, end: &Point2D) -> (r: bool) {
        proof {
            use_type_invariant(self);
            self.obstacles.lemma_wf();
            lemma_line_in_bounds(*start, *end, self.obstacles.bounds());
        }
        grid_line_of_sight(start, end, &self.obstacles)
    }
}

/// The furthest from the origin that a map with circles reaches, along
/// either axis, and the largest radius of its circles: 2^29. Within it the
/// crossing test stays inside 128 bits.
pub const CIRCLE_REACH: isize = 0x2000_0000;

/// `v` is a coordinate or a radius that a map with circles can hold.
pub open spec fn in_circle_reach(v: isize) -> bool {
    -CIRCLE_REACH <= v <= CIRCLE_REACH
}

/// The square of the length of `(x, y)`.
pub open spec fn spec_norm2(x: int, y: int) -> int {
    x * x + y * y
}

/// The square root of `n` is less than `k`.
pub open spec fn root_below(n: int, k: int) -> bool {
    k > 0 && n < k * k
}

/// The square root of `n` is greater than `k`.
pub open spec fn root_above(n: int, k: int) -> bool {
    k < 0 || n > k * k
}

/// What `root_below` and `root_above` say, in terms of the integer part of
/// the square root: the root is less than `k` where its integer part is,
/// and greater than `k` where its integer part is, or is `k` with a rest.
pub proof fn lemma_root_compared(n: int, k: int)
    requires
        n >= 0,
    ensures
        root_below(n, k) <==> floor_sqrt(n) < k,
        root_above(n, k) <==> floor_sqrt(n) > k || (floor_sqrt(n) == k && n > k * k),
{
    lemma_floor_sqrt_exists(n);
    let s = floor_sqrt(n);
    assert(root_below(n, k) <==> s < k) by (nonlinear_arith)
        requires
            0 <= s,
            s * s <= n < (s + 1) * (s + 1),
            root_below(n, k) <==> k > 0 && n < k * k,
    ;
    assert(root_above(n, k) <==> s > k || (s == k && n > k * k)) by (nonlinear_arith)
        requires
            0 <= s,
            s * s <= n < (s + 1) * (s + 1),
            root_above(n, k) <==> k < 0 || n > k * k,
    ;
}

/// The segment from `start` to `end` meets the circle at a point strictly
/// between its ends. With `dir = end - start` and `alpha = start - center`,
/// the points of the segment are `start + t dir` for `0 <= t <= 1`, and
/// those on the circle solve `a t^2 + b t + c = 0`, where `a = |dir|^2`,
/// `b = 2 (dir . alpha)` and `c = |alpha|^2 - radius^2`. With `delta` the
/// discriminant and `s` its square root, the roots are `(-b - s) / 2a` and
/// `(-b + s) / 2a`. The first lies strictly between 0 and 1 where
/// `-b - 2a < s < -b`, the second where `b < s < 2a + b`. A segment of one
/// point meets nothing.
pub open spec fn crosses(start: Point2D, end: Point2D, center: Point2D, radius: isize) -> bool {
    let a = spec_norm2(end.0 - start.0, end.1 - start.1);
    let b = 2 * ((end.0 - start.0) * (start.0 - center.0) + (end.1 - start.1) * (start.1
        - center.1));
    let c = spec_norm2(start.0 - center.0, start.1 - center.1) - radius * radius;
    let delta = b * b - 4 * a * c;
    &&& a > 0
    &&& delta >= 0
    &&& {
        ||| root_above(delta, -b - 2 * a) && root_below(delta, -b)
        ||| root_above(delta, b) && root_below(delta, 2 * a + b)
    }
}

/// No circle of the list is crossed by the segment from `start` to `end`.
pub open spec fn clear_of_circles(
    circles: Seq<(Point2D, isize)>,
    start: Point2D,
    end: Point2D,
) -> bool {
    forall|i: int|
        0 <= i < circles.len() ==> !crosses(start, end, (#[trigger] circles[i]).0, circles[i].1)
}

/// A map of blocked cells and circles: a cell is blocked where the grid
/// says so; two cells see each other where the segment between them
/// crosses no circle, whatever the grid holds on the way.
pub struct GridMap2 {
    obstacles: Grid<bool>,
    circles: Vec<(Point2D, isize)>,
}

/// The square of the length of `(x, y)`.
pub fn norm2(x: i128, y: i128) -> (r: i128)
    requires
        -0x4000_0000_0000_0000 <= x <= 0x4000_0000_0000_0000,
        -0x4000_0000_0000_0000 <= y <= 0x4000_0000_0000_0000,
    ensures
        r == spec_norm2(x as int, y as int),
{
    assert(0 <= x * x <= 0x4000_0000_0000_0000 * 0x4000_0000_0000_0000) by (nonlinear_arith)
        requires
            -0x4000_0000_0000_0000 <= x <= 0x4000_0000_0000_0000,
    ;
    assert(0 <= y * y <= 0x4000_0000_0000_0000 * 0x4000_0000_0000_0000) by (nonlinear_arith)
        requires
            -0x4000_0000_0000_0000 <= y <= 0x4000_0000_0000_0000,
    ;
    x * x + y * y
}

/// The difference `a - b`, coordinate by coordinate.
pub fn sub(a: (isize, isize), b: (isize, isize)) -> (r: (i128, i128))
    ensures
        r.0 == a.0 - b.0,
        r.1 == a.1 - b.1,
{
    (a.0 as i128 - b.0 as i128, a.1 as i128 - b.1 as i128)
}

/// Whether the square root of `n` is less than `k`.
fn is_root_below(n: i128, k: i128) -> (r: bool)
    requires
        -0x8000_0000_0000_0000 <= k <= 0x8000_0000_0000_0000,
    ensures
        r == root_below(n as int, k as int),
{
    assert(0 <= k * k <= 0x8000_0000_0000_0000 * 0x8000_0000_0000_0000) by (nonlinear_arith)
        requires
            -0x8000_0000_0000_0000 <= k <= 0x8000_0000_0000_0000,
    ;
    k > 0 && n < k * k
}

/// Whether the square root of `n` is greater than `k`.
fn is_root_above(n: i128, k: i128) -> (r: bool)
    requires
        -0x8000_0000_0000_0000 <= k <= 0x8000_0000_0000_0000,
    ensures
        r == root_above(n as int, k as int),
{
    assert(0 <= k * k <= 0x8000_0000_0000_0000 * 0x8000_0000_0000_0000) by (nonlinear_arith)
        requires
            -0x8000_0000_0000_0000 <= k <= 0x8000_0000_0000_0000,
    ;
    k < 0 || n > k * k
}

/// Whether the segment from `start` to `end` crosses the circle.
pub fn crosses_circle(start: &Point2D, end: &Point2D, center: &Point2D, radius: isize) -> (r: bool)
    requires
        in_circle_reach(start.0) && in_circle_reach(start.1),
        in_circle_reach(end.0) && in_circle_reach(end.1),
        in_circle_reach(center.0) && in_circle_reach(center.1),
        in_circle_reach(radius),
    ensures
        r == crosses(*start, *end, *center, radius),
{
    let dir: (i128, i128) = self::sub(*end, *start);
    let alpha: (i128, i128) = self::sub(*start, *center);
    let wide: i128 = radius as i128;
    proof {
        lemma_products_in_reach(dir.0 as int, dir.0 as int);
        lemma_products_in_reach(dir.1 as int, dir.1 as int);
        lemma_products_in_reach(alpha.0 as int, alpha.0 as int);
        lemma_products_in_reach(alpha.1 as int, alpha.1 as int);
        lemma_products_in_reach(dir.0 as int, alpha.0 as int);
        lemma_products_in_reach(dir.1 as int, alpha.1 as int);
        lemma_products_in_reach(wide as int, wide as int);
    }
    let a: i128 = norm2(dir.0, dir.1);
    let b: i128 = 2 * (dir.0 * alpha.0 + dir.1 * alpha.1);
    let c: i128 = norm2(alpha.0, alpha.1) - wide * wide;
    assert(a == dir.0 * dir.0 + dir.1 * dir.1);
    assert(c == alpha.0 * alpha.0 + alpha.1 * alpha.1 - wide * wide);
    if a <= 0 {
        return false;
    }
    assert(0 <= b * b <= 0x4000_0000_0000_0000 * 0x4000_0000_0000_0000) by (nonlinear_arith)
        requires
            -0x4000_0000_0000_0000 <= b <= 0x4000_0000_0000_0000,
    ;
    assert(-0x2000_0000_0000_0000 * 0x2000_0000_0000_0000 <= a * c <= 0x2000_0000_0000_0000
        * 0x2000_0000_0000_0000) by (nonlinear_arith)
        requires
            0 <= a <= 0x2000_0000_0000_0000,
            -0x2000_0000_0000_0000 <= c <= 0x2000_0000_0000_0000,
    ;
    let delta: i128 = b * b - 4 * (a * c);
    assert(delta == b * b - 4 * a * c) by (nonlinear_arith)
        requires
            delta == b * b - 4 * (a * c),
    ;
    if delta < 0 {
        return false;
    }
    (is_root_above(delta, -b - 2 * a) && is_root_below(delta, -b)) || (is_root_above(delta, b)
        && is_root_below(delta, 2 * a + b))
}

/// The product of two differences of coordinates in reach stays small,
/// and a square is not negative.
proof fn lemma_products_in_reach(x: int, y: int)
    requires
        -0x4000_0000 <= x <= 0x4000_0000,
        -0x4000_0000 <= y <= 0x4000_0000,
    ensures
        -0x1000_0000_0000_0000 <= x * y <= 0x1000_0000_0000_0000,
        x == y ==> x * y >= 0,
{
    assert(-0x4000_0000 * 0x4000_0000 <= x * y <= 0x4000_0000 * 0x4000_0000) by (nonlinear_arith)
        requires
            -0x4000_0000 <= x <= 0x4000_0000,
            -0x4000_0000 <= y <= 0x4000_0000,
    ;
    assert(x * x >= 0) by (nonlinear_arith);
}

impl GridMap2 {
    #[verifier::type_invariant]
    spec fn well_formed(self) -> bool {
        &&& self.obstacles.wf()
        &&& circles_in_reach(self.obstacles.bounds(), self.circles@)
    }

    /// The grid of blocked cells.
    pub closed spec fn grid(&self) -> Grid<bool> {
        self.obstacles
    }

    /// The circles, each a centre and a radius.
    pub closed spec fn circle_list(&self) -> Seq<(Point2D, isize)> {
        self.circles@
    }

    /// The map of the blocked cells of `obstacles` and of the circles, each a
    /// centre and a radius.
    pub fn new(obstacles: Grid<bool>, circles: Vec<(Point2D, isize)>) -> (map: GridMap2)
        requires
            obstacles.wf(),
            circles_in_reach(obstacles.bounds(), circles@),
        ensures
            map.grid() == obstacles,
            map.circle_list() == circles@,
    {
        GridMap2 { obstacles, circles }
    }
}

/// The rectangle, the centres and the radii all lie within `CIRCLE_REACH`.
pub open spec fn circles_in_reach(bounds: (Point2D, Point2D), circles: Seq<(Point2D, isize)>) -> bool {
    &&& -CIRCLE_REACH <= bounds.0.0 && bounds.1.0 <= CIRCLE_REACH
    &&& -CIRCLE_REACH <= bounds.0.1 && bounds.1.1 <= CIRCLE_REACH
    &&& forall|i: int|
        0 <= i < circles.len() ==> in_circle_reach((#[trigger] circles[i]).0.0) && in_circle_reach(
            circles[i].0.1,
        ) && in_circle_reach(circles[i].1)
}

/// On a map of blocked cells the path from a free cell to itself is that
/// cell twice: it sees itself, so nothing is searched.
pub proof fn lemma_grid_map_joins_a_cell_to_itself(map: &GridMap, p: Point2D)
    requires
        !map.spec_obstacle(p),
    ensures
        map.spec_line_of_sight(p, p),
        spec_find_path(map, p, p) == Some(seq![p, p]),
{
}

/// On a map with circles the path from a free cell to itself is that cell
/// twice.
pub proof fn lemma_circle_map_joins_a_cell_to_itself(map: &GridMap2, p: Point2D)
    requires
        !map.spec_obstacle(p),
    ensures
        spec_find_path(map, p, p) == Some(seq![p, p]),
{
    lemma_circles_leave_a_cell_in_sight(map, p);
}

/// A segment of one point crosses no circle: on a map with circles every
/// cell sees itself.
pub proof fn lemma_circles_leave_a_cell_in_sight(map: &GridMap2, p: Point2D)
    ensures
        map.spec_line_of_sight(p, p),
{
    assert forall|i: int| 0 <= i < map.circle_list().len() implies !crosses(
        p,
        p,
        (#[trigger] map.circle_list()[i]).0,
        map.circle_list()[i].1,
    ) by {
        assert(spec_norm2(p.0 - p.0, p.1 - p.1) == 0) by (nonlinear_arith);
    }
}

impl Bounded for GridMap2 {
    open spec fn spec_boundaries(&self) -> (Point2D, Point2D) {
        self.grid().bounds()
    }

    fn boundaries(&self) -> (r: (Point2D, Point2D)) {
        self.obstacles.boundaries()
    }
}

impl ObstacleMap for GridMap2 {
    open spec fn spec_obstacle(&self, point: Point2D) -> bool {
        self.grid().at(point)
    }

    open spec fn spec_line_of_sight(&self, start: Point2D, end: Point2D) -> bool {
        clear_of_circles(self.circle_list(), start, end)
    }

    fn obstacle(&self, point: &Point2D) -> (r: bool) {
        proof {
            use_type_invariant(self);
        }
        self.obstacles.get(point)
    }

    fn line_of_sight(&self, start: &Point2D, end: &Point2D) -> (r: bool) {
        proof {
            use_type_invariant(self);
        }
        let mut i: usize = 0;
        while i < self.circles.len()
            invariant
                i <= self.circles.len(),
                in_bounds(*start, self.obstacles.bounds()),
                in_bounds(*end, self.obstacles.bounds()),
                circles_in_reach(self.obstacles.bounds(), self.circles@),
                forall|k: int|
                    0 <= k < i ==> !crosses(
                        *start,
                        *end,
                        (#[trigger] self.circles@[k]).0,
                        self.circles@[k].1,
                    ),
            decreases self.circles.len() - i,
        {
            let circle: (Point2D, isize) = self.circles[i];
            if crosses_circle(start, end, &circle.0, circle.1) {
                return false;
            }
            i = i + 1;
        }
        true
    }
}

} // verus!
