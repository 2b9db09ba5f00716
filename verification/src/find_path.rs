//! The path search: a best-first search that hangs each cell on the
//! furthest ancestor it was reached through, so that a path turns where
//! the obstacles make it turn and not at every cell.

use crate::errors::NoPathFoundError;
use crate::grid::{cell, cell_index, extent_area, lemma_cell_index, lemma_cell_update, Grid};
use crate::heap::HeapElement;
use crate::map::ObstacleMap;
use crate::neighbors::{get_neighbors, lemma_neighbors_exact, neighbors};
use crate::open_set::{least, lemma_least_exists, OpenSet};
use crate::point::{
    add_costs, cost_sum, distance, euclidean_distance, in_bounds, lemma_in_bounds_within_reach,
    valid_extent, within_reach, Cost, Point2D, INFINITE_COST,
};
use vstd::multiset::Multiset;
use vstd::prelude::*;

verus! {

/// How many elements a search takes from its queue before it gives up:
/// more than any search has time for. With it every search is known to
/// end.
pub const MAX_EXPANSIONS: u64 = u64::MAX;

/// What a search knows at some moment: the queue, and for every cell the
/// cost `g_score` it was reached at, the score `f_score` it was last queued
/// with, and the cell `came_from` that its route hangs on.
pub struct SearchState {
    pub open: Multiset<HeapElement<Point2D>>,
    pub g_score: Seq<Cost>,
    pub f_score: Seq<Cost>,
    pub came_from: Seq<Option<Point2D>>,
}

/// The estimate of what is left from `pos`: its distance to the target.
pub open spec fn spec_heuristic(target: Point2D, pos: Point2D) -> Cost {
    distance(pos, target)
}

/// The state in which a search from `origin` towards `target` starts.
pub open spec fn initial_state(
    bounds: (Point2D, Point2D),
    origin: Point2D,
    target: Point2D,
) -> SearchState {
    let at_origin = cell_index(bounds, origin);
    let area = extent_area(bounds) as nat;
    SearchState {
        open: Multiset::empty().insert(
            HeapElement { f_score: spec_heuristic(target, origin), position: origin },
        ),
        g_score: Seq::new(area, |i: int| INFINITE_COST).update(at_origin, 0),
        f_score: Seq::new(area, |i: int| INFINITE_COST).update(
            at_origin,
            spec_heuristic(target, origin),
        ),
        came_from: Seq::new(area, |i: int| None::<Point2D>).update(at_origin, Some(origin)),
    }
}

/// Among `around[0..=k]`, the cell with the least cost; the first of them
/// where several have it.
pub open spec fn anchor(
    bounds: (Point2D, Point2D),
    g_score: Seq<Cost>,
    around: Seq<Point2D>,
    k: int,
) -> Point2D
    decreases k,
{
    if k <= 0 {
        around[0]
    } else {
        let best = anchor(bounds, g_score, around, k - 1);
        if cell(bounds, g_score, around[k]) < cell(bounds, g_score, best) {
            around[k]
        } else {
            best
        }
    }
}

/// The cheapest of the neighbours of `position`, the first of them in
/// their order where several are.
pub open spec fn anchor_of(
    bounds: (Point2D, Point2D),
    g_score: Seq<Cost>,
    position: Point2D,
) -> Point2D {
    let around = neighbors(position, bounds);
    anchor(bounds, g_score, around, around.len() - 1)
}

/// The cost of `position` once it hangs on the cheapest of its
/// neighbours: that neighbour's cost, plus the step to it, plus the
/// estimate from `position`.
pub open spec fn anchored_cost(
    bounds: (Point2D, Point2D),
    target: Point2D,
    g_score: Seq<Cost>,
    position: Point2D,
) -> Cost {
    let best = anchor_of(bounds, g_score, position);
    cost_sum(
        cost_sum(cell(bounds, g_score, best), distance(position, best)),
        spec_heuristic(target, position),
    )
}

/// The state after `position`, whose parent it cannot see, was hung on the
/// cheapest of its neighbours.
pub open spec fn reanchored(
    bounds: (Point2D, Point2D),
    target: Point2D,
    state: SearchState,
    position: Point2D,
) -> SearchState {
    SearchState {
        g_score: state.g_score.update(
            cell_index(bounds, position),
            anchored_cost(bounds, target, state.g_score, position),
        ),
        came_from: state.came_from.update(
            cell_index(bounds, position),
            Some(anchor_of(bounds, state.g_score, position)),
        ),
        ..state
    }
}

/// The state after the neighbour `n` of `position` was looked at. A free
/// `n` is offered the parent of `position` as its own: if that makes it
/// cheaper, it takes the parent and the cost, and is queued.
pub open spec fn relaxed<M: ObstacleMap>(
    map: &M,
    target: Point2D,
    state: SearchState,
    position: Point2D,
    n: Point2D,
) -> SearchState {
    let bounds = map.spec_boundaries();
    let parent = cell(bounds, state.came_from, position).unwrap();
    let tentative = cost_sum(
        cost_sum(cell(bounds, state.g_score, parent), distance(n, parent)),
        spec_heuristic(target, n),
    );
    let queued_at = cost_sum(
        tentative,
        cost_sum(spec_heuristic(target, n), spec_heuristic(target, n)),
    );
    if !map.spec_obstacle(n) && tentative < cell(bounds, state.g_score, n) {
        SearchState {
            open: state.open.insert(HeapElement { f_score: queued_at, position: n }),
            g_score: state.g_score.update(cell_index(bounds, n), tentative),
            f_score: state.f_score.update(cell_index(bounds, n), queued_at),
            came_from: state.came_from.update(cell_index(bounds, n), Some(parent)),
        }
    } else {
        state
    }
}

/// The state after the first `k` of the cells `around` were looked at, in
/// their order.
pub open spec fn relaxed_all<M: ObstacleMap>(
    map: &M,
    target: Point2D,
    state: SearchState,
    position: Point2D,
    around: Seq<Point2D>,
    k: int,
) -> SearchState
    decreases k,
{
    if k <= 0 {
        state
    } else {
        relaxed(
            map,
            target,
            relaxed_all(map, target, state, position, around, k - 1),
            position,
            around[k - 1],
        )
    }
}

/// The state after `position` was taken from the queue and dealt with:
/// hung on a neighbour if it cannot see its parent, then its neighbours
/// looked at. There is none if it cannot see its parent and has no
/// neighbour.
pub open spec fn expanded<M: ObstacleMap>(
    map: &M,
    target: Point2D,
    state: SearchState,
    position: Point2D,
) -> Option<SearchState> {
    let bounds = map.spec_boundaries();
    let around = neighbors(position, bounds);
    let parent = cell(bounds, state.came_from, position).unwrap();
    if map.spec_line_of_sight(position, parent) {
        Some(relaxed_all(map, target, state, position, around, around.len() as int))
    } else if around.len() == 0 {
        None
    } else {
        Some(
            relaxed_all(
                map,
                target,
                reanchored(bounds, target, state, position),
                position,
                around,
                around.len() as int,
            ),
        )
    }
}

/// `tail` after `head`, where there is a tail.
pub open spec fn after(head: Seq<Point2D>, tail: Option<Seq<Point2D>>) -> Option<Seq<Point2D>> {
    match tail {
        Some(rest) => Some(head + rest),
        None => None,
    }
}

/// The cells from `pos` to `origin`, each followed by the cell it hangs
/// on. There is no such walk if a cell on the way hangs on nothing, or if
/// `origin` is not reached within `steps` steps. A walk that needs more
/// steps than there are cells goes in a circle.
pub open spec fn traced(
    bounds: (Point2D, Point2D),
    came_from: Seq<Option<Point2D>>,
    origin: Point2D,
    pos: Point2D,
    steps: nat,
) -> Option<Seq<Point2D>>
    decreases steps,
{
    if pos == origin {
        Some(seq![pos])
    } else if steps == 0 {
        None
    } else {
        match cell(bounds, came_from, pos) {
            Some(parent) => after(
                seq![pos],
                traced(bounds, came_from, origin, parent, (steps - 1) as nat),
            ),
            None => None,
        }
    }
}

/// What the search from `origin` towards `target` finds when it goes on
/// from `state` with `budget` elements still to take from the queue.
///
/// It takes the least element. One that was queued with a higher score
/// than its cell has by now is dropped. Otherwise the cell is dealt with
/// as `expanded` says; if it is the target, the answer is the walk from it
/// back to the origin. The search fails when the queue or the budget runs
/// out.
pub open spec fn searched<M: ObstacleMap>(
    map: &M,
    origin: Point2D,
    target: Point2D,
    state: SearchState,
    budget: nat,
) -> Option<Seq<Point2D>>
    decreases budget,
{
    let bounds = map.spec_boundaries();
    if budget == 0 || state.open.len() == 0 {
        None
    } else {
        let element = least(state.open);
        let rest = SearchState { open: state.open.remove(element), ..state };
        if element.f_score > cell(bounds, state.f_score, element.position) {
            searched(map, origin, target, rest, (budget - 1) as nat)
        } else {
            match expanded(map, target, rest, element.position) {
                Some(next) => {
                    if element.position == target {
                        traced(
                            bounds,
                            next.came_from,
                            origin,
                            target,
                            extent_area(bounds) as nat,
                        )
                    } else {
                        searched(map, origin, target, next, (budget - 1) as nat)
                    }
                },
                None => None,
            }
        }
    }
}

/// The path from `start` to `end`, if the search finds one.
///
/// There is none if either end is blocked. Two ends that see each other
/// are the whole path. Otherwise the search runs from `end` towards
/// `start`, so that the walk back from where it arrives reads from `start`
/// to `end`.
pub open spec fn spec_find_path<M: ObstacleMap>(map: &M, start: Point2D, end: Point2D) -> Option<
    Seq<Point2D>,
> {
    if map.spec_obstacle(start) || map.spec_obstacle(end) {
        None
    } else if map.spec_line_of_sight(start, end) {
        Some(seq![start, end])
    } else {
        searched(
            map,
            end,
            start,
            initial_state(map.spec_boundaries(), end, start),
            MAX_EXPANSIONS as nat,
        )
    }
}

/// The path that a result holds, if it holds one.
pub open spec fn found(r: Result<Vec<Point2D>, NoPathFoundError>) -> Option<Seq<Point2D>> {
    match r {
        Ok(path) => Some(path@),
        Err(_) => None,
    }
}

/// The state is one that a search can go on from: there is a value for
/// every cell, every queued cell lies in the rectangle and hangs on
/// something, and what a cell hangs on lies in the rectangle.
pub open spec fn sound(bounds: (Point2D, Point2D), state: SearchState) -> bool {
    &&& state.g_score.len() == extent_area(bounds)
    &&& state.f_score.len() == extent_area(bounds)
    &&& state.came_from.len() == extent_area(bounds)
    &&& forall|e: HeapElement<Point2D>| #[trigger]
        state.open.count(e) > 0 ==> in_bounds(e.position, bounds) && cell(
            bounds,
            state.came_from,
            e.position,
        ) is Some
    &&& hangs_inside(bounds, state.came_from)
}

/// What a cell hangs on lies in the rectangle.
pub open spec fn hangs_inside(bounds: (Point2D, Point2D), came_from: Seq<Option<Point2D>>) -> bool {
    forall|p: Point2D|
        in_bounds(p, bounds) ==> (#[trigger] cell(bounds, came_from, p) matches Some(q)
            ==> in_bounds(q, bounds))
}

/// A walk that was traced starts where it was asked to and ends at the
/// origin, and all its cells lie in the rectangle.
pub proof fn lemma_traced_ends(
    bounds: (Point2D, Point2D),
    came_from: Seq<Option<Point2D>>,
    origin: Point2D,
    pos: Point2D,
    steps: nat,
)
    requires
        in_bounds(pos, bounds),
        hangs_inside(bounds, came_from),
    ensures
        traced(bounds, came_from, origin, pos, steps) matches Some(path) ==> {
            &&& path.len() >= 1
            &&& path[0] == pos
            &&& path.last() == origin
            &&& forall|i: int| 0 <= i < path.len() ==> in_bounds(#[trigger] path[i], bounds)
        },
    decreases steps,
{
    if pos != origin && steps > 0 {
        match cell(bounds, came_from, pos) {
            Some(parent) => {
                lemma_traced_ends(bounds, came_from, origin, parent, (steps - 1) as nat);
            },
            None => {},
        }
    }
}

/// The cheapest among the first cells of `around` is one of them.
proof fn lemma_anchor_member(
    bounds: (Point2D, Point2D),
    g_score: Seq<Cost>,
    around: Seq<Point2D>,
    k: int,
)
    requires
        0 <= k < around.len(),
    ensures
        around.contains(anchor(bounds, g_score, around, k)),
    decreases k,
{
    if k > 0 {
        lemma_anchor_member(bounds, g_score, around, k - 1);
    }
    assert(around[0] == around[0]);
    assert(around[k] == around[k]);
}

/// The state that a search starts in is sound.
proof fn lemma_initial_sound(bounds: (Point2D, Point2D), origin: Point2D, target: Point2D)
    requires
        in_bounds(origin, bounds),
    ensures
        sound(bounds, initial_state(bounds, origin, target)),
{
    let state = initial_state(bounds, origin, target);
    let first = HeapElement { f_score: spec_heuristic(target, origin), position: origin };
    lemma_cell_index(bounds, origin, origin);
    assert forall|p: Point2D| in_bounds(p, bounds) implies (#[trigger] cell(
        bounds,
        state.came_from,
        p,
    ) matches Some(q) ==> in_bounds(q, bounds)) by {
        lemma_cell_index(bounds, p, origin);
    }
    assert forall|e: HeapElement<Point2D>| #[trigger] state.open.count(e) > 0 implies in_bounds(
        e.position,
        bounds,
    ) && cell(bounds, state.came_from, e.position) is Some by {
        assert(e == first);
    }
}

/// Hanging a cell on the cheapest of its neighbours keeps the state sound.
proof fn lemma_reanchored_sound(
    bounds: (Point2D, Point2D),
    target: Point2D,
    state: SearchState,
    position: Point2D,
)
    requires
        sound(bounds, state),
        in_bounds(position, bounds),
        neighbors(position, bounds).len() > 0,
    ensures
        sound(bounds, reanchored(bounds, target, state, position)),
        cell(bounds, reanchored(bounds, target, state, position).came_from, position) is Some,
{
    let around = neighbors(position, bounds);
    let best = anchor_of(bounds, state.g_score, position);
    let moved = reanchored(bounds, target, state, position);
    lemma_neighbors_exact(position, bounds);
    lemma_anchor_member(bounds, state.g_score, around, around.len() - 1);
    assert(in_bounds(best, bounds));
    lemma_cell_index(bounds, position, position);
    assert forall|p: Point2D| in_bounds(p, bounds) implies (#[trigger] cell(
        bounds,
        moved.came_from,
        p,
    ) matches Some(q) ==> in_bounds(q, bounds)) by {
        lemma_cell_update(bounds, state.came_from, position, Some(best), p);
    }
    assert forall|e: HeapElement<Point2D>| #[trigger] moved.open.count(e) > 0 implies in_bounds(
        e.position,
        bounds,
    ) && cell(bounds, moved.came_from, e.position) is Some by {
        lemma_cell_update(bounds, state.came_from, position, Some(best), e.position);
    }
    lemma_cell_update(bounds, state.came_from, position, Some(best), position);
}

/// Looking at a neighbour keeps the state sound, and the cell whose
/// neighbour it is goes on hanging on something.
proof fn lemma_relaxed_sound<M: ObstacleMap>(
    map: &M,
    target: Point2D,
    state: SearchState,
    position: Point2D,
    n: Point2D,
)
    requires
        sound(map.spec_boundaries(), state),
        in_bounds(position, map.spec_boundaries()),
        in_bounds(n, map.spec_boundaries()),
        cell(map.spec_boundaries(), state.came_from, position) is Some,
    ensures
        sound(map.spec_boundaries(), relaxed(map, target, state, position, n)),
        cell(map.spec_boundaries(), relaxed(map, target, state, position, n).came_from, position) is Some,
{
    let bounds = map.spec_boundaries();
    let next = relaxed(map, target, state, position, n);
    let parent = cell(bounds, state.came_from, position).unwrap();
    assert(in_bounds(parent, bounds));
    lemma_cell_index(bounds, n, n);
    if next != state {
        assert forall|p: Point2D| in_bounds(p, bounds) implies (#[trigger] cell(
            bounds,
            next.came_from,
            p,
        ) matches Some(q) ==> in_bounds(q, bounds)) by {
            lemma_cell_update(bounds, state.came_from, n, Some(parent), p);
        }
        assert forall|e: HeapElement<Point2D>| #[trigger] next.open.count(e) > 0 implies in_bounds(
            e.position,
            bounds,
        ) && cell(bounds, next.came_from, e.position) is Some by {
            if e.position != n {
                assert(state.open.count(e) > 0);
            }
            lemma_cell_update(bounds, state.came_from, n, Some(parent), e.position);
        }
        lemma_cell_update(bounds, state.came_from, n, Some(parent), position);
    }
}

/// Looking at the neighbours of a cell keeps the state sound.
proof fn lemma_relaxed_all_sound<M: ObstacleMap>(
    map: &M,
    target: Point2D,
    state: SearchState,
    position: Point2D,
    around: Seq<Point2D>,
    k: int,
)
    requires
        sound(map.spec_boundaries(), state),
        in_bounds(position, map.spec_boundaries()),
        cell(map.spec_boundaries(), state.came_from, position) is Some,
        0 <= k <= around.len(),
        forall|i: int| 0 <= i < around.len() ==> in_bounds(#[trigger] around[i], map.spec_boundaries()),
    ensures
        sound(map.spec_boundaries(), relaxed_all(map, target, state, position, around, k)),
        cell(
            map.spec_boundaries(),
            relaxed_all(map, target, state, position, around, k).came_from,
            position,
        ) is Some,
    decreases k,
{
    if k > 0 {
        lemma_relaxed_all_sound(map, target, state, position, around, k - 1);
        lemma_relaxed_sound(
            map,
            target,
            relaxed_all(map, target, state, position, around, k - 1),
            position,
            around[k - 1],
        );
    }
}

/// Dealing with a cell taken from the queue keeps the state sound.
proof fn lemma_expanded_sound<M: ObstacleMap>(
    map: &M,
    target: Point2D,
    state: SearchState,
    position: Point2D,
)
    requires
        sound(map.spec_boundaries(), state),
        in_bounds(position, map.spec_boundaries()),
        cell(map.spec_boundaries(), state.came_from, position) is Some,
    ensures
        expanded(map, target, state, position) matches Some(next) ==> sound(
            map.spec_boundaries(),
            next,
        ),
{
    let bounds = map.spec_boundaries();
    let around = neighbors(position, bounds);
    let parent = cell(bounds, state.came_from, position).unwrap();
    lemma_neighbors_exact(position, bounds);
    assert forall|i: int| 0 <= i < around.len() implies in_bounds(#[trigger] around[i], bounds) by {
        assert(around.contains(around[i]));
    }
    if map.spec_line_of_sight(position, parent) {
        lemma_relaxed_all_sound(map, target, state, position, around, around.len() as int);
    } else if around.len() > 0 {
        lemma_reanchored_sound(bounds, target, state, position);
        lemma_relaxed_all_sound(
            map,
            target,
            reanchored(bounds, target, state, position),
            position,
            around,
            around.len() as int,
        );
    }
}

/// The estimate of what is left from `pos`.
fn heuristic(pos: &Point2D, target: &Point2D) -> (h: Cost)
    requires
        within_reach(*pos, *target),
    ensures
        h == spec_heuristic(*target, *pos),
{
    euclidean_distance(pos, target)
}

/// What one search works on: its queue and its three grids.
struct Scratch {
    open_set: OpenSet,
    came_from: Grid<Option<Point2D>>,
    g_score: Grid<Cost>,
    f_score: Grid<Cost>,
}

impl Scratch {
    /// The state that the queue and the grids make up.
    spec fn view(&self) -> SearchState {
        SearchState {
            open: self.open_set@,
            g_score: self.g_score@,
            f_score: self.f_score@,
            came_from: self.came_from@,
        }
    }

    /// The queue and the grids are in order, the grids cover `bounds`, and
    /// the state is sound.
    spec fn wf(&self, bounds: (Point2D, Point2D)) -> bool {
        &&& valid_extent(bounds)
        &&& self.open_set.wf()
        &&& self.came_from.wf() && self.came_from.bounds() == bounds
        &&& self.g_score.wf() && self.g_score.bounds() == bounds
        &&& self.f_score.wf() && self.f_score.bounds() == bounds
        &&& sound(bounds, self@)
    }

    /// What a search from `origin` towards `target` starts with.
    fn new(bounds: (Point2D, Point2D), origin: &Point2D, target: &Point2D) -> (scratch: Scratch)
        requires
            valid_extent(bounds),
            in_bounds(*origin, bounds),
            in_bounds(*target, bounds),
        ensures
            scratch.wf(bounds),
            scratch@ == initial_state(bounds, *origin, *target),
    {
        let mut scratch = Scratch {
            open_set: OpenSet::new(),
            came_from: Grid::new(bounds, None),
            g_score: Grid::new(bounds, INFINITE_COST),
            f_score: Grid::new(bounds, INFINITE_COST),
        };
        proof {
            lemma_in_bounds_within_reach(*origin, *target, bounds);
            lemma_cell_index(bounds, *origin, *origin);
        }
        let estimate: Cost = heuristic(origin, target);
        scratch.open_set.push(HeapElement { position: *origin, f_score: estimate });
        scratch.g_score.set(origin, 0);
        scratch.f_score.set(origin, estimate);
        scratch.came_from.set(origin, Some(*origin));
        proof {
            let model = initial_state(bounds, *origin, *target);
            assert(scratch@.g_score =~= model.g_score);
            assert(scratch@.f_score =~= model.f_score);
            assert(scratch@.came_from =~= model.came_from);
            lemma_initial_sound(bounds, *origin, *target);
        }
        scratch
    }

    /// Hangs `position` on the cheapest of its neighbours `around`.
    fn reanchor(
        &mut self,
        Ghost(bounds): Ghost<(Point2D, Point2D)>,
        target: &Point2D,
        position: &Point2D,
        around: &Vec<Point2D>,
    )
        requires
            old(self).wf(bounds),
            in_bounds(*target, bounds),
            in_bounds(*position, bounds),
            around@ == neighbors(*position, bounds),
            around@.len() > 0,
        ensures
            final(self).wf(bounds),
            final(self)@ == reanchored(bounds, *target, old(self)@, *position),
            cell(bounds, final(self)@.came_from, *position) is Some,
    {
        proof {
            lemma_neighbors_exact(*position, bounds);
            lemma_reanchored_sound(bounds, *target, self@, *position);
            assert forall|k: int| 0 <= k < around@.len() implies in_bounds(
                #[trigger] around@[k],
                bounds,
            ) by {
                assert(neighbors(*position, bounds).contains(around@[k]));
            }
        }
        let mut best: Point2D = around[0];
        let mut best_cost: Cost = self.g_score.get(&best);
        let mut k: usize = 1;
        while k < around.len()
            invariant
                1 <= k <= around.len(),
                self == old(self),
                self.g_score.wf(),
                self.g_score.bounds() == bounds,
                forall|i: int| 0 <= i < around@.len() ==> in_bounds(#[trigger] around@[i], bounds),
                best == anchor(bounds, self.g_score@, around@, k - 1),
                best_cost == cell(bounds, self.g_score@, best),
                in_bounds(best, bounds),
            decreases around.len() - k,
        {
            let candidate: Point2D = around[k];
            let cost: Cost = self.g_score.get(&candidate);
            if cost < best_cost {
                best = candidate;
                best_cost = cost;
            }
            k = k + 1;
        }
        proof {
            lemma_in_bounds_within_reach(*position, best, bounds);
            lemma_in_bounds_within_reach(*position, *target, bounds);
        }
        let cost: Cost = add_costs(
            add_costs(best_cost, euclidean_distance(position, &best)),
            heuristic(position, target),
        );
        self.g_score.set(position, cost);
        self.came_from.set(position, Some(best));
    }

    /// Looks at the neighbour `n` of `position`.
    fn relax<M: ObstacleMap>(&mut self, map: &M, target: &Point2D, position: &Point2D, n: &Point2D)
        requires
            old(self).wf(map.spec_boundaries()),
            in_bounds(*target, map.spec_boundaries()),
            in_bounds(*position, map.spec_boundaries()),
            in_bounds(*n, map.spec_boundaries()),
            cell(map.spec_boundaries(), old(self)@.came_from, *position) is Some,
        ensures
            final(self).wf(map.spec_boundaries()),
            final(self)@ == relaxed(map, *target, old(self)@, *position, *n),
            cell(map.spec_boundaries(), final(self)@.came_from, *position) is Some,
    {
        let ghost bounds = map.spec_boundaries();
        proof {
            lemma_relaxed_sound(map, *target, self@, *position, *n);
        }
        if map.obstacle(n) {
            return ;
        }
        let parent: Point2D = self.came_from.get(position).unwrap();
        proof {
            assert(cell(bounds, self@.came_from, *position) == Some(parent));
            assert(in_bounds(parent, bounds));
            lemma_in_bounds_within_reach(*n, parent, bounds);
            lemma_in_bounds_within_reach(*n, *target, bounds);
        }
        let estimate: Cost = heuristic(n, target);
        let tentative_g_score: Cost = add_costs(
            add_costs(self.g_score.get(&parent), euclidean_distance(n, &parent)),
            estimate,
        );
        if tentative_g_score < self.g_score.get(n) {
            self.came_from.set(n, Some(parent));
            self.g_score.set(n, tentative_g_score);
            let new_f_score: Cost = add_costs(tentative_g_score, add_costs(estimate, estimate));
            self.f_score.set(n, new_f_score);
            self.open_set.push(HeapElement { position: *n, f_score: new_f_score });
        }
    }

    /// Looks at every neighbour of `position`, in their order.
    fn visit<M: ObstacleMap>(
        &mut self,
        map: &M,
        target: &Point2D,
        position: &Point2D,
        around: &Vec<Point2D>,
    )
        requires
            old(self).wf(map.spec_boundaries()),
            in_bounds(*target, map.spec_boundaries()),
            in_bounds(*position, map.spec_boundaries()),
            around@ == neighbors(*position, map.spec_boundaries()),
            cell(map.spec_boundaries(), old(self)@.came_from, *position) is Some,
        ensures
            final(self).wf(map.spec_boundaries()),
            final(self)@ == relaxed_all(
                map,
                *target,
                old(self)@,
                *position,
                around@,
                around@.len() as int,
            ),
    {
        let ghost bounds = map.spec_boundaries();
        proof {
            lemma_neighbors_exact(*position, bounds);
        }
        let mut k: usize = 0;
        while k < around.len()
            invariant
                k <= around.len(),
                bounds == map.spec_boundaries(),
                in_bounds(*target, bounds),
                in_bounds(*position, bounds),
                around@ == neighbors(*position, bounds),
                forall|n: Point2D| neighbors(*position, bounds).contains(n) ==> in_bounds(n, bounds),
                self.wf(bounds),
                cell(bounds, self@.came_from, *position) is Some,
                self@ == relaxed_all(map, *target, old(self)@, *position, around@, k as int),
            decreases around.len() - k,
        {
            let n: Point2D = around[k];
            assert(neighbors(*position, bounds).contains(around@[k as int]));
            self.relax(map, target, position, &n);
            k = k + 1;
        }
    }

    /// Walks from `end` back to `start` along what each cell hangs on, and
    /// returns the cells passed, `end` first.
    fn build_path(&self, Ghost(bounds): Ghost<(Point2D, Point2D)>, start: &Point2D, end: &Point2D) -> (r:
        Option<Vec<Point2D>>)
        requires
            self.wf(bounds),
            in_bounds(*end, bounds),
        ensures
            match r {
                Some(path) => Some(path@),
                None => None,
            } == traced(bounds, self@.came_from, *start, *end, extent_area(bounds) as nat),
    {
        let ghost parents = self.came_from@;
        let ghost goal = traced(bounds, parents, *start, *end, extent_area(bounds) as nat);
        proof {
            self.came_from.lemma_wf();
        }
        let mut path: Vec<Point2D> = Vec::new();
        path.push(*end);
        let mut pos: Point2D = *end;
        let mut steps: usize = self.came_from.len();
        assert(path@.drop_last() + seq![pos] =~= path@);
        while pos.0 != start.0 || pos.1 != start.1
            invariant
                self.wf(bounds),
                parents == self.came_from@,
                in_bounds(pos, bounds),
                path@.len() >= 1,
                path@.last() == pos,
                goal == traced(bounds, parents, *start, *end, extent_area(bounds) as nat),
                goal == after(path@.drop_last(), traced(bounds, parents, *start, pos, steps as nat)),
            decreases steps,
        {
            if steps == 0 {
                return None;
            }
            match self.came_from.get(&pos) {
                Some(parent) => {
                    proof {
                        assert(cell(bounds, parents, pos) == Some(parent));
                        let tail = traced(bounds, parents, *start, parent, (steps - 1) as nat);
                        if tail is Some {
                            assert(path@.drop_last() + (seq![pos] + tail.unwrap()) =~= path@
                                + tail.unwrap());
                        }
                        assert(path@.push(parent).drop_last() =~= path@);
                    }
                    pos = parent;
                    path.push(pos);
                    steps = steps - 1;
                },
                None => {
                    return None;
                },
            }
        }
        proof {
            assert(path@.drop_last() + seq![pos] =~= path@);
        }
        Some(path)
    }
}

/// The search proper, from `start` towards `end`: the path it returns
/// leads from `end` back to `start`.
pub fn do_find_path<M: ObstacleMap>(map: &M, start: Point2D, end: Point2D) -> (r: Result<
    Vec<Point2D>,
    NoPathFoundError,
>)
    requires
        valid_extent(map.spec_boundaries()),
        in_bounds(start, map.spec_boundaries()),
        in_bounds(end, map.spec_boundaries()),
    ensures
        found(r) == searched(
            map,
            start,
            end,
            initial_state(map.spec_boundaries(), start, end),
            MAX_EXPANSIONS as nat,
        ),
{
    let bounds: (Point2D, Point2D) = map.boundaries();
    let mut scratch: Scratch = Scratch::new(bounds, &start, &end);
    let ghost answer = searched(
        map,
        start,
        end,
        initial_state(bounds, start, end),
        MAX_EXPANSIONS as nat,
    );
    let mut budget: u64 = MAX_EXPANSIONS;
    loop
        invariant
            bounds == map.spec_boundaries(),
            in_bounds(start, bounds),
            in_bounds(end, bounds),
            scratch.wf(bounds),
            answer == searched(
                map,
                start,
                end,
                initial_state(bounds, start, end),
                MAX_EXPANSIONS as nat,
            ),
            answer == searched(map, start, end, scratch@, budget as nat),
        decreases budget,
    {
        let ghost state = scratch@;
        if budget == 0 {
            return Err(NoPathFoundError());
        }
        let element: HeapElement<Point2D> = match scratch.open_set.pop() {
            Some(element) => element,
            None => {
                return Err(NoPathFoundError());
            },
        };
        budget = budget - 1;
        let position: Point2D = element.position;
        let ghost rest = scratch@;
        proof {
            assert(rest == SearchState { open: state.open.remove(element), ..state });
            assert(state.open.count(element) > 0);
            assert(cell(bounds, rest.came_from, position) is Some);
            assert forall|e: HeapElement<Point2D>| #[trigger] rest.open.count(e) > 0 implies in_bounds(
                e.position,
                bounds,
            ) && cell(bounds, rest.came_from, e.position) is Some by {
                assert(state.open.count(e) > 0);
            }
        }
        if element.f_score > scratch.f_score.get(&position) {
            continue ;
        }
        let parent: Point2D = scratch.came_from.get(&position).unwrap();
        let around: Vec<Point2D> = get_neighbors(position, bounds);
        proof {
            assert(cell(bounds, rest.came_from, position) == Some(parent));
            assert(in_bounds(parent, bounds));
        }
        if !map.line_of_sight(&position, &parent) {
            if around.len() == 0 {
                return Err(NoPathFoundError());
            }
            scratch.reanchor(Ghost(bounds), &end, &position, &around);
        }
        scratch.visit(map, &end, &position, &around);
        proof {
            assert(Some(scratch@) == expanded(map, end, rest, position));
        }
        if position.0 == end.0 && position.1 == end.1 {
            return match scratch.build_path(Ghost(bounds), &start, &end) {
                Some(path) => Ok(path),
                None => Err(NoPathFoundError()),
            };
        }
    }
}

/// Looks for a path from `start` to `end`.
///
/// It fails if either end is blocked. Two ends that see each other are
/// the whole path. Otherwise the search decides, as `spec_find_path`
/// describes it. A path that is returned starts at `start`, ends at `end`
/// and stays inside the map.
pub fn find_path_impl<M: ObstacleMap>(map: &M, start: Point2D, end: Point2D) -> (r: Result<
    Vec<Point2D>,
    NoPathFoundError,
>)
    requires
        valid_extent(map.spec_boundaries()),
        in_bounds(start, map.spec_boundaries()),
        in_bounds(end, map.spec_boundaries()),
    ensures
        found(r) == spec_find_path(map, start, end),
        map.spec_obstacle(start) || map.spec_obstacle(end) ==> r is Err,
        !map.spec_obstacle(start) && !map.spec_obstacle(end) && map.spec_line_of_sight(start, end)
            ==> found(r) == Some(seq![start, end]),
        r matches Ok(path) ==> {
            &&& path@.len() >= 1
            &&& path@[0] == start
            &&& path@.last() == end
            &&& forall|i: int| 0 <= i < path@.len() ==> in_bounds(#[trigger] path@[i], map.spec_boundaries())
        },
{
    if map.obstacle(&start) || map.obstacle(&end) {
        return Err(NoPathFoundError());
    }
    if map.line_of_sight(&start, &end) {
        let mut path: Vec<Point2D> = Vec::new();
        path.push(start);
        path.push(end);
        assert(path@ =~= seq![start, end]);
        return Ok(path);
    }
    proof {
        lemma_path_joins_ends(map, start, end);
    }
    do_find_path(map, end, start)
}

/// A search that goes on from a sound state ends, if it finds a path, with
/// one from the target to the origin inside the map.
proof fn lemma_searched_ends<M: ObstacleMap>(
    map: &M,
    origin: Point2D,
    target: Point2D,
    state: SearchState,
    budget: nat,
)
    requires
        valid_extent(map.spec_boundaries()),
        in_bounds(origin, map.spec_boundaries()),
        in_bounds(target, map.spec_boundaries()),
        sound(map.spec_boundaries(), state),
    ensures
        searched(map, origin, target, state, budget) matches Some(path) ==> {
            &&& path.len() >= 1
            &&& path[0] == target
            &&& path.last() == origin
            &&& forall|i: int| 0 <= i < path.len() ==> in_bounds(#[trigger] path[i], map.spec_boundaries())
        },
    decreases budget,
{
    let bounds = map.spec_boundaries();
    if budget > 0 && state.open.len() > 0 {
        let element = least(state.open);
        lemma_least_exists(state.open);
        assert(state.open.count(element) > 0);
        let rest = SearchState { open: state.open.remove(element), ..state };
        assert forall|e: HeapElement<Point2D>| #[trigger] rest.open.count(e) > 0 implies in_bounds(
            e.position,
            bounds,
        ) && cell(bounds, rest.came_from, e.position) is Some by {
            assert(state.open.count(e) > 0);
        }
        if element.f_score > cell(bounds, state.f_score, element.position) {
            lemma_searched_ends(map, origin, target, rest, (budget - 1) as nat);
        } else {
            lemma_expanded_sound(map, target, rest, element.position);
            match expanded(map, target, rest, element.position) {
                Some(next) => {
                    if element.position == target {
                        lemma_traced_ends(
                            bounds,
                            next.came_from,
                            origin,
                            target,
                            extent_area(bounds) as nat,
                        );
                    } else {
                        lemma_searched_ends(map, origin, target, next, (budget - 1) as nat);
                    }
                },
                None => {},
            }
        }
    }
}

/// A path that the search returns leads from `start` to `end` and stays
/// inside the map.
pub proof fn lemma_path_joins_ends<M: ObstacleMap>(map: &M, start: Point2D, end: Point2D)
    requires
        valid_extent(map.spec_boundaries()),
        in_bounds(start, map.spec_boundaries()),
        in_bounds(end, map.spec_boundaries()),
    ensures
        spec_find_path(map, start, end) matches Some(path) ==> {
            &&& path.len() >= 1
            &&& path[0] == start
            &&& path.last() == end
            &&& forall|i: int| 0 <= i < path.len() ==> in_bounds(#[trigger] path[i], map.spec_boundaries())
        },
{
    let bounds = map.spec_boundaries();
    lemma_initial_sound(bounds, end, start);
    lemma_searched_ends(map, end, start, initial_state(bounds, end, start), MAX_EXPANSIONS as nat);
}

/// Each cell of the path sees the next.
pub open spec fn every_hop_seen<M: ObstacleMap>(map: &M, path: Seq<Point2D>) -> bool {
    forall|i: int|
        0 <= i < path.len() - 1 ==> map.spec_line_of_sight(#[trigger] path[i], path[i + 1])
}

/// Two free cells that see each other are joined by the path of just the
/// two of them, and its one hop is a line of sight.
pub proof fn lemma_seen_end_is_reached_directly<M: ObstacleMap>(
    map: &M,
    start: Point2D,
    end: Point2D,
)
    requires
        !map.spec_obstacle(start),
        !map.spec_obstacle(end),
        map.spec_line_of_sight(start, end),
    ensures
        spec_find_path(map, start, end) == Some(seq![start, end]),
        every_hop_seen(map, seq![start, end]),
{
}

/// There is no path from or to a blocked cell.
pub proof fn lemma_blocked_end_has_no_path<M: ObstacleMap>(map: &M, start: Point2D, end: Point2D)
    requires
        map.spec_obstacle(start) || map.spec_obstacle(end),
    ensures
        spec_find_path(map, start, end) is None,
{
}

} // verus!
