//! Leaving a blocked region: the search for a free cell near a blocked one.

use crate::errors::NoPathFoundError;
use crate::grid::{cell, cell_index, extent_area, lemma_cell_index, Grid};
use crate::heap::HeapElement;
use crate::map::ObstacleMap;
use crate::neighbors::{adjacent, get_neighbors, lemma_neighbors_exact, neighbors};
use crate::open_set::{least, OpenSet};
use crate::point::{
    distance, euclidean_distance, in_bounds, lemma_in_bounds_within_reach, valid_extent, Cost,
    Point2D,
};
use vstd::multiset::Multiset;
use vstd::prelude::*;

verus! {

/// A walk inside the map, from cell to adjacent cell, on which every cell
/// but the last is blocked.
pub open spec fn red_walk<M: ObstacleMap>(map: &M, walk: Seq<Point2D>) -> bool {
    &&& walk.len() > 0
    &&& forall|i: int| 0 <= i < walk.len() ==> in_bounds(#[trigger] walk[i], map.spec_boundaries())
    &&& forall|i: int|
        0 <= i < walk.len() - 1 ==> map.spec_obstacle(#[trigger] walk[i]) && adjacent(
            walk[i],
            walk[i + 1],
        )
}

/// `target` can be reached from `start` by stepping through blocked cells.
pub open spec fn reaches<M: ObstacleMap>(map: &M, start: Point2D, target: Point2D) -> bool {
    exists|walk: Seq<Point2D>| #[trigger]
        red_walk(map, walk) && walk[0] == start && walk.last() == target
}

/// `target` is a free cell that can be reached from `start` by stepping
/// through blocked cells.
pub open spec fn is_exit<M: ObstacleMap>(map: &M, start: Point2D, target: Point2D) -> bool {
    reaches(map, start, target) && !map.spec_obstacle(target)
}

/// What the search for an exit knows at some moment: the queue, and for
/// every cell whether it was queued already.
pub struct EscapeState {
    pub open: Multiset<HeapElement<Point2D>>,
    pub marked: Seq<bool>,
}

/// The state after the cell `n` was come across: one that was not marked
/// is queued at its distance from `start`, and marked.
pub open spec fn noticed(
    bounds: (Point2D, Point2D),
    start: Point2D,
    state: EscapeState,
    n: Point2D,
) -> EscapeState {
    if cell(bounds, state.marked, n) {
        state
    } else {
        EscapeState {
            open: state.open.insert(
                HeapElement { f_score: distance(start, n), position: n },
            ),
            marked: state.marked.update(cell_index(bounds, n), true),
        }
    }
}

/// The state after the first `k` of the cells `around` were come across,
/// in their order.
pub open spec fn noticed_all(
    bounds: (Point2D, Point2D),
    start: Point2D,
    state: EscapeState,
    around: Seq<Point2D>,
    k: int,
) -> EscapeState
    decreases k,
{
    if k <= 0 {
        state
    } else {
        noticed(bounds, start, noticed_all(bounds, start, state, around, k - 1), around[k - 1])
    }
}

/// The cell that the search for an exit arrives at when it goes on from
/// `state`, taking up to `budget` elements from the queue: the first free
/// cell taken. A blocked cell that is taken has its neighbours come across.
pub open spec fn escaped<M: ObstacleMap>(
    map: &M,
    start: Point2D,
    state: EscapeState,
    budget: nat,
) -> Option<Point2D>
    decreases budget,
{
    if budget == 0 || state.open.len() == 0 {
        None
    } else {
        let element = least(state.open);
        let rest = EscapeState { open: state.open.remove(element), ..state };
        let around = neighbors(element.position, map.spec_boundaries());
        if !map.spec_obstacle(element.position) {
            Some(element.position)
        } else {
            escaped(
                map,
                start,
                noticed_all(map.spec_boundaries(), start, rest, around, around.len() as int),
                (budget - 1) as nat,
            )
        }
    }
}

/// The cell that `exit_red_zone_impl` returns, if it returns one: a free
/// `start` itself; from a blocked one, what the search arrives at that
/// starts with `start` alone in its queue, at score 0, and no cell marked.
/// Its budget is never used up: a cell is queued once, but for `start`.
pub open spec fn spec_exit_red_zone<M: ObstacleMap>(map: &M, start: Point2D) -> Option<Point2D> {
    let area = extent_area(map.spec_boundaries()) as nat;
    if !map.spec_obstacle(start) {
        Some(start)
    } else {
        escaped(
            map,
            start,
            EscapeState {
                open: Multiset::empty().insert(HeapElement { f_score: 0, position: start }),
                marked: Seq::new(area, |i: int| false),
            },
            area + 1,
        )
    }
}

/// The queue holds the cell `c`.
pub open spec fn queued(held: Multiset<HeapElement<Point2D>>, c: Point2D) -> bool {
    exists|e: HeapElement<Point2D>| #[trigger] held.count(e) > 0 && e.position == c
}

/// How many cells are not marked.
pub open spec fn unmarked(marks: Seq<bool>) -> nat
    decreases marks.len(),
{
    if marks.len() == 0 {
        0
    } else {
        unmarked(marks.drop_last()) + if marks.last() {
            0nat
        } else {
            1nat
        }
    }
}

/// Marking a cell that was not marked leaves one unmarked cell fewer.
proof fn lemma_mark(marks: Seq<bool>, i: int)
    requires
        0 <= i < marks.len(),
        !marks[i],
    ensures
        unmarked(marks.update(i, true)) + 1 == unmarked(marks),
    decreases marks.len(),
{
    let after = marks.update(i, true);
    if i == marks.len() - 1 {
        assert(after.drop_last() =~= marks.drop_last());
    } else {
        lemma_mark(marks.drop_last(), i);
        assert(after.drop_last() =~= marks.drop_last().update(i, true));
    }
}

/// Where nothing is marked, every cell is unmarked.
proof fn lemma_all_unmarked(marks: Seq<bool>)
    requires
        forall|i: int| 0 <= i < marks.len() ==> !marks[i],
    ensures
        unmarked(marks) == marks.len(),
    decreases marks.len(),
{
    if marks.len() > 0 {
        lemma_all_unmarked(marks.drop_last());
    }
}

/// A walk through blocked cells can be made one step longer from a blocked
/// end.
proof fn lemma_reaches_step<M: ObstacleMap>(map: &M, start: Point2D, from: Point2D, to: Point2D)
    requires
        reaches(map, start, from),
        map.spec_obstacle(from),
        adjacent(from, to),
        in_bounds(to, map.spec_boundaries()),
    ensures
        reaches(map, start, to),
{
    let walk = choose|walk: Seq<Point2D>| #[trigger]
        red_walk(map, walk) && walk[0] == start && walk.last() == from;
    let longer = walk.push(to);
    assert forall|i: int| 0 <= i < longer.len() implies in_bounds(
        #[trigger] longer[i],
        map.spec_boundaries(),
    ) by {
        if i < walk.len() {
            assert(longer[i] == walk[i]);
        }
    }
    assert forall|i: int| 0 <= i < longer.len() - 1 implies map.spec_obstacle(#[trigger] longer[i])
        && adjacent(longer[i], longer[i + 1]) by {
        assert(longer[i] == walk[i]);
        if i < walk.len() - 1 {
            assert(longer[i + 1] == walk[i + 1]);
        }
    }
    assert(red_walk(map, longer) && longer[0] == start && longer.last() == to);
}

/// The cells that were taken from the queue and found blocked are closed
/// under stepping: all that lies around them was marked.
spec fn closed_under_steps<M: ObstacleMap>(
    map: &M,
    marks: Grid<bool>,
    expanded: Set<Point2D>,
) -> bool {
    forall|c: Point2D, n: Point2D|
        #![trigger expanded.contains(c), adjacent(c, n)]
        expanded.contains(c) && in_bounds(n, map.spec_boundaries()) && adjacent(c, n) ==> marks.at(
            n,
        )
}

/// Once every marked cell has been taken out and found blocked, a walk
/// through blocked cells never leaves the cells taken out.
proof fn lemma_walk_stays<M: ObstacleMap>(
    map: &M,
    marks: Grid<bool>,
    expanded: Set<Point2D>,
    walk: Seq<Point2D>,
    i: int,
)
    requires
        red_walk(map, walk),
        0 <= i < walk.len(),
        expanded.contains(walk[0]),
        closed_under_steps(map, marks, expanded),
        forall|c: Point2D|
            in_bounds(c, map.spec_boundaries()) && #[trigger] marks.at(c) ==> expanded.contains(c),
    ensures
        expanded.contains(walk[i]),
    decreases i,
{
    if i > 0 {
        lemma_walk_stays(map, marks, expanded, walk, i - 1);
        assert(adjacent(walk[i - 1], walk[i]));
        assert(marks.at(walk[i]));
    }
}

/// Looks for a free cell near `start`.
///
/// A free `start` is its own answer. From a blocked one the search spreads
/// through blocked cells, nearest to `start` first, and returns the first
/// free cell that its queue hands out. It fails exactly when no free cell
/// can be reached by stepping through blocked cells.
pub fn exit_red_zone_impl<M: ObstacleMap>(map: &M, start: &Point2D) -> (r: Result<
    Point2D,
    NoPathFoundError,
>)
    requires
        valid_extent(map.spec_boundaries()),
        in_bounds(*start, map.spec_boundaries()),
    ensures
        match r {
            Ok(p) => Some(p),
            Err(_) => None,
        } == spec_exit_red_zone(map, *start),
        !map.spec_obstacle(*start) ==> r == Ok::<Point2D, NoPathFoundError>(*start),
        r matches Ok(p) ==> in_bounds(p, map.spec_boundaries()) && is_exit(map, *start, p),
        r is Ok <==> exists|p: Point2D| is_exit(map, *start, p),
{
    let bounds: (Point2D, Point2D) = map.boundaries();
    let mut already_added_to_queue: Grid<bool> = Grid::new(bounds, false);
    proof {
        let alone = seq![*start];
        assert(red_walk(map, alone) && alone[0] == *start && alone.last() == *start);
    }
    if !map.obstacle(start) {
        assert(is_exit(map, *start, *start));
        return Ok(*start);
    }
    let mut q: OpenSet = OpenSet::new();
    let first: HeapElement<Point2D> = HeapElement { f_score: 0, position: *start };
    q.push(first);
    let ghost mut expanded: Set<Point2D> = Set::empty();
    let ghost answer = spec_exit_red_zone(map, *start);
    proof {
        already_added_to_queue.lemma_wf();
        assert(already_added_to_queue@ =~= Seq::new(
            extent_area(bounds) as nat,
            |i: int| false,
        ));
        lemma_all_unmarked(already_added_to_queue@);
        assert(q@.len() == 1);
        assert(q@.count(first) > 0);
        assert forall|c: Point2D| in_bounds(c, bounds) implies !#[trigger] already_added_to_queue.at(
            c,
        ) by {
            lemma_cell_index(bounds, c, c);
        }
    }
    loop
        invariant
            bounds == map.spec_boundaries(),
            valid_extent(bounds),
            in_bounds(*start, bounds),
            map.spec_obstacle(*start),
            already_added_to_queue.wf(),
            already_added_to_queue.bounds() == bounds,
            q.wf(),
            forall|e: HeapElement<Point2D>| #[trigger]
                q@.count(e) > 0 ==> in_bounds(e.position, bounds) && reaches(
                    map,
                    *start,
                    e.position,
                ),
            forall|c: Point2D| #[trigger]
                expanded.contains(c) ==> in_bounds(c, bounds) && map.spec_obstacle(c),
            closed_under_steps(map, already_added_to_queue, expanded),
            forall|c: Point2D|
                in_bounds(c, bounds) && #[trigger] already_added_to_queue.at(c)
                    ==> expanded.contains(c) || queued(q@, c),
            expanded.contains(*start) || queued(q@, *start),
            answer == spec_exit_red_zone(map, *start),
            answer == escaped(
                map,
                *start,
                EscapeState { open: q@, marked: already_added_to_queue@ },
                unmarked(already_added_to_queue@) + q@.len(),
            ),
        decreases unmarked(already_added_to_queue@) + q@.len(),
    {
        let ghost held = q@;
        let ghost measure = unmarked(already_added_to_queue@) + q@.len();
        let position: Point2D = match q.pop() {
            Some(e) => e.position,
            None => {
                proof {
                    assert forall|c: Point2D| !queued(held, c) by {
                        if queued(held, c) {
                            let e = choose|e: HeapElement<Point2D>| #[trigger]
                                held.count(e) > 0 && e.position == c;
                            assert(held.len() > 0);
                        }
                    }
                    assert forall|p: Point2D| !is_exit(map, *start, p) by {
                        if is_exit(map, *start, p) {
                            let walk = choose|walk: Seq<Point2D>| #[trigger]
                                red_walk(map, walk) && walk[0] == *start && walk.last() == p;
                            lemma_walk_stays(
                                map,
                                already_added_to_queue,
                                expanded,
                                walk,
                                walk.len() - 1,
                            );
                        }
                    }
                }
                return Err(NoPathFoundError());
            },
        };
        if !map.obstacle(&position) {
            assert(is_exit(map, *start, position));
            return Ok(position);
        }
        let around: Vec<Point2D> = get_neighbors(position, bounds);
        let ghost rest = EscapeState { open: q@, marked: already_added_to_queue@ };
        proof {
            lemma_neighbors_exact(position, bounds);
            assert forall|c: Point2D| queued(held, c) implies queued(q@, c) || c == position by {
                let e = choose|e: HeapElement<Point2D>| #[trigger]
                    held.count(e) > 0 && e.position == c;
                if c != position {
                    assert(q@.count(e) > 0);
                }
            }
        }
        let mut j: usize = 0;
        while j < around.len()
            invariant
                j <= around.len(),
                around@ == neighbors(position, bounds),
                bounds == map.spec_boundaries(),
                valid_extent(bounds),
                in_bounds(*start, bounds),
                in_bounds(position, bounds),
                map.spec_obstacle(position),
                reaches(map, *start, position),
                forall|n: Point2D|
                    neighbors(position, bounds).contains(n) <==> in_bounds(n, bounds) && adjacent(
                        position,
                        n,
                    ),
                already_added_to_queue.wf(),
                already_added_to_queue.bounds() == bounds,
                q.wf(),
                forall|e: HeapElement<Point2D>| #[trigger]
                    q@.count(e) > 0 ==> in_bounds(e.position, bounds) && reaches(
                        map,
                        *start,
                        e.position,
                    ),
                forall|c: Point2D| #[trigger]
                    expanded.contains(c) ==> in_bounds(c, bounds) && map.spec_obstacle(c),
                closed_under_steps(map, already_added_to_queue, expanded),
                forall|c: Point2D|
                    in_bounds(c, bounds) && #[trigger] already_added_to_queue.at(c)
                        ==> expanded.contains(c) || queued(q@, c) || c == position,
                expanded.contains(*start) || queued(q@, *start) || *start == position,
                forall|k: int| 0 <= k < j ==> already_added_to_queue.at(#[trigger] around[k]),
                unmarked(already_added_to_queue@) + q@.len() + 1 == measure,
                (EscapeState { open: q@, marked: already_added_to_queue@ }) == noticed_all(
                    bounds,
                    *start,
                    rest,
                    around@,
                    j as int,
                ),
            decreases around.len() - j,
        {
            let n: Point2D = around[j];
            assert(neighbors(position, bounds).contains(n));
            if !already_added_to_queue.get(&n) {
                proof {
                    lemma_in_bounds_within_reach(*start, n, bounds);
                    lemma_reaches_step(map, *start, position, n);
                    lemma_cell_index(bounds, n, n);
                    already_added_to_queue.lemma_wf();
                    lemma_mark(already_added_to_queue@, cell_index(bounds, n));
                }
                let ghost held_before = q@;
                let ghost marks_before = already_added_to_queue;
                let element: HeapElement<Point2D> = HeapElement {
                    f_score: euclidean_distance(start, &n),
                    position: n,
                };
                q.push(element);
                already_added_to_queue.set(&n, true);
                proof {
                    assert(q@.count(element) > 0);
                    assert forall|c: Point2D| queued(held_before, c) implies queued(q@, c) by {
                        let e = choose|e: HeapElement<Point2D>| #[trigger]
                            held_before.count(e) > 0 && e.position == c;
                        assert(q@.count(e) > 0);
                    }
                    assert forall|c: Point2D|
                        in_bounds(c, bounds) && #[trigger] already_added_to_queue.at(c)
                            implies expanded.contains(c) || queued(q@, c) || c == position by {
                        if c != n {
                            assert(marks_before.at(c));
                        }
                    }
                    assert forall|c: Point2D, m: Point2D|
                        #![trigger expanded.contains(c), adjacent(c, m)]
                        expanded.contains(c) && in_bounds(m, map.spec_boundaries()) && adjacent(
                            c,
                            m,
                        ) implies already_added_to_queue.at(m) by {
                        if m != n {
                            assert(marks_before.at(m));
                        }
                    }
                    assert forall|k: int| 0 <= k < j implies already_added_to_queue.at(
                        #[trigger] around[k],
                    ) by {
                        assert(neighbors(position, bounds).contains(around[k]));
                        if around[k] != n {
                            assert(marks_before.at(around[k]));
                        }
                    }
                }
            }
            j = j + 1;
        }
        proof {
            let ghost grown = expanded.insert(position);
            assert forall|c: Point2D, m: Point2D|
                #![trigger grown.contains(c), adjacent(c, m)]
                grown.contains(c) && in_bounds(m, map.spec_boundaries()) && adjacent(
                    c,
                    m,
                ) implies already_added_to_queue.at(m) by {
                if c == position {
                    assert(neighbors(position, bounds).contains(m));
                    let k = choose|k: int| 0 <= k < around@.len() && around@[k] == m;
                    assert(already_added_to_queue.at(around[k]));
                } else {
                    assert(expanded.contains(c));
                }
            }
            expanded = grown;
        }
    }
}

} // verus!
