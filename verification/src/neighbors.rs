//! The up to eight cells around a cell that lie in a rectangle.

use crate::point::{in_bounds, Point2D};
use vstd::prelude::*;

verus! {

/// The cell to the right of `pos`, unless it leaves the rectangle there.
pub open spec fn spec_right(pos: Point2D, bounds: (Point2D, Point2D)) -> Option<Point2D> {
    if pos.0 + 1 < bounds.1.0 {
        Some(((pos.0 + 1) as isize, pos.1))
    } else {
        None
    }
}

/// The cell above `pos`, unless it leaves the rectangle there.
pub open spec fn spec_up(pos: Point2D, bounds: (Point2D, Point2D)) -> Option<Point2D> {
    if pos.1 + 1 < bounds.1.1 {
        Some((pos.0, (pos.1 + 1) as isize))
    } else {
        None
    }
}

/// The cell to the left of `pos`, unless it leaves the rectangle there.
pub open spec fn spec_left(pos: Point2D, bounds: (Point2D, Point2D)) -> Option<Point2D> {
    if pos.0 - 1 >= bounds.0.0 {
        Some(((pos.0 - 1) as isize, pos.1))
    } else {
        None
    }
}

/// The cell below `pos`, unless it leaves the rectangle there.
pub open spec fn spec_down(pos: Point2D, bounds: (Point2D, Point2D)) -> Option<Point2D> {
    if pos.1 - 1 >= bounds.0.1 {
        Some((pos.0, (pos.1 - 1) as isize))
    } else {
        None
    }
}

/// One step, then another from where the first one led.
pub open spec fn and_then_step(
    first: Option<Point2D>,
    second: spec_fn(Point2D, (Point2D, Point2D)) -> Option<Point2D>,
    bounds: (Point2D, Point2D),
) -> Option<Point2D> {
    match first {
        Some(q) => second(q, bounds),
        None => None,
    }
}

/// The cell up and to the right of `pos`: one step up, then one to the
/// right.
pub open spec fn spec_upright(pos: Point2D, bounds: (Point2D, Point2D)) -> Option<Point2D> {
    and_then_step(spec_up(pos, bounds), |q, b| spec_right(q, b), bounds)
}

/// The cell up and to the left of `pos`: one step up, then one to the left.
pub open spec fn spec_upleft(pos: Point2D, bounds: (Point2D, Point2D)) -> Option<Point2D> {
    and_then_step(spec_up(pos, bounds), |q, b| spec_left(q, b), bounds)
}

/// The cell down and to the right of `pos`: one step down, then one to the
/// right.
pub open spec fn spec_downright(pos: Point2D, bounds: (Point2D, Point2D)) -> Option<Point2D> {
    and_then_step(spec_down(pos, bounds), |q, b| spec_right(q, b), bounds)
}

/// The cell down and to the left of `pos`: one step down, then one to the
/// left.
pub open spec fn spec_downleft(pos: Point2D, bounds: (Point2D, Point2D)) -> Option<Point2D> {
    and_then_step(spec_down(pos, bounds), |q, b| spec_left(q, b), bounds)
}

/// The cell of a step as a sequence: one cell, or none.
pub open spec fn taken(step: Option<Point2D>) -> Seq<Point2D> {
    match step {
        Some(q) => seq![q],
        None => seq![],
    }
}

/// The neighbours of `pos` in their fixed order: right, up, left, down,
/// then up-right, up-left, down-left, down-right. A diagonal one is there
/// only if both of its straight steps stay in the rectangle.
pub open spec fn neighbors(pos: Point2D, bounds: (Point2D, Point2D)) -> Seq<Point2D> {
    taken(spec_right(pos, bounds)) + taken(spec_up(pos, bounds)) + taken(spec_left(pos, bounds))
        + taken(spec_down(pos, bounds)) + taken(spec_upright(pos, bounds)) + taken(
        spec_upleft(pos, bounds),
    ) + taken(spec_downleft(pos, bounds)) + taken(spec_downright(pos, bounds))
}

/// `q` is one of the eight cells around `p`.
pub open spec fn adjacent(p: Point2D, q: Point2D) -> bool {
    &&& -1 <= q.0 - p.0 <= 1
    &&& -1 <= q.1 - p.1 <= 1
    &&& p != q
}

/// The cell to the right of `pos`, if the rectangle goes on there.
pub fn right(pos: &Point2D, boundaries: &(Point2D, Point2D)) -> (r: Option<Point2D>)
    ensures
        r == spec_right(*pos, *boundaries),
{
    let bound: isize = boundaries.1.0;
    if pos.0 >= bound || pos.0 + 1 >= bound {
        return None;
    }
    Some((pos.0 + 1, pos.1))
}

/// The cell above `pos`, if the rectangle goes on there.
pub fn up(pos: &Point2D, boundaries: &(Point2D, Point2D)) -> (r: Option<Point2D>)
    ensures
        r == spec_up(*pos, *boundaries),
{
    let bound: isize = boundaries.1.1;
    if pos.1 >= bound || pos.1 + 1 >= bound {
        return None;
    }
    Some((pos.0, pos.1 + 1))
}

/// The cell to the left of `pos`, if the rectangle goes on there.
pub fn left(pos: &Point2D, boundaries: &(Point2D, Point2D)) -> (r: Option<Point2D>)
    ensures
        r == spec_left(*pos, *boundaries),
{
    let bound: isize = boundaries.0.0;
    if pos.0 <= bound {
        return None;
    }
    Some((pos.0 - 1, pos.1))
}

/// The cell below `pos`, if the rectangle goes on there.
pub fn down(pos: &Point2D, boundaries: &(Point2D, Point2D)) -> (r: Option<Point2D>)
    ensures
        r == spec_down(*pos, *boundaries),
{
    let bound: isize = boundaries.0.1;
    if pos.1 <= bound {
        return None;
    }
    Some((pos.0, pos.1 - 1))
}

/// The cell up and to the right of `pos`, if both steps stay in the rectangle.
pub fn upright(pos: &Point2D, boundaries: &(Point2D, Point2D)) -> (r: Option<Point2D>)
    ensures
        r == spec_upright(*pos, *boundaries),
{
    match up(pos, boundaries) {
        Some(q) => right(&q, boundaries),
        None => None,
    }
}

/// The cell up and to the left of `pos`, if both steps stay in the rectangle.
pub fn upleft(pos: &Point2D, boundaries: &(Point2D, Point2D)) -> (r: Option<Point2D>)
    ensures
        r == spec_upleft(*pos, *boundaries),
{
    match up(pos, boundaries) {
        Some(q) => left(&q, boundaries),
        None => None,
    }
}

/// The cell down and to the right of `pos`, if both steps stay in the rectangle.
pub fn downright(pos: &Point2D, boundaries: &(Point2D, Point2D)) -> (r: Option<Point2D>)
    ensures
        r == spec_downright(*pos, *boundaries),
{
    match down(pos, boundaries) {
        Some(q) => right(&q, boundaries),
        None => None,
    }
}

/// The cell down and to the left of `pos`, if both steps stay in the rectangle.
pub fn downleft(pos: &Point2D, boundaries: &(Point2D, Point2D)) -> (r: Option<Point2D>)
    ensures
        r == spec_downleft(*pos, *boundaries),
{
    match down(pos, boundaries) {
        Some(q) => left(&q, boundaries),
        None => None,
    }
}

/// Appends the cell of a step, if there is one.
fn push_taken(found: &mut Vec<Point2D>, step: Option<Point2D>)
    ensures
        final(found)@ == old(found)@ + taken(step),
{
    match step {
        Some(q) => {
            found.push(q);
            assert(found@ =~= old(found)@ + taken(step));
        },
        None => {
            assert(found@ =~= old(found)@ + taken(step));
        },
    }
}

/// The neighbours of `pos` inside `boundaries`, in their fixed order.
pub fn get_neighbors(pos: Point2D, boundaries: (Point2D, Point2D)) -> (r: Vec<Point2D>)
    ensures
        r@ == neighbors(pos, boundaries),
{
    let mut found: Vec<Point2D> = Vec::new();
    assert(found@ =~= Seq::<Point2D>::empty());
    push_taken(&mut found, right(&pos, &boundaries));
    assert(found@ =~= taken(spec_right(pos, boundaries)));
    push_taken(&mut found, up(&pos, &boundaries));
    push_taken(&mut found, left(&pos, &boundaries));
    push_taken(&mut found, down(&pos, &boundaries));
    push_taken(&mut found, upright(&pos, &boundaries));
    push_taken(&mut found, upleft(&pos, &boundaries));
    push_taken(&mut found, downleft(&pos, &boundaries));
    push_taken(&mut found, downright(&pos, &boundaries));
    found
}

/// What appending the cell of a step does to membership and to
/// distinctness.
proof fn lemma_append_taken(s: Seq<Point2D>, step: Option<Point2D>)
    ensures
        forall|q: Point2D| #[trigger]
            (s + taken(step)).contains(q) <==> (s.contains(q) || step == Some(q)),
        s.no_duplicates() && (step matches Some(q) ==> !s.contains(q)) ==> (s + taken(
            step,
        )).no_duplicates(),
{
    let t = s + taken(step);
    assert forall|q: Point2D| #[trigger] t.contains(q) <==> (s.contains(q) || step == Some(q)) by {
        if t.contains(q) {
            let i = choose|i: int| 0 <= i < t.len() && t[i] == q;
            if i < s.len() {
                assert(s[i] == q);
            }
        }
        if s.contains(q) {
            let i = choose|i: int| 0 <= i < s.len() && s[i] == q;
            assert(t[i] == q);
        }
        if step == Some(q) {
            assert(t[s.len() as int] == q);
        }
    }
    if s.no_duplicates() && (step matches Some(q) ==> !s.contains(q)) {
        assert forall|i: int, j: int| 0 <= i < t.len() && 0 <= j < t.len() && i != j implies t[i]
            != t[j] by {
            if i < s.len() && j < s.len() {
                assert(t[i] == s[i] && t[j] == s[j]);
            } else if i < s.len() {
                assert(s.contains(s[i]));
            } else if j < s.len() {
                assert(s.contains(s[j]));
            }
        }
    }
}

/// Around a cell of the rectangle, the neighbours are exactly the cells of
/// the rectangle next to it, each once.
pub proof fn lemma_neighbors_exact(pos: Point2D, bounds: (Point2D, Point2D))
    requires
        in_bounds(pos, bounds),
    ensures
        forall|q: Point2D|
            neighbors(pos, bounds).contains(q) <==> in_bounds(q, bounds) && adjacent(pos, q),
        neighbors(pos, bounds).no_duplicates(),
{
    let s0 = Seq::<Point2D>::empty();
    let s1 = s0 + taken(spec_right(pos, bounds));
    let s2 = s1 + taken(spec_up(pos, bounds));
    let s3 = s2 + taken(spec_left(pos, bounds));
    let s4 = s3 + taken(spec_down(pos, bounds));
    let s5 = s4 + taken(spec_upright(pos, bounds));
    let s6 = s5 + taken(spec_upleft(pos, bounds));
    let s7 = s6 + taken(spec_downleft(pos, bounds));
    let s8 = s7 + taken(spec_downright(pos, bounds));
    assert(s1 =~= taken(spec_right(pos, bounds)));
    assert(s8 == neighbors(pos, bounds));
    lemma_append_taken(s0, spec_right(pos, bounds));
    lemma_append_taken(s1, spec_up(pos, bounds));
    lemma_append_taken(s2, spec_left(pos, bounds));
    lemma_append_taken(s3, spec_down(pos, bounds));
    lemma_append_taken(s4, spec_upright(pos, bounds));
    lemma_append_taken(s5, spec_upleft(pos, bounds));
    lemma_append_taken(s6, spec_downleft(pos, bounds));
    lemma_append_taken(s7, spec_downright(pos, bounds));
    assert(!s0.contains(pos)) by {
        if s0.contains(pos) {
            let i = choose|i: int| 0 <= i < s0.len() && s0[i] == pos;
        }
    }
    assert forall|q: Point2D| !s0.contains(q) by {
        if s0.contains(q) {
            let i = choose|i: int| 0 <= i < s0.len() && s0[i] == q;
        }
    }
    assert forall|q: Point2D| s8.contains(q) <==> in_bounds(q, bounds) && adjacent(pos, q) by {
        assert(s1.contains(q) <==> s0.contains(q) || spec_right(pos, bounds) == Some(q));
        assert(s2.contains(q) <==> s1.contains(q) || spec_up(pos, bounds) == Some(q));
        assert(s3.contains(q) <==> s2.contains(q) || spec_left(pos, bounds) == Some(q));
        assert(s4.contains(q) <==> s3.contains(q) || spec_down(pos, bounds) == Some(q));
        assert(s5.contains(q) <==> s4.contains(q) || spec_upright(pos, bounds) == Some(q));
        assert(s6.contains(q) <==> s5.contains(q) || spec_upleft(pos, bounds) == Some(q));
        assert(s7.contains(q) <==> s6.contains(q) || spec_downleft(pos, bounds) == Some(q));
        assert(s8.contains(q) <==> s7.contains(q) || spec_downright(pos, bounds) == Some(q));
    }
    assert(s1.no_duplicates());
    assert(s2.no_duplicates());
    assert(s3.no_duplicates());
    assert(s4.no_duplicates());
    assert(s5.no_duplicates());
    assert(s6.no_duplicates());
    assert(s7.no_duplicates());
}

} // verus!
