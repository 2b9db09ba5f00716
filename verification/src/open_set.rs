//! The open set of a search: a queue that hands out the cheapest position.

use crate::heap::HeapElement;
use crate::point::Point2D;
use vstd::multiset::Multiset;
use vstd::prelude::*;
use vstd::seq_lib::{to_multiset_build, to_multiset_remove, to_multiset_update};

verus! {

/// The order in which the queue hands its elements out: by score, and
/// among equal scores by position, `x` before `y`.
pub open spec fn precedes(a: HeapElement<Point2D>, b: HeapElement<Point2D>) -> bool {
    ||| a.f_score < b.f_score
    ||| a.f_score == b.f_score && a.position.0 < b.position.0
    ||| a.f_score == b.f_score && a.position.0 == b.position.0 && a.position.1 <= b.position.1
}

/// `e` is held and precedes everything that is held.
pub open spec fn is_least(held: Multiset<HeapElement<Point2D>>, e: HeapElement<Point2D>) -> bool {
    &&& held.count(e) > 0
    &&& forall|x: HeapElement<Point2D>| held.count(x) > 0 ==> precedes(e, x)
}

/// The element that the queue hands out next.
pub open spec fn least(held: Multiset<HeapElement<Point2D>>) -> HeapElement<Point2D> {
    choose|e: HeapElement<Point2D>| is_least(held, e)
}

/// Only one element precedes everything that is held.
pub proof fn lemma_least_unique(held: Multiset<HeapElement<Point2D>>, e: HeapElement<Point2D>)
    requires
        is_least(held, e),
    ensures
        least(held) == e,
{
    let other = least(held);
    assert(is_least(held, other));
    assert(precedes(e, other) && precedes(other, e));
}

/// A queue that holds something holds an element that precedes the rest:
/// `least` names one of its elements.
pub proof fn lemma_least_exists(held: Multiset<HeapElement<Point2D>>)
    requires
        held.len() > 0,
    ensures
        is_least(held, least(held)),
    decreases held.len(),
{
    let x = held.choose();
    let rest = held.remove(x);
    assert(held.count(x) > 0);
    assert(held =~= rest.insert(x));
    if rest.len() == 0 {
        assert forall|y: HeapElement<Point2D>| held.count(y) > 0 implies precedes(x, y) by {
            if y != x {
                assert(rest.count(y) > 0);
                assert(rest.len() > 0);
            }
        }
        assert(is_least(held, x));
    } else {
        lemma_least_exists(rest);
        let l = least(rest);
        let best = if precedes(x, l) {
            x
        } else {
            l
        };
        assert forall|y: HeapElement<Point2D>| held.count(y) > 0 implies precedes(best, y) by {
            if y != x {
                assert(rest.count(y) > 0);
                assert(precedes(l, y));
            }
        }
        assert(is_least(held, best));
    }
}

/// The parent of every element but the first precedes it.
spec fn heap_ordered(s: Seq<HeapElement<Point2D>>) -> bool {
    forall|k: int| 0 < k < s.len() ==> precedes(#[trigger] s[(k - 1) / 2], s[k])
}

/// In an ordered heap the first element precedes every other.
proof fn lemma_root_first(s: Seq<HeapElement<Point2D>>, k: int)
    requires
        heap_ordered(s),
        0 <= k < s.len(),
    ensures
        precedes(s[0], s[k]),
    decreases k,
{
    if k > 0 {
        lemma_root_first(s, (k - 1) / 2);
        assert(precedes(s[(k - 1) / 2], s[k]));
    }
}

/// Exchanging two elements keeps what the sequence holds.
proof fn lemma_exchange(s: Seq<HeapElement<Point2D>>, i: int, j: int)
    requires
        0 <= i < s.len(),
        0 <= j < s.len(),
    ensures
        s.update(i, s[j]).update(j, s[i]).to_multiset() == s.to_multiset(),
{
    let t = s.update(i, s[j]);
    to_multiset_update(s, i, s[j]);
    to_multiset_update(t, j, s[i]);
    s.to_multiset_ensures();
    assert(s.contains(s[i]));
    assert(s.contains(s[j]));
    if i == j {
        assert(t.update(j, s[i]) =~= s);
    } else {
        assert(t[j] == s[j]);
        assert(s.to_multiset().insert(s[j]).remove(s[i]).insert(s[i]).remove(s[j])
            =~= s.to_multiset());
    }
}

/// Whether the queue hands `a` out before `b`, or `a` is `b`.
pub fn goes_first(a: &HeapElement<Point2D>, b: &HeapElement<Point2D>) -> (r: bool)
    ensures
        r == precedes(*a, *b),
{
    if a.f_score != b.f_score {
        a.f_score < b.f_score
    } else if a.position.0 != b.position.0 {
        a.position.0 < b.position.0
    } else {
        a.position.1 <= b.position.1
    }
}

/// A priority queue of positions. Its view is what it holds, each element
/// as often as it was pushed and not yet popped.
pub struct OpenSet {
    items: Vec<HeapElement<Point2D>>,
}

impl OpenSet {
    /// What the queue holds.
    pub closed spec fn view(&self) -> Multiset<HeapElement<Point2D>> {
        self.items@.to_multiset()
    }

    /// The queue is in order inside.
    pub closed spec fn wf(&self) -> bool {
        heap_ordered(self.items@)
    }

    /// A queue that holds nothing.
    pub fn new() -> (q: OpenSet)
        ensures
            q.wf(),
            q@ == Multiset::<HeapElement<Point2D>>::empty(),
    {
        let q = OpenSet { items: Vec::new() };
        proof {
            q.items@.to_multiset_ensures();
            assert(q@.len() == 0);
            assert(q@ =~= Multiset::<HeapElement<Point2D>>::empty());
        }
        q
    }

    /// How many elements the queue holds.
    pub fn len(&self) -> (n: usize)
        ensures
            n == self@.len(),
    {
        proof {
            self.items@.to_multiset_ensures();
        }
        self.items.len()
    }

    /// Exchanges two elements.
    fn exchange(&mut self, i: usize, j: usize)
        requires
            i < old(self).items.len(),
            j < old(self).items.len(),
        ensures
            final(self).items@ == old(self).items@.update(i as int, old(self).items[j as int]).update(
                j as int,
                old(self).items[i as int],
            ),
            final(self)@ == old(self)@,
    {
        let a: HeapElement<Point2D> = self.items[i];
        let b: HeapElement<Point2D> = self.items[j];
        proof {
            lemma_exchange(self.items@, i as int, j as int);
        }
        self.items.set(i, b);
        self.items.set(j, a);
    }

    /// Adds an element.
    pub fn push(&mut self, element: HeapElement<Point2D>)
        requires
            old(self).wf(),
        ensures
            final(self).wf(),
            final(self)@ == old(self)@.insert(element),
    {
        proof {
            to_multiset_build(self.items@, element);
        }
        self.items.push(element);
        let n: usize = self.items.len();
        let mut i: usize = n - 1;
        while i > 0
            invariant
                i < n,
                n == self.items.len(),
                self@ == old(self)@.insert(element),
                forall|k: int|
                    0 < k < n && k != i ==> precedes(
                        #[trigger] self.items[(k - 1) / 2],
                        self.items[k],
                    ),
                forall|k: int|
                    0 < k < n && (k - 1) / 2 == i && i > 0 ==> precedes(
                        self.items[(i - 1) / 2],
                        #[trigger] self.items[k],
                    ),
            ensures
                heap_ordered(self.items@),
                self@ == old(self)@.insert(element),
            decreases i,
        {
            let p: usize = (i - 1) / 2;
            if goes_first(&self.items[p], &self.items[i]) {
                proof {
                    assert forall|k: int| 0 < k < n implies precedes(
                        #[trigger] self.items[(k - 1) / 2],
                        self.items[k],
                    ) by {}
                }
                break ;
            }
            let ghost before = self.items@;
            self.exchange(p, i);
            proof {
                assert forall|k: int| 0 < k < n && k != p implies precedes(
                    #[trigger] self.items[(k - 1) / 2],
                    self.items[k],
                ) by {
                    if (k - 1) / 2 == i {
                        assert(precedes(before[(i - 1) / 2], before[k]));
                    } else if k != i {
                        assert(precedes(before[(k - 1) / 2], before[k]));
                    }
                }
                assert forall|k: int| 0 < k < n && (k - 1) / 2 == p && p > 0 implies precedes(
                    self.items[(p - 1) / 2],
                    #[trigger] self.items[k],
                ) by {
                    assert(precedes(before[(p - 1) / 2], before[p as int]));
                    if k != i {
                        assert(precedes(before[(k - 1) / 2], before[k]));
                    }
                }
            }
            i = p;
        }
    }

    /// Takes out the element that precedes all others, if there is any.
    pub fn pop(&mut self) -> (r: Option<HeapElement<Point2D>>)
        requires
            old(self).wf(),
        ensures
            final(self).wf(),
            match r {
                Some(e) => {
                    &&& old(self)@.len() > 0
                    &&& is_least(old(self)@, e)
                    &&& e == least(old(self)@)
                    &&& final(self)@ == old(self)@.remove(e)
                },
                None => old(self)@.len() == 0 && final(self)@ == old(self)@,
            },
    {
        let n: usize = self.items.len();
        proof {
            self.items@.to_multiset_ensures();
        }
        if n == 0 {
            return None;
        }
        let first: HeapElement<Point2D> = self.items[0];
        let ghost start = self.items@;
        proof {
            assert forall|x: HeapElement<Point2D>| start.to_multiset().count(x) > 0 implies precedes(
                first,
                x,
            ) by {
                assert(start.contains(x));
                let k = choose|k: int| 0 <= k < start.len() && start[k] == x;
                lemma_root_first(start, k);
            }
            assert(start.contains(first));
            lemma_least_unique(start.to_multiset(), first);
            to_multiset_remove(start, n - 1);
            assert(start.remove(n - 1) =~= start.drop_last());
        }
        let last: HeapElement<Point2D> = self.items.pop().unwrap();
        let m: usize = n - 1;
        if m == 0 {
            proof {
                assert(self.items@ =~= Seq::empty());
                assert(first == last);
            }
            return Some(first);
        }
        proof {
            to_multiset_update(self.items@, 0, last);
            assert(start.to_multiset().remove(last).insert(last).remove(first)
                =~= start.to_multiset().remove(first));
        }
        self.items.set(0, last);
        let mut i: usize = 0;
        loop
            invariant
                i < m,
                m == self.items.len(),
                self@ == old(self)@.remove(first),
                forall|k: int|
                    0 < k < m && (k - 1) / 2 != i ==> precedes(
                        #[trigger] self.items[(k - 1) / 2],
                        self.items[k],
                    ),
                forall|k: int|
                    0 < k < m && (k - 1) / 2 == i && i > 0 ==> precedes(
                        self.items[(i - 1) / 2],
                        #[trigger] self.items[k],
                    ),
            ensures
                heap_ordered(self.items@),
                self@ == old(self)@.remove(first),
            decreases m - i,
        {
            if m - i < 2 || i > m - 2 - i {
                break ;
            }
            let left: usize = 2 * i + 1;
            let right: usize = left + 1;
            let child: usize = if right < m && !goes_first(&self.items[left], &self.items[right]) {
                right
            } else {
                left
            };
            if goes_first(&self.items[i], &self.items[child]) {
                proof {
                    assert forall|k: int| 0 < k < m implies precedes(
                        #[trigger] self.items[(k - 1) / 2],
                        self.items[k],
                    ) by {
                        if (k - 1) / 2 == i {
                            assert(k == left || k == right);
                        }
                    }
                }
                break ;
            }
            let ghost before = self.items@;
            self.exchange(i, child);
            proof {
                assert forall|k: int| 0 < k < m && (k - 1) / 2 != child implies precedes(
                    #[trigger] self.items[(k - 1) / 2],
                    self.items[k],
                ) by {
                    if (k - 1) / 2 == i {
                        assert(k == left || k == right);
                    } else if k == i {
                        assert(precedes(before[(i - 1) / 2], before[child as int]));
                    } else {
                        assert(precedes(before[(k - 1) / 2], before[k]));
                    }
                }
                assert forall|k: int| 0 < k < m && (k - 1) / 2 == child && child > 0 implies precedes(
                    self.items[(child - 1) / 2],
                    #[trigger] self.items[k],
                ) by {
                    assert(precedes(before[(k - 1) / 2], before[k]));
                }
            }
            i = child;
        }
        Some(first)
    }
}

} // verus!
