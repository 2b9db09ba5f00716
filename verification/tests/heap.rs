use grid_pathfinding::heap::HeapElement;
use grid_pathfinding::open_set::{goes_first, OpenSet};
use grid_pathfinding::point::COST_UNIT;
use std::cmp::Ordering::{Equal, Greater, Less};

fn heap_element() -> (HeapElement<i32>, HeapElement<i32>) {
    (
        HeapElement { f_score: 0, position: 42 },
        HeapElement { f_score: COST_UNIT, position: 64 },
    )
}

#[test]
fn test_heap_element_partial_ordering() {
    let (elem_a, elem_b) = heap_element();
    assert_eq!(elem_a.partial_cmp(&elem_b), Some(Greater));
    assert_eq!(elem_b.partial_cmp(&elem_a), Some(Less));
    assert_eq!(elem_a.partial_cmp(&elem_a), Some(Equal));
}

#[test]
fn test_heap_element_ordering() {
    let (elem_a, elem_b) = heap_element();
    assert_eq!(elem_a.partial_cmp(&elem_b), Some(Greater));
    assert_eq!(elem_b.partial_cmp(&elem_a), Some(Less));
    assert_eq!(elem_a.partial_cmp(&elem_a), Some(Equal));
}

#[test]
fn heap_elements_are_equal_by_score() {
    let a = HeapElement { f_score: 7, position: 1 };
    let b = HeapElement { f_score: 7, position: 2 };
    let c = HeapElement { f_score: 8, position: 1 };
    assert!(a == b);
    assert!(a != c);
    assert!(c < a);
    assert!(a > c);
}

#[test]
fn open_set_hands_out_the_cheapest_first() {
    let mut open_set = OpenSet::new();
    let scores: [u128; 9] = [50, 10, 40, 20, 30, 10, 90, 0, 60];
    for (i, score) in scores.iter().enumerate() {
        open_set.push(HeapElement { f_score: *score, position: (i as isize, 0) });
    }
    assert_eq!(open_set.len(), 9);
    let mut got = Vec::new();
    while let Some(element) = open_set.pop() {
        got.push((element.f_score, element.position));
    }
    assert_eq!(
        got,
        vec![
            (0, (7, 0)),
            (10, (1, 0)),
            (10, (5, 0)),
            (20, (3, 0)),
            (30, (4, 0)),
            (40, (2, 0)),
            (50, (0, 0)),
            (60, (8, 0)),
            (90, (6, 0)),
        ]
    );
    assert_eq!(open_set.len(), 0);
}

#[test]
fn open_set_breaks_ties_by_position() {
    let mut open_set = OpenSet::new();
    for position in [(2, 1), (1, 5), (2, 0), (1, 4), (-3, 9)] {
        open_set.push(HeapElement { f_score: 5, position });
    }
    let mut got = Vec::new();
    while let Some(element) = open_set.pop() {
        got.push(element.position);
    }
    assert_eq!(got, vec![(-3, 9), (1, 4), (1, 5), (2, 0), (2, 1)]);
}

#[test]
fn open_set_keeps_what_was_pushed_twice() {
    let mut open_set = OpenSet::new();
    let element = HeapElement { f_score: 3, position: (1, 1) };
    open_set.push(element);
    open_set.push(element);
    assert_eq!(open_set.len(), 2);
    assert_eq!(open_set.pop().map(|e| e.position), Some((1, 1)));
    assert_eq!(open_set.pop().map(|e| e.position), Some((1, 1)));
    assert!(open_set.pop().is_none());
}

#[test]
fn empty_open_set_hands_out_nothing() {
    let mut open_set = OpenSet::new();
    assert!(open_set.pop().is_none());
    assert_eq!(open_set.len(), 0);
}

#[test]
fn queue_order_is_by_score_then_position() {
    let cheap = HeapElement { f_score: 1, position: (9, 9) };
    let dear = HeapElement { f_score: 2, position: (0, 0) };
    assert!(goes_first(&cheap, &dear));
    assert!(!goes_first(&dear, &cheap));
    let left = HeapElement { f_score: 2, position: (0, 7) };
    let right = HeapElement { f_score: 2, position: (1, 0) };
    assert!(goes_first(&left, &right));
    assert!(!goes_first(&right, &left));
    let low = HeapElement { f_score: 2, position: (1, -1) };
    assert!(goes_first(&low, &right));
    assert!(goes_first(&right, &right));
}
