//! The tree's general properties and end-to-end scenarios on concrete data.

use aabb::prelude::AABBI32;
use aabb::HilbertRTreeI32;
use std::collections::HashSet;

fn sorted(mut v: Vec<usize>) -> Vec<usize> {
    v.sort();
    v
}

fn grid(n: i32) -> HilbertRTreeI32 {
    let mut tree = HilbertRTreeI32::new();
    for i in 0..n {
        let x = (i * 37) % 200;
        let y = (i * 91) % 170;
        tree.add(x, y, x + (i % 7), y + (i % 5));
    }
    tree.build();
    tree
}

fn boxes_of(n: i32) -> Vec<(i32, i32, i32, i32)> {
    (0..n)
        .map(|i| {
            let x = (i * 37) % 200;
            let y = (i * 91) % 170;
            (x, y, x + (i % 7), y + (i % 5))
        })
        .collect()
}

fn brute(boxes: &[(i32, i32, i32, i32)], pred: impl Fn(&(i32, i32, i32, i32)) -> bool) -> Vec<usize> {
    boxes.iter().enumerate().filter(|(_, b)| pred(b)).map(|(i, _)| i).collect()
}

#[test]
fn window_results_match_brute_force() {
    let boxes = boxes_of(700);
    let tree = grid(700);
    let mut results = Vec::new();
    for (qx, qy, w, h) in [(0, 0, 10, 10), (50, 40, 30, 80), (190, 160, 40, 40), (-5, -5, 2, 2), (0, 0, 300, 300)] {
        tree.query_intersecting(qx, qy, qx + w, qy + h, &mut results);
        let expected = brute(&boxes, |b| !(qx + w < b.0 || qy + h < b.1 || qx > b.2 || qy > b.3));
        assert_eq!(sorted(results.clone()), expected);
        let unique: HashSet<usize> = results.iter().copied().collect();
        assert_eq!(unique.len(), results.len());
    }
}

#[test]
fn point_and_containment_results_match_brute_force() {
    let boxes = boxes_of(500);
    let tree = grid(500);
    let mut results = Vec::new();
    for (x, y) in [(3, 3), (40, 91), (111, 17), (500, 500)] {
        tree.query_point(x, y, &mut results);
        assert_eq!(sorted(results.clone()), brute(&boxes, |b| b.0 <= x && x <= b.2 && b.1 <= y && y <= b.3));
    }
    for (a, b2, c, d) in [(10, 10, 60, 60), (0, 0, 200, 170), (75, 75, 76, 76)] {
        tree.query_contained_within(a, b2, c, d, &mut results);
        assert_eq!(sorted(results.clone()), brute(&boxes, |b| a <= b.0 && b2 <= b.1 && b.2 <= c && b.3 <= d));
        tree.query_contain(a, b2, c, d, &mut results);
        assert_eq!(sorted(results.clone()), brute(&boxes, |b| b.0 <= a && b.1 <= b2 && c <= b.2 && d <= b.3));
    }
}

#[test]
fn build_twice_from_same_adds_gives_same_answers() {
    let a = grid(300);
    let b = grid(300);
    let mut ra = Vec::new();
    let mut rb = Vec::new();
    a.query_intersecting(20, 20, 90, 60, &mut ra);
    b.query_intersecting(20, 20, 90, 60, &mut rb);
    assert_eq!(ra, rb);
}

#[test]
fn reordered_inserts_give_same_boxes() {
    let boxes = boxes_of(120);
    let mut forward = HilbertRTreeI32::new();
    let mut backward = HilbertRTreeI32::new();
    for b in &boxes {
        forward.add(b.0, b.1, b.2, b.3);
    }
    for b in boxes.iter().rev() {
        backward.add(b.0, b.1, b.2, b.3);
    }
    forward.build();
    backward.build();
    let mut rf = Vec::new();
    let mut rb = Vec::new();
    forward.query_intersecting(30, 30, 120, 100, &mut rf);
    backward.query_intersecting(30, 30, 120, 100, &mut rb);
    let n = boxes.len();
    let from_back: Vec<usize> = rb.iter().map(|&id| n - 1 - id).collect();
    assert_eq!(sorted(rf), sorted(from_back));
}

#[test]
fn every_id_appears_once_in_a_full_window() {
    let tree = grid(1000);
    let mut results = Vec::new();
    tree.query_intersecting(i32::MIN, i32::MIN, i32::MAX, i32::MAX, &mut results);
    assert_eq!(sorted(results), (0..1000).collect::<Vec<usize>>());
}

#[test]
fn empty_tree_answers_nothing() {
    let mut tree = HilbertRTreeI32::new();
    tree.build();
    assert!(tree.is_empty());
    assert_eq!(tree.len(), 0);
    let mut results = vec![7, 8];
    tree.query_intersecting(0, 0, 10, 10, &mut results);
    assert!(results.is_empty());
    results.push(3);
    tree.query_point(0, 0, &mut results);
    assert!(results.is_empty());
    tree.query_contain(0, 0, 1, 1, &mut results);
    assert!(results.is_empty());
    tree.query_contained_within(0, 0, 1, 1, &mut results);
    assert!(results.is_empty());
    tree.query_intersecting_k(0, 0, 10, 10, 3, &mut results);
    assert!(results.is_empty());
}

#[test]
fn unbuilt_tree_answers_nothing() {
    let mut tree = HilbertRTreeI32::new();
    tree.add(0, 0, 10, 10);
    let mut results = vec![1];
    tree.query_intersecting(0, 0, 10, 10, &mut results);
    assert!(results.is_empty());
}

#[test]
fn single_item_answers_iff_predicate_holds() {
    let mut tree = HilbertRTreeI32::new();
    tree.add(2, 2, 4, 4);
    tree.build();
    let mut results = Vec::new();
    tree.query_intersecting(4, 4, 9, 9, &mut results);
    assert_eq!(results, vec![0]);
    tree.query_intersecting(5, 5, 9, 9, &mut results);
    assert!(results.is_empty());
    tree.query_point(3, 4, &mut results);
    assert_eq!(results, vec![0]);
    tree.query_point(1, 4, &mut results);
    assert!(results.is_empty());
    tree.query_contain(3, 3, 4, 4, &mut results);
    assert_eq!(results, vec![0]);
    tree.query_contain(3, 3, 5, 4, &mut results);
    assert!(results.is_empty());
    tree.query_contained_within(2, 2, 4, 4, &mut results);
    assert_eq!(results, vec![0]);
    tree.query_contained_within(3, 2, 4, 4, &mut results);
    assert!(results.is_empty());
}

#[test]
fn touching_edges_are_hits() {
    let mut tree = HilbertRTreeI32::new();
    tree.add(0, 0, 10, 10);
    tree.add(20, 0, 30, 10);
    tree.build();
    let mut results = Vec::new();
    tree.query_intersecting(10, 10, 20, 20, &mut results);
    assert_eq!(sorted(results.clone()), vec![0, 1]);
    tree.query_point(10, 5, &mut results);
    assert_eq!(results, vec![0]);
    tree.query_point(20, 10, &mut results);
    assert_eq!(results, vec![1]);
}

#[test]
fn k_zero_gives_nothing_and_k_bounds_count() {
    let tree = grid(400);
    let mut results = vec![1, 2, 3];
    tree.query_intersecting_k(0, 0, 300, 300, 0, &mut results);
    assert!(results.is_empty());
    tree.query_intersecting_k(0, 0, 300, 300, 25, &mut results);
    assert_eq!(results.len(), 25);
    let unique: HashSet<usize> = results.iter().copied().collect();
    assert_eq!(unique.len(), 25);
    tree.query_intersecting_k(0, 0, 5, 5, 1000, &mut results);
    let mut all = Vec::new();
    tree.query_intersecting(0, 0, 5, 5, &mut all);
    assert_eq!(sorted(results), sorted(all));
}

#[test]
fn small_tree_root_bounds_everything() {
    let mut tree = AABBI32::new();
    tree.add(-3, 4, 1, 9);
    tree.add(5, -2, 6, 0);
    tree.add(2, 2, 2, 2);
    tree.build();
    let mut results = Vec::new();
    // the root box is (-3, -2, 6, 9): a window touching its corner reaches a leaf below
    tree.query_intersecting(6, 0, 8, 1, &mut results);
    assert_eq!(results, vec![1]);
    tree.query_intersecting(7, 0, 8, 1, &mut results);
    assert!(results.is_empty());
}

#[test]
fn window_scenario_three_boxes() {
    let mut tree = HilbertRTreeI32::new();
    tree.add(0, 0, 4, 4);
    tree.add(2, 2, 6, 6);
    tree.add(8, 8, 10, 10);
    tree.build();
    let mut results = Vec::new();
    tree.query_intersecting(1, 1, 5, 5, &mut results);
    assert_eq!(sorted(results), vec![0, 1]);
}

#[test]
fn point_scenario_two_boxes() {
    let mut tree = HilbertRTreeI32::new();
    tree.add(0, 0, 4, 4);
    tree.add(2, 2, 6, 6);
    tree.build();
    let mut results = Vec::new();
    tree.query_point(3, 3, &mut results);
    assert_eq!(sorted(results), vec![0, 1]);
}

#[test]
fn containment_scenario_nested_boxes() {
    let mut tree = HilbertRTreeI32::new();
    tree.add(0, 0, 10, 10);
    tree.add(2, 2, 8, 8);
    tree.add(12, 12, 16, 16);
    tree.build();
    let mut results = Vec::new();
    tree.query_contain(3, 3, 7, 7, &mut results);
    assert_eq!(sorted(results.clone()), vec![0, 1]);
    tree.query_contained_within(1, 1, 9, 9, &mut results);
    assert_eq!(results, vec![1]);
}

#[test]
fn points_added_as_degenerate_boxes() {
    let mut tree = HilbertRTreeI32::new();
    tree.add_point(0, 0);
    tree.add_point(1, 0);
    tree.add_point(0, 1);
    tree.add_point(1, 1);
    tree.add_point(5, 5);
    tree.build();
    let mut results = Vec::new();
    tree.query_intersecting(0, 0, 1, 1, &mut results);
    assert_eq!(sorted(results), vec![0, 1, 2, 3]);
}

#[test]
fn second_build_changes_nothing() {
    let mut tree = grid(200);
    let mut before = Vec::new();
    tree.query_intersecting(10, 10, 80, 80, &mut before);
    tree.build();
    let mut after = Vec::new();
    tree.query_intersecting(10, 10, 80, 80, &mut after);
    assert_eq!(before, after);
}

#[test]
fn built_flag_follows_build() {
    let mut tree = HilbertRTreeI32::new();
    assert!(!tree.is_built());
    tree.build();
    assert!(!tree.is_built());
    tree.add(1, 1, 2, 2);
    assert!(!tree.is_built());
    tree.build();
    assert!(tree.is_built());
}
