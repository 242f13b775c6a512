use anyangle::monotonizer::monotonizer_from_first_poly_geom;
use std::ops::ControlFlow;

use anyangle::{ChainVertexType, Diagonal, Monotonizer, Point};

fn ends(d: &Diagonal<i64>) -> (usize, (i64, i64), usize, (i64, i64)) {
    (
        d.from.index.0,
        (d.from.vertex.this.x, d.from.vertex.this.y),
        d.to.index.0,
        (d.to.vertex.this.x, d.to.vertex.this.y),
    )
}

fn square_with_hole() -> Vec<Vec<[i64; 2]>> {
    vec![
        vec![[0, 0], [10, 0], [10, 10], [0, 10]],
        vec![[3, 3], [3, 6], [6, 6], [6, 3]],
    ]
}

#[test]
fn sweep_order_is_lexicographic() {
    let m = Monotonizer::new(square_with_hole());
    assert_eq!(m.sweep_vertex_count(), 8);
    assert_eq!(m.current_sweep_index(), 0);
    let order: Vec<(i64, i64)> = (0..8)
        .map(|i| {
            let v = m.sweep_vertex(i).unwrap();
            (v.this.x, v.this.y)
        })
        .collect();
    assert_eq!(
        order,
        vec![(0, 0), (0, 10), (3, 3), (3, 6), (6, 3), (6, 6), (10, 0), (10, 10)]
    );
    assert!(m.sweep_vertex(8).is_none());
}

#[test]
fn sweep_vertices_are_linked_along_rings() {
    let m = Monotonizer::new(vec![vec![[0, 0], [10, 0], [10, 10], [0, 10]]]);
    let v = m.sweep_vertex(0).unwrap();
    assert_eq!(v.prev, Point::new(0, 10));
    assert_eq!(v.this, Point::new(0, 0));
    assert_eq!(v.next, Point::new(10, 0));
    let v = m.sweep_vertex(3).unwrap();
    assert_eq!(v.prev, Point::new(10, 0));
    assert_eq!(v.this, Point::new(10, 10));
    assert_eq!(v.next, Point::new(0, 10));
}

#[test]
fn convex_polygon_needs_no_diagonal() {
    let mut m = Monotonizer::new(vec![vec![[0, 0], [10, 0], [10, 10], [0, 10]]]);
    assert!(m.run().is_empty());
    assert_eq!(m.current_sweep_index(), 4);
}

#[test]
fn hole_is_joined_by_diagonals() {
    let mut m = Monotonizer::new(square_with_hole());
    let types: Vec<bool> = (0..8)
        .map(|i| matches!(m.sweep_vertex(i).unwrap().typ(), ChainVertexType::Split))
        .collect();
    assert_eq!(types, vec![false, false, true, false, false, false, false, false]);
    let diagonals = m.run();
    let found: Vec<_> = diagonals.iter().map(ends).collect();
    assert_eq!(found, vec![(1, (0, 10), 2, (3, 3)), (5, (6, 6), 6, (10, 0))]);
    assert_eq!(m.current_sweep_index(), 8);
}

#[test]
fn split_vertex_is_joined_to_the_left() {
    let mut m = Monotonizer::new(vec![vec![[0, 0], [10, 0], [5, 5], [10, 10], [0, 10]]]);
    let found: Vec<_> = m.run().iter().map(ends).collect();
    assert_eq!(found, vec![(1, (0, 10), 2, (5, 5))]);
}

#[test]
fn steps_report_diagonals_as_they_go() {
    let mut m = Monotonizer::new(square_with_hole());
    let mut per_step = Vec::new();
    loop {
        match m.step() {
            ControlFlow::Continue(d) => per_step.push(d.iter().map(ends).collect::<Vec<_>>()),
            ControlFlow::Break(()) => break,
        }
    }
    assert_eq!(per_step.len(), 7);
    assert_eq!(per_step[2], vec![(1, (0, 10), 2, (3, 3))]);
    assert_eq!(per_step[6], vec![(5, (6, 6), 6, (10, 0))]);
    for (i, d) in per_step.iter().enumerate() {
        if i != 2 && i != 6 {
            assert!(d.is_empty());
        }
    }
    assert_eq!(m.current_sweep_index(), 8);
}

#[test]
fn single_vertex_pair_breaks_after_last() {
    let mut m = Monotonizer::new(vec![vec![[0, 0], [1, 1]]]);
    assert_eq!(m.sweep_vertex_count(), 2);
    assert!(matches!(m.step(), ControlFlow::Continue(_)));
    assert!(matches!(m.step(), ControlFlow::Break(())));
}

#[test]
fn monotonizer_from_geometry_skips_small_rings() {
    let geom = (
        vec![[0, 0], [10, 0], [10, 10], [0, 10]],
        vec![vec![[3, 3], [3, 6], [6, 6], [6, 3]], vec![[1, 1], [2, 2]]],
    );
    let m = monotonizer_from_first_poly_geom(&geom).unwrap();
    assert_eq!(m.sweep_vertex_count(), 8);
    let small = (vec![[0, 0], [1, 1]], vec![]);
    assert!(monotonizer_from_first_poly_geom(&small).is_none());
}

#[test]
fn can_step_reports_the_end_and_overflow() {
    let mut m = Monotonizer::new(vec![vec![[0, 0], [10, 0], [10, 10]]]);
    while m.can_step() {
        if let ControlFlow::Break(()) = m.step() {
            break;
        }
    }
    assert_eq!(m.current_sweep_index(), 3);
    assert!(!m.can_step());
    let huge = Monotonizer::new(vec![vec![[i64::MIN, 0], [i64::MAX, 1], [0, i64::MAX]]]);
    assert!(!huge.can_step());
}

#[test]
fn can_run_tells_whether_the_whole_sweep_succeeds() {
    let mut m = Monotonizer::new(square_with_hole());
    assert!(m.can_run());
    let diagonals = m.run();
    assert_eq!(diagonals.len(), 2);
    // A finished sweep has no step left to run.
    assert!(!m.can_run());
    let huge = Monotonizer::new(vec![vec![[i64::MIN, 0], [i64::MAX, 1], [0, i64::MAX]]]);
    assert!(!huge.can_run());
}
