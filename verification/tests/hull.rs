use anyangle::hull::{convex_hull, convex_hull_distinct, cross_i64, cross_products_fit};

#[test]
fn hull_of_square_with_inner_point() {
    let pts = [[0, 0], [10, 0], [10, 10], [0, 10], [5, 5]];
    assert!(cross_products_fit(&pts));
    assert_eq!(convex_hull(&pts), vec![[0, 0], [10, 0], [10, 10], [0, 10]]);
}

#[test]
fn hull_drops_duplicates_and_collinear_points() {
    let pts = [[5, 5], [0, 0], [10, 0], [5, 5], [0, 10], [10, 10], [5, 0]];
    assert_eq!(convex_hull(&pts), vec![[0, 0], [10, 0], [10, 10], [0, 10]]);
}

#[test]
fn hull_starts_at_smallest_point_counter_clockwise() {
    let pts = [[0, 0], [4, 0], [2, 3], [2, 1], [-1, 1]];
    assert_eq!(convex_hull(&pts), vec![[-1, 1], [0, 0], [4, 0], [2, 3]]);
}

#[test]
fn hull_of_degenerate_inputs() {
    assert_eq!(convex_hull(&[[1, 1], [2, 2], [3, 3]]), vec![[1, 1], [3, 3]]);
    assert_eq!(convex_hull(&[[3, 3], [3, 3], [3, 3]]), vec![[3, 3], [3, 3]]);
    assert_eq!(convex_hull(&[[7, 1], [2, 2]]), vec![[7, 1], [2, 2]]);
    assert_eq!(convex_hull(&[]), Vec::<[i32; 2]>::new());
}

#[test]
fn cross_products_fit_detects_overflow() {
    assert!(cross_products_fit(&[[i32::MIN, 0], [0, 0], [0, 1]]));
    assert!(!cross_products_fit(&[[i32::MIN, i32::MIN], [i32::MAX, i32::MAX], [i32::MIN, i32::MAX]]));
}

#[test]
fn distinct_hull_drops_repeated_points() {
    let pts = vec![[5, 5], [0, 0], [10, 0], [5, 5], [0, 10], [10, 10], [5, 0]];
    assert_eq!(convex_hull_distinct(pts), vec![[0, 0], [10, 0], [10, 10], [0, 10]]);
}

#[test]
fn distinct_hull_of_degenerate_inputs() {
    assert_eq!(convex_hull_distinct(vec![[3, 3], [3, 3], [3, 3]]), vec![[3, 3]]);
    assert_eq!(convex_hull_distinct(vec![[1, 1], [2, 2], [3, 3]]), vec![[1, 1], [3, 3]]);
    assert_eq!(convex_hull_distinct(vec![[7, 1], [2, 2]]), vec![[2, 2], [7, 1]]);
    assert_eq!(convex_hull_distinct(vec![[2, 2], [2, 2], [7, 1]]), vec![[2, 2], [7, 1]]);
    assert_eq!(convex_hull_distinct(Vec::new()), Vec::<[i32; 2]>::new());
}

#[test]
fn cross_i64_values() {
    assert_eq!(cross_i64([0, 0], [1, 0], [0, 1]), 1);
    assert_eq!(cross_i64([1, 1], [3, 1], [1, 4]), 6);
    assert_eq!(cross_i64([1, 1], [1, 4], [3, 1]), -6);
}

#[test]
fn every_point_is_left_of_every_hull_edge() {
    let pts = vec![[3, 1], [0, 0], [7, 2], [5, 6], [1, 4], [4, 3], [2, 2], [6, 5], [0, 0]];
    for hull in [convex_hull(&pts), convex_hull_distinct(pts.clone())] {
        assert!(hull.len() >= 3);
        for k in 0..hull.len() {
            let a = hull[k];
            let b = hull[(k + 1) % hull.len()];
            for &q in &pts {
                assert!(cross_i64(a, b, q) >= 0, "{:?} right of {:?} -> {:?}", q, a, b);
            }
        }
    }
}
