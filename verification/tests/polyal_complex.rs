use anyangle::polyal_complex::{OpenTriangle, PolygonalComplex};

fn all_neighbors<PT>(pgc: &PolygonalComplex<PT>) -> Vec<Option<Vec<usize>>> {
    (0..pgc.point_count()).map(|i| pgc.neighbors(i)).collect()
}

fn filled(lists: &[&[usize]]) -> Vec<Option<Vec<usize>>> {
    lists.iter().map(|l| Some(l.to_vec())).collect()
}

fn unit_points(lists: &[&[usize]]) -> Vec<Option<(&'static (), Vec<usize>)>> {
    lists.iter().map(|l| Some((&(), l.to_vec()))).collect()
}

#[test]
fn test_insert_hole() {
    let mut pgc = PolygonalComplex::new((), ());

    let x = pgc.subdivide_edge(0, 1, vec![(), ()]).unwrap();
    assert_eq!(x, [2, 3]);

    assert!(pgc.split_polygon(&OpenTriangle(2, 0, 3), &OpenTriangle(3, 1, 2),));

    let x = pgc.subdivide_edge(0, 1, vec![()]).unwrap();
    assert_eq!(x, [4]);
    let x = pgc.subdivide_edge(4, 1, vec![()]).unwrap();
    assert_eq!(x, [5]);

    let x = pgc.subdivide_edge(4, 5, vec![(), ()]).unwrap();
    assert_eq!(x, [6, 7]);

    assert_eq!(
        pgc.points(),
        unit_points(&[
            &[2, 4, 3],
            &[3, 5, 2],
            &[0, 1],
            &[0, 1],
            &[0, 6, 7],
            &[1, 7, 6],
            &[4, 5],
            &[4, 5],
        ])
    );
}

#[test]
fn test_divide_the_land() {
    let mut pgc = PolygonalComplex::new((), ());

    let x = pgc.subdivide_edge(0, 1, vec![(), ()]).unwrap();
    assert_eq!(x, [2, 3]);

    let x = pgc.subdivide_edge(0, 3, vec![()]).unwrap();
    assert_eq!(x, [4]);

    let x = pgc.subdivide_edge(1, 2, vec![()]).unwrap();
    assert_eq!(x, [5]);

    assert!(pgc.split_polygon(&OpenTriangle(2, 0, 4), &OpenTriangle(1, 5, 2),));

    assert!(pgc.split_polygon(&OpenTriangle(0, 4, 3), &OpenTriangle(3, 1, 5),));

    assert_eq!(
        pgc.points(),
        unit_points(&[&[2, 5, 4], &[3, 4, 5], &[0, 5], &[4, 1], &[0, 1, 3], &[1, 0, 2]])
    );
}

#[test]
fn new_complex_is_one_edge() {
    let pgc = PolygonalComplex::new((), ());
    assert_eq!(all_neighbors(&pgc), filled(&[&[1], &[0]]));
    assert_eq!(pgc.neighbors(2), None);
}

#[test]
fn subdivide_missing_edge_returns_the_data() {
    let mut pgc = PolygonalComplex::new((), ());
    pgc.subdivide_edge(0, 1, vec![()]).unwrap();
    // 0 and 1 are no longer adjacent.
    assert_eq!(pgc.subdivide_edge(0, 1, vec![(), (), ()]), Err(vec![(), (), ()]));
    assert_eq!(pgc.subdivide_edge(0, 7, vec![()]), Err(vec![()]));
    assert_eq!(all_neighbors(&pgc), filled(&[&[2], &[2], &[0, 1]]));
    // Subdividing by nothing changes nothing.
    assert_eq!(pgc.subdivide_edge(2, 0, vec![]), Ok(vec![]));
    assert_eq!(all_neighbors(&pgc), filled(&[&[2], &[2], &[0, 1]]));
}

#[test]
fn open_triangles_round_trip() {
    let mut pgc = PolygonalComplex::new((), ());
    pgc.subdivide_edge(0, 1, vec![(), ()]).unwrap();
    assert!(pgc.split_polygon(&OpenTriangle(2, 0, 3), &OpenTriangle(3, 1, 2)));
    // Point 0 has neighbours [2, 1, 3].
    assert_eq!(pgc.neighbors(0), Some(vec![2, 1, 3]));
    assert_eq!(pgc.find_next_open_triangle(0, 2), Some(OpenTriangle(1, 0, 2)));
    assert_eq!(pgc.find_next_open_triangle(0, 1), Some(OpenTriangle(3, 0, 1)));
    // After the last neighbour comes the first one again.
    assert_eq!(pgc.find_next_open_triangle(0, 3), Some(OpenTriangle(2, 0, 3)));
    assert_eq!(pgc.resolve_open_triangle(&OpenTriangle(2, 0, 3)), Some(2));
    assert_eq!(pgc.find_next_open_triangle(0, 9), None);
    assert_eq!(pgc.find_next_open_triangle(9, 0), None);
    assert_eq!(pgc.resolve_open_triangle(&OpenTriangle(1, 0, 2)), Some(0));
    assert_eq!(pgc.resolve_open_triangle(&OpenTriangle(3, 0, 1)), Some(1));
    // Resolution wraps around the neighbour list.
    assert_eq!(pgc.resolve_open_triangle(&OpenTriangle(2, 0, 3)), Some(2));
    assert_eq!(pgc.resolve_open_triangle(&OpenTriangle(1, 0, 3)), None);
    // An existing edge is not added twice.
    assert!(!pgc.split_polygon(&OpenTriangle(1, 0, 2), &OpenTriangle(3, 1, 2)));
    assert!(!pgc.split_polygon(&OpenTriangle(9, 0, 2), &OpenTriangle(3, 1, 2)));
}

#[test]
fn merge_along_edge_joins_neighbours() {
    let mut pgc = PolygonalComplex::new((), ());
    pgc.subdivide_edge(0, 1, vec![()]).unwrap();
    // 0 - 2 - 1; merge 2 into 0.
    let mut called = 0;
    let r = pgc.merge_along_edge(2, 0, |_, _| {
        called += 1;
    });
    assert_eq!(r, Some((3, [(), ()])));
    assert_eq!(called, 1);
    assert_eq!(pgc.neighbors(0), None);
    assert_eq!(pgc.neighbors(2), None);
    assert_eq!(pgc.neighbors(3), Some(vec![1]));
    // The other end now lists the merged point in place of the removed one.
    assert_eq!(pgc.neighbors(1), Some(vec![3]));
    assert_eq!(pgc.point_count(), 4);
    // Without an edge nothing is merged.
    assert_eq!(pgc.merge_along_edge(1, 0, |_, _| ()), None);
    assert_eq!(pgc.merge_along_edge(1, 9, |_, _| ()), None);
    assert_eq!(pgc.point_count(), 4);
}

#[test]
fn merge_joins_both_neighbour_lists() {
    let mut pgc = PolygonalComplex::new((), ());
    // Two points between 0 and 1, each joined to both.
    pgc.subdivide_edge(0, 1, vec![(), ()]).unwrap();
    assert_eq!(pgc.neighbors(0), Some(vec![2, 3]));
    assert_eq!(pgc.neighbors(2), Some(vec![0, 1]));
    // Merging 0 and 2 joins [3] (after 2 around 0) and [1] (after 0 around 2).
    assert_eq!(pgc.merge_along_edge(0, 2, |_, _| ()), Some((4, [(), ()])));
    assert_eq!(pgc.neighbors(4), Some(vec![3, 1]));
    // The remaining points list the merged point instead of 0 and 2.
    assert_eq!(pgc.neighbors(1), Some(vec![3, 4]));
    assert_eq!(pgc.neighbors(3), Some(vec![4, 1]));
    assert_eq!(
        pgc.points(),
        vec![None, Some((&(), vec![3, 4])), None, Some((&(), vec![4, 1])), Some((&(), vec![3, 1]))]
    );
}

#[test]
fn merge_in_a_triangle_redirects_the_shared_neighbour() {
    let mut pgc = PolygonalComplex::new((), ());
    pgc.subdivide_edge(0, 1, vec![()]).unwrap();
    // 0 - 2 - 1, then the edge 0 - 1 again closes a triangle.
    assert!(pgc.split_polygon(&OpenTriangle(2, 0, 2), &OpenTriangle(2, 1, 2)));
    assert_eq!(pgc.neighbors(0), Some(vec![1, 2]));
    assert_eq!(pgc.neighbors(1), Some(vec![0, 2]));
    assert_eq!(pgc.neighbors(2), Some(vec![0, 1]));
    assert_eq!(pgc.merge_along_edge(0, 1, |_, _| ()), Some((3, [(), ()])));
    // Point 2 listed both merged points; both entries now name the merged one.
    assert_eq!(pgc.neighbors(2), Some(vec![3, 3]));
    assert_eq!(pgc.neighbors(3), Some(vec![2]));
}

#[test]
fn points_carry_their_data() {
    let mut pgc = PolygonalComplex::new(String::from("a"), String::from("b"));
    assert_eq!(pgc.point_data(0), Some(&String::from("a")));
    assert_eq!(pgc.point_data(1), Some(&String::from("b")));
    assert_eq!(pgc.point_data(2), None);
    let x = pgc
        .subdivide_edge(1, 0, vec![String::from("c"), String::from("d")])
        .unwrap();
    assert_eq!(x, [2, 3]);
    assert_eq!(pgc.point_data(2), Some(&String::from("c")));
    assert_eq!(pgc.point_data(3), Some(&String::from("d")));
    // The new points run from the lower index to the higher one.
    assert_eq!(pgc.neighbors(0), Some(vec![2, 3]));
    assert_eq!(pgc.neighbors(1), Some(vec![3, 2]));
    // The data goes back untouched when there is no edge.
    assert_eq!(
        pgc.subdivide_edge(0, 1, vec![String::from("e")]),
        Err(vec![String::from("e")])
    );
}

#[test]
fn merge_hands_back_the_data_in_argument_order() {
    let mut pgc = PolygonalComplex::new(10u32, 20u32);
    pgc.subdivide_edge(0, 1, vec![30u32]).unwrap();
    // 0 - 2 - 1; merge 2 into 0, naming the higher index first.
    let r = pgc.merge_along_edge(2, 0, |a, b| a * 100 + b);
    assert_eq!(r, Some((3, [30, 10])));
    assert_eq!(pgc.point_data(3), Some(&3010));
    assert_eq!(pgc.point_data(0), None);
    assert_eq!(pgc.point_data(2), None);
    assert_eq!(pgc.point_data(1), Some(&20));
}

#[test]
fn fresh_complex_slot_wraps_round() {
    let pgc = PolygonalComplex::new((), ());
    assert_eq!(pgc.find_next_open_triangle(0, 1), Some(OpenTriangle(1, 0, 1)));
    assert_eq!(pgc.resolve_open_triangle(&OpenTriangle(1, 0, 1)), Some(0));
    let mut pgc = PolygonalComplex::new((), ());
    pgc.subdivide_edge(0, 1, vec![(), ()]).unwrap();
    // Point 0 has neighbours [2, 3]; the slot after 3 wraps to 2.
    let ot = pgc.find_next_open_triangle(0, 3).unwrap();
    assert_eq!(ot, OpenTriangle(2, 0, 3));
    assert_eq!(pgc.resolve_open_triangle(&ot), Some(1));
}

#[test]
fn merge_of_the_initial_edge() {
    let mut pc = PolygonalComplex::new(10i32, 20i32);
    assert_eq!(pc.merge_along_edge(1, 0, |a: &i32, b: &i32| a * 100 + b), Some((2, [20, 10])));
    assert_eq!(pc.point_data(0), None);
    assert_eq!(pc.point_data(1), None);
    assert_eq!(pc.point_data(2), Some(&2010));
    assert_eq!(pc.neighbors(2), Some(vec![]));
    assert_eq!(pc.point_count(), 3);
}
