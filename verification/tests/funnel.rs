use anyangle::funnel::SimpleFunnel;

#[test]
fn t_simple() {
    let mut x = SimpleFunnel::<i32, u8>::new(([0, 0], 0));
    assert_eq!(x.advance(0, [([30, 0], 1), ([10, 40], 2)]), None);
    assert_eq!(x.advance(0, [([60, 20], 3), ([60, 40], 4)]), None);
    assert_eq!(
        x.advance(0, [([70, -10], 5), ([90, 20], 6)]),
        Some((([0, 0], 0), &([60, 20], 3)))
    );
    assert_eq!(
        x.advance(0, [([80, -10], 7), ([80, -10], 8)]),
        Some((([60, 20], 3), &([80, -10], 8)))
    );
}

#[test]
fn t_issue49() {
    let mut x = SimpleFunnel::<i32, u8>::new(([20, 20], 7));
    assert_eq!(x.advance(0, [([20, 10], 6), ([95, 5], 14)]), None);
    assert_eq!(
        x.advance(0, [([10, 10], 4), ([5, 5], 2)]),
        Some((([20, 20], 7), &([20, 10], 6)))
    );
    assert_eq!(x.advance(0, [([10, 20], 5), ([5, 95], 3)]), None);
    assert_eq!(
        x.advance(0, [([20, 40], 8), ([5, 95], 3)]),
        Some((([20, 10], 6), &([10, 10], 4)))
    );
    assert_eq!(x.advance(0, [([40, 40], 10), ([40, 40], 10)]), None);
}

#[test]
fn funnel_new_collapses_to_apex() {
    let f = SimpleFunnel::<i32, u8>::new(([3, -4], 9));
    assert_eq!(f.apex, ([3, -4], 9));
    assert_eq!(f.lhs, ([3, -4], 9));
    assert_eq!(f.rhs, ([3, -4], 9));
}

#[test]
fn funnel_tightens_both_sides() {
    let mut x = SimpleFunnel::<i32, u8>::new(([0, 0], 0));
    assert_eq!(x.advance(0, [([30, 0], 1), ([10, 40], 2)]), None);
    assert_eq!(x.lhs, ([30, 0], 1));
    assert_eq!(x.rhs, ([10, 40], 2));
    assert_eq!(x.advance(0, [([60, 20], 3), ([60, 40], 4)]), None);
    assert_eq!(x.lhs, ([60, 20], 3));
    assert_eq!(x.rhs, ([60, 40], 4));
    assert_eq!(x.apex, ([0, 0], 0));
}

#[test]
fn funnel_epsilon_decides_whether_a_side_is_at_the_apex() {
    // The right side lies within distance 1 of the apex: with epsilon 1 it
    // counts as the apex and tightens, with epsilon 0 the apex moves left.
    let start = SimpleFunnel { apex: ([0, 0], 0u8), lhs: ([0, 10], 1), rhs: ([1, 0], 2) };
    let mut x = start;
    assert_eq!(
        x.advance(1, [([0, 10], 1), ([5, -5], 3)]),
        Some((([0, 0], 0), &([5, -5], 3)))
    );
    let mut y = start;
    assert_eq!(
        y.advance(0, [([0, 10], 1), ([5, -5], 3)]),
        Some((([0, 0], 0), &([0, 10], 1)))
    );
    assert_eq!(y.lhs, ([0, 10], 1));
    assert_eq!(y.rhs, ([0, 10], 1));
}

#[test]
fn first_portal_only_opens_a_fresh_funnel() {
    let mut f = SimpleFunnel::<i32, u8>::new(([5, 5], 0));
    assert_eq!(f.advance(0, [([-3, 20], 1), ([40, -7], 2)]), None);
    assert_eq!(f.apex, ([5, 5], 0));
    assert_eq!(f.lhs, ([-3, 20], 1));
    assert_eq!(f.rhs, ([40, -7], 2));
    let mut g = SimpleFunnel::<i32, u8>::new(([0, 0], 0));
    // Even a portal that lies "backwards" only opens it.
    assert_eq!(g.advance(3, [([10, -10], 1), ([-10, 10], 2)]), None);
    assert_eq!(g.lhs, ([10, -10], 1));
    assert_eq!(g.rhs, ([-10, 10], 2));
}
