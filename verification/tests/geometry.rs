use anyangle::triangle::area_computable;
use anyangle::chain::chain_vertex_type_label;
use std::cmp::Ordering;

use anyangle::chain::ChainSegment;
use anyangle::triangle::{clockwise_cmp, double_signed_area, is_clockwise};
use anyangle::{ChainVertex, ChainVertexType, ChainVertexWithIndex, Point, VertexIndex};

#[test]
fn point_constructors() {
    let p = Point::new(3i64, -7);
    assert_eq!(p.x, 3);
    assert_eq!(p.y, -7);
    assert_eq!(Point::<i64>::zero(), Point::new(0, 0));
    assert_eq!(Point::<i64>::empty(), Point::new(i64::MAX, i64::MAX));
}

#[test]
fn point_products() {
    let a = Point::new(3i64, 4);
    let b = Point::new(-2i64, 5);
    assert_eq!(a.dot_product(b), 3 * -2 + 4 * 5);
    assert_eq!(a.perp_dot_product(b), 3 * 5 - 4 * -2);
    assert_eq!(a.squared_length(), 25);
    assert_eq!(a.squared_distance(b), 25 + 1);
    assert_eq!(b.squared_distance(a), 26);
}

#[test]
fn point_add_sub() {
    let a = Point::new(3i64, 4);
    let b = Point::new(-2i64, 5);
    assert_eq!(a + b, Point::new(1, 9));
    assert_eq!(a - b, Point::new(5, -1));
    assert_eq!((a - b) + b, a);
}

#[test]
fn point_order_is_lexicographic() {
    assert!(Point::new(0i64, 100) < Point::new(1, 0));
    assert!(Point::new(1i64, 0) < Point::new(1, 1));
}

#[test]
fn triangle_orientation() {
    let o = Point::new(0i64, 0);
    let up = Point::new(0i64, 10);
    let right = Point::new(10i64, 0);
    // o -> up -> right turns clockwise.
    assert_eq!(double_signed_area(o, up, right), 100);
    assert!(is_clockwise(o, up, right));
    assert_eq!(clockwise_cmp(o, up, right), Ordering::Less);
    assert_eq!(double_signed_area(right, up, o), -100);
    assert!(!is_clockwise(right, up, o));
    assert_eq!(clockwise_cmp(right, up, o), Ordering::Greater);
    let far = Point::new(0i64, 20);
    assert_eq!(double_signed_area(o, up, far), 0);
    assert_eq!(clockwise_cmp(o, up, far), Ordering::Equal);
}

fn cv(prev: (i64, i64), this: (i64, i64), next: (i64, i64)) -> ChainVertex<i64> {
    ChainVertex::new(
        Point::new(prev.0, prev.1),
        Point::new(this.0, this.1),
        Point::new(next.0, next.1),
    )
}

#[test]
fn chain_vertex_types() {
    // Counter-clockwise square (0,0) (10,0) (10,10) (0,10).
    assert!(matches!(cv((0, 10), (0, 0), (10, 0)).typ(), ChainVertexType::Start));
    assert!(matches!(cv((0, 0), (10, 0), (10, 10)).typ(), ChainVertexType::Regular));
    assert!(matches!(cv((10, 0), (10, 10), (0, 10)).typ(), ChainVertexType::End));
    // Reflex vertices of a clockwise ring.
    assert!(matches!(cv((6, 3), (3, 3), (3, 6)).typ(), ChainVertexType::Split));
    assert!(matches!(cv((3, 6), (6, 6), (6, 3)).typ(), ChainVertexType::Merge));
}

#[test]
fn chain_vertex_equality_is_by_this() {
    let a = cv((0, 10), (0, 0), (10, 0));
    let b = cv((5, 5), (0, 0), (7, 7));
    let c = cv((0, 10), (1, 0), (10, 0));
    assert!(a == b);
    assert!(a != c);
    assert_eq!(a.partial_cmp(&c), Some(Ordering::Less));
    assert_eq!(c.partial_cmp(&a), Some(Ordering::Greater));
    assert_eq!(a.partial_cmp(&b), Some(Ordering::Equal));
    let wa = ChainVertexWithIndex { vertex: a, index: VertexIndex(1) };
    let wb = ChainVertexWithIndex { vertex: b, index: VertexIndex(1) };
    let wc = ChainVertexWithIndex { vertex: a, index: VertexIndex(2) };
    assert!(wa == wb);
    assert!(wa != wc);
}

#[test]
fn chain_segment_side_of_point() {
    let v = cv((0, 10), (0, 0), (10, 0));
    let s: ChainSegment<i64> = v.segment();
    assert_eq!(s.a, Point::new(0, 0));
    assert_eq!(s.b, Point::new(10, 0));
    assert_eq!(s.vertical_cmp_with_point(Point::new(5, 5)), Ordering::Less);
    assert_eq!(s.vertical_cmp_with_point(Point::new(5, -5)), Ordering::Greater);
    assert_eq!(s.vertical_cmp_with_point(Point::new(20, 0)), Ordering::Equal);
}

#[test]
fn chain_segment_order() {
    let lower = ChainSegment { a: Point::new(0i64, 0), b: Point::new(10, 0) };
    let upper = ChainSegment { a: Point::new(0i64, 5), b: Point::new(10, 5) };
    assert_eq!(lower.cmp(&upper), Ordering::Less);
    assert_eq!(upper.cmp(&lower), Ordering::Greater);
}

#[test]
fn vertex_type_labels() {
    assert_eq!(chain_vertex_type_label(ChainVertexType::Start), "Start");
    assert_eq!(chain_vertex_type_label(ChainVertexType::Split), "Split");
    assert_eq!(chain_vertex_type_label(ChainVertexType::Regular), "Regular");
    assert_eq!(chain_vertex_type_label(ChainVertexType::Merge), "Merge");
    assert_eq!(chain_vertex_type_label(ChainVertexType::End), "End");
}

#[test]
fn area_computable_detects_overflow() {
    assert!(area_computable(Point::new(0, 0), Point::new(0, 10), Point::new(10, 0)));
    assert!(!area_computable(Point::new(i64::MIN, 0), Point::new(i64::MAX, 0), Point::new(0, 0)));
    assert!(!area_computable(
        Point::new(0, 0),
        Point::new(i64::MAX / 2, i64::MAX / 2),
        Point::new(-(i64::MAX / 2), 0)
    ));
}

#[test]
fn chain_segment_partial_order_follows_cmp() {
    let s = ChainSegment { a: Point::new(0i64, 0), b: Point::new(2, 0) };
    let t = ChainSegment { a: Point::new(0i64, 1), b: Point::new(3, 1) };
    assert_eq!(s.cmp(&t), Ordering::Less);
    assert_eq!(t.cmp(&s), Ordering::Greater);
    assert_eq!(s.partial_cmp(&t), Some(s.cmp(&t)));
    assert_eq!(t.partial_cmp(&s), Some(Ordering::Greater));
    assert!(s < t);
    assert!(s.cmp_computable(&t));
    // Where the signed area would overflow the segments are incomparable.
    let far = ChainSegment { a: Point::new(i64::MIN, i64::MIN), b: Point::new(i64::MAX, i64::MAX) };
    let other = ChainSegment { a: Point::new(i64::MIN, i64::MAX), b: Point::new(i64::MAX, i64::MIN) };
    assert!(!far.cmp_computable(&other));
    assert_eq!(far.partial_cmp(&other), None);
}

#[test]
fn segment_below_compares_less() {
    // s ends below t, t ends above s.
    let s = ChainSegment { a: Point::new(0i64, 0), b: Point::new(4, 1) };
    let t = ChainSegment { a: Point::new(1i64, 5), b: Point::new(6, 4) };
    assert_eq!(s.cmp(&t), Ordering::Less);
    assert_eq!(t.cmp(&s), Ordering::Greater);
    assert!(s < t && t > s);
}

#[test]
fn type_computable_only_checks_extreme_vertices() {
    // A regular vertex: no area is computed, however large the coordinates.
    let v = ChainVertex::new(Point::new(i64::MIN, 0), Point::new(0, 0), Point::new(i64::MAX, 5));
    assert!(v.type_computable());
    assert!(!area_computable(v.prev, v.this, v.next));
    assert!(matches!(v.typ(), ChainVertexType::Regular));
    // An extreme vertex whose area overflows.
    let w = ChainVertex::new(Point::new(i64::MIN, 0), Point::new(i64::MAX, 0), Point::new(i64::MIN, 1));
    assert!(!w.type_computable());
}
