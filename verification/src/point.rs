use vstd::prelude::*;

verus! {

/// A point (or vector) of the plane.
///
/// Points are ordered lexicographically: first by `x`, then by `y`.
#[derive(Clone, Copy, Debug, Default, PartialEq, Eq, Structural, PartialOrd, Ord, Hash)]
pub struct Point<K> {
    pub x: K,
    pub y: K,
}

/// Whether the mathematical value `v` is representable as an `i64`.
pub open spec fn fits_i64(v: int) -> bool {
    i64::MIN <= v <= i64::MAX
}

/// The lexicographic order of points that `Point`'s derived `PartialOrd` implements.
pub open spec fn point_lt(a: Point<i64>, b: Point<i64>) -> bool {
    a.x < b.x || (a.x == b.x && a.y < b.y)
}

/// Lexicographic "less than or equal".
pub open spec fn point_le(a: Point<i64>, b: Point<i64>) -> bool {
    point_lt(a, b) || a == b
}

/// The dot product of two vectors, over the integers.
pub open spec fn dot(a: Point<i64>, b: Point<i64>) -> int {
    a.x * b.x + a.y * b.y
}

/// The perp-dot (two-dimensional cross) product of two vectors, over the integers.
pub open spec fn perp_dot(a: Point<i64>, b: Point<i64>) -> int {
    a.x * b.y - a.y * b.x
}

/// Whether `dot(a, b)` can be computed in `i64` without any intermediate overflow.
pub open spec fn dot_fits(a: Point<i64>, b: Point<i64>) -> bool {
    &&& fits_i64(a.x * b.x)
    &&& fits_i64(a.y * b.y)
    &&& fits_i64(dot(a, b))
}

/// Whether `perp_dot(a, b)` can be computed in `i64` without any intermediate overflow.
pub open spec fn perp_dot_fits(a: Point<i64>, b: Point<i64>) -> bool {
    &&& fits_i64(a.x * b.y)
    &&& fits_i64(a.y * b.x)
    &&& fits_i64(perp_dot(a, b))
}

/// Whether `a - b` can be computed coordinate-wise in `i64`.
pub open spec fn sub_fits(a: Point<i64>, b: Point<i64>) -> bool {
    fits_i64(a.x - b.x) && fits_i64(a.y - b.y)
}

/// Whether `a + b` can be computed coordinate-wise in `i64`.
pub open spec fn add_fits(a: Point<i64>, b: Point<i64>) -> bool {
    fits_i64(a.x + b.x) && fits_i64(a.y + b.y)
}

/// Coordinate-wise difference (only meaningful where `sub_fits`).
pub open spec fn point_sub(a: Point<i64>, b: Point<i64>) -> Point<i64> {
    Point { x: (a.x - b.x) as i64, y: (a.y - b.y) as i64 }
}

/// Coordinate-wise sum (only meaningful where `add_fits`).
pub open spec fn point_add(a: Point<i64>, b: Point<i64>) -> Point<i64> {
    Point { x: (a.x + b.x) as i64, y: (a.y + b.y) as i64 }
}

impl<K> Point<K> {
    pub fn new(x: K, y: K) -> (p: Self)
        ensures
            p.x == x,
            p.y == y,
    {
        Self { x, y }
    }
}

impl Point<i64> {
    /// The origin.
    pub fn zero() -> (p: Self)
        ensures
            p.x == 0,
            p.y == 0,
    {
        Self { x: 0, y: 0 }
    }

    /// The point whose coordinates are both the largest value of the scalar type.
    pub fn empty() -> (p: Self)
        ensures
            p.x == i64::MAX,
            p.y == i64::MAX,
    {
        Self { x: i64::MAX, y: i64::MAX }
    }

    pub fn dot_product(self, other: Self) -> (r: i64)
        requires
            dot_fits(self, other),
        ensures
            r == dot(self, other),
    {
        self.x * other.x + self.y * other.y
    }

    pub fn perp_dot_product(self, other: Self) -> (r: i64)
        requires
            perp_dot_fits(self, other),
        ensures
            r == perp_dot(self, other),
    {
        self.x * other.y - self.y * other.x
    }

    pub fn squared_length(self) -> (r: i64)
        requires
            dot_fits(self, self),
        ensures
            r == dot(self, self),
    {
        self.x * self.x + self.y * self.y
    }

    pub fn squared_distance(self, other: Self) -> (r: i64)
        requires
            sub_fits(self, other),
            dot_fits(point_sub(self, other), point_sub(self, other)),
        ensures
            r == dot(point_sub(self, other), point_sub(self, other)),
    {
        (self - other).squared_length()
    }
}

/// Lexicographic "less than", the order of `Point`'s derived `PartialOrd`.
pub(crate) fn lex_lt(a: Point<i64>, b: Point<i64>) -> (r: bool)
    ensures
        r == point_lt(a, b),
{
    a.x < b.x || (a.x == b.x && a.y < b.y)
}

/// Point equality, coordinate by coordinate.
pub(crate) fn same_point(a: Point<i64>, b: Point<i64>) -> (r: bool)
    ensures
        r == (a == b),
{
    a.x == b.x && a.y == b.y
}

impl core::ops::Add for Point<i64> {
    type Output = Point<i64>;

    fn add(self, other: Self) -> (r: Self) {
        Self { x: self.x + other.x, y: self.y + other.y }
    }
}

impl vstd::std_specs::ops::AddSpecImpl for Point<i64> {
    open spec fn obeys_add_spec() -> bool {
        true
    }

    open spec fn add_req(self, other: Self) -> bool {
        add_fits(self, other)
    }

    open spec fn add_spec(self, other: Self) -> Self {
        point_add(self, other)
    }
}

impl core::ops::Sub for Point<i64> {
    type Output = Point<i64>;

    fn sub(self, other: Self) -> (r: Self) {
        Self { x: self.x - other.x, y: self.y - other.y }
    }
}

impl vstd::std_specs::ops::SubSpecImpl for Point<i64> {
    open spec fn obeys_sub_spec() -> bool {
        true
    }

    open spec fn sub_req(self, other: Self) -> bool {
        sub_fits(self, other)
    }

    open spec fn sub_spec(self, other: Self) -> Self {
        point_sub(self, other)
    }
}

/// Adding back what was subtracted gives the point back.
pub proof fn lemma_sub_then_add(a: Point<i64>, b: Point<i64>)
    requires
        sub_fits(a, b),
    ensures
        add_fits(point_sub(a, b), b),
        point_add(point_sub(a, b), b) == a,
{
}

/// The dot product is symmetric and the perp-dot product antisymmetric.
pub proof fn lemma_product_symmetry(a: Point<i64>, b: Point<i64>)
    ensures
        dot(a, b) == dot(b, a),
        perp_dot(a, b) == -perp_dot(b, a),
        perp_dot(a, a) == 0,
{
    assert(a.x * b.x == b.x * a.x && a.y * b.y == b.y * a.y && a.x * b.y == b.y * a.x && a.y * b.x
        == b.x * a.y) by (nonlinear_arith);
}

/// The squared distance between two points does not depend on their order.
pub proof fn lemma_squared_distance_symmetric(a: Point<i64>, b: Point<i64>)
    requires
        sub_fits(a, b),
        sub_fits(b, a),
    ensures
        dot(point_sub(a, b), point_sub(a, b)) == dot(point_sub(b, a), point_sub(b, a)),
{
    let dx = a.x - b.x;
    let dy = a.y - b.y;
    assert(dx * dx == (-dx) * (-dx) && dy * dy == (-dy) * (-dy)) by (nonlinear_arith);
}

} // verus!
