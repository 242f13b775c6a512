use vstd::prelude::*;

use core::cmp::Ordering;

use crate::point::{lex_lt, point_lt, Point};
use crate::triangle::{
    area2, area_computable, area_fits, clockwise_cmp, is_clockwise, lemma_area2_orientation, zero_cmp,
};

verus! {

/// A chain vertex together with its position in the sweep order.
///
/// Two of them are equal when their `this` points and their indices are.
#[derive(Clone, Copy, Debug, Default)]
pub struct ChainVertexWithIndex<K> {
    pub vertex: ChainVertex<K>,
    pub index: VertexIndex,
}

/// The position of a vertex in the sweep order.
#[derive(Clone, Copy, Debug, Default, Eq, PartialEq, Structural, PartialOrd, Ord)]
pub struct VertexIndex(pub usize);

/// The classification of a polygon vertex with respect to a sweep in
/// increasing lexicographic order.
#[derive(Clone, Copy, Debug)]
pub enum ChainVertexType {
    Start,
    Split,
    Regular,
    Merge,
    End,
}

/// A polygon vertex `this` together with its predecessor `prev` and its
/// successor `next` along the polygon's boundary.
///
/// Two chain vertices are equal, and ordered, by their `this` point alone.
#[derive(Clone, Copy, Debug, Default)]
pub struct ChainVertex<K> {
    pub prev: Point<K>,
    pub this: Point<K>,
    pub next: Point<K>,
}

/// The boundary segment that leaves a chain vertex: from `this` to `next`.
#[derive(Clone, Copy, Debug, Default, Eq, PartialEq, Structural)]
pub struct ChainSegment<K> {
    pub a: Point<K>,
    pub b: Point<K>,
}

/// The lexicographic comparison of two points, as `Point`'s derived `Ord` gives it.
pub open spec fn point_cmp(a: Point<i64>, b: Point<i64>) -> Ordering {
    if point_lt(a, b) {
        Ordering::Less
    } else if a == b {
        Ordering::Equal
    } else {
        Ordering::Greater
    }
}

/// Whether classifying `v` computes a signed area without overflow: the area is
/// computed only when `this` is a local extremum of the sweep order.
pub open spec fn type_fits(v: ChainVertex<i64>) -> bool {
    ((point_lt(v.prev, v.this) && point_lt(v.next, v.this)) || (point_lt(v.this, v.next)
        && point_lt(v.this, v.prev))) ==> area_fits(v.prev, v.this, v.next)
}

/// The classification of a chain vertex: both neighbours before it in the
/// sweep make it a `Merge` (clockwise turn) or an `End`; both neighbours after
/// it make it a `Split` (clockwise turn) or a `Start`; otherwise it is `Regular`.
pub open spec fn vertex_type(v: ChainVertex<i64>) -> ChainVertexType {
    if point_lt(v.prev, v.this) && point_lt(v.next, v.this) {
        if area2(v.prev, v.this, v.next) > 0 {
            ChainVertexType::Merge
        } else {
            ChainVertexType::End
        }
    } else if point_lt(v.this, v.next) && point_lt(v.this, v.prev) {
        if area2(v.prev, v.this, v.next) > 0 {
            ChainVertexType::Split
        } else {
            ChainVertexType::Start
        }
    } else {
        ChainVertexType::Regular
    }
}

/// The name of a vertex type.
pub open spec fn type_label(t: ChainVertexType) -> Seq<char> {
    match t {
        ChainVertexType::Start => "Start"@,
        ChainVertexType::Split => "Split"@,
        ChainVertexType::Regular => "Regular"@,
        ChainVertexType::Merge => "Merge"@,
        ChainVertexType::End => "End"@,
    }
}

/// The name of the vertex type `t`.
pub fn chain_vertex_type_label(t: ChainVertexType) -> (r: &'static str)
    ensures
        r@ == type_label(t),
{
    match t {
        ChainVertexType::Start => "Start",
        ChainVertexType::Split => "Split",
        ChainVertexType::Regular => "Regular",
        ChainVertexType::Merge => "Merge",
        ChainVertexType::End => "End",
    }
}

impl<K> ChainVertex<K> {
    pub fn new(prev: Point<K>, this: Point<K>, next: Point<K>) -> (v: Self)
        ensures
            v.prev == prev,
            v.this == this,
            v.next == next,
    {
        Self { prev, this, next }
    }

    pub fn segment(self) -> (s: ChainSegment<K>)
        ensures
            s.a == self.this,
            s.b == self.next,
    {
        ChainSegment { a: self.this, b: self.next }
    }
}

impl ChainVertex<i64> {
    /// Whether `typ` can classify this vertex without overflow.
    pub fn type_computable(&self) -> (r: bool)
        ensures
            r == type_fits(*self),
    {
        if (lex_lt(self.prev, self.this) && lex_lt(self.next, self.this)) || (lex_lt(self.this, self.next)
            && lex_lt(self.this, self.prev)) {
            area_computable(self.prev, self.this, self.next)
        } else {
            true
        }
    }

    pub fn typ(&self) -> (t: ChainVertexType)
        requires
            type_fits(*self),
        ensures
            t == vertex_type(*self),
    {
        if lex_lt(self.prev, self.this) && lex_lt(self.next, self.this) {
            if is_clockwise(self.prev, self.this, self.next) {
                ChainVertexType::Merge
            } else {
                ChainVertexType::End
            }
        } else if lex_lt(self.this, self.next) && lex_lt(self.this, self.prev) {
            if is_clockwise(self.prev, self.this, self.next) {
                ChainVertexType::Split
            } else {
                ChainVertexType::Start
            }
        } else {
            ChainVertexType::Regular
        }
    }
}

impl PartialEq for ChainVertex<i64> {
    fn eq(&self, other: &Self) -> (r: bool) {
        self.this.x == other.this.x && self.this.y == other.this.y
    }
}

impl vstd::std_specs::cmp::PartialEqSpecImpl for ChainVertex<i64> {
    open spec fn obeys_eq_spec() -> bool {
        true
    }

    open spec fn eq_spec(&self, other: &Self) -> bool {
        self.this == other.this
    }
}

impl Eq for ChainVertex<i64> {

}

impl PartialEq for ChainVertexWithIndex<i64> {
    fn eq(&self, other: &Self) -> (r: bool) {
        self.vertex.this.x == other.vertex.this.x && self.vertex.this.y == other.vertex.this.y
            && self.index.0 == other.index.0
    }
}

impl vstd::std_specs::cmp::PartialEqSpecImpl for ChainVertexWithIndex<i64> {
    open spec fn obeys_eq_spec() -> bool {
        true
    }

    open spec fn eq_spec(&self, other: &Self) -> bool {
        self.vertex.this == other.vertex.this && self.index == other.index
    }
}

impl Eq for ChainVertexWithIndex<i64> {

}

impl PartialOrd for ChainVertex<i64> {
    fn partial_cmp(&self, other: &Self) -> (r: Option<Ordering>) {
        if lex_lt(self.this, other.this) {
            Some(Ordering::Less)
        } else if self.this.x == other.this.x && self.this.y == other.this.y {
            Some(Ordering::Equal)
        } else {
            Some(Ordering::Greater)
        }
    }
}

impl vstd::std_specs::cmp::PartialOrdSpecImpl for ChainVertex<i64> {
    open spec fn obeys_partial_cmp_spec() -> bool {
        true
    }

    open spec fn partial_cmp_spec(&self, other: &Self) -> Option<Ordering> {
        Some(point_cmp(self.this, other.this))
    }
}

impl ChainSegment<i64> {
    /// Where `point` lies relative to the line through this segment:
    /// `Less` when `a point b` turns clockwise.
    pub fn vertical_cmp_with_point(&self, point: Point<i64>) -> (r: Ordering)
        requires
            area_fits(self.a, point, self.b),
        ensures
            r == zero_cmp(area2(self.a, point, self.b)),
    {
        clockwise_cmp(self.a, point, self.b)
    }

    /// The order of two boundary segments, compared at the segment whose end
    /// `b` comes first in the sweep.
    pub fn cmp(&self, other: &Self) -> (r: Ordering)
        requires
            self.cmp_fits(*other),
        ensures
            r == self.cmp_spec(*other),
    {
        if lex_lt(self.b, other.b) {
            clockwise_cmp(self.b, other.a, other.b)
        } else if self.b.x == other.b.x && self.b.y == other.b.y {
            clockwise_cmp(self.b, self.a, other.a)
        } else {
            clockwise_cmp(other.b, self.b, self.a)
        }
    }

    /// The result of `cmp`.
    pub open spec fn cmp_spec(self, other: Self) -> Ordering {
        if point_lt(self.b, other.b) {
            zero_cmp(area2(self.b, other.a, other.b))
        } else if self.b == other.b {
            zero_cmp(area2(self.b, self.a, other.a))
        } else {
            zero_cmp(area2(other.b, self.b, self.a))
        }
    }

    /// Whether `cmp` computes its signed area without overflow.
    pub open spec fn cmp_fits(self, other: Self) -> bool {
        if point_lt(self.b, other.b) {
            area_fits(self.b, other.a, other.b)
        } else if self.b == other.b {
            area_fits(self.b, self.a, other.a)
        } else {
            area_fits(other.b, self.b, self.a)
        }
    }
}

impl ChainSegment<i64> {
    /// Whether `cmp` can compute its signed area without overflow.
    pub fn cmp_computable(&self, other: &Self) -> (r: bool)
        ensures
            r == self.cmp_fits(*other),
    {
        if lex_lt(self.b, other.b) {
            area_computable(self.b, other.a, other.b)
        } else if self.b.x == other.b.x && self.b.y == other.b.y {
            area_computable(self.b, self.a, other.a)
        } else {
            area_computable(other.b, self.b, self.a)
        }
    }
}

/// Segments compare as `cmp` orders them; where `cmp` would overflow, they
/// are incomparable.
impl PartialOrd for ChainSegment<i64> {
    fn partial_cmp(&self, other: &Self) -> (r: Option<Ordering>) {
        if self.cmp_computable(other) {
            Some(self.cmp(other))
        } else {
            None
        }
    }
}

impl vstd::std_specs::cmp::PartialOrdSpecImpl for ChainSegment<i64> {
    open spec fn obeys_partial_cmp_spec() -> bool {
        true
    }

    open spec fn partial_cmp_spec(&self, other: &Self) -> Option<Ordering> {
        if self.cmp_fits(*other) {
            Some(self.cmp_spec(*other))
        } else {
            None
        }
    }
}

/// The reverse of an ordering.
pub open spec fn reversed(o: Ordering) -> Ordering {
    match o {
        Ordering::Less => Ordering::Greater,
        Ordering::Equal => Ordering::Equal,
        Ordering::Greater => Ordering::Less,
    }
}

/// Comparing two segments the other way round gives the reverse ordering.
pub proof fn lemma_segment_cmp_antisymmetric(s: ChainSegment<i64>, t: ChainSegment<i64>)
    ensures
        s.cmp_spec(t) == reversed(t.cmp_spec(s)),
{
    if point_lt(s.b, t.b) {
        lemma_area2_orientation(s.b, t.a, t.b);
    } else if s.b == t.b {
        lemma_area2_orientation(s.b, s.a, t.a);
    } else {
        lemma_area2_orientation(t.b, s.a, s.b);
    }
}


/// Whether `q` lies strictly below the segment `s`, that is strictly to the
/// right of the line from `s.a` through `s.b` (clockwise from it).
pub open spec fn strictly_below(q: Point<i64>, s: ChainSegment<i64>) -> bool {
    area2(s.a, s.b, q) > 0
}

/// A segment whose right end lies strictly below the other segment, while
/// the other's right end lies strictly above it, compares less, and the other
/// compares greater.
pub proof fn lemma_segment_below_is_less(s: ChainSegment<i64>, t: ChainSegment<i64>)
    requires
        strictly_below(s.b, t),
        area2(s.a, s.b, t.b) < 0,
    ensures
        s.cmp_spec(t) == Ordering::Less,
        t.cmp_spec(s) == Ordering::Greater,
{
    lemma_area2_orientation(t.a, t.b, s.b);
    lemma_area2_orientation(s.a, s.b, t.b);
    lemma_area2_orientation(s.b, s.a, t.b);
    lemma_area2_orientation(s.b, t.a, t.b);
    lemma_area2_orientation(t.b, s.b, s.a);
    if s.b == t.b {
        assert(area2(t.a, t.b, s.b) == 0) by (nonlinear_arith)
            requires
                s.b == t.b,
                area2(t.a, t.b, s.b) == (t.b.x - t.a.x) * (t.b.y - s.b.y) - (t.b.y - t.a.y) * (t.b.x - s.b.x),
        ;
    }
    lemma_segment_cmp_antisymmetric(s, t);
}

} // verus!
