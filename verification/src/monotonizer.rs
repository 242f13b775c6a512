use vstd::prelude::*;

use core::ops::ControlFlow;

use crate::chain::{
    type_fits, vertex_type, ChainVertex, ChainVertexType, ChainVertexWithIndex, VertexIndex,
};
use crate::point::{lex_lt, point_le, point_lt, same_point, Point};
use crate::triangle::{area2, area_computable, area_fits};

verus! {

/// The state the sweep keeps for one region between two boundary chains:
/// the vertex most recently swept in it, the pending merge vertex (if any),
/// and the vertex whose outgoing segment bounds the region from below.
#[derive(Clone, Copy, Debug)]
pub struct Section<K> {
    pub latest: ChainVertexWithIndex<K>,
    pub latest_merge: Option<ChainVertexWithIndex<K>>,
    pub latest_bottom: ChainVertexWithIndex<K>,
}

/// Splits polygons into monotone pieces by a sweep over their vertices in
/// increasing lexicographic order, reporting the diagonals it adds.
pub struct Monotonizer<K> {
    vertices: Vec<ChainVertex<K>>,
    curr_vertex: VertexIndex,
    sections: Vec<Section<K>>,
}

/// A diagonal added by the sweep, between two polygon vertices.
#[derive(Clone, Copy, Debug)]
pub struct Diagonal<K> {
    pub from: ChainVertexWithIndex<K>,
    pub to: ChainVertexWithIndex<K>,
}

/// The mathematical state of a sweep: the vertices in sweep order, the index
/// of the vertex to process next, and the sections.
pub struct SweepState {
    pub vertices: Seq<ChainVertex<i64>>,
    pub curr: int,
    pub sections: Seq<Section<i64>>,
}

/// The rings that `monotonizer_from_first_poly_geom` sweeps: the exterior
/// ring, then each interior ring of at least three points.
pub open spec fn geometry_rings(exterior: Seq<[i64; 2]>, interiors: Seq<Vec<[i64; 2]>>) -> Seq<
    Seq<[i64; 2]>,
> {
    seq![exterior] + ring_views(interiors.filter(|r: Vec<[i64; 2]>| r.len() >= 3))
}

/// The point `[x, y]` as a `Point`.
pub open spec fn pt(a: [i64; 2]) -> Point<i64> {
    Point { x: a[0], y: a[1] }
}

/// The index of the ring position before `k` in a ring of `n` points.
pub open spec fn ring_before(k: int, n: int) -> int {
    if k == 0 {
        n - 1
    } else {
        k - 1
    }
}

/// The chain vertices of one polygon ring `p`, in the order in which they are
/// linked: the `k`-th has `p[k]` as its successor, and the two ring points
/// before `p[k]` as its vertex and predecessor.
pub open spec fn ring_chain(p: Seq<[i64; 2]>) -> Seq<ChainVertex<i64>> {
    Seq::new(
        p.len(),
        |k: int|
            ChainVertex {
                prev: pt(p[ring_before(ring_before(k, p.len() as int), p.len() as int)]),
                this: pt(p[ring_before(k, p.len() as int)]),
                next: pt(p[k]),
            },
    )
}

/// The chain vertices of all polygon rings, ring after ring.
pub open spec fn chain_vertices(rings: Seq<Seq<[i64; 2]>>) -> Seq<ChainVertex<i64>>
    decreases rings.len(),
{
    if rings.len() == 0 {
        Seq::empty()
    } else {
        chain_vertices(rings.drop_last()) + ring_chain(rings.last())
    }
}

/// The point sequences of rings given as vectors.
pub open spec fn ring_views(rings: Seq<Vec<[i64; 2]>>) -> Seq<Seq<[i64; 2]>> {
    rings.map_values(|r: Vec<[i64; 2]>| r@)
}

/// Chain vertices in non-decreasing lexicographic order of their `this` point.
pub open spec fn sweep_sorted(vs: Seq<ChainVertex<i64>>) -> bool {
    forall|i: int, j: int| 0 <= i < j < vs.len() ==> point_le(#[trigger] vs[i].this, #[trigger] vs[j].this)
}

/// The `c`-th vertex of the sweep together with its index.
pub open spec fn with_index(vs: Seq<ChainVertex<i64>>, c: int) -> ChainVertexWithIndex<i64> {
    ChainVertexWithIndex { vertex: vs[c], index: VertexIndex(c as usize) }
}

/// A section opened at `w`.
pub open spec fn fresh_section(w: ChainVertexWithIndex<i64>) -> Section<i64> {
    Section { latest: w, latest_merge: None, latest_bottom: w }
}

/// Whether `p` lies on or above the segment that bounds section `s` from below.
pub open spec fn above_bottom(s: Section<i64>, p: Point<i64>) -> bool {
    area2(s.latest_bottom.vertex.this, p, s.latest_bottom.vertex.next) >= 0
}

/// Whether the search of the section containing `p`, which examines the
/// sections from the last one down and stops at the first match, computes
/// each of its signed areas without overflow.
pub open spec fn scan_fits(secs: Seq<Section<i64>>, p: Point<i64>) -> bool
    decreases secs.len(),
{
    if secs.len() == 0 {
        true
    } else {
        &&& area_fits(secs.last().latest_bottom.vertex.this, p, secs.last().latest_bottom.vertex.next)
        &&& (above_bottom(secs.last(), p) || scan_fits(secs.drop_last(), p))
    }
}

/// The index of the last section above whose bottom `p` lies, if any.
pub open spec fn section_of(secs: Seq<Section<i64>>, p: Point<i64>) -> Option<int>
    decreases secs.len(),
{
    if secs.len() == 0 {
        None
    } else if above_bottom(secs.last(), p) {
        Some(secs.len() - 1)
    } else {
        section_of(secs.drop_last(), p)
    }
}

/// The diagonals of an optional diagonal.
pub open spec fn opt_diagonals(d: Option<Diagonal<i64>>) -> Seq<Diagonal<i64>> {
    match d {
        Some(d) => seq![d],
        None => Seq::empty(),
    }
}

/// Takes the pending merge vertex of section `i`, if there is one, and turns it
/// into a diagonal to `cv`.
pub open spec fn take_merge(secs: Seq<Section<i64>>, i: int, cv: ChainVertexWithIndex<i64>) -> (
    Seq<Section<i64>>,
    Option<Diagonal<i64>>,
) {
    match secs[i].latest_merge {
        Some(m) => (
            secs.update(
                i,
                Section { latest: secs[i].latest, latest_merge: None, latest_bottom: secs[i].latest_bottom },
            ),
            Some(Diagonal { from: m, to: cv }),
        ),
        None => (secs, None),
    }
}

/// Section `s` with `latest` set to `w`.
pub open spec fn set_latest(s: Section<i64>, w: ChainVertexWithIndex<i64>) -> Section<i64> {
    Section { latest: w, latest_merge: s.latest_merge, latest_bottom: s.latest_bottom }
}

/// Section `s` with `latest_bottom` set to `w`.
pub open spec fn set_bottom(s: Section<i64>, w: ChainVertexWithIndex<i64>) -> Section<i64> {
    Section { latest: s.latest, latest_merge: s.latest_merge, latest_bottom: w }
}

/// Whether the chain vertex with index `w` is the vertex of the sweep at
/// that index, and has been swept before index `c`.
pub open spec fn swept_before(vs: Seq<ChainVertex<i64>>, c: int, w: ChainVertexWithIndex<i64>) -> bool {
    &&& 0 <= w.index.0 < c
    &&& w.index.0 < vs.len()
    &&& w.vertex == vs[w.index.0 as int]
}

/// Whether the vertices that section `s` refers to have all been swept before index `c`.
pub open spec fn section_swept(vs: Seq<ChainVertex<i64>>, c: int, s: Section<i64>) -> bool {
    &&& swept_before(vs, c, s.latest)
    &&& swept_before(vs, c, s.latest_bottom)
    &&& (s.latest_merge matches Some(m) ==> swept_before(vs, c, m))
}

/// Whether every section refers only to vertices swept before index `c`.
pub open spec fn sections_swept(vs: Seq<ChainVertex<i64>>, c: int, secs: Seq<Section<i64>>) -> bool {
    forall|i: int| 0 <= i < secs.len() ==> section_swept(vs, c, #[trigger] secs[i])
}

impl SweepState {
    /// The vertex processed by the next step, with its index.
    pub open spec fn current(self) -> ChainVertexWithIndex<i64> {
        with_index(self.vertices, self.curr)
    }

    /// Every vertex that a section refers to is a vertex of the sweep that has
    /// already been processed.
    pub open spec fn wf(self) -> bool {
        &&& 0 <= self.curr <= self.vertices.len() <= usize::MAX
        &&& sections_swept(self.vertices, self.curr, self.sections)
    }

    /// Whether the next step runs without a panic (an out-of-range index, a
    /// missing section, or an arithmetic overflow).
    pub open spec fn can_step(self) -> bool {
        &&& 0 <= self.curr < self.vertices.len()
        &&& type_fits(self.vertices[self.curr])
        &&& scan_fits(self.sections, self.vertices[self.curr].this)
        &&& match vertex_type(self.vertices[self.curr]) {
            ChainVertexType::Start => true,
            ChainVertexType::Merge => section_of(self.sections, self.vertices[self.curr].this) matches Some(i) && i >= 1,
            _ => section_of(self.sections, self.vertices[self.curr].this) is Some,
        }
    }

    /// The sections after the next step, together with the diagonals it adds.
    pub open spec fn step_result(self) -> (Seq<Section<i64>>, Seq<Diagonal<i64>>) {
        let secs = self.sections;
        let cv = self.current();
        let p = cv.vertex.this;
        let i = section_of(secs, p).unwrap();
        match vertex_type(cv.vertex) {
            ChainVertexType::Start => {
                let pos = match section_of(secs, p) {
                    Some(j) => j + 1,
                    None => 0,
                };
                (secs.insert(pos, fresh_section(cv)), Seq::empty())
            },
            ChainVertexType::Split => {
                let (s1, d) = take_merge(secs, i, cv);
                let diag = match d {
                    Some(d) => d,
                    None => Diagonal { from: secs[i].latest, to: cv },
                };
                let s2 = s1.update(i, set_latest(s1[i], cv));
                (s2.insert(i + 1, fresh_section(cv)), seq![diag])
            },
            ChainVertexType::Regular => {
                let (s1, d) = take_merge(secs, i, cv);
                let s2 = if s1[i].latest_bottom.vertex.next == p {
                    s1.update(i, set_bottom(s1[i], cv))
                } else {
                    s1
                };
                (s2.update(i, set_latest(s2[i], cv)), opt_diagonals(d))
            },
            ChainVertexType::Merge => {
                let (s1, d1) = take_merge(secs, i, cv);
                let (s2, d2) = take_merge(s1, i - 1, cv);
                let s3 = s2.update(
                    i - 1,
                    Section { latest: cv, latest_merge: Some(cv), latest_bottom: s2[i - 1].latest_bottom },
                );
                (s3.remove(i), opt_diagonals(d1) + opt_diagonals(d2))
            },
            ChainVertexType::End => {
                let (s1, d) = take_merge(secs, i, cv);
                (s1.remove(i), opt_diagonals(d))
            },
        }
    }

    /// The index of the section containing the vertex processed next.
    pub open spec fn current_section(self) -> int {
        section_of(self.sections, self.current().vertex.this).unwrap()
    }

    /// The state after the next step.
    pub open spec fn next(self) -> SweepState {
        SweepState { vertices: self.vertices, curr: self.curr + 1, sections: self.step_result().0 }
    }

    /// Whether every step until the end of the sweep runs without a panic.
    pub open spec fn run_ok(self) -> bool
        decreases self.vertices.len() - self.curr,
    {
        &&& self.can_step()
        &&& (self.curr + 1 < self.vertices.len() ==> self.next().run_ok())
    }

    /// The diagonals that the remaining sweep reports: those of every step but
    /// the last one, in order (the last step ends the sweep, and the
    /// diagonals it computes are not reported).
    pub open spec fn run_diagonals(self) -> Seq<Diagonal<i64>>
        decreases self.vertices.len() - self.curr,
    {
        if 0 <= self.curr && self.curr + 1 < self.vertices.len() {
            self.step_result().1 + self.next().run_diagonals()
        } else {
            Seq::empty()
        }
    }

    /// The state at the end of the sweep.
    pub open spec fn run_final(self) -> SweepState
        decreases self.vertices.len() - self.curr,
    {
        if 0 <= self.curr && self.curr + 1 < self.vertices.len() {
            self.next().run_final()
        } else {
            self.next()
        }
    }
}

/// A copy of a ring.
fn copy_ring(r: &Vec<[i64; 2]>) -> (c: Vec<[i64; 2]>)
    ensures
        c@ == r@,
{
    let mut c: Vec<[i64; 2]> = Vec::new();
    let mut i: usize = 0;
    while i < r.len()
        invariant
            i <= r.len(),
            c@ == r@.take(i as int),
        decreases r.len() - i,
    {
        c.push(r[i]);
        assert(r@.take(i as int + 1) == r@.take(i as int).push(r@[i as int]));
        i = i + 1;
    }
    assert(r@.take(r.len() as int) == r@);
    c
}

/// A monotonizer over a polygon given by its exterior ring and its interior
/// rings, skipping interior rings of fewer than three points; `None` when the
/// exterior ring has fewer than three points.
pub fn monotonizer_from_first_poly_geom(geom: &(Vec<[i64; 2]>, Vec<Vec<[i64; 2]>>)) -> (r: Option<
    Monotonizer<i64>,
>)
    ensures
        match r {
            None => geom.0.len() < 3,
            Some(m) => {
                &&& geom.0.len() >= 3
                &&& m@.vertices.to_multiset() == chain_vertices(
                    geometry_rings(geom.0@, geom.1@),
                ).to_multiset()
                &&& sweep_sorted(m@.vertices)
                &&& m@.curr == 0
                &&& m@.sections == Seq::<Section<i64>>::empty()
                &&& m@.wf()
                &&& forall|v: ChainVertex<i64>| #[trigger] ring_chain(geom.0@).contains(v) ==> m@.vertices.contains(v)
                &&& forall|j: int, v: ChainVertex<i64>|
                    0 <= j < geom.1.len() && geom.1[j].len() >= 3 && #[trigger] ring_chain(geom.1[j]@).contains(v)
                        ==> m@.vertices.contains(v)
                &&& forall|v: ChainVertex<i64>|
                    #[trigger] m@.vertices.contains(v) ==> ring_chain(geom.0@).contains(v) || exists|j: int|
                        0 <= j < geom.1.len() && geom.1[j].len() >= 3 && #[trigger] ring_chain(geom.1[j]@).contains(v)
            },
        },
{
    let (ext, interiors) = geom;
    if ext.len() < 3 {
        return None;
    }
    let ghost keep = |r: Vec<[i64; 2]>| r.len() >= 3;
    let mut rings: Vec<Vec<[i64; 2]>> = Vec::new();
    rings.push(copy_ring(ext));
    proof {
        reveal(Seq::filter);
        assert(interiors@.take(0) =~= Seq::<Vec<[i64; 2]>>::empty());
        assert(ring_views(rings@) =~= seq![ext@] + ring_views(interiors@.take(0).filter(keep)));
    }
    let mut i: usize = 0;
    while i < interiors.len()
        invariant
            i <= interiors.len(),
            keep == (|r: Vec<[i64; 2]>| r.len() >= 3),
            ring_views(rings@) == seq![ext@] + ring_views(interiors@.take(i as int).filter(keep)),
            forall|j: int| 0 <= j < rings.len() ==> #[trigger] rings@[j].len() >= 3,
        decreases interiors.len() - i,
    {
        proof {
            assert(interiors@.take(i as int + 1) == interiors@.take(i as int).push(interiors@[i as int]));
            interiors@.take(i as int).lemma_filter_push(interiors@[i as int], keep);
        }
        let ghost before = rings@;
        if interiors[i].len() >= 3 {
            rings.push(copy_ring(&interiors[i]));
            assert(ring_views(rings@) =~= ring_views(before).push(interiors@[i as int]@));
            let ghost f = interiors@.take(i as int).filter(keep);
            assert(ring_views(f.push(interiors@[i as int])) =~= ring_views(f).push(interiors@[i as int]@));
            assert(seq![ext@] + ring_views(f).push(interiors@[i as int]@) =~= (seq![ext@] + ring_views(f)).push(
                interiors@[i as int]@,
            ));
        }
        i = i + 1;
    }
    assert(interiors@.take(interiors.len() as int) == interiors@);
    let m = Monotonizer::new(rings);
    proof {
        let g = chain_vertices(geometry_rings(ext@, interiors@));
        assert forall|v: ChainVertex<i64>| #[trigger] m@.vertices.contains(v) <==> g.contains(v) by {
            vstd::seq_lib::to_multiset_contains(m@.vertices, v);
            vstd::seq_lib::to_multiset_contains(g, v);
            lemma_geometry_rings_vertices(ext@, interiors@, v);
        }
        assert forall|j: int, v: ChainVertex<i64>|
            0 <= j < interiors.len() && interiors@[j].len() >= 3 && #[trigger] ring_chain(interiors@[j]@).contains(v)
            implies m@.vertices.contains(v) by {
            lemma_geometry_rings_vertices(ext@, interiors@, v);
        }
        assert forall|v: ChainVertex<i64>| #[trigger] ring_chain(ext@).contains(v) implies m@.vertices.contains(v) by {
            lemma_geometry_rings_vertices(ext@, interiors@, v);
        }
        assert forall|v: ChainVertex<i64>| #[trigger] m@.vertices.contains(v) implies ring_chain(ext@).contains(v)
            || exists|j: int|
            0 <= j < interiors.len() && interiors@[j].len() >= 3 && #[trigger] ring_chain(interiors@[j]@).contains(v) by {
            lemma_geometry_rings_vertices(ext@, interiors@, v);
        }
    }
    Some(m)
}

/// A chain vertex belongs to the vertices of a list of rings exactly when it
/// belongs to the chain of one of the rings.
proof fn lemma_chain_vertices_contains(rings: Seq<Seq<[i64; 2]>>, v: ChainVertex<i64>)
    ensures
        chain_vertices(rings).contains(v) <==> exists|j: int|
            0 <= j < rings.len() && #[trigger] ring_chain(rings[j]).contains(v),
    decreases rings.len(),
{
    if rings.len() > 0 {
        let a = chain_vertices(rings.drop_last());
        let b = ring_chain(rings.last());
        lemma_chain_vertices_contains(rings.drop_last(), v);
        if (a + b).contains(v) {
            let k = choose|k: int| 0 <= k < (a + b).len() && (a + b)[k] == v;
            if k < a.len() {
                assert(a[k] == v);
                let j = choose|j: int| 0 <= j < rings.drop_last().len() && #[trigger] ring_chain(rings.drop_last()[j]).contains(v);
                assert(rings[j] == rings.drop_last()[j]);
            } else {
                assert(b[k - a.len()] == v);
                assert(ring_chain(rings[rings.len() - 1]).contains(v));
            }
        }
        if exists|j: int| 0 <= j < rings.len() && #[trigger] ring_chain(rings[j]).contains(v) {
            let j = choose|j: int| 0 <= j < rings.len() && #[trigger] ring_chain(rings[j]).contains(v);
            if j < rings.len() - 1 {
                assert(rings.drop_last()[j] == rings[j]);
                assert(a.contains(v));
                let k = choose|k: int| 0 <= k < a.len() && a[k] == v;
                assert((a + b)[k] == v);
            } else {
                let k = choose|k: int| 0 <= k < b.len() && b[k] == v;
                assert((a + b)[a.len() + k] == v);
            }
        }
    }
}

/// The rings that `monotonizer_from_first_poly_geom` sweeps contribute the
/// vertices of the exterior ring and of every interior ring of at least three
/// points, and no others.
pub proof fn lemma_geometry_rings_vertices(exterior: Seq<[i64; 2]>, interiors: Seq<Vec<[i64; 2]>>, v: ChainVertex<i64>)
    ensures
        ring_chain(exterior).contains(v) ==> chain_vertices(geometry_rings(exterior, interiors)).contains(v),
        forall|j: int|
            0 <= j < interiors.len() && interiors[j].len() >= 3 && #[trigger] ring_chain(interiors[j]@).contains(v)
                ==> chain_vertices(geometry_rings(exterior, interiors)).contains(v),
        chain_vertices(geometry_rings(exterior, interiors)).contains(v) ==> ring_chain(exterior).contains(v)
            || exists|j: int|
            0 <= j < interiors.len() && interiors[j].len() >= 3 && #[trigger] ring_chain(interiors[j]@).contains(v),
{
    let keep = |r: Vec<[i64; 2]>| r.len() >= 3;
    let f = interiors.filter(keep);
    let g = geometry_rings(exterior, interiors);
    assert(g == seq![exterior] + ring_views(f));
    lemma_chain_vertices_contains(g, v);
    assert(g[0] == exterior);
    assert forall|j: int|
        0 <= j < interiors.len() && interiors[j].len() >= 3 && #[trigger] ring_chain(interiors[j]@).contains(v)
        implies chain_vertices(g).contains(v) by {
        interiors.lemma_filter_contains(keep, j);
        let k = choose|k: int| 0 <= k < f.len() && f[k] == interiors[j];
        assert(g[1 + k] == interiors[j]@);
    }
    if chain_vertices(g).contains(v) && !ring_chain(exterior).contains(v) {
        let jj = choose|jj: int| 0 <= jj < g.len() && #[trigger] ring_chain(g[jj]).contains(v);
        assert(jj != 0);
        let k = jj - 1;
        assert(g[jj] == f[k]@);
        interiors.lemma_filter_pred(keep, k);
        interiors.lemma_filter_contains_rev(keep, f[k]);
        let j = choose|j: int| 0 <= j < interiors.len() && interiors[j] == f[k];
        assert(ring_chain(interiors[j]@).contains(v));
    }
}

impl View for Monotonizer<i64> {
    type V = SweepState;

    closed spec fn view(&self) -> SweepState {
        SweepState {
            vertices: self.vertices@,
            curr: self.curr_vertex.0 as int,
            sections: self.sections@,
        }
    }
}

impl Monotonizer<i64> {
    /// Links every ring of `polygons` into chain vertices and sorts them into
    /// sweep order.
    pub fn new(polygons: Vec<Vec<[i64; 2]>>) -> (m: Self)
        requires
            forall|i: int| 0 <= i < polygons.len() ==> #[trigger] polygons[i].len() >= 2,
        ensures
            m@.vertices.to_multiset() == chain_vertices(ring_views(polygons@)).to_multiset(),
            sweep_sorted(m@.vertices),
            m@.curr == 0,
            m@.sections == Seq::<Section<i64>>::empty(),
            m@.wf(),
    {
        let vertices = Self::link_and_sort_vertices(polygons);
        let _ = vertices.len();
        Self { vertices, curr_vertex: VertexIndex(0), sections: Vec::new() }
    }

    /// Inserts `v` into the sorted `vertices`, after every vertex whose `this`
    /// is not greater than `v.this`.
    fn insert_sorted(vertices: &mut Vec<ChainVertex<i64>>, v: ChainVertex<i64>)
        requires
            sweep_sorted(old(vertices)@),
        ensures
            sweep_sorted(final(vertices)@),
            final(vertices)@.to_multiset() == old(vertices)@.to_multiset().insert(v),
    {
        let mut j = vertices.len();
        while j > 0 && lex_lt(v.this, vertices[j - 1].this)
            invariant
                j <= vertices.len(),
                forall|t: int| j <= t < vertices.len() ==> point_lt(v.this, #[trigger] vertices@[t].this),
            decreases j,
        {
            j = j - 1;
        }
        proof {
            vstd::seq_lib::to_multiset_insert(vertices@, j as int, v);
        }
        vertices.insert(j, v);
    }

    fn link_and_sort_vertices(polygons: Vec<Vec<[i64; 2]>>) -> (vertices: Vec<ChainVertex<i64>>)
        requires
            forall|i: int| 0 <= i < polygons.len() ==> #[trigger] polygons[i].len() >= 2,
        ensures
            vertices@.to_multiset() == chain_vertices(ring_views(polygons@)).to_multiset(),
            sweep_sorted(vertices@),
    {
        let mut vertices: Vec<ChainVertex<i64>> = Vec::new();
        let mut pi: usize = 0;
        while pi < polygons.len()
            invariant
                pi <= polygons.len(),
                forall|i: int| 0 <= i < polygons.len() ==> #[trigger] polygons[i].len() >= 2,
                vertices@.to_multiset() == chain_vertices(ring_views(polygons@.take(pi as int))).to_multiset(),
                sweep_sorted(vertices@),
            decreases polygons.len() - pi,
        {
            let polygon = &polygons[pi];
            let n = polygon.len();
            let ghost ring = ring_chain(polygon@);
            let ghost done = chain_vertices(ring_views(polygons@.take(pi as int)));
            let mut prev = Point::new(polygon[n - 2][0], polygon[n - 2][1]);
            let mut this = Point::new(polygon[n - 1][0], polygon[n - 1][1]);
            let mut k: usize = 0;
            while k < n
                invariant
                    n == polygon.len(),
                    n >= 2,
                    k <= n,
                    ring == ring_chain(polygon@),
                    prev == pt(polygon@[ring_before(ring_before(k as int, n as int), n as int)]),
                    this == pt(polygon@[ring_before(k as int, n as int)]),
                    vertices@.to_multiset() == (done + ring.take(k as int)).to_multiset(),
                    sweep_sorted(vertices@),
                decreases n - k,
            {
                let next = Point::new(polygon[k][0], polygon[k][1]);
                let v = ChainVertex::new(prev, this, next);
                assert(v == ring[k as int]);
                Self::insert_sorted(&mut vertices, v);
                proof {
                    assert(ring.take(k as int + 1) == ring.take(k as int).push(v));
                    assert(done + ring.take(k as int + 1) == (done + ring.take(k as int)).push(v));
                    vstd::seq_lib::to_multiset_build(done + ring.take(k as int), v);
                }
                prev = this;
                this = next;
                k = k + 1;
            }
            proof {
                let taken = ring_views(polygons@.take(pi as int + 1));
                assert(taken.drop_last() =~= ring_views(polygons@.take(pi as int)));
                assert(taken.last() == polygons@[pi as int]@);
                assert(ring.take(n as int) == ring);
            }
            pi = pi + 1;
        }
        assert(polygons@.take(polygons.len() as int) == polygons@);
        vertices
    }

    /// The number of vertices of the sweep.
    pub fn sweep_vertex_count(&self) -> (n: usize)
        ensures
            n == self@.vertices.len(),
    {
        self.vertices.len()
    }

    /// The index of the vertex the next step processes.
    pub fn current_sweep_index(&self) -> (i: usize)
        ensures
            i == self@.curr,
    {
        self.curr_vertex.0
    }

    /// The vertex at `index` in sweep order, if there is one.
    pub fn sweep_vertex(&self, index: usize) -> (v: Option<ChainVertex<i64>>)
        ensures
            v == (if index < self@.vertices.len() {
                Some(self@.vertices[index as int])
            } else {
                None
            }),
    {
        if index < self.vertices.len() {
            Some(self.vertices[index])
        } else {
            None
        }
    }

    /// Whether the next `step` runs without a panic, that is, whether its
    /// requirement holds.
    pub fn can_step(&self) -> (b: bool)
        ensures
            b == self@.can_step(),
    {
        let c = self.curr_vertex.0;
        if c >= self.vertices.len() {
            return false;
        }
        let v = self.vertices[c];
        if (lex_lt(v.prev, v.this) && lex_lt(v.next, v.this)) || (lex_lt(v.this, v.next) && lex_lt(
            v.this,
            v.prev,
        )) {
            if !area_computable(v.prev, v.this, v.next) {
                return false;
            }
        }
        let found = match self.scan_sections(v.this) {
            Some(f) => f,
            None => return false,
        };
        proof {
            lemma_section_of(self@.sections, v.this);
        }
        match v.typ() {
            ChainVertexType::Start => true,
            ChainVertexType::Merge => match found {
                Some(j) => j >= 1,
                None => false,
            },
            _ => found.is_some(),
        }
    }

    /// A copy of the monotonizer in its current state.
    fn duplicate(&self) -> (m: Self)
        ensures
            m@ == self@,
    {
        let mut vertices: Vec<ChainVertex<i64>> = Vec::new();
        let mut i: usize = 0;
        while i < self.vertices.len()
            invariant
                i <= self.vertices.len(),
                vertices@ == self.vertices@.take(i as int),
            decreases self.vertices.len() - i,
        {
            vertices.push(self.vertices[i]);
            assert(self.vertices@.take(i as int + 1) == self.vertices@.take(i as int).push(self.vertices@[i as int]));
            i = i + 1;
        }
        assert(self.vertices@.take(self.vertices.len() as int) == self.vertices@);
        let mut sections: Vec<Section<i64>> = Vec::new();
        let mut j: usize = 0;
        while j < self.sections.len()
            invariant
                j <= self.sections.len(),
                sections@ == self.sections@.take(j as int),
            decreases self.sections.len() - j,
        {
            sections.push(self.sections[j]);
            assert(self.sections@.take(j as int + 1) == self.sections@.take(j as int).push(self.sections@[j as int]));
            j = j + 1;
        }
        assert(self.sections@.take(self.sections.len() as int) == self.sections@);
        Monotonizer { vertices, curr_vertex: VertexIndex(self.curr_vertex.0), sections }
    }

    /// Whether `run` runs to its end without a panic, that is, whether its
    /// requirement holds; it sweeps a copy to find out.
    pub fn can_run(&self) -> (b: bool)
        requires
            self@.wf(),
        ensures
            b == self@.run_ok(),
    {
        let mut m = self.duplicate();
        loop
            invariant
                m@.wf(),
                self@.run_ok() == m@.run_ok(),
            decreases m@.vertices.len() - m@.curr,
        {
            if !m.can_step() {
                return false;
            }
            let ghost before = m@;
            match m.step() {
                ControlFlow::Continue(_) => {
                    assert(before.run_ok() == before.next().run_ok());
                },
                ControlFlow::Break(()) => {
                    return true;
                },
            }
        }
    }

    /// Runs the sweep to its end, collecting the diagonals of its steps.
    pub fn run(&mut self) -> (diagonals: Vec<Diagonal<i64>>)
        requires
            old(self)@.run_ok(),
            old(self)@.wf(),
        ensures
            diagonals@ == old(self)@.run_diagonals(),
            final(self)@ == old(self)@.run_final(),
            final(self)@.wf(),
    {
        let mut diagonals: Vec<Diagonal<i64>> = Vec::new();
        let ghost start = self@;
        loop
            invariant_except_break
                self@.run_ok(),
                self@.wf(),
                diagonals@ + self@.run_diagonals() == start.run_diagonals(),
                self@.run_final() == start.run_final(),
            ensures
                diagonals@ == start.run_diagonals(),
                self@ == start.run_final(),
                self@.wf(),
            decreases self@.vertices.len() - self@.curr,
        {
            let ghost before = self@;
            match self.step() {
                ControlFlow::Continue(mut step_diagonals) => {
                    assert(before.run_diagonals() == before.step_result().1 + before.next().run_diagonals());
                    assert(diagonals@ + step_diagonals@ + self@.run_diagonals() == diagonals@ + before.run_diagonals());
                    diagonals.append(&mut step_diagonals);
                },
                ControlFlow::Break(()) => {
                    assert(diagonals@ + Seq::<Diagonal<i64>>::empty() == diagonals@);
                    break ;
                },
            }
        }
        diagonals
    }

    /// Processes the next vertex of the sweep; `Continue` carries the
    /// diagonals added, `Break` reports that this was the last vertex.
    pub fn step(&mut self) -> (r: ControlFlow<(), Vec<Diagonal<i64>>>)
        requires
            old(self)@.can_step(),
            old(self)@.wf(),
        ensures
            final(self)@ == old(self)@.next(),
            final(self)@.wf(),
            match r {
                ControlFlow::Continue(d) => old(self)@.curr + 1 < old(self)@.vertices.len() && d@
                    == old(self)@.step_result().1,
                ControlFlow::Break(()) => old(self)@.curr + 1 >= old(self)@.vertices.len(),
            },
    {
        proof {
            lemma_step_keeps_wf(self@);
        }
        let diagonals = match self.curr_vertex().typ() {
            ChainVertexType::Start => {
                self.start();
                Vec::new()
            },
            ChainVertexType::Split => {
                let d = self.split();
                let mut v = Vec::new();
                v.push(d);
                v
            },
            ChainVertexType::Regular => {
                let mut v = Vec::new();
                if let Some(d) = self.regular() {
                    v.push(d);
                }
                v
            },
            ChainVertexType::Merge => self.merge(),
            ChainVertexType::End => {
                let mut v = Vec::new();
                if let Some(d) = self.end() {
                    v.push(d);
                }
                v
            },
        };
        let n = self.vertices.len();
        self.curr_vertex = VertexIndex(self.curr_vertex.0 + 1);
        if self.curr_vertex.0 < n {
            ControlFlow::Continue(diagonals)
        } else {
            ControlFlow::Break(())
        }
    }

    fn start(&mut self)
        requires
            old(self)@.can_step(),
            vertex_type(old(self)@.current().vertex) == ChainVertexType::Start,
        ensures
            final(self)@.vertices == old(self)@.vertices,
            final(self)@.curr == old(self)@.curr,
            final(self)@.sections == old(self)@.step_result().0,
    {
        let _ = self.sections.len();
        let section_index = self.find_vertex_section_index(self.curr_vertex());
        let pos = match section_index {
            Some(i) => i + 1,
            None => 0,
        };
        let cv = self.curr_vertex_with_index();
        self.sections.insert(pos, Section { latest: cv, latest_merge: None, latest_bottom: cv });
    }

    fn split(&mut self) -> (d: Diagonal<i64>)
        requires
            old(self)@.can_step(),
            vertex_type(old(self)@.current().vertex) == ChainVertexType::Split,
        ensures
            final(self)@.vertices == old(self)@.vertices,
            final(self)@.curr == old(self)@.curr,
            final(self)@.sections == old(self)@.step_result().0,
            seq![d] == old(self)@.step_result().1,
    {
        let _ = self.sections.len();
        let section_index = self.find_vertex_section_index(self.curr_vertex()).unwrap();
        let latest = self.sections[section_index].latest;
        let cv = self.curr_vertex_with_index();
        let diagonal = match self.make_diagonal_from_merge_if_present(section_index) {
            Some(d) => d,
            None => Diagonal { from: latest, to: cv },
        };
        let mut s = self.sections[section_index];
        s.latest = cv;
        self.sections.set(section_index, s);
        self.sections.insert(
            section_index + 1,
            Section { latest: cv, latest_merge: None, latest_bottom: cv },
        );
        diagonal
    }

    fn regular(&mut self) -> (d: Option<Diagonal<i64>>)
        requires
            old(self)@.can_step(),
            vertex_type(old(self)@.current().vertex) == ChainVertexType::Regular,
        ensures
            final(self)@.vertices == old(self)@.vertices,
            final(self)@.curr == old(self)@.curr,
            final(self)@.sections == old(self)@.step_result().0,
            opt_diagonals(d) == old(self)@.step_result().1,
    {
        let section = self.find_vertex_section_index(self.curr_vertex()).unwrap();
        let diagonal = self.make_diagonal_from_merge_if_present(section);
        let cv = self.curr_vertex_with_index();
        let mut s = self.sections[section];
        if same_point(s.latest_bottom.vertex.next, cv.vertex.this) {
            s.latest_bottom = cv;
        }
        s.latest = cv;
        self.sections.set(section, s);
        diagonal
    }

    fn merge(&mut self) -> (d: Vec<Diagonal<i64>>)
        requires
            old(self)@.can_step(),
            vertex_type(old(self)@.current().vertex) == ChainVertexType::Merge,
        ensures
            final(self)@.vertices == old(self)@.vertices,
            final(self)@.curr == old(self)@.curr,
            final(self)@.sections == old(self)@.step_result().0,
            d@ == old(self)@.step_result().1,
    {
        let section = self.find_vertex_section_index(self.curr_vertex()).unwrap();
        let mut diagonals: Vec<Diagonal<i64>> = Vec::new();
        if let Some(d) = self.make_diagonal_from_merge_if_present(section) {
            diagonals.push(d);
        }
        if let Some(d) = self.make_diagonal_from_merge_if_present(section - 1) {
            diagonals.push(d);
        }
        let cv = self.curr_vertex_with_index();
        let mut s = self.sections[section - 1];
        s.latest = cv;
        s.latest_merge = Some(cv);
        self.sections.set(section - 1, s);
        self.sections.remove(section);
        diagonals
    }

    fn end(&mut self) -> (d: Option<Diagonal<i64>>)
        requires
            old(self)@.can_step(),
            vertex_type(old(self)@.current().vertex) == ChainVertexType::End,
        ensures
            final(self)@.vertices == old(self)@.vertices,
            final(self)@.curr == old(self)@.curr,
            final(self)@.sections == old(self)@.step_result().0,
            opt_diagonals(d) == old(self)@.step_result().1,
    {
        let section_index = self.find_vertex_section_index(self.curr_vertex()).unwrap();
        let diagonal = self.make_diagonal_from_merge_if_present(section_index);
        self.sections.remove(section_index);
        diagonal
    }

    /// The index of the last section above whose bottom `vertex.this` lies.
    fn find_vertex_section_index(&self, vertex: ChainVertex<i64>) -> (r: Option<usize>)
        requires
            scan_fits(self@.sections, vertex.this),
        ensures
            match r {
                Some(i) => section_of(self@.sections, vertex.this) == Some(i as int) && i < self@.sections.len(),
                None => section_of(self@.sections, vertex.this) is None,
            },
    {
        proof {
            lemma_section_of(self@.sections, vertex.this);
        }
        let ghost secs = self@.sections;
        let mut i = self.sections.len();
        assert(secs.take(i as int) == secs);
        while i > 0
            invariant
                i <= self.sections.len(),
                secs == self@.sections,
                section_of(secs, vertex.this) == section_of(secs.take(i as int), vertex.this),
                scan_fits(secs.take(i as int), vertex.this),
            decreases i,
        {
            assert(secs.take(i as int).last() == secs[i - 1]);
            assert(secs.take(i as int).drop_last() == secs.take(i - 1));
            if lies_above_bottom(self.sections[i - 1], vertex.this) {
                return Some(i - 1);
            }
            i = i - 1;
        }
        None
    }

    /// Searches the section of `p` as `find_vertex_section_index` does, but
    /// reports `None` where that search would overflow.
    fn scan_sections(&self, p: Point<i64>) -> (r: Option<Option<usize>>)
        ensures
            match r {
                None => !scan_fits(self@.sections, p),
                Some(found) => scan_fits(self@.sections, p) && match found {
                    Some(i) => section_of(self@.sections, p) == Some(i as int),
                    None => section_of(self@.sections, p) is None,
                },
            },
    {
        let ghost secs = self@.sections;
        let mut i = self.sections.len();
        assert(secs.take(i as int) == secs);
        while i > 0
            invariant
                i <= self.sections.len(),
                secs == self@.sections,
                scan_fits(secs, p) == scan_fits(secs.take(i as int), p),
                section_of(secs, p) == section_of(secs.take(i as int), p),
            decreases i,
        {
            assert(secs.take(i as int).last() == secs[i - 1]);
            assert(secs.take(i as int).drop_last() == secs.take(i - 1));
            let s = self.sections[i - 1];
            if !area_computable(s.latest_bottom.vertex.this, p, s.latest_bottom.vertex.next) {
                return None;
            }
            if lies_above_bottom(s, p) {
                return Some(Some(i - 1));
            }
            i = i - 1;
        }
        Some(None)
    }

    /// Takes the pending merge vertex of `section`, if any, as a diagonal to
    /// the current vertex.
    fn make_diagonal_from_merge_if_present(&mut self, section: usize) -> (d: Option<Diagonal<i64>>)
        requires
            section < old(self)@.sections.len(),
            old(self)@.curr < old(self)@.vertices.len(),
        ensures
            final(self)@.vertices == old(self)@.vertices,
            final(self)@.curr == old(self)@.curr,
            (final(self)@.sections, d) == take_merge(
                old(self)@.sections,
                section as int,
                old(self)@.current(),
            ),
    {
        let mut s = self.sections[section];
        match s.latest_merge {
            Some(middle) => {
                s.latest_merge = None;
                self.sections.set(section, s);
                Some(Diagonal { from: middle, to: self.curr_vertex_with_index() })
            },
            None => None,
        }
    }

    fn curr_vertex_with_index(&self) -> (w: ChainVertexWithIndex<i64>)
        requires
            self@.curr < self@.vertices.len(),
        ensures
            w == self@.current(),
    {
        ChainVertexWithIndex { vertex: self.curr_vertex(), index: self.curr_vertex }
    }

    fn curr_vertex(&self) -> (v: ChainVertex<i64>)
        requires
            self@.curr < self@.vertices.len(),
        ensures
            v == self@.vertices[self@.curr],
    {
        self.vertices[self.curr_vertex.0]
    }
}

/// Whether `p` lies on or above the segment that bounds `s` from below.
fn lies_above_bottom(s: Section<i64>, p: Point<i64>) -> (r: bool)
    requires
        area_fits(s.latest_bottom.vertex.this, p, s.latest_bottom.vertex.next),
    ensures
        r == above_bottom(s, p),
{
    let side = s.latest_bottom.vertex.segment().vertical_cmp_with_point(p);
    match side {
        core::cmp::Ordering::Greater => false,
        _ => true,
    }
}

/// The section found for `p` is the last one above whose bottom `p` lies.
pub proof fn lemma_section_of(secs: Seq<Section<i64>>, p: Point<i64>)
    ensures
        match section_of(secs, p) {
            Some(i) => {
                &&& 0 <= i < secs.len()
                &&& above_bottom(secs[i], p)
                &&& forall|j: int| i < j < secs.len() ==> !above_bottom(#[trigger] secs[j], p)
            },
            None => forall|j: int| 0 <= j < secs.len() ==> !above_bottom(#[trigger] secs[j], p),
        },
    decreases secs.len(),
{
    if secs.len() > 0 && !above_bottom(secs.last(), p) {
        lemma_section_of(secs.drop_last(), p);
        assert forall|j: int| 0 <= j < secs.len() - 1 implies #[trigger] secs[j] == secs.drop_last()[j] by {}
    }
}

/// Sections that refer only to vertices swept before `c` refer only to
/// vertices swept before any later index.
proof fn lemma_sections_swept_mono(vs: Seq<ChainVertex<i64>>, c: int, d: int, secs: Seq<Section<i64>>)
    requires
        sections_swept(vs, c, secs),
        c <= d,
    ensures
        sections_swept(vs, d, secs),
{
    assert forall|i: int| 0 <= i < secs.len() implies section_swept(vs, d, #[trigger] secs[i]) by {
        assert(section_swept(vs, c, secs[i]));
    }
}

/// Every step keeps the sections referring only to vertices already swept.
pub proof fn lemma_step_keeps_wf(s: SweepState)
    requires
        s.wf(),
        s.can_step(),
    ensures
        s.next().wf(),
{
    let vs = s.vertices;
    let c = s.curr;
    let cv = s.current();
    let p = cv.vertex.this;
    let secs = s.sections;
    lemma_section_of(secs, p);
    lemma_sections_swept_mono(vs, c, c + 1, secs);
    assert(swept_before(vs, c + 1, cv));
    let i = section_of(secs, p).unwrap();
    match vertex_type(cv.vertex) {
        ChainVertexType::Start => {
            let pos = match section_of(secs, p) {
                Some(j) => j + 1,
                None => 0,
            };
            let r = secs.insert(pos, fresh_section(cv));
            assert forall|k: int| 0 <= k < r.len() implies section_swept(vs, c + 1, #[trigger] r[k]) by {
                if k < pos {
                    assert(r[k] == secs[k]);
                } else if k > pos {
                    assert(r[k] == secs[k - 1]);
                }
            }
        },
        ChainVertexType::Split => {
            let (s1, d) = take_merge(secs, i, cv);
            assert(sections_swept(vs, c + 1, s1));
            let s2 = s1.update(i, set_latest(s1[i], cv));
            assert(sections_swept(vs, c + 1, s2));
            let r = s2.insert(i + 1, fresh_section(cv));
            assert forall|k: int| 0 <= k < r.len() implies section_swept(vs, c + 1, #[trigger] r[k]) by {
                if k < i + 1 {
                    assert(r[k] == s2[k]);
                } else if k > i + 1 {
                    assert(r[k] == s2[k - 1]);
                }
            }
        },
        ChainVertexType::Regular => {
            let (s1, d) = take_merge(secs, i, cv);
            assert(sections_swept(vs, c + 1, s1));
        },
        ChainVertexType::Merge => {
            let (s1, d1) = take_merge(secs, i, cv);
            assert(sections_swept(vs, c + 1, s1));
            let (s2, d2) = take_merge(s1, i - 1, cv);
            assert(sections_swept(vs, c + 1, s2));
            let s3 = s2.update(
                i - 1,
                Section { latest: cv, latest_merge: Some(cv), latest_bottom: s2[i - 1].latest_bottom },
            );
            assert(sections_swept(vs, c + 1, s3));
            let r = s3.remove(i);
            assert forall|k: int| 0 <= k < r.len() implies section_swept(vs, c + 1, #[trigger] r[k]) by {
                if k < i {
                    assert(r[k] == s3[k]);
                } else {
                    assert(r[k] == s3[k + 1]);
                }
            }
        },
        ChainVertexType::End => {
            let (s1, d) = take_merge(secs, i, cv);
            assert(sections_swept(vs, c + 1, s1));
            let r = s1.remove(i);
            assert forall|k: int| 0 <= k < r.len() implies section_swept(vs, c + 1, #[trigger] r[k]) by {
                if k < i {
                    assert(r[k] == s1[k]);
                } else {
                    assert(r[k] == s1[k + 1]);
                }
            }
        },
    }
}

/// A diagonal joins the vertex being swept to a vertex swept before it.
pub open spec fn joins_earlier(vs: Seq<ChainVertex<i64>>, d: Diagonal<i64>) -> bool {
    &&& 0 <= d.to.index.0 < vs.len()
    &&& d.to == with_index(vs, d.to.index.0 as int)
    &&& swept_before(vs, d.to.index.0 as int, d.from)
}

/// Every diagonal of a step goes from a vertex swept earlier to the vertex
/// the step processes.
pub proof fn lemma_step_diagonals_join_earlier(s: SweepState)
    requires
        s.wf(),
        s.can_step(),
    ensures
        forall|k: int|
            0 <= k < s.step_result().1.len() ==> {
                let d = #[trigger] s.step_result().1[k];
                &&& d.to == s.current()
                &&& swept_before(s.vertices, s.curr, d.from)
            },
{
    let vs = s.vertices;
    let c = s.curr;
    let cv = s.current();
    let secs = s.sections;
    let p = cv.vertex.this;
    lemma_section_of(secs, p);
    let i = section_of(secs, p).unwrap();
    match vertex_type(cv.vertex) {
        ChainVertexType::Start => {},
        ChainVertexType::Split => {
            assert(section_swept(vs, c, secs[i]));
        },
        ChainVertexType::Regular => {
            assert(section_swept(vs, c, secs[i]));
        },
        ChainVertexType::Merge => {
            assert(section_swept(vs, c, secs[i]));
            assert(section_swept(vs, c, secs[i - 1]));
            let (s1, d1) = take_merge(secs, i, cv);
            assert(s1[i - 1] == secs[i - 1]);
        },
        ChainVertexType::End => {
            assert(section_swept(vs, c, secs[i]));
        },
    }
}

/// Every diagonal that a run reports joins two vertices of the sweep, from
/// one swept earlier to a later one.
pub proof fn lemma_run_diagonals_join_earlier(s: SweepState)
    requires
        s.wf(),
        s.run_ok(),
    ensures
        forall|k: int| 0 <= k < s.run_diagonals().len() ==> joins_earlier(s.vertices, #[trigger] s.run_diagonals()[k]),
    decreases s.vertices.len() - s.curr,
{
    if s.curr + 1 < s.vertices.len() {
        lemma_step_keeps_wf(s);
        lemma_step_diagonals_join_earlier(s);
        lemma_run_diagonals_join_earlier(s.next());
        let a = s.step_result().1;
        let b = s.next().run_diagonals();
        assert(s.run_diagonals() == a + b);
        assert forall|k: int| 0 <= k < (a + b).len() implies joins_earlier(s.vertices, #[trigger] (a + b)[k]) by {
            if k < a.len() {
                assert((a + b)[k] == a[k]);
                assert(a[k].to == s.current());
            } else {
                assert((a + b)[k] == b[k - a.len()]);
            }
        }
    }
}

/// A run processes every remaining vertex: it ends with the sweep index at the
/// number of vertices, and with the vertices unchanged.
pub proof fn lemma_run_final_sweeps_all(s: SweepState)
    requires
        s.run_ok(),
    ensures
        s.run_final().curr == s.vertices.len(),
        s.run_final().vertices == s.vertices,
    decreases s.vertices.len() - s.curr,
{
    if 0 <= s.curr && s.curr + 1 < s.vertices.len() {
        lemma_run_final_sweeps_all(s.next());
    }
}

/// A `Start` or `Split` vertex opens one section, a `Merge` or `End` vertex
/// closes one, and a `Regular` vertex keeps their number.
pub proof fn lemma_step_section_count(s: SweepState)
    requires
        s.can_step(),
    ensures
        s.next().sections.len() == s.sections.len() + match vertex_type(s.current().vertex) {
            ChainVertexType::Start | ChainVertexType::Split => 1int,
            ChainVertexType::Regular => 0int,
            ChainVertexType::Merge | ChainVertexType::End => -1int,
        },
{
    lemma_section_of(s.sections, s.current().vertex.this);
}


/// In a sweep over sorted vertices, every diagonal a run reports joins two
/// distinct vertices and points forward in the sweep: its start comes
/// lexicographically no later than its end.
pub proof fn lemma_run_diagonals_go_forward(s: SweepState)
    requires
        s.wf(),
        s.run_ok(),
        sweep_sorted(s.vertices),
    ensures
        forall|k: int|
            0 <= k < s.run_diagonals().len() ==> {
                let d = #[trigger] s.run_diagonals()[k];
                &&& d.from.index.0 < d.to.index.0
                &&& point_le(d.from.vertex.this, d.to.vertex.this)
            },
{
    lemma_run_diagonals_join_earlier(s);
    assert forall|k: int| 0 <= k < s.run_diagonals().len() implies {
        let d = #[trigger] s.run_diagonals()[k];
        &&& d.from.index.0 < d.to.index.0
        &&& point_le(d.from.vertex.this, d.to.vertex.this)
    } by {
        let d = s.run_diagonals()[k];
        assert(joins_earlier(s.vertices, d));
        let i = d.from.index.0 as int;
        let j = d.to.index.0 as int;
        assert(point_le(s.vertices[i].this, s.vertices[j].this));
    }
}


/// The diagonals of a step resolve pending merge vertices. A `Start` vertex
/// adds none. Any other vertex is joined to the merge vertex pending in its
/// section, a `Merge` vertex also to the one pending in the section below,
/// and a `Split` vertex without a pending merge to the latest vertex of its
/// section. No other diagonal is added, and every one ends at the current
/// vertex. After a `Merge` step the merge vertex is itself pending in the
/// joined section; after a `Split`, `Regular` or `End` step no merge vertex is
/// left pending in the section of the current vertex.
pub proof fn lemma_step_resolves_merges(s: SweepState)
    requires
        s.can_step(),
    ensures
        vertex_type(s.current().vertex) == ChainVertexType::Start ==> s.step_result().1.len() == 0,
        vertex_type(s.current().vertex) != ChainVertexType::Start ==> (s.sections[s.current_section()].latest_merge matches Some(
            m,
        ) ==> s.step_result().1.contains(Diagonal { from: m, to: s.current() })),
        vertex_type(s.current().vertex) == ChainVertexType::Merge ==> (s.sections[s.current_section()
            - 1].latest_merge matches Some(m) ==> s.step_result().1.contains(Diagonal { from: m, to: s.current() })),
        vertex_type(s.current().vertex) == ChainVertexType::Split ==> (s.sections[s.current_section()].latest_merge is None
            ==> s.step_result().1.contains(Diagonal { from: s.sections[s.current_section()].latest, to: s.current() })),
        forall|k: int|
            0 <= k < s.step_result().1.len() ==> (#[trigger] s.step_result().1[k]).to == s.current(),
        forall|k: int|
            0 <= k < s.step_result().1.len() ==> {
                ||| s.sections[s.current_section()].latest_merge == Some((#[trigger] s.step_result().1[k]).from)
                ||| (vertex_type(s.current().vertex) == ChainVertexType::Merge && s.sections[s.current_section()
                    - 1].latest_merge == Some(s.step_result().1[k].from))
                ||| (vertex_type(s.current().vertex) == ChainVertexType::Split && s.step_result().1[k].from
                    == s.sections[s.current_section()].latest)
            },
        vertex_type(s.current().vertex) == ChainVertexType::Merge ==> s.step_result().0[s.current_section()
            - 1].latest_merge == Some(s.current()),
        (vertex_type(s.current().vertex) == ChainVertexType::Split || vertex_type(s.current().vertex)
            == ChainVertexType::Regular) ==> s.step_result().0[s.current_section()].latest_merge is None,
{
    let cv = s.current();
    let secs = s.sections;
    let p = cv.vertex.this;
    lemma_section_of(secs, p);
    let i = section_of(secs, p).unwrap();
    let d = s.step_result().1;
    match vertex_type(cv.vertex) {
        ChainVertexType::Start => {},
        ChainVertexType::Split => {
            let (s1, dm) = take_merge(secs, i, cv);
            let diag = match dm {
                Some(x) => x,
                None => Diagonal { from: secs[i].latest, to: cv },
            };
            assert(d == seq![diag]);
            assert(d[0] == diag);
            assert(d.contains(diag));
        },
        ChainVertexType::Regular => {
            if let Some(m) = secs[i].latest_merge {
                assert(d[0] == Diagonal { from: m, to: cv });
                assert(d.contains(Diagonal { from: m, to: cv }));
            }
        },
        ChainVertexType::Merge => {
            let (s1, d1) = take_merge(secs, i, cv);
            let (s2, d2) = take_merge(s1, i - 1, cv);
            assert(s1[i - 1] == secs[i - 1]);
            assert(d == opt_diagonals(d1) + opt_diagonals(d2));
            if d1 is Some {
                assert(d[0] == d1.unwrap());
                assert(d.contains(d1.unwrap()));
            }
            if d2 is Some {
                assert(d[opt_diagonals(d1).len() as int] == d2.unwrap());
                assert(d.contains(d2.unwrap()));
            }
            assert forall|k: int| 0 <= k < d.len() implies {
                &&& (#[trigger] d[k]).to == cv
                &&& {
                    ||| secs[i].latest_merge == Some(d[k].from)
                    ||| (secs[i - 1].latest_merge == Some(d[k].from))
                }
            } by {
                if k < opt_diagonals(d1).len() {
                    assert(d[k] == d1.unwrap());
                } else {
                    assert(d[k] == d2.unwrap());
                }
            }
        },
        ChainVertexType::End => {
            if let Some(m) = secs[i].latest_merge {
                assert(d[0] == Diagonal { from: m, to: cv });
                assert(d.contains(Diagonal { from: m, to: cv }));
            }
        },
    }
}

} // verus!
