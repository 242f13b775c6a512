//! Polygonal complexes: points joined by edges, where each point lists its
//! neighbours counter-clockwise.
//!
//! A slot (circle segment) between two neighbours of a point has two
//! equivalent names: an [`OpenTriangle`] `(next, anchor, neigh)`, or the
//! anchor together with the position of the preceding neighbour `neigh` in the
//! anchor's neighbour list. [`PolygonalComplex::find_next_open_triangle`] and
//! [`PolygonalComplex::resolve_open_triangle`] convert between them.

use vstd::prelude::*;

use stable_vec::StableVec;

verus! {

/// The neighbour lists of the points of a polygonal complex, kept in a
/// `stable_vec::StableVec` whose slot `i` holds the list of point `i` until
/// the point is removed, and whose indices never shift.
#[verifier::external_body]
pub struct PointTable {
    slots: StableVec<Box<[usize]>>,
}

/// The slots of a point table, up to its next push index: `None`
/// for an empty slot, the point's neighbour list for a filled one.
pub uninterp spec fn point_slots(v: PointTable) -> Seq<Option<Seq<usize>>>;

/// The slot at index `i`, or `None` beyond the end.
pub open spec fn slot(slots: Seq<Option<Seq<usize>>>, i: int) -> Option<Seq<usize>> {
    if 0 <= i < slots.len() {
        slots[i]
    } else {
        None
    }
}

/// Whether `n` more points can be pushed without the stable vector's
/// storage exceeding `isize::MAX` bytes: its capacity stays below twice the
/// number of slots, and each slot takes 16 bytes.
pub open spec fn room_for(slots: Seq<Option<Seq<usize>>>, n: int) -> bool {
    slots.len() + n < (isize::MAX as int) / 64
}

/// `StableVec::with_capacity`: an empty stable vector.
#[verifier::external_body]
fn slots_with_capacity(capacity: usize) -> (v: PointTable)
    requires
        capacity <= 2,
    ensures
        point_slots(v) == Seq::<Option<Seq<usize>>>::empty(),
{
    PointTable { slots: StableVec::with_capacity(capacity) }
}

/// `StableVec::next_push_index`: the number of slots, filled or emptied.
#[verifier::external_body]
fn slots_next_push_index(v: &PointTable) -> (r: usize)
    ensures
        r == point_slots(*v).len(),
{
    v.slots.next_push_index()
}

/// `StableVec::push`: appends a point with the given neighbours in the slot at
/// the next push index, and returns that index. (It panics only when the
/// grown storage would exceed `isize::MAX` bytes, which `room_for` rules out:
/// the capacity stays below twice the number of slots. A failed allocation
/// aborts the process, as for any allocation.)
#[verifier::external_body]
fn slots_push(v: &mut PointTable, neighbors: Vec<usize>) -> (r: usize)
    requires
        room_for(point_slots(*old(v)), 1),
    ensures
        point_slots(*final(v)) == point_slots(*old(v)).push(Some(neighbors@)),
        r == point_slots(*old(v)).len(),
{
    v.slots.push(neighbors.into_boxed_slice())
}

/// `StableVec::get`: the neighbours of the point at `i`, if that slot is filled.
#[verifier::external_body]
fn slots_neighbors(v: &PointTable, i: usize) -> (r: Option<Vec<usize>>)
    ensures
        match r {
            Some(n) => slot(point_slots(*v), i as int) == Some(n@),
            None => slot(point_slots(*v), i as int) is None,
        },
{
    match v.slots.get(i) {
        Some(p) => Some(p.to_vec()),
        None => None,
    }
}

/// `StableVec::remove`: empties the slot at `i`, returning the neighbours of
/// the point it held. (It panics for an index at or beyond the capacity,
/// which is at least the number of slots.)
#[verifier::external_body]
fn slots_remove(v: &mut PointTable, i: usize) -> (r: Option<Vec<usize>>)
    requires
        i < point_slots(*old(v)).len(),
    ensures
        point_slots(*final(v)) == point_slots(*old(v)).update(i as int, None),
        match r {
            Some(n) => point_slots(*old(v))[i as int] == Some(n@),
            None => point_slots(*old(v))[i as int] is None,
        },
{
    match v.slots.remove(i) {
        Some(p) => Some(p.to_vec()),
        None => None,
    }
}

/// `IndexMut` of `StableVec`: replaces the neighbours of the point at `i`.
/// (It panics when the slot is empty.)
#[verifier::external_body]
fn slots_set_neighbors(v: &mut PointTable, i: usize, neighbors: Vec<usize>)
    requires
        slot(point_slots(*old(v)), i as int) is Some,
    ensures
        point_slots(*final(v)) == point_slots(*old(v)).update(i as int, Some(neighbors@)),
{
    v.slots[i] = neighbors.into_boxed_slice();
}

/// The position of the first occurrence of `x` in `s`.
pub open spec fn position(s: Seq<usize>, x: usize) -> Option<int>
    decreases s.len(),
{
    if s.len() == 0 {
        None
    } else {
        match position(s.drop_last(), x) {
            Some(i) => Some(i),
            None => if s.last() == x {
                Some(s.len() - 1)
            } else {
                None
            },
        }
    }
}

/// `s` with the element at `p` replaced by the elements of `ins`.
pub open spec fn splice(s: Seq<usize>, p: int, ins: Seq<usize>) -> Seq<usize> {
    s.take(p) + ins + s.skip(p + 1)
}

/// `s` rotated left by `k`: its element at `k` comes first.
pub open spec fn rotate_left(s: Seq<usize>, k: int) -> Seq<usize> {
    s.skip(k) + s.take(k)
}

/// `s` rotated right by `k`: its last `k` elements come first.
pub open spec fn rotate_right(s: Seq<usize>, k: int) -> Seq<usize> {
    s.skip(s.len() - k) + s.take(s.len() - k)
}

/// `s` without consecutive repeated elements (the first of each run stays).
pub open spec fn dedup(s: Seq<usize>) -> Seq<usize>
    decreases s.len(),
{
    if s.len() <= 1 {
        s
    } else if s.last() == s[s.len() - 2] {
        dedup(s.drop_last())
    } else {
        dedup(s.drop_last()).push(s.last())
    }
}

/// The indices `n, n + 1, ..., n + k - 1`.
pub open spec fn fresh_indices(n: int, k: int) -> Seq<usize> {
    Seq::new(k as nat, |i: int| (n + i) as usize)
}

/// The circle segment around point `.1` between its neighbour `.2` and the
/// following neighbour `.0`, counter-clockwise.
#[derive(Clone, Copy, Debug, PartialEq, Eq, Structural)]
pub struct OpenTriangle(pub usize, pub usize, pub usize);

/// The open triangle that follows the edge from `anchor` to `neigh`
/// counter-clockwise: after the last neighbour comes the first one again.
pub open spec fn next_open_triangle(slots: Seq<Option<Seq<usize>>>, anchor: usize, neigh: usize) -> Option<
    OpenTriangle,
> {
    match slot(slots, anchor as int) {
        None => None,
        Some(ns) => match position(ns, neigh) {
            None => None,
            Some(p) => Some(OpenTriangle(ns[(p + 1) % (ns.len() as int)], anchor, neigh)),
        },
    }
}

/// The position of `ot.2` in the neighbour list of `ot.1`, if `ot.0` follows
/// it there (cyclically).
pub open spec fn resolved(slots: Seq<Option<Seq<usize>>>, ot: OpenTriangle) -> Option<usize> {
    match slot(slots, ot.1 as int) {
        None => None,
        Some(ns) => match position(ns, ot.2) {
            None => None,
            Some(p) => if ns[(p + 1) % (ns.len() as int)] == ot.0 {
                Some(p as usize)
            } else {
                None
            },
        },
    }
}

/// The slots after `split_polygon(a, b)`, and its result.
pub open spec fn split_result(slots: Seq<Option<Seq<usize>>>, a: OpenTriangle, b: OpenTriangle) -> (
    Seq<Option<Seq<usize>>>,
    bool,
) {
    match (resolved(slots, a), resolved(slots, b)) {
        (Some(ar), Some(br)) => {
            let na = slots[a.1 as int].unwrap();
            let nb = slots[b.1 as int].unwrap();
            if na.contains(b.1) || nb.contains(a.1) {
                (slots, false)
            } else {
                let s1 = slots.update(a.1 as int, Some(na.insert(ar as int, b.1)));
                let s2 = s1.update(b.1 as int, Some(s1[b.1 as int].unwrap().insert(br as int, a.1)));
                (s2, true)
            }
        },
        _ => (slots, false),
    }
}

/// The ends of the edge `{from, to}` with the smaller index first.
pub open spec fn ordered(from: usize, to: usize) -> (usize, usize) {
    if from > to {
        (to, from)
    } else {
        (from, to)
    }
}

/// The positions of each end of the edge `{f, t}` in the other's neighbour list.
pub open spec fn edge_positions(slots: Seq<Option<Seq<usize>>>, f: usize, t: usize) -> Option<(int, int)> {
    match (slot(slots, f as int), slot(slots, t as int)) {
        (Some(nf), Some(nt)) => match (position(nf, t), position(nt, f)) {
            (Some(pf), Some(pt)) => Some((pf, pt)),
            _ => None,
        },
        _ => None,
    }
}

/// The slots after `subdivide_edge(from, to, new_data)` with `k` new points,
/// and the indices of the new points (`None` when there is no such edge).
pub open spec fn subdivide_result(slots: Seq<Option<Seq<usize>>>, from: usize, to: usize, k: int) -> (
    Seq<Option<Seq<usize>>>,
    Option<Seq<usize>>,
) {
    let (f, t) = ordered(from, to);
    match edge_positions(slots, f, t) {
        None => (slots, None),
        Some((pf, pt)) => {
            let n = slots.len() as int;
            let added = slots + Seq::new(k as nat, |i: int| Some(seq![f, t]));
            let indices = fresh_indices(n, k);
            if k == 0 {
                (added, Some(indices))
            } else {
                let s1 = added.update(f as int, Some(splice(added[f as int].unwrap(), pf, indices)));
                let s2 = s1.update(
                    t as int,
                    Some(splice(s1[t as int].unwrap(), pt, indices.reverse())),
                );
                (s2, Some(indices))
            }
        },
    }
}

/// The neighbours of the point that merges `f` and `t` along their edge:
/// both neighbour lists, each started just after the other end, joined and
/// rotated back, without repeated consecutive neighbours and without closing
/// the list with its first neighbour.
pub open spec fn merged_neighbors(nf: Seq<usize>, nt: Seq<usize>, pf: int, pt: int) -> Seq<usize> {
    let joined = rotate_left(nf, pf).skip(1) + rotate_left(nt, pt).skip(1);
    let d = dedup(rotate_right(joined, pf));
    if d.len() > 1 && d[0] == d.last() {
        d.drop_last()
    } else {
        d
    }
}

/// `ns` with each occurrence of `f` or `t` replaced by `k`.
pub open spec fn redirected(ns: Seq<usize>, f: usize, t: usize, k: usize) -> Seq<usize> {
    ns.map_values(|x: usize| if x == f || x == t { k } else { x })
}

/// A slot whose neighbour list, if any, is `redirected`.
pub open spec fn redirected_slot(o: Option<Seq<usize>>, f: usize, t: usize, k: usize) -> Option<Seq<usize>> {
    match o {
        Some(ns) => Some(redirected(ns, f, t, k)),
        None => None,
    }
}

/// The slots after `merge_along_edge(from, to, ..)`, and the index of the
/// merged point (`None` when the merge fails). On success both points are
/// removed, every other point lists the merged point in their place, and the
/// merged point is appended.
pub open spec fn merge_result(slots: Seq<Option<Seq<usize>>>, from: usize, to: usize) -> (
    Seq<Option<Seq<usize>>>,
    Option<usize>,
) {
    let (f, t) = ordered(from, to);
    match edge_positions(slots, f, t) {
        None => (slots, None),
        Some((pf, pt)) => {
            let nf = slots[f as int].unwrap();
            let s1 = slots.update(f as int, None);
            match s1[t as int] {
                None => (s1, None),
                Some(nt) => {
                    let s2 = s1.update(t as int, None);
                    let k = s2.len() as usize;
                    let s3 = s2.map_values(|o: Option<Seq<usize>>| redirected_slot(o, f, t, k));
                    (s3.push(Some(merged_neighbors(nf, nt, pf, pt))), Some(k))
                },
            }
        },
    }
}

/// A change to a neighbour list.
pub enum NeighborEdit {
    /// Insert `.1` at position `.0`.
    Insert(usize, usize),
    /// Replace the element at position `.0` by the elements of `.1`, in reverse order if `.2`.
    Splice(usize, Vec<usize>, bool),
}

/// A polygonal complex: its points, each with attached data of type `PT` and
/// the indices of its neighbours listed counter-clockwise.
///
/// The neighbour lists live in a stable vector, the data in a vector beside
/// it, slot for slot.
pub struct PolygonalComplex<PT> {
    points: PointTable,
    data: Vec<Option<PT>>,
}

/// The position of the first `x` in `s`.
fn position_of(s: &Vec<usize>, x: usize) -> (r: Option<usize>)
    ensures
        match r {
            Some(i) => position(s@, x) == Some(i as int),
            None => position(s@, x) is None,
        },
{
    let mut i: usize = 0;
    while i < s.len()
        invariant
            i <= s.len(),
            position(s@.take(i as int), x) is None,
        decreases s.len() - i,
    {
        assert(s@.take(i as int + 1).drop_last() == s@.take(i as int));
        if s[i] == x {
            assert(position(s@.take(i as int + 1), x) == Some(i as int));
            proof {
                lemma_position_prefix(s@, i as int + 1, x);
            }
            return Some(i);
        }
        i = i + 1;
    }
    assert(s@.take(s.len() as int) == s@);
    None
}

/// A first occurrence within a prefix is the first occurrence in the whole sequence.
proof fn lemma_position_prefix(s: Seq<usize>, n: int, x: usize)
    requires
        0 <= n <= s.len(),
        position(s.take(n), x) is Some,
    ensures
        position(s, x) == position(s.take(n), x),
    decreases s.len() - n,
{
    if n < s.len() {
        assert(s.take(n + 1).drop_last() == s.take(n));
        lemma_position_prefix(s, n + 1, x);
    } else {
        assert(s.take(n) == s);
    }
}

/// A found position holds `x`, within bounds.
proof fn lemma_position_bounds(s: Seq<usize>, x: usize)
    ensures
        position(s, x) matches Some(i) ==> 0 <= i < s.len() && s[i] == x,
        position(s, x) is None ==> !s.contains(x),
    decreases s.len(),
{
    if s.len() > 0 {
        lemma_position_bounds(s.drop_last(), x);
        if position(s.drop_last(), x) is None && s.last() != x {
            assert forall|j: int| 0 <= j < s.len() implies s[j] != x by {
                if j < s.len() - 1 {
                    assert(s[j] == s.drop_last()[j]);
                }
            }
        }
    }
}

/// Whether `x` occurs in `s`.
fn contains(s: &Vec<usize>, x: usize) -> (r: bool)
    ensures
        r == s@.contains(x),
{
    let mut i: usize = 0;
    while i < s.len()
        invariant
            i <= s.len(),
            forall|j: int| 0 <= j < i ==> s@[j] != x,
        decreases s.len() - i,
    {
        if s[i] == x {
            return true;
        }
        i = i + 1;
    }
    false
}

/// `s` rotated left by `k`.
fn rotated_left(s: &Vec<usize>, k: usize) -> (r: Vec<usize>)
    requires
        k <= s.len(),
    ensures
        r@ == rotate_left(s@, k as int),
{
    let mut r: Vec<usize> = Vec::new();
    let mut i = k;
    while i < s.len()
        invariant
            k <= i <= s.len(),
            r@ == s@.subrange(k as int, i as int),
        decreases s.len() - i,
    {
        r.push(s[i]);
        i = i + 1;
    }
    let mut j: usize = 0;
    while j < k
        invariant
            j <= k <= s.len(),
            r@ == s@.skip(k as int) + s@.take(j as int),
        decreases k - j,
    {
        r.push(s[j]);
        assert(s@.take(j as int + 1) == s@.take(j as int).push(s@[j as int]));
        j = j + 1;
    }
    r
}

/// `ns` with each occurrence of `f` or `t` replaced by `k`.
fn redirect_list(ns: &Vec<usize>, f: usize, t: usize, k: usize) -> (r: Vec<usize>)
    ensures
        r@ == redirected(ns@, f, t, k),
{
    let mut r: Vec<usize> = Vec::new();
    let mut i: usize = 0;
    while i < ns.len()
        invariant
            i <= ns.len(),
            r@ == redirected(ns@.take(i as int), f, t, k),
        decreases ns.len() - i,
    {
        let x = ns[i];
        r.push(if x == f || x == t { k } else { x });
        assert(ns@.take(i as int + 1) == ns@.take(i as int).push(x));
        i = i + 1;
    }
    assert(ns@.take(ns.len() as int) == ns@);
    r
}

/// `s` without consecutive repeated elements.
fn deduped(s: &Vec<usize>) -> (r: Vec<usize>)
    ensures
        r@ == dedup(s@),
{
    let mut r: Vec<usize> = Vec::new();
    let mut i: usize = 0;
    while i < s.len()
        invariant
            i <= s.len(),
            r@ == dedup(s@.take(i as int)),
        decreases s.len() - i,
    {
        assert(s@.take(i as int + 1).drop_last() == s@.take(i as int));
        if i == 0 || s[i] != s[i - 1] {
            r.push(s[i]);
        }
        i = i + 1;
    }
    assert(s@.take(s.len() as int) == s@);
    r
}

/// Applies `edit` to the neighbour list of the point at `index`.
fn edit_point_neighs(points: &mut PointTable, index: usize, edit: NeighborEdit)
    requires
        slot(point_slots(*old(points)), index as int) is Some,
        match edit {
            NeighborEdit::Insert(p, _) => p <= slot(point_slots(*old(points)), index as int).unwrap().len(),
            NeighborEdit::Splice(p, _, _) => p < slot(point_slots(*old(points)), index as int).unwrap().len(),
        },
    ensures
        lists_fit(point_slots(*old(points))) ==> lists_fit(point_slots(*final(points))),
        point_slots(*final(points)) == point_slots(*old(points)).update(
            index as int,
            Some(
                match edit {
                    NeighborEdit::Insert(p, x) => slot(point_slots(*old(points)), index as int).unwrap().insert(
                        p as int,
                        x,
                    ),
                    NeighborEdit::Splice(p, ins, rev) => splice(
                        slot(point_slots(*old(points)), index as int).unwrap(),
                        p as int,
                        if rev {
                            ins@.reverse()
                        } else {
                            ins@
                        },
                    ),
                },
            ),
        ),
{
    let mut tmp = slots_neighbors(points, index).unwrap();
    match edit {
        NeighborEdit::Insert(p, x) => {
            tmp.insert(p, x);
        },
        NeighborEdit::Splice(p, ins, rev) => {
            let ghost old_tmp = tmp@;
            let mut out: Vec<usize> = Vec::new();
            let mut i: usize = 0;
            while i < p
                invariant
                    i <= p < tmp.len(),
                    tmp@ == old_tmp,
                    out@ == old_tmp.take(i as int),
                decreases p - i,
            {
                out.push(tmp[i]);
                assert(old_tmp.take(i as int + 1) == old_tmp.take(i as int).push(old_tmp[i as int]));
                i = i + 1;
            }
            let ghost inserted = if rev {
                ins@.reverse()
            } else {
                ins@
            };
            let mut j: usize = 0;
            while j < ins.len()
                invariant
                    j <= ins.len(),
                    inserted == (if rev {
                        ins@.reverse()
                    } else {
                        ins@
                    }),
                    out@ == old_tmp.take(p as int) + inserted.take(j as int),
                decreases ins.len() - j,
            {
                let v = if rev {
                    ins[ins.len() - 1 - j]
                } else {
                    ins[j]
                };
                assert(inserted.take(j as int + 1) == inserted.take(j as int).push(inserted[j as int]));
                out.push(v);
                j = j + 1;
            }
            assert(inserted.take(ins.len() as int) == inserted);
            let mut k = p + 1;
            while k < tmp.len()
                invariant
                    p < k <= tmp.len(),
                    tmp@ == old_tmp,
                    out@ == old_tmp.take(p as int) + inserted + old_tmp.subrange(p + 1, k as int),
                decreases tmp.len() - k,
            {
                out.push(tmp[k]);
                k = k + 1;
            }
            tmp = out;
        },
    }
    let ghost before = point_slots(*points);
    let _len = tmp.len();
    slots_set_neighbors(points, index, tmp);
    proof {
        if lists_fit(before) {
            assert forall|i: int| 0 <= i < point_slots(*points).len() implies (#[trigger] point_slots(
                *points,
            )[i] matches Some(ns) ==> ns.len() <= usize::MAX) by {
                if i != index {
                    assert(point_slots(*points)[i] == before[i]);
                }
            }
        }
    }
}

impl<PT> PolygonalComplex<PT> {
    /// The slots of the complex: for each point index up to the next free one,
    /// `None` if the point was removed, else its neighbour list.
    pub closed spec fn slots(&self) -> Seq<Option<Seq<usize>>> {
        point_slots(self.points)
    }

    /// The data of the points, slot for slot: `None` where the point was removed.
    pub closed spec fn data(&self) -> Seq<Option<PT>> {
        self.data@
    }

    /// The data and the neighbour lists cover the same slots, and every
    /// neighbour list has a length that a `usize` holds.
    pub closed spec fn wf(&self) -> bool {
        &&& lists_fit(point_slots(self.points))
        &&& self.data@.len() == point_slots(self.points).len()
        &&& forall|i: int|
            0 <= i < self.data@.len() ==> (#[trigger] self.data@[i] is Some <==> point_slots(
                self.points,
            )[i] is Some)
    }

    /// A polygonal complex of two points joined by an edge.
    pub fn new(a: PT, b: PT) -> (c: Self)
        ensures
            c.wf(),
            c.slots() == seq![Some(seq![1usize]), Some(seq![0usize])],
            c.data() == seq![Some(a), Some(b)],
    {
        let mut points = slots_with_capacity(2);
        let mut n0: Vec<usize> = Vec::new();
        n0.push(1);
        let mut n1: Vec<usize> = Vec::new();
        n1.push(0);
        slots_push(&mut points, n0);
        slots_push(&mut points, n1);
        let mut data: Vec<Option<PT>> = Vec::new();
        data.push(Some(a));
        data.push(Some(b));
        Self { points, data }
    }

    /// The number of point slots, filled or emptied: the index the next new
    /// point gets.
    pub fn point_count(&self) -> (n: usize)
        ensures
            n == self.slots().len(),
    {
        slots_next_push_index(&self.points)
    }

    /// The neighbours of point `index`, listed counter-clockwise, if the point exists.
    pub fn neighbors(&self, index: usize) -> (r: Option<Vec<usize>>)
        ensures
            match r {
                Some(n) => slot(self.slots(), index as int) == Some(n@),
                None => slot(self.slots(), index as int) is None,
            },
    {
        slots_neighbors(&self.points, index)
    }

    /// The points of the complex, slot by slot: for a present point its data
    /// and its neighbours listed counter-clockwise, `None` for a removed one.
    pub fn points(&self) -> (r: Vec<Option<(&PT, Vec<usize>)>>)
        requires
            self.wf(),
        ensures
            r.len() == self.slots().len(),
            forall|i: int|
                0 <= i < r.len() ==> match #[trigger] r[i] {
                    Some((d, ns)) => self.slots()[i] == Some(ns@) && self.data()[i] == Some(*d),
                    None => self.slots()[i] is None,
                },
    {
        let n = slots_next_push_index(&self.points);
        let mut r: Vec<Option<(&PT, Vec<usize>)>> = Vec::new();
        let mut i: usize = 0;
        while i < n
            invariant
                self.wf(),
                n == self.slots().len(),
                i <= n,
                r.len() == i,
                forall|j: int|
                    0 <= j < i ==> match #[trigger] r[j] {
                        Some((d, ns)) => self.slots()[j] == Some(ns@) && self.data()[j] == Some(*d),
                        None => self.slots()[j] is None,
                    },
            decreases n - i,
        {
            match slots_neighbors(&self.points, i) {
                Some(ns) => {
                    match &self.data[i] {
                        Some(d) => r.push(Some((d, ns))),
                        None => r.push(None),
                    }
                },
                None => r.push(None),
            }
            i = i + 1;
        }
        r
    }

    /// The data attached to point `index`, if the point exists.
    pub fn point_data(&self, index: usize) -> (r: Option<&PT>)
        ensures
            match r {
                Some(d) => index < self.data().len() && self.data()[index as int] == Some(*d),
                None => index >= self.data().len() || self.data()[index as int] is None,
            },
    {
        if index < self.data.len() {
            match &self.data[index] {
                Some(d) => Some(d),
                None => None,
            }
        } else {
            None
        }
    }

    /// Given an `anchor` point, the open triangle that follows the edge to its
    /// neighbour `neigh` counter-clockwise.
    pub fn find_next_open_triangle(&self, anchor: usize, neigh: usize) -> (r: Option<OpenTriangle>)
        ensures
            r == next_open_triangle(self.slots(), anchor, neigh),
    {
        let ptneighs = match slots_neighbors(&self.points, anchor) {
            Some(n) => n,
            None => return None,
        };
        proof {
            lemma_position_bounds(ptneighs@, neigh);
        }
        let p = match position_of(&ptneighs, neigh) {
            Some(p) => p,
            None => return None,
        };
        let next = if p == ptneighs.len() - 1 {
            proof {
                vstd::arithmetic::div_mod::lemma_mod_self_0(ptneighs.len() as int);
            }
            ptneighs[0]
        } else {
            proof {
                vstd::arithmetic::div_mod::lemma_small_mod((p + 1) as nat, ptneighs.len() as nat);
            }
            ptneighs[p + 1]
        };
        Some(OpenTriangle(next, anchor, neigh))
    }

    /// The position of `ot.2` in the neighbour list of `ot.1`, if `ot.0`
    /// follows it there.
    pub fn resolve_open_triangle(&self, ot: &OpenTriangle) -> (r: Option<usize>)
        ensures
            r == resolved(self.slots(), *ot),
    {
        let ptneighs = match slots_neighbors(&self.points, ot.1) {
            Some(n) => n,
            None => return None,
        };
        proof {
            lemma_position_bounds(ptneighs@, ot.2);
        }
        let pos2 = match position_of(&ptneighs, ot.2) {
            Some(p) => p,
            None => return None,
        };
        if ptneighs[(pos2 + 1) % ptneighs.len()] == ot.0 {
            Some(pos2)
        } else {
            None
        }
    }

    /// Creates an edge between `a.1` and `b.1`, inserted into the circle
    /// segments `a` and `b`. Returns `false`, changing nothing, if `a` or `b`
    /// does not name a circle segment of the complex or the edge already exists.
    pub fn split_polygon(&mut self, a: &OpenTriangle, b: &OpenTriangle) -> (r: bool)
        requires
            old(self).wf(),
        ensures
            final(self).wf(),
            (final(self).slots(), r) == split_result(old(self).slots(), *a, *b),
            final(self).data() == old(self).data(),
    {
        let a_res = match self.resolve_open_triangle(a) {
            Some(r) => r,
            None => return false,
        };
        let b_res = match self.resolve_open_triangle(b) {
            Some(r) => r,
            None => return false,
        };
        let na = slots_neighbors(&self.points, a.1).unwrap();
        let nb = slots_neighbors(&self.points, b.1).unwrap();
        proof {
            lemma_position_bounds(na@, a.2);
            lemma_position_bounds(nb@, b.2);
        }
        if contains(&na, b.1) || contains(&nb, a.1) {
            return false;
        }
        edit_point_neighs(&mut self.points, a.1, NeighborEdit::Insert(a_res, b.1));
        edit_point_neighs(&mut self.points, b.1, NeighborEdit::Insert(b_res, a.1));
        true
    }

    /// Subdivides the edge between `from` and `to` by one new point per element
    /// of `new_data`, placed along the edge in order from the lower to the
    /// higher index of the two and carrying that element. Returns the indices
    /// of the new points, or `new_data` back, changing nothing, if there is no
    /// such edge.
    pub fn subdivide_edge(&mut self, from: usize, to: usize, new_data: Vec<PT>) -> (r: Result<
        Vec<usize>,
        Vec<PT>,
    >)
        requires
            old(self).wf(),
            room_for(old(self).slots(), new_data.len() as int),
        ensures
            final(self).wf(),
            match r {
                Ok(indices) => {
                    &&& subdivide_result(old(self).slots(), from, to, new_data.len() as int) == (
                        final(self).slots(),
                        Some(indices@),
                    )
                    &&& final(self).data() == old(self).data() + new_data@.map_values(
                        |d: PT| Some(d),
                    )
                },
                Err(d) => {
                    &&& subdivide_result(old(self).slots(), from, to, new_data.len() as int).1 is None
                    &&& final(self).slots() == old(self).slots()
                    &&& final(self).data() == old(self).data()
                    &&& d == new_data
                },
            },
    {
        let ghost old_slots = self.slots();
        let ghost old_data = self.data@;
        let ghost nd = new_data@;
        let (f, t) = if from > to {
            (to, from)
        } else {
            (from, to)
        };
        let nf = match slots_neighbors(&self.points, f) {
            Some(n) => n,
            None => return Err(new_data),
        };
        let nt = match slots_neighbors(&self.points, t) {
            Some(n) => n,
            None => return Err(new_data),
        };
        proof {
            lemma_position_bounds(nf@, t);
            lemma_position_bounds(nt@, f);
        }
        let pos_in_from = match position_of(&nf, t) {
            Some(p) => p,
            None => return Err(new_data),
        };
        let pos_in_to = match position_of(&nt, f) {
            Some(p) => p,
            None => return Err(new_data),
        };
        let n = slots_next_push_index(&self.points);
        let count = new_data.len();
        let mut rest = new_data;
        let mut new_indices: Vec<usize> = Vec::new();
        let mut reversed_copy: Vec<usize> = Vec::new();
        let mut i: usize = 0;
        while i < count
            invariant
                i <= count == nd.len(),
                n == old_slots.len(),
                old_data.len() == old_slots.len(),
                forall|j: int|
                    0 <= j < old_data.len() ==> (#[trigger] old_data[j] is Some <==> old_slots[j] is Some),
                room_for(old_slots, count as int),
                lists_fit(old_slots),
                lists_fit(self.slots()),
                self.slots() == old_slots + Seq::new(i as nat, |j: int| Some(seq![f, t])),
                self.data@ == old_data + nd.take(i as int).map_values(|d: PT| Some(d)),
                rest@ == nd.skip(i as int),
                new_indices@ == fresh_indices(n as int, i as int),
                reversed_copy@ == new_indices@,
            decreases count - i,
        {
            let mut neighs: Vec<usize> = Vec::new();
            neighs.push(f);
            neighs.push(t);
            assert(neighs@ == seq![f, t]);
            let idx = slots_push(&mut self.points, neighs);
            let d = rest.remove(0);
            self.data.push(Some(d));
            new_indices.push(idx);
            reversed_copy.push(idx);
            proof {
                assert(old_slots + Seq::new(i as nat + 1, |j: int| Some(seq![f, t])) == (old_slots
                    + Seq::new(i as nat, |j: int| Some(seq![f, t]))).push(Some(seq![f, t])));
                assert(nd.take(i as int + 1) == nd.take(i as int).push(nd[i as int]));
                assert(nd.take(i as int + 1).map_values(|d: PT| Some(d)) == nd.take(i as int).map_values(
                    |d: PT| Some(d),
                ).push(Some(nd[i as int])));
                assert(rest@ == nd.skip(i as int + 1));
                assert(fresh_indices(n as int, i as int + 1) == fresh_indices(n as int, i as int).push(
                    idx,
                ));
            }
            i = i + 1;
        }
        assert(nd.take(count as int) == nd);
        let ghost added = self.slots();
        assert(added[f as int] == old_slots[f as int]);
        assert(added[t as int] == old_slots[t as int]);
        if new_indices.len() > 0 {
            edit_point_neighs(&mut self.points, f, NeighborEdit::Splice(pos_in_from, reversed_copy, false));
            let mut second: Vec<usize> = Vec::new();
            let mut j: usize = 0;
            while j < new_indices.len()
                invariant
                    j <= new_indices.len(),
                    second@ == new_indices@.take(j as int),
                decreases new_indices.len() - j,
            {
                second.push(new_indices[j]);
                assert(new_indices@.take(j as int + 1) == new_indices@.take(j as int).push(new_indices@[j as int]));
                j = j + 1;
            }
            assert(new_indices@.take(new_indices.len() as int) == new_indices@);
            edit_point_neighs(&mut self.points, t, NeighborEdit::Splice(pos_in_to, second, true));
        }
        proof {
            assert forall|j: int| 0 <= j < self.data@.len() implies (#[trigger] self.data@[j] is Some
                <==> point_slots(self.points)[j] is Some) by {
                if j >= old_data.len() {
                    assert(self.data@[j] == Some(nd[j - old_data.len()]));
                }
            }
        }
        Ok(new_indices)
    }

    /// Merges the points `from` and `to` along their edge into a new point
    /// with the data `make_new_data` gives for theirs. Returns the index of
    /// the new point and the data of `from` and `to`, or `None` if there is no
    /// such edge.
    ///
    /// The two points are removed and the new point gets the neighbours of
    /// both; every other point lists the new point wherever it listed one of
    /// the two.
    #[verifier::spinoff_prover]
    #[verifier::rlimit(60)]
    pub fn merge_along_edge<F: FnOnce(&PT, &PT) -> PT>(&mut self, from: usize, to: usize, make_new_data: F) -> (r: Option<(usize, [PT; 2])>)
        requires
            old(self).wf(),
            room_for(old(self).slots(), 1),
            from < old(self).data().len() && to < old(self).data().len() && old(self).data()[from as int] is Some
                && old(self).data()[to as int] is Some ==> call_requires(
                make_new_data,
                (&old(self).data()[from as int].unwrap(), &old(self).data()[to as int].unwrap()),
            ),
        ensures
            final(self).wf(),
            (final(self).slots(), match r {
                Some((i, _)) => Some(i),
                None => None,
            }) == merge_result(old(self).slots(), from, to),
            r matches Some((k, _)) ==> final(self).slots()[k as int] matches Some(ns) && no_adjacent_repeats(ns),
            r is Some && edges_consistent(old(self).slots()) && (slot(old(self).slots(), from as int) matches Some(
                ns,
            ) && ns.no_duplicates()) && (slot(old(self).slots(), to as int) matches Some(ns)
                && ns.no_duplicates()) ==> edges_consistent(final(self).slots()),
            forall|i: int|
                0 <= i < old(self).data().len() ==> #[trigger] final(self).data()[i] == if final(self).slots()[i] is Some {
                    old(self).data()[i]
                } else {
                    None
                },
            r is None ==> final(self).data().len() == old(self).data().len(),
            r matches Some((_, pair)) ==> {
                &&& old(self).data()[from as int] == Some(pair[0])
                &&& old(self).data()[to as int] == Some(pair[1])
                &&& final(self).data().len() == old(self).data().len() + 1
                &&& final(self).data().last() matches Some(nd) && call_ensures(
                    make_new_data,
                    (&pair[0], &pair[1]),
                    nd,
                )
            },
    {
        let ghost old_slots = self.slots();
        let ghost old_data = self.data@;
        let (f, t) = if from > to {
            (to, from)
        } else {
            (from, to)
        };
        let probe_f = match slots_neighbors(&self.points, f) {
            Some(n) => n,
            None => return None,
        };
        let probe_t = match slots_neighbors(&self.points, t) {
            Some(n) => n,
            None => return None,
        };
        proof {
            lemma_position_bounds(probe_f@, t);
            lemma_position_bounds(probe_t@, f);
        }
        let pos_in_from = match position_of(&probe_f, t) {
            Some(p) => p,
            None => return None,
        };
        let pos_in_to = match position_of(&probe_t, f) {
            Some(p) => p,
            None => return None,
        };
        let neighs_from = match slots_remove(&mut self.points, f) {
            Some(n) => n,
            None => return None,
        };
        let mut taken_f: Option<PT> = None;
        std::mem::swap(&mut self.data[f], &mut taken_f);
        let neighs_from = rotated_left(&neighs_from, pos_in_from);
        let neighs_to = match slots_remove(&mut self.points, t) {
            Some(n) => n,
            None => return None,
        };
        let mut taken_t: Option<PT> = None;
        std::mem::swap(&mut self.data[t], &mut taken_t);
        let neighs_to = rotated_left(&neighs_to, pos_in_to);
        let mut joined: Vec<usize> = Vec::new();
        let mut i: usize = 1;
        while i < neighs_from.len()
            invariant
                1 <= i <= neighs_from.len(),
                joined@ == neighs_from@.subrange(1, i as int),
            decreases neighs_from.len() - i,
        {
            joined.push(neighs_from[i]);
            i = i + 1;
        }
        let mut j: usize = 1;
        while j < neighs_to.len()
            invariant
                1 <= j <= neighs_to.len(),
                i == neighs_from.len(),
                joined@ == neighs_from@.skip(1) + neighs_to@.subrange(1, j as int),
            decreases neighs_to.len() - j,
        {
            joined.push(neighs_to[j]);
            j = j + 1;
        }
        let rotated = rotated_left(&joined, joined.len() - pos_in_from);
        let mut new_neighs = deduped(&rotated);
        if new_neighs.len() > 1 && new_neighs[0] == new_neighs[new_neighs.len() - 1] {
            new_neighs.pop();
        }
        let data_f = taken_f.unwrap();
        let data_t = taken_t.unwrap();
        let (data_from, data_to) = if from > to {
            (data_t, data_f)
        } else {
            (data_f, data_t)
        };
        let new_data = make_new_data(&data_from, &data_to);
        let k = slots_next_push_index(&self.points);
        let ghost s2 = self.slots();
        let ghost d2 = self.data@;
        let mut i: usize = 0;
        while i < k
            invariant
                k == s2.len(),
                i <= k,
                d2.len() == s2.len(),
                self.data@ == d2,
                forall|j: int| 0 <= j < d2.len() ==> (#[trigger] d2[j] is Some <==> s2[j] is Some),
                lists_fit(s2),
                self.slots().len() == s2.len(),
                forall|j: int|
                    0 <= j < s2.len() ==> #[trigger] self.slots()[j] == if j < i {
                        redirected_slot(s2[j], f, t, k)
                    } else {
                        s2[j]
                    },
            decreases k - i,
        {
            match slots_neighbors(&self.points, i) {
                Some(ns) => {
                    let mapped = redirect_list(&ns, f, t, k);
                    slots_set_neighbors(&mut self.points, i, mapped);
                },
                None => {},
            }
            i = i + 1;
        }
        assert(self.slots() == s2.map_values(|o: Option<Seq<usize>>| redirected_slot(o, f, t, k)));
        let new_index = slots_push(&mut self.points, new_neighs);
        self.data.push(Some(new_data));
        proof {
            lemma_merged_neighbors_no_adjacent_repeats(probe_f@, probe_t@, pos_in_from as int, pos_in_to as int);
            if edges_consistent(old_slots) && (slot(old_slots, from as int) matches Some(ns)
                && ns.no_duplicates()) && (slot(old_slots, to as int) matches Some(ns) && ns.no_duplicates()) {
                lemma_merge_keeps_edges_consistent(old_slots, from, to);
            }
        }
        Some((new_index, [data_from, data_to]))
    }
}

/// In a well-formed complex a point has data exactly when it is present, and
/// every neighbour list has a length that a `usize` holds.
pub proof fn lemma_data_matches_slots<PT>(c: &PolygonalComplex<PT>)
    requires
        c.wf(),
    ensures
        lists_fit(c.slots()),
        c.data().len() == c.slots().len(),
        forall|i: int| 0 <= i < c.slots().len() ==> (#[trigger] c.data()[i] is Some <==> c.slots()[i] is Some),
{
}

/// Whether every neighbour list of the slots has a length that a `usize` holds,
/// as those of a point table do.
pub open spec fn lists_fit(slots: Seq<Option<Seq<usize>>>) -> bool {
    forall|i: int| 0 <= i < slots.len() ==> (#[trigger] slots[i] matches Some(ns) ==> ns.len() <= usize::MAX)
}

/// Converting the open triangle that follows the edge from `anchor` to
/// `neigh` back gives the position of `neigh` among the neighbours of `anchor`.
pub proof fn lemma_open_triangle_round_trip(slots: Seq<Option<Seq<usize>>>, anchor: usize, neigh: usize)
    requires
        lists_fit(slots),
    ensures
        next_open_triangle(slots, anchor, neigh) matches Some(ot) ==> resolved(slots, ot) matches Some(
            p,
        ) && position(slot(slots, anchor as int).unwrap(), neigh) == Some(p as int),
{
    if let Some(ns) = slot(slots, anchor as int) {
        lemma_position_bounds(ns, neigh);
    }
}

/// Conversely, an open triangle that resolves to a position is the open
/// triangle following the edge to its `.2`.
pub proof fn lemma_resolved_open_triangle_is_found(slots: Seq<Option<Seq<usize>>>, ot: OpenTriangle)
    requires
        resolved(slots, ot) is Some,
    ensures
        next_open_triangle(slots, ot.1, ot.2) == Some(ot),
{
}

/// A successful `split_polygon(a, b)` joins `a.1` and `b.1` in both directions
/// and leaves every other point as it was.
pub proof fn lemma_split_joins_both_ends(slots: Seq<Option<Seq<usize>>>, a: OpenTriangle, b: OpenTriangle)
    requires
        split_result(slots, a, b).1,
    ensures
        split_result(slots, a, b).0[a.1 as int] matches Some(na) && na.contains(b.1),
        split_result(slots, a, b).0[b.1 as int] matches Some(nb) && nb.contains(a.1),
        split_result(slots, a, b).0.len() == slots.len(),
        forall|i: int|
            0 <= i < slots.len() && i != a.1 && i != b.1 ==> #[trigger] split_result(slots, a, b).0[i]
                == slots[i],
{
    let ar = resolved(slots, a).unwrap();
    let br = resolved(slots, b).unwrap();
    let na = slots[a.1 as int].unwrap();
    lemma_position_bounds(na, a.2);
    lemma_position_bounds(slots[b.1 as int].unwrap(), b.2);
    let s1 = slots.update(a.1 as int, Some(na.insert(ar as int, b.1)));
    let nb1 = s1[b.1 as int].unwrap();
    assert(na.insert(ar as int, b.1)[ar as int] == b.1);
    assert(nb1.insert(br as int, a.1)[br as int] == a.1);
    if a.1 == b.1 {
        let n2 = nb1.insert(br as int, a.1);
        if br <= ar {
            assert(n2[ar + 1] == b.1);
        } else {
            assert(n2[ar as int] == b.1);
        }
    }
}

/// A successful `merge_along_edge(from, to, ..)` empties the slots of both
/// points, appends the merged point, and makes every other point list the
/// merged point where it listed either of the two.
pub proof fn lemma_merge_replaces_both_ends(slots: Seq<Option<Seq<usize>>>, from: usize, to: usize)
    requires
        merge_result(slots, from, to).1 is Some,
    ensures
        merge_result(slots, from, to).1 == Some(slots.len() as usize),
        merge_result(slots, from, to).0.len() == slots.len() + 1,
        merge_result(slots, from, to).0[from as int] is None,
        merge_result(slots, from, to).0[to as int] is None,
        merge_result(slots, from, to).0[slots.len() as int] is Some,
        forall|i: int|
            0 <= i < slots.len() && i != from && i != to ==> #[trigger] merge_result(slots, from, to).0[i]
                == redirected_slot(slots[i], from, to, slots.len() as usize),
{
}

/// A successful `subdivide_edge` appends one point per datum, each joined to
/// both ends of the edge, and leaves the points other than the two ends as
/// they were.
pub proof fn lemma_subdivide_appends_joined_points(slots: Seq<Option<Seq<usize>>>, from: usize, to: usize, k: int)
    requires
        k >= 0,
        subdivide_result(slots, from, to, k).1 is Some,
    ensures
        subdivide_result(slots, from, to, k).0.len() == slots.len() + k,
        subdivide_result(slots, from, to, k).1 == Some(fresh_indices(slots.len() as int, k)),
        forall|i: int|
            0 <= i < k ==> #[trigger] subdivide_result(slots, from, to, k).0[slots.len() + i] == Some(
                seq![ordered(from, to).0, ordered(from, to).1],
            ),
        forall|i: int|
            0 <= i < slots.len() && i != from && i != to ==> #[trigger] subdivide_result(
                slots,
                from,
                to,
                k,
            ).0[i] == slots[i],
{
}


/// Whether point `i` is present and lists `j` as a neighbour.
pub open spec fn lists(slots: Seq<Option<Seq<usize>>>, i: usize, j: usize) -> bool {
    slot(slots, i as int) matches Some(ns) && ns.contains(j)
}

/// Whether every edge is recorded at both ends: a point never lists itself,
/// and every point it lists is present and lists it back.
pub open spec fn edges_consistent(slots: Seq<Option<Seq<usize>>>) -> bool {
    forall|i: usize, j: usize| #[trigger] lists(slots, i, j) ==> i != j && lists(slots, j, i)
}

/// A rotation keeps the elements; dropping the first element of the rotation
/// that starts at the only occurrence of `s[p]` leaves the other elements.
proof fn lemma_rotated_rest(s: Seq<usize>, p: int)
    requires
        0 <= p < s.len(),
        s.no_duplicates(),
    ensures
        forall|x: usize| #[trigger] rotate_left(s, p).skip(1).contains(x) <==> (s.contains(x) && x != s[p]),
{
    let r = rotate_left(s, p).skip(1);
    assert(r =~= s.skip(p + 1) + s.take(p));
    assert forall|x: usize| #[trigger] r.contains(x) <==> (s.contains(x) && x != s[p]) by {
        if r.contains(x) {
            let i = choose|i: int| 0 <= i < r.len() && r[i] == x;
            if i < s.len() - p - 1 {
                assert(s[p + 1 + i] == x);
            } else {
                assert(s[i - (s.len() - p - 1)] == x);
            }
        }
        if s.contains(x) && x != s[p] {
            let i = choose|i: int| 0 <= i < s.len() && s[i] == x;
            if i > p {
                assert(r[i - p - 1] == x);
            } else {
                assert(i != p);
                assert(r[s.len() - p - 1 + i] == x);
            }
        }
    }
}

/// A rotation to the right keeps the elements.
proof fn lemma_rotate_right_contains(s: Seq<usize>, k: int)
    requires
        0 <= k <= s.len(),
    ensures
        forall|x: usize| #[trigger] rotate_right(s, k).contains(x) <==> s.contains(x),
{
    let r = rotate_right(s, k);
    let c = s.len() - k;
    assert forall|x: usize| #[trigger] r.contains(x) <==> s.contains(x) by {
        if r.contains(x) {
            let i = choose|i: int| 0 <= i < r.len() && r[i] == x;
            if i < k {
                assert(s[c + i] == x);
            } else {
                assert(s[i - k] == x);
            }
        }
        if s.contains(x) {
            let i = choose|i: int| 0 <= i < s.len() && s[i] == x;
            if i >= c {
                assert(r[i - c] == x);
            } else {
                assert(r[k + i] == x);
            }
        }
    }
}

/// Dropping consecutive repeats keeps the elements.
proof fn lemma_dedup_contains(s: Seq<usize>)
    ensures
        forall|x: usize| #[trigger] dedup(s).contains(x) <==> s.contains(x),
    decreases s.len(),
{
    if s.len() > 1 {
        let d = s.drop_last();
        lemma_dedup_contains(d);
        let same = s.last() == s[s.len() - 2];
        assert forall|x: usize| #[trigger] dedup(s).contains(x) <==> s.contains(x) by {
            if s.contains(x) {
                let i = choose|i: int| 0 <= i < s.len() && s[i] == x;
                if i < s.len() - 1 || same {
                    let u = if i < s.len() - 1 { i } else { s.len() - 2 };
                    assert(d[u] == x);
                    assert(dedup(d).contains(x));
                    if !same {
                        let w = choose|w: int| 0 <= w < dedup(d).len() && dedup(d)[w] == x;
                        assert(dedup(d).push(s.last())[w] == x);
                    }
                } else {
                    assert(dedup(d).push(s.last())[dedup(d).len() as int] == x);
                }
            }
            if dedup(s).contains(x) {
                let r = dedup(s);
                let i = choose|i: int| 0 <= i < r.len() && r[i] == x;
                if same || i < dedup(d).len() {
                    assert(dedup(d)[i] == x);
                    assert(dedup(d).contains(x));
                    assert(d.contains(x));
                    let u = choose|u: int| 0 <= u < d.len() && d[u] == x;
                    assert(s[u] == x);
                } else {
                    assert(s[s.len() - 1] == x);
                }
            }
        }
    }
}

/// The merged point lists exactly the neighbours of the two merged points
/// other than the two themselves, when their lists hold no repeats.
pub proof fn lemma_merged_neighbors_contains(nf: Seq<usize>, nt: Seq<usize>, pf: int, pt: int)
    requires
        0 <= pf < nf.len(),
        0 <= pt < nt.len(),
        nf.no_duplicates(),
        nt.no_duplicates(),
    ensures
        forall|x: usize| #[trigger] merged_neighbors(nf, nt, pf, pt).contains(x) <==> ((nf.contains(x) && x
            != nf[pf]) || (nt.contains(x) && x != nt[pt])),
{
    lemma_rotated_rest(nf, pf);
    lemma_rotated_rest(nt, pt);
    let a = rotate_left(nf, pf).skip(1);
    let b = rotate_left(nt, pt).skip(1);
    let joined = a + b;
    assert forall|x: usize| #[trigger] joined.contains(x) <==> (a.contains(x) || b.contains(x)) by {
        if joined.contains(x) {
            let i = choose|i: int| 0 <= i < joined.len() && joined[i] == x;
            if i < a.len() {
                assert(a[i] == x);
            } else {
                assert(b[i - a.len()] == x);
            }
        }
        if a.contains(x) {
            let i = choose|i: int| 0 <= i < a.len() && a[i] == x;
            assert(joined[i] == x);
        }
        if b.contains(x) {
            let i = choose|i: int| 0 <= i < b.len() && b[i] == x;
            assert(joined[a.len() + i] == x);
        }
    }
    assert(a.len() == nf.len() - 1);
    lemma_rotate_right_contains(joined, pf);
    let rr = rotate_right(joined, pf);
    lemma_dedup_contains(rr);
    let d = dedup(rr);
    if d.len() > 1 && d[0] == d.last() {
        assert forall|x: usize| #[trigger] d.drop_last().contains(x) <==> d.contains(x) by {
            if d.contains(x) {
                let i = choose|i: int| 0 <= i < d.len() && d[i] == x;
                if i < d.len() - 1 {
                    assert(d.drop_last()[i] == x);
                } else {
                    assert(d.drop_last()[0] == x);
                }
            }
            if d.drop_last().contains(x) {
                let i = choose|i: int| 0 <= i < d.len() - 1 && d.drop_last()[i] == x;
                assert(d[i] == x);
            }
        }
    }
}

/// A successful merge keeps every edge recorded at both ends, provided it
/// was before and the two merged points list no neighbour twice: no point
/// lists either merged point any more, and a point lists the merged point
/// exactly when the merged point lists it.
pub proof fn lemma_merge_keeps_edges_consistent(slots: Seq<Option<Seq<usize>>>, from: usize, to: usize)
    requires
        slots.len() < usize::MAX,
        edges_consistent(slots),
        slot(slots, from as int) matches Some(ns) && ns.no_duplicates(),
        slot(slots, to as int) matches Some(ns) && ns.no_duplicates(),
        merge_result(slots, from, to).1 is Some,
    ensures
        edges_consistent(merge_result(slots, from, to).0),
        forall|i: usize| !(#[trigger] lists(merge_result(slots, from, to).0, i, from)),
        forall|i: usize| !(#[trigger] lists(merge_result(slots, from, to).0, i, to)),
        forall|i: usize|
            #[trigger] lists(merge_result(slots, from, to).0, i, slots.len() as usize) <==> lists(
                merge_result(slots, from, to).0,
                slots.len() as usize,
                i,
            ),
{
    let (f, t) = ordered(from, to);
    let (pf, pt) = edge_positions(slots, f, t).unwrap();
    let nf = slots[f as int].unwrap();
    let nt = slots[t as int].unwrap();
    lemma_position_bounds(nf, t);
    lemma_position_bounds(nt, f);
    lemma_merged_neighbors_contains(nf, nt, pf, pt);
    let k = slots.len() as usize;
    let merged = merged_neighbors(nf, nt, pf, pt);
    let res = merge_result(slots, from, to).0;
    lemma_merge_replaces_both_ends(slots, from, to);
    assert(res[k as int] == Some(merged));
    assert(f != t) by {
        assert(lists(slots, f, t));
    }
    assert forall|i: usize, j: usize| #[trigger] lists(res, i, j) implies i != j && lists(res, j, i) by {
        let ns = slot(res, i as int).unwrap();
        if i == k {
            assert(ns == merged);
            if nf.contains(j) && j != t {
                assert(lists(slots, f, j));
                assert(lists(slots, j, f));
                let nj = slots[j as int].unwrap();
                let w = choose|w: int| 0 <= w < nj.len() && nj[w] == f;
                assert(redirected(nj, f, t, k)[w] == k);
            } else {
                assert(nt.contains(j) && j != f);
                assert(lists(slots, t, j));
                assert(lists(slots, j, t));
                let nj = slots[j as int].unwrap();
                let w = choose|w: int| 0 <= w < nj.len() && nj[w] == t;
                assert(redirected(nj, f, t, k)[w] == k);
            }
        } else {
            assert(i < k);
            assert(i != f && i != t);
            let ni = slots[i as int].unwrap();
            assert(ns == redirected(ni, f, t, k));
            let w = choose|w: int| 0 <= w < ns.len() && ns[w] == j;
            let y = ni[w];
            assert(lists(slots, i, y));
            assert(lists(slots, y, i));
            if y == f {
                assert(nf.contains(i));
                assert(merged.contains(i));
            } else if y == t {
                assert(nt.contains(i));
                assert(merged.contains(i));
            } else {
                assert(j == y);
                let ny = slots[y as int].unwrap();
                let v = choose|v: int| 0 <= v < ny.len() && ny[v] == i;
                assert(redirected(ny, f, t, k)[v] == i);
            }
        }
    }
}


/// A successful `subdivide_edge` between two distinct points gives the same
/// result for either order of the ends. With `f` the lower and `t` the higher
/// index, and `pf`, `pt` the first positions of each in the other's list: the
/// new points get fresh indices in increasing order; when there is at least
/// one, the entry `t` of `f`'s list is replaced by them, and the entry `f` of
/// `t`'s list by them in reverse; when there is none, nothing changes.
pub proof fn lemma_subdivide_splices_both_ends(slots: Seq<Option<Seq<usize>>>, from: usize, to: usize, k: int)
    requires
        k >= 0,
        from != to,
        subdivide_result(slots, from, to, k).1 is Some,
    ensures
        subdivide_result(slots, from, to, k) == subdivide_result(slots, to, from, k),
        ({
            let (f, t) = ordered(from, to);
            let ind = fresh_indices(slots.len() as int, k);
            let res = subdivide_result(slots, from, to, k).0;
            &&& slot(slots, f as int) matches Some(nf)
            &&& slot(slots, t as int) matches Some(nt)
            &&& position(nf, t) matches Some(pf)
            &&& position(nt, f) matches Some(pt)
            &&& k > 0 ==> res[f as int] == Some(splice(nf, pf, ind)) && res[t as int] == Some(
                splice(nt, pt, ind.reverse()),
            )
            &&& k == 0 ==> res == slots
        }),
{
    let (f, t) = ordered(from, to);
    assert(ordered(to, from) == (f, t));
}


/// Whether no two neighbouring entries of `s` are equal, the last and the
/// first counting as neighbours when there are at least two.
pub open spec fn no_adjacent_repeats(s: Seq<usize>) -> bool {
    &&& forall|i: int| 0 <= i && i + 1 < s.len() ==> #[trigger] s[i] != s[i + 1]
    &&& s.len() > 1 ==> s[0] != s.last()
}

/// Dropping consecutive repeats leaves no two equal neighbouring entries and
/// keeps the first and the last entry.
proof fn lemma_dedup_adjacent(s: Seq<usize>)
    ensures
        forall|i: int| 0 <= i && i + 1 < dedup(s).len() ==> #[trigger] dedup(s)[i] != dedup(s)[i + 1],
        s.len() > 0 ==> dedup(s).len() > 0 && dedup(s)[0] == s[0] && dedup(s).last() == s.last(),
    decreases s.len(),
{
    if s.len() > 1 {
        let d = s.drop_last();
        lemma_dedup_adjacent(d);
        if s.last() != s[s.len() - 2] {
            let r = dedup(d).push(s.last());
            assert forall|i: int| 0 <= i && i + 1 < r.len() implies #[trigger] r[i] != r[i + 1] by {
                if i + 1 < dedup(d).len() {
                    assert(r[i] == dedup(d)[i] && r[i + 1] == dedup(d)[i + 1]);
                } else {
                    assert(r[i] == dedup(d).last());
                }
            }
        }
    }
}

/// The merged point of `merge_along_edge` lists no neighbour twice in a row,
/// going round its list: repeats where the two joined lists meet, and a last
/// entry equal to the first, are removed.
pub proof fn lemma_merged_neighbors_no_adjacent_repeats(nf: Seq<usize>, nt: Seq<usize>, pf: int, pt: int)
    ensures
        no_adjacent_repeats(merged_neighbors(nf, nt, pf, pt)),
{
    let joined = rotate_left(nf, pf).skip(1) + rotate_left(nt, pt).skip(1);
    let rr = rotate_right(joined, pf);
    lemma_dedup_adjacent(rr);
    let d = dedup(rr);
    if d.len() > 1 && d[0] == d.last() {
        let e = d.drop_last();
        assert forall|i: int| 0 <= i && i + 1 < e.len() implies #[trigger] e[i] != e[i + 1] by {
            assert(e[i] == d[i] && e[i + 1] == d[i + 1]);
        }
        if e.len() > 1 {
            assert(d[d.len() - 2] != d[d.len() - 1]);
            assert(e[0] == d[0] && e.last() == d[d.len() - 2]);
        }
    }
}

} // verus!
