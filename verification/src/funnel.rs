//! The simple stupid funnel algorithm: string pulling through a sequence of
//! portals.

use vstd::prelude::*;

verus! {

/// A funnel: the `apex` it starts from, and its left (`lhs`) and right (`rhs`)
/// boundary points, each with attached data.
#[derive(Debug, Default, PartialEq, Eq, PartialOrd, Ord, Hash)]
pub struct SimpleFunnel<K, D = ()> {
    pub apex: ([K; 2], D),
    pub lhs: ([K; 2], D),
    pub rhs: ([K; 2], D),
}

impl<K: Copy, D: Copy> Clone for SimpleFunnel<K, D> {
    fn clone(&self) -> (r: Self)
        ensures
            r == *self,
    {
        *self
    }
}

impl<K: Copy, D: Copy> Copy for SimpleFunnel<K, D> {

}

/// Twice the signed area of the triangle `a b c`, as `triarea2` computes it:
/// negative when `c` lies to the right of the ray from `a` through `b`
/// (in a frame whose `y` axis points up), positive when it lies to the left.
pub open spec fn tri(a: [i32; 2], b: [i32; 2], c: [i32; 2]) -> int {
    (c[0] - a[0]) * (b[1] - a[1]) - (b[0] - a[0]) * (c[1] - a[1])
}

/// Whether `v` is representable as an `i32`.
pub open spec fn fits_i32(v: int) -> bool {
    i32::MIN <= v <= i32::MAX
}

/// Whether every intermediate value of `triarea2(a, b, c)` fits in `i32`.
pub open spec fn tri_fits(a: [i32; 2], b: [i32; 2], c: [i32; 2]) -> bool {
    &&& fits_i32(b[0] - a[0])
    &&& fits_i32(b[1] - a[1])
    &&& fits_i32(c[0] - a[0])
    &&& fits_i32(c[1] - a[1])
    &&& fits_i32((c[0] - a[0]) * (b[1] - a[1]))
    &&& fits_i32((b[0] - a[0]) * (c[1] - a[1]))
    &&& fits_i32(tri(a, b, c))
}

/// The absolute value of an integer.
pub open spec fn abs(v: int) -> int {
    if v < 0 {
        -v
    } else {
        v
    }
}

/// Whether the difference `v` of two `i32`s, and its absolute value, are `i32`s.
pub open spec fn diff_fits(v: int) -> bool {
    i32::MIN < v <= i32::MAX
}

/// Whether the coordinate-wise comparison of `a` and `b` within `epsilon`
/// computes its differences without overflow: the second coordinate is only
/// compared when the first ones are close.
pub open spec fn close_fits(a: [i32; 2], b: [i32; 2], epsilon: i32) -> bool {
    &&& diff_fits(a[0] - b[0])
    &&& (abs(a[0] - b[0]) <= epsilon ==> diff_fits(a[1] - b[1]))
}

/// Whether `a` and `b` are within `epsilon` of each other in both coordinates.
pub open spec fn close(a: [i32; 2], b: [i32; 2], epsilon: i32) -> bool {
    abs(a[0] - b[0]) <= epsilon && abs(a[1] - b[1]) <= epsilon
}

/// The side test of a funnel boundary: the right side (`flip` false) is
/// crossed by a negative area, the left side (`flip` true) by a positive one.
pub open spec fn crosses(v: int, flip: bool) -> bool {
    if flip {
        v > 0
    } else {
        v < 0
    }
}

/// `[x, y]` are equal coordinate pairs.
pub open spec fn same_pos(a: [i32; 2], b: [i32; 2]) -> bool {
    a[0] == b[0] && a[1] == b[1]
}

impl<D> SimpleFunnel<i32, D> {
    /// The side of the funnel that the update with `flip` moves: `rhs` for
    /// `false`, `lhs` for `true`.
    pub open spec fn moving(self, flip: bool) -> ([i32; 2], D) {
        if flip {
            self.lhs
        } else {
            self.rhs
        }
    }

    /// The other side of the funnel.
    pub open spec fn other(self, flip: bool) -> ([i32; 2], D) {
        if flip {
            self.rhs
        } else {
            self.lhs
        }
    }

    /// The funnel with its moving side replaced by `v`.
    pub open spec fn with_moving(self, flip: bool, v: ([i32; 2], D)) -> Self {
        if flip {
            SimpleFunnel { apex: self.apex, lhs: v, rhs: self.rhs }
        } else {
            SimpleFunnel { apex: self.apex, lhs: self.lhs, rhs: v }
        }
    }

    /// Whether updating one side of the funnel with `point` computes without overflow.
    pub open spec fn update_fits(self, point: [i32; 2], flip: bool, epsilon: i32) -> bool {
        let apex = self.apex.0;
        let b = self.moving(flip).0;
        let a = self.other(flip).0;
        &&& tri_fits(apex, b, point)
        &&& (!crosses(tri(apex, b, point), flip) ==> {
            &&& close_fits(apex, b, epsilon)
            &&& (!close(apex, b, epsilon) ==> tri_fits(apex, a, point))
        })
    }

    /// Updating one side of the funnel with the portal end `portal`: unless
    /// the portal end lies outside that side, either the side tightens to it,
    /// or (when it crosses over the other side) the other side becomes the new
    /// apex, both sides restart from it, and the old apex is reported if the
    /// apex moved.
    pub open spec fn update(self, portal: ([i32; 2], D), flip: bool, epsilon: i32) -> (
        Self,
        Option<([i32; 2], D)>,
    ) {
        let apex = self.apex.0;
        let b = self.moving(flip).0;
        let a = self.other(flip);
        if !crosses(tri(apex, b, portal.0), flip) {
            if close(apex, b, epsilon) || crosses(tri(apex, a.0, portal.0), flip) {
                (self.with_moving(flip, portal), None)
            } else {
                let moved = SimpleFunnel { apex: a, lhs: self.lhs, rhs: self.rhs }.with_moving(flip, a);
                (moved, if !same_pos(apex, a.0) { Some(self.apex) } else { None })
            }
        } else {
            (self, None)
        }
    }

    /// Whether `advance(epsilon, portal)` runs without a panic: without
    /// overflow, and without both sides being crossed at once.
    pub open spec fn advance_ok(self, epsilon: i32, portal: [([i32; 2], D); 2]) -> bool {
        let (f1, r1) = self.update(portal[1], false, epsilon);
        let (f2, r2) = f1.update(portal[0], true, epsilon);
        &&& self.update_fits(portal[1].0, false, epsilon)
        &&& f1.update_fits(portal[0].0, true, epsilon)
        &&& (r1 is Some ==> r2 is None)
    }

    /// The funnel after `advance(epsilon, portal)`.
    pub open spec fn advanced(self, epsilon: i32, portal: [([i32; 2], D); 2]) -> Self {
        self.update(portal[1], false, epsilon).0.update(portal[0], true, epsilon).0
    }

    /// The apex that `advance(epsilon, portal)` reports as left behind, if any.
    pub open spec fn left_apex(self, epsilon: i32, portal: [([i32; 2], D); 2]) -> Option<
        ([i32; 2], D),
    > {
        let (f1, r1) = self.update(portal[1], false, epsilon);
        let (f2, r2) = f1.update(portal[0], true, epsilon);
        if r1 is Some {
            r1
        } else {
            r2
        }
    }
}

/// `triarea2(a, b, c)`.
fn triarea2(a: [i32; 2], b: [i32; 2], c: [i32; 2]) -> (r: i32)
    requires
        tri_fits(a, b, c),
    ensures
        r == tri(a, b, c),
{
    let ax = b[0] - a[0];
    let ay = b[1] - a[1];
    let bx = c[0] - a[0];
    let by = c[1] - a[1];
    bx * ay - ax * by
}

/// `approx`'s `AbsDiffEq::abs_diff_eq` on the two coordinate slices of `a` and
/// `b`: the slices have equal length, and it compares coordinate by
/// coordinate, stopping at the first pair whose difference `x - y` has an
/// absolute value greater than `epsilon`. Each difference and its absolute
/// value are computed in `i32`.
#[verifier::external_body]
fn abs_diff_eq_pos(a: &[i32; 2], b: &[i32; 2], epsilon: i32) -> (r: bool)
    requires
        close_fits(*a, *b, epsilon),
    ensures
        r == close(*a, *b, epsilon),
{
    approx::AbsDiffEq::abs_diff_eq(&a[..], &b[..], epsilon)
}

impl<D: Copy> SimpleFunnel<i32, D> {
    /// A funnel whose apex and both sides are `apex`.
    pub fn new(apex: ([i32; 2], D)) -> (f: Self)
        ensures
            f.apex == apex,
            f.lhs == apex,
            f.rhs == apex,
    {
        Self { apex, lhs: apex, rhs: apex }
    }

    /// Updates one side of the funnel with the end `portal` of a portal.
    fn update_vertex(&mut self, epsilon: i32, portal: ([i32; 2], D), flip: bool) -> (r: Option<
        ([i32; 2], D),
    >)
        requires
            old(self).update_fits(portal.0, flip, epsilon),
        ensures
            (*final(self), r) == old(self).update(portal, flip, epsilon),
    {
        let apex = self.apex;
        let b = if flip {
            self.lhs
        } else {
            self.rhs
        };
        let a = if flip {
            self.rhs
        } else {
            self.lhs
        };
        let area = triarea2(apex.0, b.0, portal.0);
        let crossed = if flip {
            area > 0
        } else {
            area < 0
        };
        if !crossed {
            let tighten = if abs_diff_eq_pos(&apex.0, &b.0, epsilon) {
                true
            } else {
                let area_a = triarea2(apex.0, a.0, portal.0);
                if flip {
                    area_a > 0
                } else {
                    area_a < 0
                }
            };
            if tighten {
                if flip {
                    self.lhs = portal;
                } else {
                    self.rhs = portal;
                }
            } else {
                let old_apex = self.apex;
                self.apex = a;
                if flip {
                    self.lhs = a;
                } else {
                    self.rhs = a;
                }
                if old_apex.0[0] != a.0[0] || old_apex.0[1] != a.0[1] {
                    return Some(old_apex);
                }
            }
        }
        None
    }

    /// Passes the funnel through the next `portal`, given as its left and right
    /// end. Returns the apex that the path leaves behind, if the apex moved,
    /// together with the new apex.
    ///
    /// Consecutive portals, and the funnel's current sides, must not cross each
    /// other except at their endpoints; edges of a single triangulation, or of
    /// a polygonal complex with convex faces, satisfy this.
    pub fn advance(&mut self, epsilon: i32, portal: [([i32; 2], D); 2]) -> (r: Option<
        (([i32; 2], D), &([i32; 2], D)),
    >)
        requires
            old(self).advance_ok(epsilon, portal),
        ensures
            *final(self) == old(self).advanced(epsilon, portal),
            match r {
                Some((left, apex)) => old(self).left_apex(epsilon, portal) == Some(left) && *apex
                    == final(self).apex,
                None => old(self).left_apex(epsilon, portal) is None,
            },
    {
        if let Some(ret) = self.update_vertex(epsilon, portal[1], false) {
            self.update_vertex(epsilon, portal[0], true);
            return Some((ret, &self.apex));
        }
        if let Some(ret) = self.update_vertex(epsilon, portal[0], true) {
            return Some((ret, &self.apex));
        }
        None
    }
}

/// Updating one side moves the apex only when it reports the old apex, unless
/// the new apex lies at the old apex's position.
proof fn lemma_update_apex<D>(f: SimpleFunnel<i32, D>, portal: ([i32; 2], D), flip: bool, epsilon: i32)
    ensures
        match f.update(portal, flip, epsilon).1 {
            None => same_pos(f.update(portal, flip, epsilon).0.apex.0, f.apex.0),
            Some(l) => l == f.apex && !same_pos(f.update(portal, flip, epsilon).0.apex.0, f.apex.0),
        },
{
}

/// The apex that `advance` reports as left behind is at the position of the
/// apex before the call, and the apex has then moved away from it; when
/// `advance` reports nothing, the apex stays at its position.
pub proof fn lemma_advance_apex<D>(f: SimpleFunnel<i32, D>, epsilon: i32, portal: [([i32; 2], D); 2])
    requires
        f.advance_ok(epsilon, portal),
    ensures
        match f.left_apex(epsilon, portal) {
            None => same_pos(f.advanced(epsilon, portal).apex.0, f.apex.0),
            Some(l) => same_pos(l.0, f.apex.0) && !same_pos(f.advanced(epsilon, portal).apex.0, f.apex.0),
        },
{
    let f1 = f.update(portal[1], false, epsilon).0;
    lemma_update_apex(f, portal[1], false, epsilon);
    lemma_update_apex(f1, portal[0], true, epsilon);
}


/// The first portal passed to a fresh funnel only opens it: nothing is
/// reported, the apex stays, and the sides become the portal's ends.
pub proof fn lemma_fresh_funnel_opens<D>(a: ([i32; 2], D), epsilon: i32, portal: [([i32; 2], D); 2])
    requires
        epsilon >= 0,
        fits_i32(portal[0].0[0] - a.0[0]),
        fits_i32(portal[0].0[1] - a.0[1]),
        fits_i32(portal[1].0[0] - a.0[0]),
        fits_i32(portal[1].0[1] - a.0[1]),
    ensures
        (SimpleFunnel { apex: a, lhs: a, rhs: a }).advance_ok(epsilon, portal),
        (SimpleFunnel { apex: a, lhs: a, rhs: a }).left_apex(epsilon, portal) is None,
        (SimpleFunnel { apex: a, lhs: a, rhs: a }).advanced(epsilon, portal) == (SimpleFunnel {
            apex: a,
            lhs: portal[0],
            rhs: portal[1],
        }),
{
    let p0 = portal[0].0;
    let p1 = portal[1].0;
    let q = a.0;
    assert((p1[0] - q[0]) * (q[1] - q[1]) == 0 && (q[0] - q[0]) * (p1[1] - q[1]) == 0) by (nonlinear_arith);
    assert((p0[0] - q[0]) * (q[1] - q[1]) == 0 && (q[0] - q[0]) * (p0[1] - q[1]) == 0) by (nonlinear_arith);
    assert(tri(q, q, p1) == 0);
    assert(tri(q, q, p0) == 0);
}

} // verus!
