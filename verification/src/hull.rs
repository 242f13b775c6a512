//! Convex hulls of integer point sets (Andrew's monotone chain).

use vstd::prelude::*;

use vstd::relations::{sorted_by, total_ordering};

verus! {

/// The cross product of `a - o` and `b - o`: positive when `o a b` turns
/// counter-clockwise.
pub open spec fn cross(o: [i32; 2], a: [i32; 2], b: [i32; 2]) -> int {
    (a[0] - o[0]) * (b[1] - o[1]) - (a[1] - o[1]) * (b[0] - o[0])
}

/// Whether `v` is representable as an `i64`.
pub open spec fn fits_i64(v: int) -> bool {
    i64::MIN <= v <= i64::MAX
}

/// Whether `cross(o, a, b)` can be computed in `i64` without overflow.
pub open spec fn cross_fits(o: [i32; 2], a: [i32; 2], b: [i32; 2]) -> bool {
    &&& fits_i64((a[0] - o[0]) * (b[1] - o[1]))
    &&& fits_i64((a[1] - o[1]) * (b[0] - o[0]))
    &&& fits_i64(cross(o, a, b))
}

/// Whether the cross product of every three points of `s` can be computed in `i64`.
pub open spec fn all_cross_fit(s: Seq<[i32; 2]>) -> bool {
    forall|o: [i32; 2], a: [i32; 2], b: [i32; 2]|
        s.contains(o) && s.contains(a) && s.contains(b) ==> #[trigger] cross_fits(o, a, b)
}

/// Lexicographic order on points: by `x`, then by `y`.
pub open spec fn pos_le(a: [i32; 2], b: [i32; 2]) -> bool {
    a[0] < b[0] || (a[0] == b[0] && a[1] <= b[1])
}

/// `pos_le` as a relation.
pub open spec fn pos_order() -> spec_fn([i32; 2], [i32; 2]) -> bool {
    |a: [i32; 2], b: [i32; 2]| pos_le(a, b)
}

/// `stack` after popping its top while the top two points and `p` do not
/// turn counter-clockwise.
pub open spec fn pop_non_left(stack: Seq<[i32; 2]>, p: [i32; 2]) -> Seq<[i32; 2]>
    decreases stack.len(),
{
    if stack.len() >= 2 && cross(stack[stack.len() - 2], stack[stack.len() - 1], p) <= 0 {
        pop_non_left(stack.drop_last(), p)
    } else {
        stack
    }
}

/// The monotone chain of `pts`: each point in turn is pushed after popping
/// the points that would make a clockwise or straight turn with it.
pub open spec fn chain(pts: Seq<[i32; 2]>) -> Seq<[i32; 2]>
    decreases pts.len(),
{
    if pts.len() == 0 {
        Seq::empty()
    } else {
        pop_non_left(chain(pts.drop_last()), pts.last()).push(pts.last())
    }
}

/// The hull that `convex_hull` returns: for fewer than three points the points
/// themselves; otherwise the lower chain of the sorted points followed by the
/// upper chain (the chain of the points in reverse order), each without its
/// last point.
pub open spec fn hull(points: Seq<[i32; 2]>) -> Seq<[i32; 2]> {
    if points.len() < 3 {
        points
    } else {
        let sorted = points.sort_by(pos_order());
        chain(sorted).drop_last() + chain(sorted.reverse()).drop_last()
    }
}

/// Lexicographic order is a total order.
pub proof fn lemma_pos_order_total()
    ensures
        total_ordering(pos_order()),
{
    assert forall|a: [i32; 2], b: [i32; 2]| #[trigger]
        pos_order()(a, b) && #[trigger] pos_order()(b, a) implies a == b by {
        assert(a@ =~= b@);
    }
}

/// `cross(o, a, b)`.
fn cross_product(o: [i32; 2], a: [i32; 2], b: [i32; 2]) -> (r: i64)
    requires
        cross_fits(o, a, b),
    ensures
        r == cross(o, a, b),
{
    (a[0] as i64 - o[0] as i64) * (b[1] as i64 - o[1] as i64) - (a[1] as i64 - o[1] as i64) * (
    b[0] as i64 - o[0] as i64)
}

/// Lexicographic "less than or equal".
fn le(a: [i32; 2], b: [i32; 2]) -> (r: bool)
    ensures
        r == pos_le(a, b),
{
    a[0] < b[0] || (a[0] == b[0] && a[1] <= b[1])
}

/// The points in lexicographic order.
fn sorted_points(points: &[[i32; 2]]) -> (r: Vec<[i32; 2]>)
    ensures
        r@ == points@.sort_by(pos_order()),
{
    let mut r: Vec<[i32; 2]> = Vec::new();
    let mut i: usize = 0;
    assert(r@ =~= points@.take(0));
    while i < points.len()
        invariant
            i <= points.len(),
            r@.to_multiset() == points@.take(i as int).to_multiset(),
            sorted_by(r@, pos_order()),
        decreases points.len() - i,
    {
        let p = points[i];
        let mut j = r.len();
        while j > 0 && !le(r[j - 1], p)
            invariant
                j <= r.len(),
                forall|t: int| j <= t < r.len() ==> !pos_le(#[trigger] r@[t], p),
            decreases j,
        {
            j = j - 1;
        }
        proof {
            vstd::seq_lib::to_multiset_insert(r@, j as int, p);
            vstd::seq_lib::to_multiset_build(points@.take(i as int), p);
            assert(points@.take(i as int + 1) == points@.take(i as int).push(p));
        }
        let ghost before = r@;
        r.insert(j, p);
        assert forall|a: int, b: int| 0 <= a < b < r@.len() implies #[trigger] pos_order()(
            r@[a],
            r@[b],
        ) by {
            if b < j as int {
                assert(pos_order()(before[a], before[b]));
            } else if b == j as int {
                if j > 0 {
                    assert(pos_order()(before[a], before[j - 1]));
                }
            } else if a == j as int {
                assert(!pos_le(before[b - 1], p));
            } else if a < j as int {
                assert(!pos_le(before[b - 1], p));
                if j > 0 {
                    assert(pos_order()(before[a], before[j - 1]));
                }
            } else {
                assert(pos_order()(before[a - 1], before[b - 1]));
            }
        }
        i = i + 1;
    }
    proof {
        assert(points@.take(points.len() as int) == points@);
        lemma_pos_order_total();
        points@.lemma_sort_by_ensures(pos_order());
        vstd::seq_lib::lemma_sorted_unique(r@, points@.sort_by(pos_order()), pos_order());
    }
    r
}

/// The monotone chain of `pts` taken forwards, or backwards when `backwards`.
fn monotone_chain(pts: &Vec<[i32; 2]>, backwards: bool) -> (r: Vec<[i32; 2]>)
    requires
        all_cross_fit(pts@),
    ensures
        r@ == chain(
            if backwards {
                pts@.reverse()
            } else {
                pts@
            },
        ),
{
    let ghost seq = if backwards {
        pts@.reverse()
    } else {
        pts@
    };
    let mut stack: Vec<[i32; 2]> = Vec::new();
    let mut k: usize = 0;
    while k < pts.len()
        invariant
            k <= pts.len(),
            seq == (if backwards {
                pts@.reverse()
            } else {
                pts@
            }),
            seq.len() == pts.len(),
            all_cross_fit(pts@),
            stack@ == chain(seq.take(k as int)),
            forall|t: int| 0 <= t < stack@.len() ==> pts@.contains(#[trigger] stack@[t]),
        decreases pts.len() - k,
    {
        let p = if backwards {
            pts[pts.len() - 1 - k]
        } else {
            pts[k]
        };
        assert(p == seq[k as int]);
        assert(pts@.contains(p)) by {
            if backwards {
                assert(pts@[pts.len() - 1 - k] == p);
            } else {
                assert(pts@[k as int] == p);
            }
        }
        assert(seq.take(k as int + 1).drop_last() == seq.take(k as int));
        let ghost target = pop_non_left(stack@, p);
        loop
            invariant
                pop_non_left(stack@, p) == target,
                all_cross_fit(pts@),
                pts@.contains(p),
                forall|t: int| 0 <= t < stack@.len() ==> pts@.contains(#[trigger] stack@[t]),
            ensures
                stack@ == target,
            decreases stack.len(),
        {
            let l = stack.len();
            if l < 2 {
                break;
            }
            proof {
                assert(pts@.contains(stack@[l - 2]));
                assert(pts@.contains(stack@[l - 1]));
                assert(cross_fits(stack@[l - 2], stack@[l - 1], p));
            }
            if cross_product(stack[l - 2], stack[l - 1], p) > 0 {
                break;
            }
            stack.pop();
        }
        stack.push(p);
        k = k + 1;
    }
    assert(seq.take(pts.len() as int) == seq);
    stack
}

/// The convex hull of `points` in counter-clockwise order, starting at the
/// lexicographically smallest point; fewer than three points are returned
/// as they are.
pub fn convex_hull(points: &[[i32; 2]]) -> (r: Vec<[i32; 2]>)
    requires
        all_cross_fit(points@),
    ensures
        r@ == hull(points@),
{
    if points.len() < 3 {
        let mut same: Vec<[i32; 2]> = Vec::new();
        let mut i: usize = 0;
        while i < points.len()
            invariant
                i <= points.len(),
                same@ == points@.take(i as int),
            decreases points.len() - i,
        {
            same.push(points[i]);
            assert(points@.take(i as int + 1) == points@.take(i as int).push(points@[i as int]));
            i = i + 1;
        }
        assert(points@.take(points.len() as int) == points@);
        return same;
    }
    let pts = sorted_points(points);
    proof {
        lemma_pos_order_total();
        points@.lemma_sort_by_ensures(pos_order());
        assert forall|o: [i32; 2], a: [i32; 2], b: [i32; 2]|
            pts@.contains(o) && pts@.contains(a) && pts@.contains(b) implies #[trigger] cross_fits(
            o,
            a,
            b,
        ) by {
            vstd::seq_lib::to_multiset_contains(pts@, o);
            vstd::seq_lib::to_multiset_contains(pts@, a);
            vstd::seq_lib::to_multiset_contains(pts@, b);
            vstd::seq_lib::to_multiset_contains(points@, o);
            vstd::seq_lib::to_multiset_contains(points@, a);
            vstd::seq_lib::to_multiset_contains(points@, b);
        }
    }
    let mut lower = monotone_chain(&pts, false);
    let mut upper = monotone_chain(&pts, true);
    proof {
        vstd::seq_lib::to_multiset_len(pts@);
        vstd::seq_lib::to_multiset_len(points@);
        assert(pts@.len() >= 3);
        assert(pts@.reverse().len() >= 3);
        assert(lower@.len() > 0);
        assert(upper@.len() > 0);
    }
    lower.pop();
    upper.pop();
    lower.append(&mut upper);
    lower
}

/// Whether the cross product of every three points of `s`, taken by index, fits.
pub open spec fn indexed_cross_fit(s: Seq<[i32; 2]>) -> bool {
    forall|i: int, j: int, k: int|
        0 <= i < s.len() && 0 <= j < s.len() && 0 <= k < s.len() ==> #[trigger] cross_fits(
            s[i],
            s[j],
            s[k],
        )
}

proof fn lemma_indexed_cross_fit(s: Seq<[i32; 2]>)
    ensures
        indexed_cross_fit(s) == all_cross_fit(s),
{
    if indexed_cross_fit(s) {
        assert forall|o: [i32; 2], a: [i32; 2], b: [i32; 2]|
            s.contains(o) && s.contains(a) && s.contains(b) implies #[trigger] cross_fits(o, a, b) by {
            let i = choose|i: int| 0 <= i < s.len() && s[i] == o;
            let j = choose|j: int| 0 <= j < s.len() && s[j] == a;
            let k = choose|k: int| 0 <= k < s.len() && s[k] == b;
            assert(cross_fits(s[i], s[j], s[k]));
        }
    }
    if all_cross_fit(s) {
        assert forall|i: int, j: int, k: int|
            0 <= i < s.len() && 0 <= j < s.len() && 0 <= k < s.len() implies #[trigger] cross_fits(
            s[i],
            s[j],
            s[k],
        ) by {
            assert(s.contains(s[i]));
            assert(s.contains(s[j]));
            assert(s.contains(s[k]));
        }
    }
}

/// Whether `cross(o, a, b)` can be computed in `i64` without overflow.
fn cross_computable(o: [i32; 2], a: [i32; 2], b: [i32; 2]) -> (r: bool)
    ensures
        r == cross_fits(o, a, b),
{
    let ax = a[0] as i128 - o[0] as i128;
    let ay = a[1] as i128 - o[1] as i128;
    let bx = b[0] as i128 - o[0] as i128;
    let by = b[1] as i128 - o[1] as i128;
    assert(-0x1_0000_0000 < ax < 0x1_0000_0000);
    assert(ax * by <= 0x1_0000_0000_0000_0000 && ax * by >= -0x1_0000_0000_0000_0000) by (nonlinear_arith)
        requires
            -0x1_0000_0000 < ax < 0x1_0000_0000,
            -0x1_0000_0000 < by < 0x1_0000_0000,
    ;
    assert(ay * bx <= 0x1_0000_0000_0000_0000 && ay * bx >= -0x1_0000_0000_0000_0000) by (nonlinear_arith)
        requires
            -0x1_0000_0000 < ay < 0x1_0000_0000,
            -0x1_0000_0000 < bx < 0x1_0000_0000,
    ;
    let m1 = ax * by;
    let m2 = ay * bx;
    let d = m1 - m2;
    let lo = i64::MIN as i128;
    let hi = i64::MAX as i128;
    lo <= m1 && m1 <= hi && lo <= m2 && m2 <= hi && lo <= d && d <= hi
}

/// Whether `convex_hull(points)` computes its cross products without
/// overflow, that is, whether its requirement holds.
pub fn cross_products_fit(points: &[[i32; 2]]) -> (r: bool)
    ensures
        r == all_cross_fit(points@),
{
    proof {
        lemma_indexed_cross_fit(points@);
    }
    let n = points.len();
    let mut i: usize = 0;
    while i < n
        invariant
            n == points.len(),
            i <= n,
            forall|x: int, y: int, z: int|
                0 <= x < i && 0 <= y < n && 0 <= z < n ==> #[trigger] cross_fits(
                    points@[x],
                    points@[y],
                    points@[z],
                ),
        decreases n - i,
    {
        let mut j: usize = 0;
        while j < n
            invariant
                n == points.len(),
                i < n,
                j <= n,
                forall|x: int, y: int, z: int|
                    0 <= x < i && 0 <= y < n && 0 <= z < n ==> #[trigger] cross_fits(
                        points@[x],
                        points@[y],
                        points@[z],
                    ),
                forall|y: int, z: int|
                    0 <= y < j && 0 <= z < n ==> #[trigger] cross_fits(
                        points@[i as int],
                        points@[y],
                        points@[z],
                    ),
            decreases n - j,
        {
            let mut k: usize = 0;
            while k < n
                invariant
                    n == points.len(),
                    i < n,
                    j < n,
                    k <= n,
                    forall|x: int, y: int, z: int|
                        0 <= x < i && 0 <= y < n && 0 <= z < n ==> #[trigger] cross_fits(
                            points@[x],
                            points@[y],
                            points@[z],
                        ),
                    forall|y: int, z: int|
                        0 <= y < j && 0 <= z < n ==> #[trigger] cross_fits(
                            points@[i as int],
                            points@[y],
                            points@[z],
                        ),
                    forall|z: int|
                        0 <= z < k ==> #[trigger] cross_fits(
                            points@[i as int],
                            points@[j as int],
                            points@[z],
                        ),
                decreases n - k,
            {
                if !cross_computable(points[i], points[j], points[k]) {
                    return false;
                }
                k = k + 1;
            }
            j = j + 1;
        }
        i = i + 1;
    }
    true
}

/// Whether `s` turns strictly counter-clockwise at its point `i + 1`.
pub open spec fn turns_left_at(s: Seq<[i32; 2]>, i: int) -> bool {
    cross(s[i], s[i + 1], s[i + 2]) > 0
}

/// Whether `s` turns strictly counter-clockwise at each of its inner points.
pub open spec fn turns_left(s: Seq<[i32; 2]>) -> bool {
    forall|i: int| 0 <= i && i + 2 < s.len() ==> #[trigger] turns_left_at(s, i)
}

/// Popping keeps a prefix of the stack, after whose last two points `p`
/// turns strictly counter-clockwise.
proof fn lemma_pop_non_left(stack: Seq<[i32; 2]>, p: [i32; 2])
    ensures
        pop_non_left(stack, p).len() <= stack.len(),
        pop_non_left(stack, p) == stack.take(pop_non_left(stack, p).len() as int),
        pop_non_left(stack, p).len() >= 2 ==> cross(
            pop_non_left(stack, p)[pop_non_left(stack, p).len() - 2],
            pop_non_left(stack, p)[pop_non_left(stack, p).len() - 1],
            p,
        ) > 0,
    decreases stack.len(),
{
    if stack.len() >= 2 && cross(stack[stack.len() - 2], stack[stack.len() - 1], p) <= 0 {
        lemma_pop_non_left(stack.drop_last(), p);
        let r = pop_non_left(stack.drop_last(), p);
        assert(r == stack.drop_last().take(r.len() as int));
        assert(stack.drop_last().take(r.len() as int) == stack.take(r.len() as int));
    } else {
        assert(stack.take(stack.len() as int) == stack);
    }
}

/// A monotone chain consists of points of its input and turns strictly
/// counter-clockwise at each inner point.
pub proof fn lemma_chain_turns_left(pts: Seq<[i32; 2]>)
    ensures
        turns_left(chain(pts)),
        forall|i: int| 0 <= i < chain(pts).len() ==> pts.contains(#[trigger] chain(pts)[i]),
    decreases pts.len(),
{
    if pts.len() > 0 {
        let prev = chain(pts.drop_last());
        let p = pts.last();
        lemma_chain_turns_left(pts.drop_last());
        lemma_pop_non_left(prev, p);
        let kept = pop_non_left(prev, p);
        let c = kept.push(p);
        assert(c == chain(pts));
        assert forall|i: int| 0 <= i && i + 2 < c.len() implies #[trigger] turns_left_at(c, i) by {
            if i + 2 < kept.len() {
                assert(kept[i] == prev[i] && kept[i + 1] == prev[i + 1] && kept[i + 2] == prev[i + 2]);
                assert(turns_left_at(prev, i));
            }
        }
        assert forall|i: int| 0 <= i < c.len() implies pts.contains(#[trigger] c[i]) by {
            if i < kept.len() {
                assert(kept[i] == prev[i]);
                assert(pts.drop_last().contains(prev[i]));
                let j = choose|j: int| 0 <= j < pts.drop_last().len() && pts.drop_last()[j] == prev[i];
                assert(pts[j] == prev[i]);
            } else {
                assert(pts[pts.len() - 1] == p);
            }
        }
    }
}

/// Every point of the hull is one of the input points, and both the lower
/// chain and the upper chain of the hull turn strictly counter-clockwise at
/// each of their inner points.
pub proof fn lemma_hull_from_input_turning_left(points: Seq<[i32; 2]>)
    ensures
        forall|i: int| 0 <= i < hull(points).len() ==> points.contains(#[trigger] hull(points)[i]),
        points.len() >= 3 ==> turns_left(chain(points.sort_by(pos_order()))) && turns_left(
            chain(points.sort_by(pos_order()).reverse()),
        ),
{
    if points.len() >= 3 {
        let sorted = points.sort_by(pos_order());
        lemma_pos_order_total();
        points.lemma_sort_by_ensures(pos_order());
        lemma_chain_turns_left(sorted);
        lemma_chain_turns_left(sorted.reverse());
        vstd::seq_lib::to_multiset_len(sorted);
        vstd::seq_lib::to_multiset_len(points);
        assert(sorted.len() > 0 && sorted.reverse().len() > 0);
        assert(chain(sorted).len() > 0 && chain(sorted.reverse()).len() > 0);
        let lo = chain(sorted).drop_last();
        let up = chain(sorted.reverse()).drop_last();
        assert forall|i: int| 0 <= i < (lo + up).len() implies points.contains(#[trigger] (lo + up)[i]) by {
            let q = (lo + up)[i];
            if i < lo.len() {
                assert(q == lo[i]);
                assert(q == chain(sorted)[i]);
                assert(sorted.contains(q));
            } else {
                assert(q == chain(sorted.reverse())[i - lo.len()]);
                assert(sorted.reverse().contains(q));
                let j = choose|j: int| 0 <= j < sorted.reverse().len() && sorted.reverse()[j] == q;
                assert(sorted[sorted.len() - 1 - j] == q);
                assert(sorted.contains(q));
            }
            vstd::seq_lib::to_multiset_contains(sorted, q);
            vstd::seq_lib::to_multiset_contains(points, q);
        }
    }
}

/// `s` without consecutive repeated points (the first of each run stays).
pub open spec fn dedup_points(s: Seq<[i32; 2]>) -> Seq<[i32; 2]>
    decreases s.len(),
{
    if s.len() <= 1 {
        s
    } else if s.last() == s[s.len() - 2] {
        dedup_points(s.drop_last())
    } else {
        dedup_points(s.drop_last()).push(s.last())
    }
}

/// The hull that `convex_hull_distinct` returns: the sorted distinct points
/// when there are at most two of them, else their lower chain followed by
/// their upper chain, each without its last point.
pub open spec fn hull_distinct(points: Seq<[i32; 2]>) -> Seq<[i32; 2]> {
    let d = dedup_points(points.sort_by(pos_order()));
    if d.len() <= 2 {
        d
    } else {
        chain(d).drop_last() + chain(d.reverse()).drop_last()
    }
}

/// Whether `a - b` fits in `i32` in both coordinates.
pub open spec fn fits_i32_diff(a: [i32; 2], b: [i32; 2]) -> bool {
    i32::MIN <= a[0] - b[0] <= i32::MAX && i32::MIN <= a[1] - b[1] <= i32::MAX
}

/// The cross product of `a - o` and `b - o`, with the differences computed in
/// `i32` and the products in `i64`.
pub fn cross_i64(o: [i32; 2], a: [i32; 2], b: [i32; 2]) -> (r: i64)
    requires
        fits_i32_diff(a, o),
        fits_i32_diff(b, o),
        cross_fits(o, a, b),
    ensures
        r == cross(o, a, b),
{
    let oa_x = (a[0] - o[0]) as i64;
    let oa_y = (a[1] - o[1]) as i64;
    let ob_x = (b[0] - o[0]) as i64;
    let ob_y = (b[1] - o[1]) as i64;
    oa_x * ob_y - oa_y * ob_x
}

/// The points without consecutive repeats.
fn dedup_sorted(s: Vec<[i32; 2]>) -> (r: Vec<[i32; 2]>)
    ensures
        r@ == dedup_points(s@),
        forall|i: int| 0 <= i < r@.len() ==> s@.contains(#[trigger] r@[i]),
{
    let mut r: Vec<[i32; 2]> = Vec::new();
    let mut i: usize = 0;
    while i < s.len()
        invariant
            i <= s.len(),
            r@ == dedup_points(s@.take(i as int)),
            forall|j: int| 0 <= j < r@.len() ==> s@.contains(#[trigger] r@[j]),
        decreases s.len() - i,
    {
        let ghost t = s@.take(i as int + 1);
        assert(t.drop_last() == s@.take(i as int));
        assert(t.last() == s@[i as int]);
        if i == 0 || !(s[i][0] == s[i - 1][0] && s[i][1] == s[i - 1][1]) {
            proof {
                if i > 0 {
                    assert(t[t.len() - 2] == s@[i - 1]);
                    assert(s@[i as int] != s@[i - 1]);
                } else {
                    assert(t == seq![s@[0]]);
                    assert(dedup_points(s@.take(0)) == Seq::<[i32; 2]>::empty());
                }
            }
            r.push(s[i]);
            proof {
                if i > 0 {
                    assert(r@ == dedup_points(t));
                } else {
                    assert(r@ =~= t);
                }
            }
        } else {
            proof {
                broadcast use vstd::array::axiom_array_ext_equal;

                assert(s@[i as int] =~= s@[i - 1]);
            }
            assert(t[t.len() - 2] == s@[i - 1]);
            assert(dedup_points(t) == dedup_points(t.drop_last()));
        }
        i = i + 1;
    }
    assert(s@.take(s.len() as int) == s@);
    r
}

/// The convex hull of the distinct points among `points`, in counter-clockwise
/// order starting at the lexicographically smallest point; at most two
/// distinct points are returned sorted.
pub fn convex_hull_distinct(points: Vec<[i32; 2]>) -> (r: Vec<[i32; 2]>)
    requires
        all_cross_fit(points@),
    ensures
        r@ == hull_distinct(points@),
{
    let sorted = sorted_points(points.as_slice());
    let pts = dedup_sorted(sorted);
    if pts.len() <= 2 {
        return pts;
    }
    proof {
        lemma_pos_order_total();
        points@.lemma_sort_by_ensures(pos_order());
        assert forall|o: [i32; 2], a: [i32; 2], b: [i32; 2]|
            pts@.contains(o) && pts@.contains(a) && pts@.contains(b) implies #[trigger] cross_fits(
            o,
            a,
            b,
        ) by {
            let s = points@.sort_by(pos_order());
            vstd::seq_lib::to_multiset_contains(s, o);
            vstd::seq_lib::to_multiset_contains(s, a);
            vstd::seq_lib::to_multiset_contains(s, b);
            vstd::seq_lib::to_multiset_contains(points@, o);
            vstd::seq_lib::to_multiset_contains(points@, a);
            vstd::seq_lib::to_multiset_contains(points@, b);
        }
    }
    let mut lower = monotone_chain(&pts, false);
    let mut upper = monotone_chain(&pts, true);
    assert(lower@.len() > 0);
    assert(upper@.len() > 0);
    lower.pop();
    upper.pop();
    lower.append(&mut upper);
    lower
}


/// Twice the signed area of the triangle `o a b` over integer coordinates.
pub open spec fn ori(ox: int, oy: int, ax: int, ay: int, bx: int, by: int) -> int {
    (ax - ox) * (by - oy) - (ay - oy) * (bx - ox)
}

/// Lexicographic order on integer coordinate pairs.
pub open spec fn lle(ax: int, ay: int, bx: int, by: int) -> bool {
    ax < bx || (ax == bx && ay <= by)
}

/// Along a chain that turns left at `v`, a point `p` beyond `w` that is on or
/// left of the edge `v w` is also on or left of the edge `u v`.
proof fn lemma_left_carries_back(ux: int, uy: int, vx: int, vy: int, wx: int, wy: int, qx: int, qy: int)
    requires
        lle(ux, uy, vx, vy),
        lle(vx, vy, wx, wy),
        lle(wx, wy, qx, qy),
        ori(ux, uy, vx, vy, wx, wy) > 0,
        ori(vx, vy, wx, wy, qx, qy) >= 0,
    ensures
        ori(ux, uy, vx, vy, qx, qy) >= 0,
{
    let (ax, ay) = (ux - vx, uy - vy);
    let (bx, by) = (wx - vx, wy - vy);
    let (px, py) = (qx - vx, qy - vy);
    let ab = ax * by - ay * bx;
    let bp = bx * py - by * px;
    let pa = px * ay - py * ax;
    assert(ab * px + bp * ax + pa * bx == 0) by (nonlinear_arith)
        requires
            ab == ax * by - ay * bx,
            bp == bx * py - by * px,
            pa == px * ay - py * ax,
    ;
    assert(ori(ux, uy, vx, vy, wx, wy) == -ab) by (nonlinear_arith)
        requires
            ax == ux - vx, ay == uy - vy, bx == wx - vx, by == wy - vy, ab == ax * by - ay * bx,
    ;
    assert(ori(vx, vy, wx, wy, qx, qy) == bp) by (nonlinear_arith)
        requires
            bx == wx - vx, by == wy - vy, px == qx - vx, py == qy - vy, bp == bx * py - by * px,
    ;
    assert(ori(ux, uy, vx, vy, qx, qy) == pa) by (nonlinear_arith)
        requires
            ax == ux - vx, ay == uy - vy, px == qx - vx, py == qy - vy, pa == px * ay - py * ax,
    ;
    if bx > 0 {
        assert(ab * px <= 0) by (nonlinear_arith)
            requires
                ab < 0, px >= 0,
        ;
        assert(bp * ax <= 0) by (nonlinear_arith)
            requires
                bp >= 0, ax <= 0,
        ;
        assert(pa >= 0) by (nonlinear_arith)
            requires
                pa * bx >= 0, bx > 0,
        ;
    } else {
        assert(bx == 0);
        assert(ab == ax * by) by (nonlinear_arith)
            requires
                ab == ax * by - ay * bx, bx == 0,
        ;
        assert(by > 0 && ax < 0) by (nonlinear_arith)
            requires
                ax * by < 0, by >= 0, ax <= 0,
        ;
        assert(bp == -(by * px)) by (nonlinear_arith)
            requires
                bp == bx * py - by * px, bx == 0,
        ;
        assert(px == 0) by (nonlinear_arith)
            requires
                -(by * px) >= 0, by > 0, px >= 0,
        ;
        assert(pa == -(py * ax)) by (nonlinear_arith)
            requires
                pa == px * ay - py * ax, px == 0,
        ;
        assert(pa > 0) by (nonlinear_arith)
            requires
                py > 0, ax < 0, pa == -(py * ax),
        ;
    }
}

/// A point `q` before `v` that is on or left of the edge `w v`, where `p`
/// beyond `v` lies strictly left of that edge, is on or left of the edge `v p`.
proof fn lemma_left_of_new_edge_before(wx: int, wy: int, vx: int, vy: int, px0: int, py0: int, qx0: int, qy0: int)
    requires
        lle(wx, wy, vx, vy),
        lle(qx0, qy0, vx, vy),
        lle(vx, vy, px0, py0),
        ori(wx, wy, vx, vy, qx0, qy0) >= 0,
        ori(wx, wy, vx, vy, px0, py0) > 0,
    ensures
        ori(vx, vy, px0, py0, qx0, qy0) >= 0,
{
    let (ax, ay) = (wx - vx, wy - vy);
    let (px, py) = (px0 - vx, py0 - vy);
    let (qx, qy) = (qx0 - vx, qy0 - vy);
    let wp = ax * py - ay * px;
    let pq = px * qy - py * qx;
    let qw = qx * ay - qy * ax;
    assert(wp * qx + pq * ax + qw * px == 0) by (nonlinear_arith)
        requires
            wp == ax * py - ay * px,
            pq == px * qy - py * qx,
            qw == qx * ay - qy * ax,
    ;
    assert(ori(wx, wy, vx, vy, qx0, qy0) == qw) by (nonlinear_arith)
        requires
            ax == wx - vx, ay == wy - vy, qx == qx0 - vx, qy == qy0 - vy, qw == qx * ay - qy * ax,
    ;
    assert(ori(wx, wy, vx, vy, px0, py0) == -wp) by (nonlinear_arith)
        requires
            ax == wx - vx, ay == wy - vy, px == px0 - vx, py == py0 - vy, wp == ax * py - ay * px,
    ;
    assert(ori(vx, vy, px0, py0, qx0, qy0) == pq) by (nonlinear_arith)
        requires
            px == px0 - vx, py == py0 - vy, qx == qx0 - vx, qy == qy0 - vy, pq == px * qy - py * qx,
    ;
    if ax < 0 {
        assert(wp * qx >= 0) by (nonlinear_arith)
            requires
                wp < 0, qx <= 0,
        ;
        assert(qw * px >= 0) by (nonlinear_arith)
            requires
                qw >= 0, px >= 0,
        ;
        assert(pq >= 0) by (nonlinear_arith)
            requires
                pq * ax <= 0, ax < 0,
        ;
    } else {
        assert(ax == 0);
        assert(wp == -(ay * px)) by (nonlinear_arith)
            requires
                wp == ax * py - ay * px, ax == 0,
        ;
        assert(false) by (nonlinear_arith)
            requires
                -wp > 0, wp == -(ay * px), ay <= 0, px >= 0,
        ;
    }
}

/// With `v`, `a`, `c`, `p` in order: when `a` is on or left of the edge `v p`
/// and `p` is on or right of the edge `a c`, then `c` is on or left of `v p`.
proof fn lemma_popped_left_of_new_edge(vx: int, vy: int, ax0: int, ay0: int, cx0: int, cy0: int, px: int, py: int)
    requires
        lle(vx, vy, ax0, ay0),
        lle(ax0, ay0, cx0, cy0),
        lle(cx0, cy0, px, py),
        ori(vx, vy, px, py, ax0, ay0) >= 0,
        ori(ax0, ay0, cx0, cy0, px, py) <= 0,
    ensures
        ori(vx, vy, px, py, cx0, cy0) >= 0,
{
    let (vx1, vy1) = (vx - px, vy - py);
    let (ax, ay) = (ax0 - px, ay0 - py);
    let (cx, cy) = (cx0 - px, cy0 - py);
    let va = vx1 * ay - vy1 * ax;
    let ac = ax * cy - ay * cx;
    let cv = cx * vy1 - cy * vx1;
    assert(va * cx + ac * vx1 + cv * ax == 0) by (nonlinear_arith)
        requires
            va == vx1 * ay - vy1 * ax,
            ac == ax * cy - ay * cx,
            cv == cx * vy1 - cy * vx1,
    ;
    assert(ori(vx, vy, px, py, ax0, ay0) == -va) by (nonlinear_arith)
        requires
            vx1 == vx - px, vy1 == vy - py, ax == ax0 - px, ay == ay0 - py, va == vx1 * ay - vy1 * ax,
    ;
    assert(ori(ax0, ay0, cx0, cy0, px, py) == ac) by (nonlinear_arith)
        requires
            ax == ax0 - px, ay == ay0 - py, cx == cx0 - px, cy == cy0 - py, ac == ax * cy - ay * cx,
    ;
    assert(ori(vx, vy, px, py, cx0, cy0) == cv) by (nonlinear_arith)
        requires
            vx1 == vx - px, vy1 == vy - py, cx == cx0 - px, cy == cy0 - py, cv == cx * vy1 - cy * vx1,
    ;
    if ax < 0 {
        assert(va * cx >= 0) by (nonlinear_arith)
            requires
                va <= 0, cx <= 0,
        ;
        assert(ac * vx1 >= 0) by (nonlinear_arith)
            requires
                ac <= 0, vx1 <= 0,
        ;
        assert(cv >= 0) by (nonlinear_arith)
            requires
                cv * ax <= 0, ax < 0,
        ;
    } else {
        assert(ax == 0 && cx == 0);
        assert(va == vx1 * ay) by (nonlinear_arith)
            requires
                va == vx1 * ay - vy1 * ax, ax == 0,
        ;
        assert(cv == -(cy * vx1)) by (nonlinear_arith)
            requires
                cv == cx * vy1 - cy * vx1, cx == 0,
        ;
        assert(ay * vx1 == 0) by (nonlinear_arith)
            requires
                vx1 * ay <= 0, ay <= 0, vx1 <= 0,
        ;
        if vx1 == 0 {
            assert(cv == 0) by (nonlinear_arith)
                requires
                    cv == -(cy * vx1), vx1 == 0,
            ;
        } else {
            assert(ay == 0) by (nonlinear_arith)
                requires
                    ay * vx1 == 0, vx1 != 0,
            ;
            assert(cy == 0);
        }
    }
}

/// A point `q` between `a` and `c` that is on or left of the edge `a c`, where
/// both `a` and `c` are on or left of the edge `v p`, is on or left of `v p`.
proof fn lemma_between_left_of_edge(vx: int, vy: int, px: int, py: int, ax0: int, ay0: int, cx0: int, cy0: int, qx0: int, qy0: int)
    requires
        lle(vx, vy, px, py),
        lle(ax0, ay0, qx0, qy0),
        lle(qx0, qy0, cx0, cy0),
        ori(vx, vy, px, py, ax0, ay0) >= 0,
        ori(vx, vy, px, py, cx0, cy0) >= 0,
        ori(ax0, ay0, cx0, cy0, qx0, qy0) >= 0,
    ensures
        ori(vx, vy, px, py, qx0, qy0) >= 0,
{
    let (dx, dy) = (px - vx, py - vy);
    let (ax, ay) = (cx0 - ax0, cy0 - ay0);
    let (qx, qy) = (qx0 - ax0, qy0 - ay0);
    let fa = ori(vx, vy, px, py, ax0, ay0);
    let fc = ori(vx, vy, px, py, cx0, cy0);
    let fq = ori(vx, vy, px, py, qx0, qy0);
    let aq = ori(ax0, ay0, cx0, cy0, qx0, qy0);
    let dq = dx * qy - dy * qx;
    let da = dx * ay - dy * ax;
    assert(fq == fa + dq) by (nonlinear_arith)
        requires
            dx == px - vx, dy == py - vy, qx == qx0 - ax0, qy == qy0 - ay0, dq == dx * qy - dy * qx,
            fa == ori(vx, vy, px, py, ax0, ay0),
            fq == ori(vx, vy, px, py, qx0, qy0),
    ;
    assert(fc == fa + da) by (nonlinear_arith)
        requires
            dx == px - vx, dy == py - vy, ax == cx0 - ax0, ay == cy0 - ay0, da == dx * ay - dy * ax,
            fa == ori(vx, vy, px, py, ax0, ay0),
            fc == ori(vx, vy, px, py, cx0, cy0),
    ;
    assert(aq == ax * qy - ay * qx) by (nonlinear_arith)
        requires
            ax == cx0 - ax0, ay == cy0 - ay0, qx == qx0 - ax0, qy == qy0 - ay0,
            aq == ori(ax0, ay0, cx0, cy0, qx0, qy0),
    ;
    assert(ax * dq == aq * dx + da * qx) by (nonlinear_arith)
        requires
            dq == dx * qy - dy * qx, da == dx * ay - dy * ax, aq == ax * qy - ay * qx,
    ;
    assert(ax * fq == (ax - qx) * fa + qx * fc + aq * dx) by (nonlinear_arith)
        requires
            fq == fa + dq, fc == fa + da, ax * dq == aq * dx + da * qx,
    ;
    if ax > 0 {
        assert(fq >= 0) by (nonlinear_arith)
            requires
                ax * fq == (ax - qx) * fa + qx * fc + aq * dx, ax > 0, 0 <= qx <= ax, fa >= 0, fc >= 0,
                aq >= 0, dx >= 0,
        ;
    } else {
        assert(qx == 0 && ax == 0);
        assert(ay * fq == (ay - qy) * fa + qy * fc) by (nonlinear_arith)
            requires
                fq == fa + dq, fc == fa + da, dq == dx * qy - dy * qx, da == dx * ay - dy * ax, ax == 0,
                qx == 0,
        ;
        if ay > 0 {
            assert(fq >= 0) by (nonlinear_arith)
                requires
                    ay * fq == (ay - qy) * fa + qy * fc, ay > 0, 0 <= qy <= ay, fa >= 0, fc >= 0,
            ;
        } else {
            assert(qx0 == ax0 && qy0 == ay0);
        }
    }
}


/// `a` comes no later than `b` in the order in which a chain is built:
/// lexicographic, or its reverse when `rev`.
pub open spec fn before(rev: bool, a: [i32; 2], b: [i32; 2]) -> bool {
    if rev {
        pos_le(b, a)
    } else {
        pos_le(a, b)
    }
}

/// Whether `s` is ordered by `before(rev, ..)`.
pub open spec fn sorted_in(rev: bool, s: Seq<[i32; 2]>) -> bool {
    forall|i: int, j: int| 0 <= i <= j < s.len() ==> #[trigger] before(rev, s[i], s[j])
}

/// Whether `q` lies on or to the left of the edge from `c[k]` to `c[k + 1]`.
pub open spec fn left_of_edge(c: Seq<[i32; 2]>, k: int, q: [i32; 2]) -> bool {
    cross(c[k], c[k + 1], q) >= 0
}

/// Whether `q` lies on or to the left of every edge of the chain `c`.
pub open spec fn left_of_chain(c: Seq<[i32; 2]>, q: [i32; 2]) -> bool {
    forall|k: int| 0 <= k && k + 1 < c.len() ==> #[trigger] left_of_edge(c, k, q)
}

/// The first coordinate, negated when `rev`.
spec fn dx(rev: bool, a: [i32; 2]) -> int {
    if rev {
        -a[0]
    } else {
        a[0] as int
    }
}

/// The second coordinate, negated when `rev`.
spec fn dy(rev: bool, a: [i32; 2]) -> int {
    if rev {
        -a[1]
    } else {
        a[1] as int
    }
}

/// Negating every coordinate reverses the order and keeps orientations.
proof fn lemma_dir(rev: bool, a: [i32; 2], b: [i32; 2], c: [i32; 2])
    ensures
        before(rev, a, b) == lle(dx(rev, a), dy(rev, a), dx(rev, b), dy(rev, b)),
        cross(a, b, c) == ori(dx(rev, a), dy(rev, a), dx(rev, b), dy(rev, b), dx(rev, c), dy(rev, c)),
{
    let (a0, a1, b0, b1, c0, c1) = (a[0] as int, a[1] as int, b[0] as int, b[1] as int, c[0] as int, c[1] as int);
    assert(ori(-a0, -a1, -b0, -b1, -c0, -c1) == ori(a0, a1, b0, b1, c0, c1)) by (nonlinear_arith);
}

/// A degenerate triangle with a repeated corner has no area.
proof fn lemma_repeated_corner(v: [i32; 2], p: [i32; 2], q: [i32; 2])
    requires
        v[0] == q[0] && v[1] == q[1],
    ensures
        cross(v, p, q) == 0,
{
    assert((p[0] - v[0]) * (q[1] - v[1]) == 0 && (p[1] - v[1]) * (q[0] - v[0]) == 0) by (nonlinear_arith)
        requires
            v[0] == q[0] && v[1] == q[1],
    ;
}

/// The points that `pop_non_left` pops each make a clockwise or straight
/// turn with `p` after their predecessor, and a non-empty stack keeps its
/// first point.
proof fn lemma_popped(stack: Seq<[i32; 2]>, p: [i32; 2])
    ensures
        stack.len() >= 1 ==> pop_non_left(stack, p).len() >= 1,
        forall|i: int|
            pop_non_left(stack, p).len() <= i < stack.len() ==> i >= 1 && #[trigger] cross(
                stack[i - 1],
                stack[i],
                p,
            ) <= 0,
    decreases stack.len(),
{
    if stack.len() >= 2 && cross(stack[stack.len() - 2], stack[stack.len() - 1], p) <= 0 {
        let d = stack.drop_last();
        lemma_popped(d, p);
        assert forall|i: int| pop_non_left(stack, p).len() <= i < stack.len() implies i >= 1 && #[trigger] cross(
            stack[i - 1],
            stack[i],
            p,
        ) <= 0 by {
            if i < stack.len() - 1 {
                assert(stack[i - 1] == d[i - 1] && stack[i] == d[i]);
                assert(cross(d[i - 1], d[i], p) <= 0);
            }
        }
    }
}

/// `p`, which comes after every point of the chain `s`, lies on or to the
/// left of each of the first `m` points' edges when it lies strictly left of
/// the last of them.
proof fn lemma_p_left_of_kept(rev: bool, s: Seq<[i32; 2]>, m: int, p: [i32; 2], k: int)
    requires
        sorted_in(rev, s),
        turns_left(s),
        m <= s.len(),
        0 <= k && k + 1 < m,
        cross(s[m - 2], s[m - 1], p) > 0,
        forall|i: int| 0 <= i < s.len() ==> #[trigger] before(rev, s[i], p),
    ensures
        cross(s[k], s[k + 1], p) >= 0,
    decreases m - k,
{
    if k + 2 < m {
        lemma_p_left_of_kept(rev, s, m, p, k + 1);
        assert(turns_left_at(s, k));
        assert(before(rev, s[k], s[k + 1]) && before(rev, s[k + 1], s[k + 2]));
        assert(before(rev, s[k + 2], p));
        lemma_dir(rev, s[k], s[k + 1], s[k + 2]);
        lemma_dir(rev, s[k + 1], s[k + 2], p);
        lemma_dir(rev, s[k], s[k + 1], p);
        lemma_dir(rev, s[k + 2], p, p);
        lemma_left_carries_back(
            dx(rev, s[k]),
            dy(rev, s[k]),
            dx(rev, s[k + 1]),
            dy(rev, s[k + 1]),
            dx(rev, s[k + 2]),
            dy(rev, s[k + 2]),
            dx(rev, p),
            dy(rev, p),
        );
    }
}

/// Every point popped from the chain `s` (from `m` on) lies on or to the left
/// of the new edge from `s[m - 1]` to `p`.
proof fn lemma_popped_point(rev: bool, s: Seq<[i32; 2]>, m: int, p: [i32; 2], i: int)
    requires
        sorted_in(rev, s),
        1 <= m,
        m - 1 <= i < s.len(),
        forall|j: int| m <= j < s.len() ==> #[trigger] cross(s[j - 1], s[j], p) <= 0,
        forall|j: int| 0 <= j < s.len() ==> #[trigger] before(rev, s[j], p),
    ensures
        cross(s[m - 1], p, s[i]) >= 0,
    decreases i,
{
    if i == m - 1 {
        lemma_repeated_corner(s[m - 1], p, s[i]);
    } else {
        lemma_popped_point(rev, s, m, p, i - 1);
        assert(cross(s[i - 1], s[i], p) <= 0);
        assert(before(rev, s[m - 1], s[i - 1]) && before(rev, s[i - 1], s[i]));
        assert(before(rev, s[i], p));
        lemma_dir(rev, s[m - 1], p, s[i - 1]);
        lemma_dir(rev, s[i - 1], s[i], p);
        lemma_dir(rev, s[m - 1], p, s[i]);
        lemma_dir(rev, s[m - 1], s[i - 1], p);
        lemma_dir(rev, s[i], p, p);
        lemma_popped_left_of_new_edge(
            dx(rev, s[m - 1]),
            dy(rev, s[m - 1]),
            dx(rev, s[i - 1]),
            dy(rev, s[i - 1]),
            dx(rev, s[i]),
            dy(rev, s[i]),
            dx(rev, p),
            dy(rev, p),
        );
    }
}

/// A point `q` of the prefix lying after `s[m - 1]` but no later than `s[i]`
/// is on or to the left of the new edge from `s[m - 1]` to `p`.
proof fn lemma_region_point(rev: bool, s: Seq<[i32; 2]>, m: int, p: [i32; 2], i: int, q: [i32; 2])
    requires
        sorted_in(rev, s),
        1 <= m,
        m - 1 <= i < s.len(),
        forall|j: int| m <= j < s.len() ==> #[trigger] cross(s[j - 1], s[j], p) <= 0,
        forall|j: int| 0 <= j < s.len() ==> #[trigger] before(rev, s[j], p),
        before(rev, s[m - 1], q),
        before(rev, q, s[i]),
        left_of_chain(s, q),
    ensures
        cross(s[m - 1], p, q) >= 0,
    decreases i,
{
    let v = s[m - 1];
    if i == m - 1 {
        lemma_dir(rev, v, q, q);
        lemma_dir(rev, q, v, v);
        lemma_repeated_corner(v, p, q);
    } else if before(rev, q, s[i - 1]) {
        lemma_region_point(rev, s, m, p, i - 1, q);
    } else {
        lemma_popped_point(rev, s, m, p, i - 1);
        lemma_popped_point(rev, s, m, p, i);
        assert(left_of_edge(s, i - 1, q));
        assert(before(rev, v, p));
        lemma_dir(rev, s[i - 1], q, q);
        lemma_dir(rev, q, s[i - 1], q);
        lemma_dir(rev, v, p, s[i - 1]);
        lemma_dir(rev, v, p, s[i]);
        lemma_dir(rev, v, p, q);
        lemma_dir(rev, s[i - 1], s[i], q);
        lemma_dir(rev, q, s[i], q);
        lemma_between_left_of_edge(
            dx(rev, v),
            dy(rev, v),
            dx(rev, p),
            dy(rev, p),
            dx(rev, s[i - 1]),
            dy(rev, s[i - 1]),
            dx(rev, s[i]),
            dy(rev, s[i]),
            dx(rev, q),
            dy(rev, q),
        );
    }
}


/// The monotone chain of points ordered by `before(rev, ..)` is ordered the
/// same way, starts at the first point and ends at the last, has at least
/// two points when its input has, and every input point lies on or to the
/// left of each of its edges.
pub proof fn lemma_chain_bounds(rev: bool, pts: Seq<[i32; 2]>)
    requires
        sorted_in(rev, pts),
    ensures
        sorted_in(rev, chain(pts)),
        pts.len() > 0 ==> chain(pts).len() > 0 && chain(pts)[0] == pts[0] && chain(pts).last() == pts.last(),
        pts.len() >= 2 ==> chain(pts).len() >= 2,
        forall|q: [i32; 2]| pts.contains(q) ==> #[trigger] left_of_chain(chain(pts), q),
    decreases pts.len(),
{
    if pts.len() > 0 {
        let prefix = pts.drop_last();
        let p = pts.last();
        let sc = chain(prefix);
        assert(sorted_in(rev, prefix)) by {
            assert forall|i: int, j: int| 0 <= i <= j < prefix.len() implies #[trigger] before(rev, prefix[i], prefix[j]) by {
                assert(prefix[i] == pts[i] && prefix[j] == pts[j]);
            }
        }
        lemma_chain_bounds(rev, prefix);
        lemma_chain_turns_left(prefix);
        lemma_pop_non_left(sc, p);
        lemma_popped(sc, p);
        let kept = pop_non_left(sc, p);
        let m = kept.len() as int;
        let c = kept.push(p);
        assert(c == chain(pts));
        assert forall|j: int| 0 <= j < sc.len() implies #[trigger] before(rev, sc[j], p) by {
            assert(prefix.contains(sc[j]));
            let t = choose|t: int| 0 <= t < prefix.len() && prefix[t] == sc[j];
            assert(pts[t] == sc[j]);
            assert(before(rev, pts[t], pts[pts.len() - 1]));
        }
        assert(sorted_in(rev, c)) by {
            assert forall|i: int, j: int| 0 <= i <= j < c.len() implies #[trigger] before(rev, c[i], c[j]) by {
                if j < m {
                    assert(c[i] == sc[i] && c[j] == sc[j]);
                } else if i < m {
                    assert(c[i] == sc[i]);
                } else {
                    lemma_dir(rev, p, p, p);
                }
            }
        }
        assert forall|q: [i32; 2]| pts.contains(q) implies #[trigger] left_of_chain(c, q) by {
            let qi = choose|t: int| 0 <= t < pts.len() && pts[t] == q;
            assert forall|k: int| 0 <= k && k + 1 < c.len() implies #[trigger] left_of_edge(c, k, q) by {
                if k + 1 < m {
                    assert(c[k] == sc[k] && c[k + 1] == sc[k + 1]);
                    if qi < pts.len() - 1 {
                        assert(prefix[qi] == q);
                        assert(prefix.contains(q));
                        assert(left_of_chain(sc, q));
                        assert(left_of_edge(sc, k, q));
                    } else {
                        lemma_p_left_of_kept(rev, sc, m, p, k);
                    }
                } else {
                    let v = sc[m - 1];
                    assert(c[k] == v && c[k + 1] == p);
                    if qi == pts.len() - 1 {
                        assert(cross(v, p, p) == 0) by (nonlinear_arith);
                    } else {
                        assert(prefix[qi] == q);
                        assert(prefix.contains(q));
                        assert(left_of_chain(sc, q));
                        assert(before(rev, q, p));
                        assert(before(rev, q, prefix.last())) by {
                            assert(before(rev, pts[qi], pts[pts.len() - 2]));
                        }
                        lemma_dir(rev, q, v, p);
                        lemma_dir(rev, v, q, p);
                        lemma_dir(rev, v, p, q);
                        if before(rev, q, v) {
                            if m >= 2 {
                                let w = sc[m - 2];
                                assert(left_of_edge(sc, m - 2, q));
                                assert(before(rev, w, v));
                                lemma_dir(rev, w, v, q);
                                lemma_dir(rev, w, v, p);
                                lemma_left_of_new_edge_before(
                                    dx(rev, w),
                                    dy(rev, w),
                                    dx(rev, v),
                                    dy(rev, v),
                                    dx(rev, p),
                                    dy(rev, p),
                                    dx(rev, q),
                                    dy(rev, q),
                                );
                            } else {
                                assert(v == prefix[0]);
                                assert(before(rev, prefix[0], prefix[qi]));
                                lemma_repeated_corner(v, p, q);
                            }
                        } else {
                            lemma_region_point(rev, sc, m, p, sc.len() - 1, q);
                        }
                    }
                }
            }
        }
    }
}


/// Every input point lies on or to the left of every edge of the hull that
/// `convex_hull` returns, the closing edge from its last point back to its
/// first one included.
pub proof fn lemma_hull_contains_points(points: Seq<[i32; 2]>)
    requires
        points.len() >= 3,
    ensures
        forall|q: [i32; 2], k: int|
            points.contains(q) && 0 <= k < hull(points).len() ==> #[trigger] cross(
                hull(points)[k],
                hull(points)[(k + 1) % (hull(points).len() as int)],
                q,
            ) >= 0,
{
    let sorted = points.sort_by(pos_order());
    lemma_pos_order_total();
    points.lemma_sort_by_ensures(pos_order());
    vstd::seq_lib::to_multiset_len(sorted);
    vstd::seq_lib::to_multiset_len(points);
    let n = sorted.len() as int;
    let rs = sorted.reverse();
    assert(sorted_in(false, sorted)) by {
        assert forall|i: int, j: int| 0 <= i <= j < sorted.len() implies #[trigger] before(false, sorted[i], sorted[j]) by {
            if i < j {
                assert(pos_order()(sorted[i], sorted[j]));
            }
        }
    }
    assert(sorted_in(true, rs)) by {
        assert forall|i: int, j: int| 0 <= i <= j < rs.len() implies #[trigger] before(true, rs[i], rs[j]) by {
            assert(rs[i] == sorted[n - 1 - i] && rs[j] == sorted[n - 1 - j]);
            assert(before(false, sorted[n - 1 - j], sorted[n - 1 - i]));
        }
    }
    lemma_chain_bounds(false, sorted);
    lemma_chain_bounds(true, rs);
    let lc = chain(sorted);
    let uc = chain(rs);
    let lo = lc.drop_last();
    let up = uc.drop_last();
    let h = lo + up;
    assert(h == hull(points));
    let hl = h.len() as int;
    assert(uc[0] == lc.last());
    assert(uc.last() == lc[0]);
    assert forall|q: [i32; 2], k: int| points.contains(q) && 0 <= k < hl implies #[trigger] cross(
        h[k],
        h[(k + 1) % hl],
        q,
    ) >= 0 by {
        vstd::seq_lib::to_multiset_contains(points, q);
        vstd::seq_lib::to_multiset_contains(sorted, q);
        assert(sorted.contains(q));
        let t = choose|t: int| 0 <= t < sorted.len() && sorted[t] == q;
        assert(rs[n - 1 - t] == q);
        assert(rs.contains(q));
        assert(left_of_chain(lc, q));
        assert(left_of_chain(uc, q));
        if k < lo.len() {
            vstd::arithmetic::div_mod::lemma_small_mod((k + 1) as nat, hl as nat);
            assert(h[k] == lc[k]);
            assert(h[k + 1] == lc[k + 1]);
            assert(left_of_edge(lc, k, q));
        } else {
            let j = k - lo.len();
            assert(h[k] == uc[j]);
            if k + 1 < hl {
                vstd::arithmetic::div_mod::lemma_small_mod((k + 1) as nat, hl as nat);
                assert(h[k + 1] == uc[j + 1]);
            } else {
                vstd::arithmetic::div_mod::lemma_mod_self_0(hl);
                assert(h[0] == lc[0]);
                assert(uc[j + 1] == uc.last());
            }
            assert(left_of_edge(uc, j, q));
        }
    }
}


/// Dropping consecutive repeats keeps exactly the same points, keeps their
/// order, and keeps the last point.
proof fn lemma_dedup_points(rev: bool, s: Seq<[i32; 2]>)
    ensures
        forall|x: [i32; 2]| s.contains(x) <==> #[trigger] dedup_points(s).contains(x),
        sorted_in(rev, s) ==> sorted_in(rev, dedup_points(s)),
        s.len() > 0 ==> dedup_points(s).len() > 0 && dedup_points(s).last() == s.last(),
    decreases s.len(),
{
    if s.len() > 1 {
        let d = s.drop_last();
        lemma_dedup_points(rev, d);
        let dd = dedup_points(d);
        let same = s.last() == s[s.len() - 2];
        assert(same ==> dedup_points(s) == dd);
        assert(!same ==> dedup_points(s) == dd.push(s.last()));
        assert forall|x: [i32; 2]| s.contains(x) implies #[trigger] dedup_points(s).contains(x) by {
            let t = choose|t: int| 0 <= t < s.len() && s[t] == x;
            if t < s.len() - 1 || same {
                let u = if t < s.len() - 1 { t } else { s.len() - 2 };
                assert(d[u] == x);
                assert(d.contains(x));
                assert(dd.contains(x));
                if !same {
                    let w = choose|w: int| 0 <= w < dd.len() && dd[w] == x;
                    assert(dd.push(s.last())[w] == x);
                }
            } else {
                assert(dd.push(s.last())[dd.len() as int] == x);
            }
        }
        assert forall|x: [i32; 2]| #[trigger] dedup_points(s).contains(x) implies s.contains(x) by {
            let r = dedup_points(s);
            let t = choose|t: int| 0 <= t < r.len() && r[t] == x;
            if same || t < dd.len() {
                assert(dd[t] == x);
                assert(dd.contains(x));
                assert(d.contains(x));
                let u = choose|u: int| 0 <= u < d.len() && d[u] == x;
                assert(s[u] == x);
            } else {
                assert(s[s.len() - 1] == x);
            }
        }
        if sorted_in(rev, s) {
            assert(sorted_in(rev, d)) by {
                assert forall|i: int, j: int| 0 <= i <= j < d.len() implies #[trigger] before(rev, d[i], d[j]) by {
                    assert(d[i] == s[i] && d[j] == s[j]);
                }
            }
            if s.last() != s[s.len() - 2] {
                let r = dd.push(s.last());
                assert forall|i: int, j: int| 0 <= i <= j < r.len() implies #[trigger] before(rev, r[i], r[j]) by {
                    if j < dd.len() {
                        assert(r[i] == dd[i] && r[j] == dd[j]);
                    } else if i < dd.len() {
                        assert(r[i] == dd[i]);
                        assert(dd.contains(dd[i]));
                        let u = choose|u: int| 0 <= u < d.len() && d[u] == dd[i];
                        assert(s[u] == dd[i]);
                        assert(before(rev, s[u], s[s.len() - 1]));
                    } else {
                        lemma_dir(rev, s.last(), s.last(), s.last());
                    }
                }
            }
        }
    }
}

/// Every input point lies on or to the left of every edge of the hull that
/// `convex_hull_distinct` returns, the closing edge from its last point back
/// to its first one included.
pub proof fn lemma_hull_distinct_contains_points(points: Seq<[i32; 2]>)
    ensures
        forall|q: [i32; 2], k: int|
            points.contains(q) && 0 <= k < hull_distinct(points).len() ==> #[trigger] cross(
                hull_distinct(points)[k],
                hull_distinct(points)[(k + 1) % (hull_distinct(points).len() as int)],
                q,
            ) >= 0,
{
    let sorted = points.sort_by(pos_order());
    lemma_pos_order_total();
    points.lemma_sort_by_ensures(pos_order());
    let n = sorted.len() as int;
    assert(sorted_in(false, sorted)) by {
        assert forall|i: int, j: int| 0 <= i <= j < sorted.len() implies #[trigger] before(false, sorted[i], sorted[j]) by {
            if i < j {
                assert(pos_order()(sorted[i], sorted[j]));
            }
        }
    }
    lemma_dedup_points(false, sorted);
    let d = dedup_points(sorted);
    let dn = d.len() as int;
    let h = hull_distinct(points);
    let hl = h.len() as int;
    if dn <= 2 {
        assert(h == d);
        assert forall|q: [i32; 2], k: int| points.contains(q) && 0 <= k < hl implies #[trigger] cross(
            h[k],
            h[(k + 1) % hl],
            q,
        ) >= 0 by {
            vstd::seq_lib::to_multiset_contains(points, q);
            vstd::seq_lib::to_multiset_contains(sorted, q);
            assert(d.contains(q));
            let t = choose|t: int| 0 <= t < dn && d[t] == q;
            let k1 = (k + 1) % hl;
            if hl == 1 {
                assert(k1 == 0);
                lemma_repeated_corner(d[0], d[0], q);
            } else {
                assert(0 <= k1 < 2);
                if t == k {
                    lemma_repeated_corner(h[k], h[k1], q);
                } else {
                    assert(k1 == t) by {
                        if k == 0 {
                            vstd::arithmetic::div_mod::lemma_small_mod(1, 2);
                        } else {
                            vstd::arithmetic::div_mod::lemma_mod_self_0(2);
                        }
                    }
                    assert(cross(h[k], q, q) == 0) by (nonlinear_arith);
                }
            }
        }
    } else {
        let rs = d.reverse();
        assert(sorted_in(true, rs)) by {
            assert forall|i: int, j: int| 0 <= i <= j < rs.len() implies #[trigger] before(true, rs[i], rs[j]) by {
                assert(rs[i] == d[dn - 1 - i] && rs[j] == d[dn - 1 - j]);
                assert(before(false, d[dn - 1 - j], d[dn - 1 - i]));
            }
        }
        lemma_chain_bounds(false, d);
        lemma_chain_bounds(true, rs);
        let lc = chain(d);
        let uc = chain(rs);
        let lo = lc.drop_last();
        let up = uc.drop_last();
        assert(h == lo + up);
        assert(uc[0] == lc.last());
        assert(uc.last() == lc[0]);
        assert forall|q: [i32; 2], k: int| points.contains(q) && 0 <= k < hl implies #[trigger] cross(
            h[k],
            h[(k + 1) % hl],
            q,
        ) >= 0 by {
            vstd::seq_lib::to_multiset_contains(points, q);
            vstd::seq_lib::to_multiset_contains(sorted, q);
            assert(d.contains(q));
            let t = choose|t: int| 0 <= t < dn && d[t] == q;
            assert(rs[dn - 1 - t] == q);
            assert(rs.contains(q));
            assert(left_of_chain(lc, q));
            assert(left_of_chain(uc, q));
            if k < lo.len() {
                vstd::arithmetic::div_mod::lemma_small_mod((k + 1) as nat, hl as nat);
                assert(h[k] == lc[k]);
                assert(h[k + 1] == lc[k + 1]);
                assert(left_of_edge(lc, k, q));
            } else {
                let j = k - lo.len();
                assert(h[k] == uc[j]);
                if k + 1 < hl {
                    vstd::arithmetic::div_mod::lemma_small_mod((k + 1) as nat, hl as nat);
                    assert(h[k + 1] == uc[j + 1]);
                } else {
                    vstd::arithmetic::div_mod::lemma_mod_self_0(hl);
                    assert(h[0] == lc[0]);
                    assert(uc[j + 1] == uc.last());
                }
                assert(left_of_edge(uc, j, q));
            }
        }
    }
}

} // verus!
