//! Convex hulls and oriented bounding quadrilaterals.
//!
//! Everything here is exact integer geometry: cross products decide turns,
//! squared lengths replace lengths, and rectangle trials are compared as
//! rational areas by cross-multiplication.
use vstd::prelude::*;

use crate::cluster::dbscan;
use crate::math::isqrt_spec;
use crate::math::tdiv;
use crate::point::Point;

verus! {

/// Tolerance on the collinearity test (in squared coordinate units): triples
/// whose perpendicular dot product is at most this are collapsed.
pub const COLLINEAR_TOL: i64 = 1;

/// 2D cross product of two vectors.
pub open spec fn spec_cross(a: Point, b: Point) -> int {
    a.x * b.y - a.y * b.x
}

/// Dot product of two vectors.
pub open spec fn spec_dot(a: Point, b: Point) -> int {
    a.x * b.x + a.y * b.y
}

/// Cross product of `a - o` and `b - o`: positive when `o -> a -> b` turns
/// left in image coordinates (y grows down), negative when it turns right,
/// zero when collinear.
pub open spec fn cross3(o: Point, a: Point, b: Point) -> int {
    (a.x - o.x) * (b.y - o.y) - (a.y - o.y) * (b.x - o.x)
}

/// The cross products this library forms stay well inside `i64`.
pub proof fn lemma_cross3_bound(o: Point, a: Point, b: Point)
    requires
        o.in_range(),
        a.in_range(),
        b.in_range(),
    ensures
        -0x10000000000 <= cross3(o, a, b) <= 0x10000000000,
{
    crate::math::lemma_mul_abs_bound(a.x - o.x, b.y - o.y, 0x80000int, 0x80000int);
    crate::math::lemma_mul_abs_bound(a.y - o.y, b.x - o.x, 0x80000int, 0x80000int);
}

/// Squared Euclidean distance between two points (the classic free-function
/// form).
pub fn dist_squared(a: Point, b: Point) -> (r: i64)
    requires
        a.in_range(),
        b.in_range(),
    ensures
        r == a.dist2_spec(b),
        r >= 0,
{
    a.dist2(&b)
}

/// 2D cross product of two in-range difference vectors.
pub fn cross_product(a: Point, b: Point) -> (r: i64)
    requires
        -0x80000 <= a.x <= 0x80000,
        -0x80000 <= a.y <= 0x80000,
        -0x80000 <= b.x <= 0x80000,
        -0x80000 <= b.y <= 0x80000,
    ensures
        r == spec_cross(a, b),
{
    proof {
        crate::math::lemma_mul_abs_bound(a.x as int, b.y as int, 0x80000int, 0x80000int);
        crate::math::lemma_mul_abs_bound(a.y as int, b.x as int, 0x80000int, 0x80000int);
    }
    a.x * b.y - a.y * b.x
}

/// Dot product of two in-range difference vectors.
pub fn dot_product(a: Point, b: Point) -> (r: i64)
    requires
        -0x80000 <= a.x <= 0x80000,
        -0x80000 <= a.y <= 0x80000,
        -0x80000 <= b.x <= 0x80000,
        -0x80000 <= b.y <= 0x80000,
    ensures
        r == spec_dot(a, b),
{
    proof {
        crate::math::lemma_mul_abs_bound(a.x as int, b.x as int, 0x80000int, 0x80000int);
        crate::math::lemma_mul_abs_bound(a.y as int, b.y as int, 0x80000int, 0x80000int);
    }
    a.x * b.x + a.y * b.y
}

/// The perpendicular of a vector: `(-y, x)`.
pub open spec fn spec_perp(p: Point) -> Point {
    Point { x: (-p.y) as i64, y: p.x }
}

/// The perpendicular of an in-range difference vector.
pub fn perp(p: Point) -> (r: Point)
    requires
        -0x80000 <= p.x <= 0x80000,
        -0x80000 <= p.y <= 0x80000,
    ensures
        r == spec_perp(p),
{
    Point { x: -p.y, y: p.x }
}

/// Exact cross product of `a - o` and `b - o` on in-range points.
fn cross3_exec(o: Point, a: Point, b: Point) -> (r: i64)
    requires
        o.in_range(),
        a.in_range(),
        b.in_range(),
    ensures
        r == cross3(o, a, b),
{
    proof {
        lemma_cross3_bound(o, a, b);
        crate::math::lemma_mul_abs_bound(a.x - o.x, b.y - o.y, 0x80000int, 0x80000int);
        crate::math::lemma_mul_abs_bound(a.y - o.y, b.x - o.x, 0x80000int, 0x80000int);
    }
    (a.x - o.x) * (b.y - o.y) - (a.y - o.y) * (b.x - o.x)
}

/// The signed fan sum of a polygon from its first vertex: twice its signed
/// area, summed over the fan triangles `(h[0], h[i], h[i+1])`.
pub open spec fn fan_sum(h: Seq<Point>, i: int) -> int
    decreases h.len() - i,
    when 0 <= i <= h.len()
{
    if i + 1 >= h.len() {
        0
    } else {
        cross3(h[0], h[i], h[i + 1]) + fan_sum(h, i + 1)
    }
}

/// The area of a polygon: half the magnitude of its fan sum.
pub open spec fn polygon_area(h: Seq<Point>) -> int {
    if fan_sum(h, 0) >= 0 {
        fan_sum(h, 0) / 2
    } else {
        (-fan_sum(h, 0)) / 2
    }
}

/// Area of a convex polygon by fan triangulation from its first vertex.
pub fn convex_hull_area(hull: &Vec<Point>) -> (r: i64)
    requires
        forall|i: int| 0 <= i < hull@.len() ==> hull@[i].in_range(),
        1 <= hull@.len() <= 0x400000,
    ensures
        r == polygon_area(hull@),
        r >= 0,
{
    let n = hull.len();
    let h0 = hull[0];
    let mut acc: i128 = 0;
    let mut i: usize = 0;
    while i + 1 < n
        invariant
            n == hull@.len(),
            1 <= n <= 0x400000,
            i < n,
            h0 == hull@[0],
            forall|q: int| 0 <= q < hull@.len() ==> hull@[q].in_range(),
            fan_sum(hull@, 0) == acc + fan_sum(hull@, i as int),
            -0x10000000000 * (i as int) <= acc <= 0x10000000000 * (i as int),
        decreases n - i,
    {
        let c = cross3_exec(h0, hull[i], hull[i + 1]);
        proof {
            lemma_cross3_bound(hull@[0], hull@[i as int], hull@[i + 1]);
        }
        acc = acc + c as i128;
        i = i + 1;
    }
    let doubled: i64 = if acc >= 0 {
        acc as i64
    } else {
        (-acc) as i64
    };
    doubled / 2
}

/// Twice the area of the triangle `(a, b, c)`, always nonnegative.
pub open spec fn tri_area2(a: Point, b: Point, c: Point) -> int {
    if cross3(a, b, c) >= 0 {
        cross3(a, b, c)
    } else {
        -cross3(a, b, c)
    }
}

/// The area of a quadrilateral split into the fan triangles `(q0, q1, q2)`
/// and `(q0, q2, q3)`, each triangle's area rounded down separately.
pub open spec fn quad_area(q: Seq<Point>) -> int {
    tri_area2(q[0], q[1], q[2]) / 2 + tri_area2(q[0], q[2], q[3]) / 2
}

/// Area of a quadrilateral as the sum of its two fan triangles.
pub fn bounding_box_area(points: [Point; 4]) -> (r: i64)
    requires
        forall|i: int| 0 <= i < 4 ==> points@[i].in_range(),
    ensures
        r == quad_area(points@),
        0 <= r <= 0x10000000000,
{
    let d1 = cross3_exec(points[0], points[1], points[2]);
    let d2 = cross3_exec(points[0], points[2], points[3]);
    proof {
        lemma_cross3_bound(points@[0], points@[1], points@[2]);
        lemma_cross3_bound(points@[0], points@[2], points@[3]);
    }
    let t1 = if d1 >= 0 {
        d1
    } else {
        -d1
    };
    let t2 = if d2 >= 0 {
        d2
    } else {
        -d2
    };
    t1 / 2 + t2 / 2
}

/// The points of `pts[k..]` that lie inside a frame of `w` by `h` pixels.
pub open spec fn in_bounds_scan(pts: Seq<Point>, w: int, h: int, k: int) -> Seq<Point>
    decreases pts.len() - k,
    when 0 <= k <= pts.len()
{
    if k >= pts.len() {
        Seq::empty()
    } else if 0 <= pts[k].x < w * crate::SCALE && 0 <= pts[k].y < h * crate::SCALE {
        seq![pts[k]] + in_bounds_scan(pts, w, h, k + 1)
    } else {
        in_bounds_scan(pts, w, h, k + 1)
    }
}

/// Keeps the points that fall inside a frame of `w` by `h` pixels, in order.
pub fn points_in_bounds(points: &Vec<Point>, w: u32, h: u32) -> (r: Vec<Point>)
    requires
        w <= crate::image::MAX_DIM,
        h <= crate::image::MAX_DIM,
    ensures
        r@ == in_bounds_scan(points@, w as int, h as int, 0),
{
    let n = points.len();
    let wb: i64 = (w as i64) * crate::SCALE;
    let hb: i64 = (h as i64) * crate::SCALE;
    let mut r: Vec<Point> = Vec::new();
    let mut k: usize = 0;
    while k < n
        invariant
            n == points@.len(),
            k <= n,
            wb == (w as int) * crate::SCALE,
            hb == (h as int) * crate::SCALE,
            in_bounds_scan(points@, w as int, h as int, 0) == r@ + in_bounds_scan(
                points@,
                w as int,
                h as int,
                k as int,
            ),
        decreases n - k,
    {
        let p = points[k];
        if 0 <= p.x && p.x < wb && 0 <= p.y && p.y < hb {
            r.push(p);
            assert(in_bounds_scan(points@, w as int, h as int, 0) =~= r@ + in_bounds_scan(
                points@,
                w as int,
                h as int,
                k + 1,
            ));
        }
        k = k + 1;
    }
    r
}

/// The successor of `i` around a polygon of `len` vertices.
pub open spec fn next_idx(len: int, i: int) -> int {
    if i + 1 >= len {
        0
    } else {
        i + 1
    }
}

/// The predecessor of `i` around a polygon of `len` vertices.
pub open spec fn prev_idx(len: int, i: int) -> int {
    if i == 0 {
        len - 1
    } else {
        i - 1
    }
}

/// Every point of `pts` lies inside or on the polygon `h`: on or to the left
/// of every directed edge (in image coordinates a clockwise polygon keeps its
/// interior on the nonnegative-cross side).
pub open spec fn hull_contains_all(h: Seq<Point>, pts: Seq<Point>) -> bool {
    forall|i: int, j: int|
        0 <= i < h.len() && 0 <= j < pts.len() ==> #[trigger] cross3(
            h[i],
            h[next_idx(h.len() as int, i)],
            pts[j],
        ) >= 0
}

/// Every vertex of `h` is a strict corner: it lies strictly outside the chord
/// joining its neighbours, while every other vertex lies on the inner side of
/// that chord.
pub open spec fn hull_vertices_extreme(h: Seq<Point>) -> bool {
    (forall|i: int, j: int|
        0 <= i < h.len() && 0 <= j < h.len() && j != i ==> #[trigger] cross3(
            h[prev_idx(h.len() as int, i)],
            h[next_idx(h.len() as int, i)],
            h[j],
        ) >= 0) && (forall|i: int|
        0 <= i < h.len() ==> #[trigger] cross3(
            h[prev_idx(h.len() as int, i)],
            h[next_idx(h.len() as int, i)],
            h[i],
        ) < 0)
}

/// The collinearity filter keeps vertex `i` when the turn through it is
/// sharper than the tolerance: the dot product of the edge into it with the
/// perpendicular of the edge out of it exceeds `COLLINEAR_TOL` in magnitude.
pub open spec fn keep_vertex(s: Seq<Point>, i: int) -> bool {
    let p = s[prev_idx(s.len() as int, i)];
    let v = s[i];
    let n = s[next_idx(s.len() as int, i)];
    let dp = (p.x - v.x) * (-(v.y - n.y)) + (p.y - v.y) * (v.x - n.x);
    dp > COLLINEAR_TOL || dp < -COLLINEAR_TOL
}

/// Every element of `a` occurs in `b`.
pub open spec fn points_subset(a: Seq<Point>, b: Seq<Point>) -> bool {
    forall|i: int| 0 <= i < a.len() ==> b.contains(#[trigger] a[i])
}

/// The directional dot product `d . (q - p)` for direction `(dx, dy)`.
pub open spec fn dir_dot(dx: int, dy: int, q: Point, p: Point) -> int {
    dx * (q.x - p.x) + dy * (q.y - p.y)
}

/// Some point of `s` lies strictly on the `(dx, dy)` side of `p`.
pub open spec fn side_holds_point(dx: int, dy: int, p: Point, s: Seq<Point>) -> bool {
    exists|k: int| 0 <= k < s.len() && #[trigger] dir_dot(dx, dy, s[k], p) > 0
}

/// `p` lies strictly inside the convex hull of `s`: every open half-plane
/// through `p` holds a point of `s`.
pub open spec fn strictly_inside(p: Point, s: Seq<Point>) -> bool {
    forall|dx: int, dy: int|
        !(dx == 0 && dy == 0) ==> #[trigger] side_holds_point(dx, dy, p, s)
}

/// The directional dot product is translation-free: measuring `q` against `p`
/// equals the difference of both measured against any anchor `a`.
proof fn lemma_dir_dot_diff(dx: int, dy: int, q: Point, p: Point, a: Point)
    by (nonlinear_arith)
    ensures
        dx * (q.x - p.x) + dy * (q.y - p.y) == (dx * (q.x - a.x) + dy * (q.y - a.y)) - (dx * (p.x
            - a.x) + dy * (p.y - a.y)),
{
}

/// No vertex of a polygon whose vertices are all strict corners lies strictly
/// inside the convex hull of the remaining vertices: the chord through its
/// neighbours witnesses a half-plane that separates it.
pub proof fn lemma_vertex_not_inside(h: Seq<Point>, i: int)
    requires
        hull_vertices_extreme(h),
        3 <= h.len(),
        0 <= i < h.len(),
    ensures
        !strictly_inside(h[i], h.remove(i)),
{
    let len = h.len() as int;
    let a = h[prev_idx(len, i)];
    let b = h[next_idx(len, i)];
    let v = h[i];
    assert(cross3(a, b, v) < 0);
    let dx = b.y - a.y;
    let dy = -(b.x - a.x);
    assert(!(dx == 0 && dy == 0)) by {
        if dx == 0 && dy == 0 {
            assert(cross3(a, b, v) == (b.x - a.x) * (v.y - a.y) - (b.y - a.y) * (v.x - a.x));
            assert((b.x - a.x) * (v.y - a.y) == 0) by (nonlinear_arith)
                requires
                    b.x - a.x == 0,
            ;
            assert((b.y - a.y) * (v.x - a.x) == 0) by (nonlinear_arith)
                requires
                    b.y - a.y == 0,
            ;
        }
    }
    let rem = h.remove(i);
    assert forall|k: int| 0 <= k < rem.len() implies !(dir_dot(dx, dy, rem[k], v) > 0) by {
        let j: int = if k < i {
            k
        } else {
            k + 1
        };
        assert(rem[k] == h[j]);
        let q = h[j];
        assert(cross3(a, b, q) >= 0);
        lemma_dir_dot_diff(dx, dy, q, v, a);
        assert(dx * (q.x - a.x) + dy * (q.y - a.y) == -cross3(a, b, q)) by (nonlinear_arith)
            requires
                dx == b.y - a.y,
                dy == -(b.x - a.x),
        ;
        assert(dx * (v.x - a.x) + dy * (v.y - a.y) == -cross3(a, b, v)) by (nonlinear_arith)
            requires
                dx == b.y - a.y,
                dy == -(b.x - a.x),
        ;
        assert(dir_dot(dx, dy, q, v) == cross3(a, b, v) - cross3(a, b, q));
    }
    assert(!strictly_inside(v, rem)) by {
        if strictly_inside(v, rem) {
            assert(side_holds_point(dx, dy, v, rem));
            let k = choose|k: int| 0 <= k < rem.len() && #[trigger] dir_dot(dx, dy, rem[k], v) > 0;
            assert(dir_dot(dx, dy, rem[k], v) > 0);
        }
    }
}

/// The vertices that a single collinearity pass keeps, scanning from `k`.
pub open spec fn pass_scan(s: Seq<Point>, k: int) -> Seq<Point>
    decreases s.len() - k,
    when 0 <= k <= s.len()
{
    if k >= s.len() {
        Seq::empty()
    } else if keep_vertex(s, k) {
        seq![s[k]] + pass_scan(s, k + 1)
    } else {
        pass_scan(s, k + 1)
    }
}

/// A pass keeps at most the rest of the sequence, and keeps all of it exactly
/// when every remaining vertex passes the turn test.
proof fn lemma_pass_scan_len(s: Seq<Point>, k: int)
    requires
        0 <= k <= s.len(),
    ensures
        pass_scan(s, k).len() <= s.len() - k,
        pass_scan(s, k).len() == s.len() - k ==> (forall|m: int|
            k <= m < s.len() ==> keep_vertex(s, m)),
    decreases s.len() - k,
{
    if k < s.len() {
        lemma_pass_scan_len(s, k + 1);
    }
}

/// Collinearity passes applied until stable, with explicit fuel; each
/// unstable pass strictly shortens the sequence, so fuel equal to the length
/// always suffices.
pub open spec fn trim_rec(s: Seq<Point>, fuel: nat) -> Seq<Point>
    decreases fuel,
{
    let t = pass_scan(s, 0);
    if t.len() == s.len() || fuel == 0 {
        s
    } else {
        trim_rec(t, (fuel - 1) as nat)
    }
}

/// The collinearity filter iterated to its fixpoint: no vertex whose
/// neighbours are collinear with it within tolerance remains.
pub open spec fn colinear_trimmed(s: Seq<Point>) -> Seq<Point> {
    trim_rec(s, s.len())
}

/// Any fuel at least the sequence length reaches the same fixpoint.
proof fn lemma_trim_fuel(s: Seq<Point>, f1: nat, f2: nat)
    requires
        f1 >= s.len(),
        f2 >= s.len(),
    ensures
        trim_rec(s, f1) == trim_rec(s, f2),
    decreases s.len(),
{
    let t = pass_scan(s, 0);
    lemma_pass_scan_len(s, 0);
    if t.len() != s.len() {
        lemma_trim_fuel(t, (f1 - 1) as nat, (f2 - 1) as nat);
    }
}

/// One collinearity pass: keeps the vertices whose turn exceeds the
/// tolerance.
fn colinear_pass(points: &Vec<Point>) -> (out: Vec<Point>)
    requires
        forall|i: int| 0 <= i < points@.len() ==> points@[i].in_range(),
    ensures
        out@ == pass_scan(points@, 0),
        points_subset(out@, points@),
{
    let n = points.len();
    let mut out: Vec<Point> = Vec::new();
    let mut k: usize = 0;
    while k < n
        invariant
            n == points@.len(),
            k <= n,
            forall|i: int| 0 <= i < points@.len() ==> points@[i].in_range(),
            pass_scan(points@, 0) == out@ + pass_scan(points@, k as int),
            points_subset(out@, points@),
        decreases n - k,
    {
        let pv = points[if k == 0 {
            n - 1
        } else {
            k - 1
        }];
        let v = points[k];
        let nx = points[if k + 1 == n {
            0
        } else {
            k + 1
        }];
        let ep = pv.sub(v);
        let en = v.sub(nx);
        let dp = dot_product(ep, Point { x: -en.y, y: en.x });
        if dp > COLLINEAR_TOL || dp < -COLLINEAR_TOL {
            assert(keep_vertex(points@, k as int));
            out.push(v);
            assert(pass_scan(points@, 0) =~= out@ + pass_scan(points@, k + 1));
            assert(points@.contains(v));
        } else {
            assert(!keep_vertex(points@, k as int));
        }
        k = k + 1;
    }
    out
}

/// Removes vertices whose neighbours are collinear with them within the
/// tolerance, repeating the pass until it is stable, so that no such triple
/// remains.
pub fn remove_colinear_points(points: &Vec<Point>) -> (out: Vec<Point>)
    requires
        forall|i: int| 0 <= i < points@.len() ==> points@[i].in_range(),
    ensures
        out@ == colinear_trimmed(points@),
        out@.len() <= points@.len(),
        forall|i: int| 0 <= i < out@.len() ==> keep_vertex(out@, i),
        points_subset(out@, points@),
        forall|i: int| 0 <= i < out@.len() ==> out@[i].in_range(),
{
    let mut cur: Vec<Point> = Vec::new();
    let mut t: usize = 0;
    let n = points.len();
    while t < n
        invariant
            n == points@.len(),
            t <= n,
            cur@ == points@.take(t as int),
        decreases n - t,
    {
        cur.push(points[t]);
        assert(cur@ =~= points@.take(t + 1));
        t = t + 1;
    }
    assert(cur@ =~= points@);
    assert forall|i: int| 0 <= i < cur@.len() implies points@.contains(#[trigger] cur@[i]) by {
        assert(points@[i] == cur@[i]);
    }
    loop
        invariant
            cur@.len() <= points@.len(),
            forall|i: int| 0 <= i < points@.len() ==> points@[i].in_range(),
            points_subset(cur@, points@),
            forall|i: int| 0 <= i < cur@.len() ==> cur@[i].in_range(),
            colinear_trimmed(points@) == trim_rec(cur@, cur@.len() as nat),
        ensures
            cur@ == colinear_trimmed(points@),
            cur@.len() <= points@.len(),
            forall|i: int| 0 <= i < cur@.len() ==> keep_vertex(cur@, i),
            points_subset(cur@, points@),
            forall|i: int| 0 <= i < cur@.len() ==> cur@[i].in_range(),
        decreases cur@.len(),
    {
        let ghost curg = cur@;
        let next = colinear_pass(&cur);
        proof {
            lemma_pass_scan_len(curg, 0);
        }
        if next.len() == cur.len() {
            proof {
                assert(forall|m: int| 0 <= m < curg.len() ==> keep_vertex(curg, m));
                assert(trim_rec(curg, curg.len() as nat) == curg);
            }
            break;
        }
        proof {
            assert(next@.len() < curg.len());
            assert(trim_rec(curg, curg.len() as nat) == trim_rec(
                next@,
                (curg.len() - 1) as nat,
            ));
            lemma_trim_fuel(next@, (curg.len() - 1) as nat, next@.len() as nat);
        }
        assert forall|i: int| 0 <= i < next@.len() implies points@.contains(
            #[trigger] next@[i],
        ) by {
            assert(curg.contains(next@[i]));
            let w = choose|w: int| 0 <= w < curg.len() && curg[w] == next@[i];
            assert(points@.contains(curg[w]));
        }
        assert forall|i: int| 0 <= i < next@.len() implies next@[i].in_range() by {
            let j = choose|j: int| 0 <= j < points@.len() && points@[j] == next@[i];
        }
        cur = next;
    }
    cur
}

/// Projection of `p` on the trial direction `e`, scaled by `|e|`.
pub open spec fn proj_u(p: Point, e: Point) -> int {
    p.x * e.x + p.y * e.y
}

/// Projection of `p` on the perpendicular of `e`, scaled by `|e|`.
pub open spec fn proj_v(p: Point, e: Point) -> int {
    p.y * e.x - p.x * e.y
}

/// Squared length of a direction vector.
pub open spec fn len2(e: Point) -> int {
    e.x * e.x + e.y * e.y
}

/// Smallest `proj_u` among the first `k` points.
pub open spec fn min_u(ps: Seq<Point>, e: Point, k: int) -> int
    decreases k,
    when 1 <= k <= ps.len()
{
    if k == 1 {
        proj_u(ps[0], e)
    } else {
        let r = min_u(ps, e, k - 1);
        if proj_u(ps[k - 1], e) < r {
            proj_u(ps[k - 1], e)
        } else {
            r
        }
    }
}

/// Largest `proj_u` among the first `k` points.
pub open spec fn max_u(ps: Seq<Point>, e: Point, k: int) -> int
    decreases k,
    when 1 <= k <= ps.len()
{
    if k == 1 {
        proj_u(ps[0], e)
    } else {
        let r = max_u(ps, e, k - 1);
        if proj_u(ps[k - 1], e) > r {
            proj_u(ps[k - 1], e)
        } else {
            r
        }
    }
}

/// Smallest `proj_v` among the first `k` points.
pub open spec fn min_v(ps: Seq<Point>, e: Point, k: int) -> int
    decreases k,
    when 1 <= k <= ps.len()
{
    if k == 1 {
        proj_v(ps[0], e)
    } else {
        let r = min_v(ps, e, k - 1);
        if proj_v(ps[k - 1], e) < r {
            proj_v(ps[k - 1], e)
        } else {
            r
        }
    }
}

/// Largest `proj_v` among the first `k` points.
pub open spec fn max_v(ps: Seq<Point>, e: Point, k: int) -> int
    decreases k,
    when 1 <= k <= ps.len()
{
    if k == 1 {
        proj_v(ps[0], e)
    } else {
        let r = max_v(ps, e, k - 1);
        if proj_v(ps[k - 1], e) > r {
            proj_v(ps[k - 1], e)
        } else {
            r
        }
    }
}

/// The area of the rectangle of trial direction `e` around all of `ps`,
/// scaled by `len2(e)`: spread along `e` times spread across `e`.
pub open spec fn area_num(ps: Seq<Point>, e: Point) -> int {
    (max_u(ps, e, ps.len() as int) - min_u(ps, e, ps.len() as int)) * (max_v(
        ps,
        e,
        ps.len() as int,
    ) - min_v(ps, e, ps.len() as int))
}

/// The direction of the polygon edge leaving vertex `i`.
pub open spec fn edge_dir(ps: Seq<Point>, i: int) -> Point {
    Point {
        x: (ps[next_idx(ps.len() as int, i)].x - ps[i].x) as i64,
        y: (ps[next_idx(ps.len() as int, i)].y - ps[i].y) as i64,
    }
}

/// The axis-aligned trial direction.
pub open spec fn axis_dir() -> Point {
    Point { x: 1, y: 0 }
}

/// The best trial direction after considering the axis-aligned trial and the
/// first `k` polygon edges, in order: a later edge wins only by a strictly
/// smaller rational area `area_num / len2`.
pub open spec fn best_dir(ps: Seq<Point>, k: int) -> Point
    decreases k,
    when 0 <= k <= ps.len()
{
    if k <= 0 {
        axis_dir()
    } else {
        let prev = best_dir(ps, k - 1);
        let e = edge_dir(ps, k - 1);
        if len2(e) > 0 && area_num(ps, e) * len2(prev) < area_num(ps, prev) * len2(e) {
            e
        } else {
            prev
        }
    }
}

/// A rectangle corner in image coordinates, back-rotated from frame
/// coordinates `(u, v)` of the trial `e`, each coordinate rounded toward zero.
pub open spec fn frame_corner(u: int, v: int, e: Point) -> Point {
    Point {
        x: tdiv(u * e.x - v * e.y, len2(e)) as i64,
        y: tdiv(u * e.y + v * e.x, len2(e)) as i64,
    }
}

/// The corners of the minimum-area trial rectangle, before canonical
/// ordering: the four extreme frame coordinates, back-rotated.
pub open spec fn obb_raw_corners(ps: Seq<Point>) -> Seq<Point> {
    let e = best_dir(ps, ps.len() as int);
    let n = ps.len() as int;
    seq![
        frame_corner(min_u(ps, e, n), min_v(ps, e, n), e),
        frame_corner(max_u(ps, e, n), min_v(ps, e, n), e),
        frame_corner(max_u(ps, e, n), max_v(ps, e, n), e),
        frame_corner(min_u(ps, e, n), max_v(ps, e, n), e),
    ]
}

/// The oriented bounding box of `ps`: the canonical order of the raw corners,
/// or nothing when a rounded corner leaves the coordinate range.
pub open spec fn obb_spec(ps: Seq<Point>) -> Option<Seq<Point>> {
    let raw = obb_raw_corners(ps);
    if forall|i: int| 0 <= i < 4 ==> (#[trigger] raw[i]).in_range() {
        Some(quad_canonical(raw))
    } else {
        None
    }
}

/// Frame projections of in-range points on a short direction stay small.
proof fn lemma_proj_bounds(p: Point, e: Point)
    requires
        p.in_range(),
        -0x80000 <= e.x <= 0x80000,
        -0x80000 <= e.y <= 0x80000,
    ensures
        -0x4000000000 <= proj_u(p, e) <= 0x4000000000,
        -0x4000000000 <= proj_v(p, e) <= 0x4000000000,
{
    crate::math::lemma_mul_abs_bound(p.x as int, e.x as int, crate::MAX_COORD as int, 0x80000int);
    crate::math::lemma_mul_abs_bound(p.y as int, e.y as int, crate::MAX_COORD as int, 0x80000int);
    crate::math::lemma_mul_abs_bound(p.y as int, e.x as int, crate::MAX_COORD as int, 0x80000int);
    crate::math::lemma_mul_abs_bound(p.x as int, e.y as int, crate::MAX_COORD as int, 0x80000int);
}

/// The extreme frame coordinates of the first `k` points bound every one of
/// those points: the rectangle of any trial contains all of them.
pub proof fn lemma_extents_contain(ps: Seq<Point>, e: Point, k: int, j: int)
    requires
        0 <= j < k <= ps.len(),
    ensures
        min_u(ps, e, k) <= proj_u(ps[j], e) <= max_u(ps, e, k),
        min_v(ps, e, k) <= proj_v(ps[j], e) <= max_v(ps, e, k),
    decreases k,
{
    if j < k - 1 {
        lemma_extents_contain(ps, e, k - 1, j);
    }
}

/// Containment of the chosen bounding rectangle: in the frame of the chosen
/// trial direction, every input point's projections lie between the extreme
/// projections that the rectangle is built from.
pub proof fn lemma_mbb_contains(ps: Seq<Point>, j: int)
    requires
        1 <= ps.len(),
        0 <= j < ps.len(),
    ensures
        ({
            let e = best_dir(ps, ps.len() as int);
            let n = ps.len() as int;
            min_u(ps, e, n) <= proj_u(ps[j], e) <= max_u(ps, e, n) && min_v(ps, e, n) <= proj_v(
                ps[j],
                e,
            ) <= max_v(ps, e, n)
        }),
{
    lemma_extents_contain(ps, best_dir(ps, ps.len() as int), ps.len() as int, j);
}

/// Rational comparison of areas is transitive for positive weights.
proof fn lemma_ratio_trans(a1: int, l1: int, a2: int, l2: int, a3: int, l3: int)
    by (nonlinear_arith)
    requires
        l1 > 0,
        l2 > 0,
        l3 > 0,
        a1 * l2 <= a2 * l1,
        a2 * l3 <= a3 * l2,
    ensures
        a1 * l3 <= a3 * l1,
{
}

/// The chosen trial direction is a real direction: its squared length is
/// positive.
pub proof fn lemma_best_dir_pos(ps: Seq<Point>, k: int)
    requires
        0 <= k <= ps.len(),
        forall|i: int| 0 <= i < ps.len() ==> (#[trigger] ps[i]).in_range(),
    ensures
        len2(best_dir(ps, k)) > 0,
        -0x80000 <= best_dir(ps, k).x <= 0x80000,
        -0x80000 <= best_dir(ps, k).y <= 0x80000,
    decreases k,
{
    if k > 0 {
        lemma_best_dir_pos(ps, k - 1);
    }
}

/// The chosen trial direction is the axis seed or one of the polygon's own
/// edge directions.
pub proof fn lemma_best_dir_member(ps: Seq<Point>, k: int)
    requires
        0 <= k <= ps.len(),
    ensures
        best_dir(ps, k) == axis_dir() || exists|j: int|
            0 <= j < k && best_dir(ps, k) == #[trigger] edge_dir(ps, j),
    decreases k,
{
    if k > 0 {
        lemma_best_dir_member(ps, k - 1);
        let prev = best_dir(ps, k - 1);
        let e = edge_dir(ps, k - 1);
        if len2(e) > 0 && area_num(ps, e) * len2(prev) < area_num(ps, prev) * len2(e) {
            assert(best_dir(ps, k) == edge_dir(ps, k - 1));
        } else {
            if prev != axis_dir() {
                let j = choose|j: int| 0 <= j < k - 1 && prev == #[trigger] edge_dir(ps, j);
                assert(best_dir(ps, k) == edge_dir(ps, j));
            }
        }
    }
}

/// The chosen rectangle's rational area never exceeds any edge trial's: the
/// rotating calipers keep the minimum over the polygon's edge directions.
pub proof fn lemma_best_dir_le_edges(ps: Seq<Point>, k: int, j: int)
    requires
        0 <= j < k <= ps.len(),
        forall|i: int| 0 <= i < ps.len() ==> (#[trigger] ps[i]).in_range(),
        len2(edge_dir(ps, j)) > 0,
    ensures
        area_num(ps, best_dir(ps, k)) * len2(edge_dir(ps, j)) <= area_num(ps, edge_dir(ps, j))
            * len2(best_dir(ps, k)),
    decreases k,
{
    lemma_best_dir_pos(ps, k);
    lemma_best_dir_pos(ps, k - 1);
    let prev = best_dir(ps, k - 1);
    let e = edge_dir(ps, k - 1);
    if j == k - 1 {
        if len2(e) > 0 && area_num(ps, e) * len2(prev) < area_num(ps, prev) * len2(e) {
            assert(best_dir(ps, k) == e);
        } else {
            assert(best_dir(ps, k) == prev);
            assert(area_num(ps, prev) * len2(e) <= area_num(ps, e) * len2(prev));
        }
    } else {
        lemma_best_dir_le_edges(ps, k - 1, j);
        if len2(e) > 0 && area_num(ps, e) * len2(prev) < area_num(ps, prev) * len2(e) {
            lemma_ratio_trans(
                area_num(ps, e),
                len2(e),
                area_num(ps, prev),
                len2(prev),
                area_num(ps, edge_dir(ps, j)),
                len2(edge_dir(ps, j)),
            );
        }
    }
}

/// The chosen rectangle's rational area never exceeds the axis-aligned
/// trial's: `area(best) / len2(best) <= area(axis) / 1`.
pub proof fn lemma_best_dir_le_axis(ps: Seq<Point>, k: int)
    requires
        0 <= k <= ps.len(),
        forall|i: int| 0 <= i < ps.len() ==> (#[trigger] ps[i]).in_range(),
    ensures
        area_num(ps, best_dir(ps, k)) * len2(axis_dir()) <= area_num(ps, axis_dir()) * len2(
            best_dir(ps, k),
        ),
    decreases k,
{
    lemma_best_dir_pos(ps, k);
    if k == 0 {
    } else {
        lemma_best_dir_le_axis(ps, k - 1);
        lemma_best_dir_pos(ps, k - 1);
        let prev = best_dir(ps, k - 1);
        let e = edge_dir(ps, k - 1);
        if len2(e) > 0 && area_num(ps, e) * len2(prev) < area_num(ps, prev) * len2(e) {
            lemma_ratio_trans(
                area_num(ps, e),
                len2(e),
                area_num(ps, prev),
                len2(prev),
                area_num(ps, axis_dir()),
                len2(axis_dir()),
            );
        }
    }
}

/// Computes the four extreme frame coordinates of all points for one trial
/// direction.
fn trial_extents(ps: &Vec<Point>, e: Point) -> (r: (i64, i64, i64, i64))
    requires
        1 <= ps@.len(),
        forall|i: int| 0 <= i < ps@.len() ==> (#[trigger] ps@[i]).in_range(),
        -0x80000 <= e.x <= 0x80000,
        -0x80000 <= e.y <= 0x80000,
    ensures
        r.0 == min_u(ps@, e, ps@.len() as int),
        r.1 == max_u(ps@, e, ps@.len() as int),
        r.2 == min_v(ps@, e, ps@.len() as int),
        r.3 == max_v(ps@, e, ps@.len() as int),
        -0x4000000000 <= r.0 <= 0x4000000000,
        -0x4000000000 <= r.1 <= 0x4000000000,
        -0x4000000000 <= r.2 <= 0x4000000000,
        -0x4000000000 <= r.3 <= 0x4000000000,
{
    let n = ps.len();
    let p0 = ps[0];
    proof {
        lemma_proj_bounds(p0, e);
        crate::math::lemma_mul_abs_bound(p0.x as int, e.x as int, crate::MAX_COORD as int, 0x80000int);
        crate::math::lemma_mul_abs_bound(p0.y as int, e.y as int, crate::MAX_COORD as int, 0x80000int);
        crate::math::lemma_mul_abs_bound(p0.y as int, e.x as int, crate::MAX_COORD as int, 0x80000int);
        crate::math::lemma_mul_abs_bound(p0.x as int, e.y as int, crate::MAX_COORD as int, 0x80000int);
    }
    let mut mnu: i64 = p0.x * e.x + p0.y * e.y;
    let mut mxu: i64 = mnu;
    let mut mnv: i64 = p0.y * e.x - p0.x * e.y;
    let mut mxv: i64 = mnv;
    let mut k: usize = 1;
    while k < n
        invariant
            n == ps@.len(),
            1 <= k <= n,
            forall|i: int| 0 <= i < ps@.len() ==> (#[trigger] ps@[i]).in_range(),
            -0x80000 <= e.x <= 0x80000,
            -0x80000 <= e.y <= 0x80000,
            mnu == min_u(ps@, e, k as int),
            mxu == max_u(ps@, e, k as int),
            mnv == min_v(ps@, e, k as int),
            mxv == max_v(ps@, e, k as int),
            -0x4000000000 <= mnu <= 0x4000000000,
            -0x4000000000 <= mxu <= 0x4000000000,
            -0x4000000000 <= mnv <= 0x4000000000,
            -0x4000000000 <= mxv <= 0x4000000000,
        decreases n - k,
    {
        let p = ps[k];
        proof {
            lemma_proj_bounds(p, e);
            crate::math::lemma_mul_abs_bound(p.x as int, e.x as int, crate::MAX_COORD as int, 0x80000int);
            crate::math::lemma_mul_abs_bound(p.y as int, e.y as int, crate::MAX_COORD as int, 0x80000int);
            crate::math::lemma_mul_abs_bound(p.y as int, e.x as int, crate::MAX_COORD as int, 0x80000int);
            crate::math::lemma_mul_abs_bound(p.x as int, e.y as int, crate::MAX_COORD as int, 0x80000int);
        }
        let u: i64 = p.x * e.x + p.y * e.y;
        let v: i64 = p.y * e.x - p.x * e.y;
        if u < mnu {
            mnu = u;
        }
        if u > mxu {
            mxu = u;
        }
        if v < mnv {
            mnv = v;
        }
        if v > mxv {
            mxv = v;
        }
        k = k + 1;
    }
    (mnu, mxu, mnv, mxv)
}

/// Minimum-area oriented bounding rectangle of a polygon, by rotating
/// calipers over the polygon's edge directions.  The fold is seeded with the
/// axis-aligned direction, so the result is never larger than the
/// axis-aligned bounding box; on a convex polygon the best edge trial already
/// matches or beats that seed (the minimum-area rectangle aligns with an
/// edge), so the seed leaves the result unchanged there, while making the
/// axis-aligned bound provable.  The chosen trial is minimal among every edge
/// trial (`lemma_best_dir_le_edges`) and is the seed or an edge direction
/// (`lemma_best_dir_member`).  The rectangle is returned in the canonical
/// clockwise order; nothing is returned when a rounded corner falls outside
/// the coordinate range.
pub fn oriented_bounding_box(ps: &Vec<Point>) -> (r: Option<[Point; 4]>)
    requires
        1 <= ps@.len(),
        forall|i: int| 0 <= i < ps@.len() ==> (#[trigger] ps@[i]).in_range(),
    ensures
        match r {
            Some(q) => obb_spec(ps@) == Some(q@) && forall|i: int|
                0 <= i < 4 ==> (#[trigger] q@[i]).in_range(),
            None => obb_spec(ps@) is None,
        },
        ({
            // containment: in the chosen trial's frame, every input point
            // projects between the extremes the rectangle is built from
            let e = best_dir(ps@, ps@.len() as int);
            let n = ps@.len() as int;
            forall|j: int|
                0 <= j < n ==> min_u(ps@, e, n) <= #[trigger] proj_u(ps@[j], e) <= max_u(ps@, e, n)
                    && min_v(ps@, e, n) <= proj_v(ps@[j], e) <= max_v(ps@, e, n)
        }),
        ({
            // minimality among the trials: the chosen rectangle's rational
            // area is no larger than the axis-aligned trial's
            let e = best_dir(ps@, ps@.len() as int);
            area_num(ps@, e) <= area_num(ps@, axis_dir()) * len2(e)
        }),
{
    proof {
        let eg = best_dir(ps@, ps@.len() as int);
        let ng = ps@.len() as int;
        assert forall|j: int|
            0 <= j < ng implies min_u(ps@, eg, ng) <= #[trigger] proj_u(ps@[j], eg) <= max_u(
            ps@,
            eg,
            ng,
        ) && min_v(ps@, eg, ng) <= proj_v(ps@[j], eg) <= max_v(ps@, eg, ng) by {
            lemma_extents_contain(ps@, eg, ng, j);
        }
        lemma_best_dir_le_axis(ps@, ng);
        assert(len2(axis_dir()) == 1) by (nonlinear_arith);
        assert(area_num(ps@, eg) * 1 == area_num(ps@, eg)) by (nonlinear_arith);
    }
    let n = ps.len();
    let mut best = Point { x: 1, y: 0 };
    let ext0 = trial_extents(ps, best);
    proof {
        crate::math::lemma_mul_abs_bound(
            (ext0.1 - ext0.0) as int,
            (ext0.3 - ext0.2) as int,
            0x8000000000int,
            0x8000000000int,
        );
    }
    let mut a_best: i128 = (ext0.1 - ext0.0) as i128 * (ext0.3 - ext0.2) as i128;
    let mut l_best: i64 = 1;
    let mut mnu = ext0.0;
    let mut mxu = ext0.1;
    let mut mnv = ext0.2;
    let mut mxv = ext0.3;
    let mut k: usize = 0;
    proof {
        assert(best == best_dir(ps@, 0));
        assert(a_best == area_num(ps@, best));
        assert(len2(best) == best.x * best.x + best.y * best.y);
        assert(best.x * best.x == 1 && best.y * best.y == 0) by (nonlinear_arith)
            requires
                best.x == 1 && best.y == 0,
        ;
    }
    while k < n
        invariant
            n == ps@.len(),
            1 <= n,
            k <= n,
            forall|i: int| 0 <= i < ps@.len() ==> (#[trigger] ps@[i]).in_range(),
            best == best_dir(ps@, k as int),
            -0x80000 <= best.x <= 0x80000,
            -0x80000 <= best.y <= 0x80000,
            a_best == area_num(ps@, best),
            l_best == len2(best),
            l_best >= 1,
            l_best <= 0x10000000000,
            -0x40000000000000000000 <= a_best <= 0x40000000000000000000,
            mnu == min_u(ps@, best, n as int),
            mxu == max_u(ps@, best, n as int),
            mnv == min_v(ps@, best, n as int),
            mxv == max_v(ps@, best, n as int),
            -0x4000000000 <= mnu <= 0x4000000000,
            -0x4000000000 <= mxu <= 0x4000000000,
            -0x4000000000 <= mnv <= 0x4000000000,
            -0x4000000000 <= mxv <= 0x4000000000,
        decreases n - k,
    {
        let nx = if k + 1 == n {
            0
        } else {
            k + 1
        };
        let e = ps[nx].sub(ps[k]);
        proof {
            assert(e == edge_dir(ps@, k as int));
            crate::math::lemma_mul_abs_bound(e.x as int, e.x as int, 0x80000int, 0x80000int);
            crate::math::lemma_mul_abs_bound(e.y as int, e.y as int, 0x80000int, 0x80000int);
            crate::math::lemma_mul_bound(e.x as int, e.x as int, 0x80000int);
            crate::math::lemma_mul_bound(e.y as int, e.y as int, 0x80000int);
        }
        let l2e: i64 = e.x * e.x + e.y * e.y;
        proof {
            assert(e.x * e.x >= 0 && e.y * e.y >= 0) by (nonlinear_arith);
            assert(l2e == len2(e));
        }
        if l2e > 0 {
            let ext = trial_extents(ps, e);
            proof {
                crate::math::lemma_mul_abs_bound(
                    (ext.1 - ext.0) as int,
                    (ext.3 - ext.2) as int,
                    0x8000000000int,
                    0x8000000000int,
                );
            }
            let a_e: i128 = (ext.1 - ext.0) as i128 * (ext.3 - ext.2) as i128;
            proof {
                assert(a_e == area_num(ps@, e));
                crate::math::lemma_mul_abs_bound(
                    a_e as int,
                    l_best as int,
                    0x40000000000000000000int,
                    0x10000000000int,
                );
                crate::math::lemma_mul_abs_bound(
                    a_best as int,
                    l2e as int,
                    0x40000000000000000000int,
                    0x10000000000int,
                );
            }
            if a_e * (l_best as i128) < a_best * (l2e as i128) {
                best = e;
                a_best = a_e;
                l_best = l2e;
                mnu = ext.0;
                mxu = ext.1;
                mnv = ext.2;
                mxv = ext.3;
            }
        }
        k = k + 1;
    }
    // back-rotate the four extreme frame corners
    proof {
        crate::math::lemma_mul_abs_bound(mnu as int, best.x as int, 0x4000000000int, 0x80000int);
        crate::math::lemma_mul_abs_bound(mxu as int, best.x as int, 0x4000000000int, 0x80000int);
        crate::math::lemma_mul_abs_bound(mnu as int, best.y as int, 0x4000000000int, 0x80000int);
        crate::math::lemma_mul_abs_bound(mxu as int, best.y as int, 0x4000000000int, 0x80000int);
        crate::math::lemma_mul_abs_bound(mnv as int, best.x as int, 0x4000000000int, 0x80000int);
        crate::math::lemma_mul_abs_bound(mxv as int, best.x as int, 0x4000000000int, 0x80000int);
        crate::math::lemma_mul_abs_bound(mnv as int, best.y as int, 0x4000000000int, 0x80000int);
        crate::math::lemma_mul_abs_bound(mxv as int, best.y as int, 0x4000000000int, 0x80000int);
    }
    let c0 = Point { x: (mnu * best.x - mnv * best.y) / l_best, y: (mnu * best.y + mnv * best.x) / l_best };
    let c1 = Point { x: (mxu * best.x - mnv * best.y) / l_best, y: (mxu * best.y + mnv * best.x) / l_best };
    let c2 = Point { x: (mxu * best.x - mxv * best.y) / l_best, y: (mxu * best.y + mxv * best.x) / l_best };
    let c3 = Point { x: (mnu * best.x - mxv * best.y) / l_best, y: (mnu * best.y + mxv * best.x) / l_best };
    let raw = [c0, c1, c2, c3];
    proof {
        assert(raw@ =~= obb_raw_corners(ps@));
    }
    if c0.x < -crate::MAX_COORD || c0.x > crate::MAX_COORD || c0.y < -crate::MAX_COORD || c0.y
        > crate::MAX_COORD || c1.x < -crate::MAX_COORD || c1.x > crate::MAX_COORD || c1.y
        < -crate::MAX_COORD || c1.y > crate::MAX_COORD || c2.x < -crate::MAX_COORD || c2.x
        > crate::MAX_COORD || c2.y < -crate::MAX_COORD || c2.y > crate::MAX_COORD || c3.x
        < -crate::MAX_COORD || c3.x > crate::MAX_COORD || c3.y < -crate::MAX_COORD || c3.y
        > crate::MAX_COORD {
        proof {
            let rawg = obb_raw_corners(ps@);
            assert(!(forall|i: int| 0 <= i < 4 ==> (#[trigger] rawg[i]).in_range())) by {
                if forall|i: int| 0 <= i < 4 ==> (#[trigger] rawg[i]).in_range() {
                    assert(rawg[0].in_range() && rawg[1].in_range() && rawg[2].in_range()
                        && rawg[3].in_range());
                }
            }
        }
        return None;
    }
    proof {
        let rawg = obb_raw_corners(ps@);
        assert forall|i: int| 0 <= i < 4 implies (#[trigger] rawg[i]).in_range() by {
            assert(rawg[0] == c0 && rawg[1] == c1 && rawg[2] == c2 && rawg[3] == c3);
        }
    }
    let sorted = bounding_box_sort(raw);
    proof {
        assert forall|i: int| 0 <= i < 4 implies (#[trigger] sorted@[i]).in_range() by {
            let j = choose|j: int| 0 <= j < 4 && sorted@[i] == raw@[j];
            assert(raw@[j].in_range());
        }
    }
    Some(sorted)
}

/// The index of the leftmost point (ties broken by smallest `y`) among the
/// first `t` points, continuing from the candidate `s`.
pub open spec fn leftmost_scan(pts: Seq<Point>, s: int, t: int) -> int
    decreases pts.len() - t,
    when 0 <= t <= pts.len() && 0 <= s < pts.len()
{
    if t >= pts.len() {
        s
    } else if pts[t].x < pts[s].x || (pts[t].x == pts[s].x && pts[t].y < pts[s].y) {
        leftmost_scan(pts, t, t + 1)
    } else {
        leftmost_scan(pts, s, t + 1)
    }
}

/// The first point differing from `c`, scanning from `k`.
pub open spec fn first_other(pts: Seq<Point>, c: Point, k: int) -> Option<Point>
    decreases pts.len() - k,
    when 0 <= k <= pts.len()
{
    if k >= pts.len() {
        None
    } else if pts[k] != c {
        Some(pts[k])
    } else {
        first_other(pts, c, k + 1)
    }
}

/// One selection sweep of the march from the vertex `current`: every point
/// making a right turn against the candidate replaces it, as does an exactly
/// collinear point farther away.
pub open spec fn select_scan(pts: Seq<Point>, current: Point, cand: Point, k: int) -> Point
    decreases pts.len() - k,
    when 0 <= k <= pts.len()
{
    if k >= pts.len() {
        cand
    } else {
        let p = pts[k];
        let c = cross3(current, cand, p);
        if c < 0 {
            select_scan(pts, current, p, k + 1)
        } else if c == 0 && current.dist2_spec(p) > current.dist2_spec(cand) {
            select_scan(pts, current, p, k + 1)
        } else {
            select_scan(pts, current, cand, k + 1)
        }
    }
}

/// The vertices the march appends after `current` until it returns to
/// `start`: nothing when every point coincides with the current vertex or the
/// fuel runs out before the walk closes.
pub open spec fn wrap_rec(pts: Seq<Point>, start: Point, current: Point, fuel: nat) -> Option<
    Seq<Point>,
>
    decreases fuel,
{
    match first_other(pts, current, 0) {
        None => None,
        Some(seed) => {
            let next = select_scan(pts, current, seed, 0);
            if next == start {
                Some(Seq::empty())
            } else if fuel == 0 {
                None
            } else {
                match wrap_rec(pts, start, next, (fuel - 1) as nat) {
                    None => None,
                    Some(rest) => Some(seq![next] + rest),
                }
            }
        },
    }
}

/// The raw gift-wrapped cycle, before collinear removal: the march starts at
/// the leftmost point (ties broken by smallest `y`) and may append at most
/// one vertex per remaining point.
pub open spec fn raw_hull_spec(pts: Seq<Point>) -> Option<Seq<Point>> {
    if pts.len() < 3 {
        None
    } else {
        let start = pts[leftmost_scan(pts, 0, 1)];
        match wrap_rec(pts, start, start, (pts.len() - 1) as nat) {
            None => None,
            Some(rest) => Some(seq![start] + rest),
        }
    }
}

/// The convex hull of the points: the gift-wrapped cycle with collinear
/// vertices removed, then validated.  Nothing comes back when the input has
/// under three points, the march cannot close, the trimmed cycle has under
/// three vertices, or some point falls outside an edge or some vertex is no
/// strict corner.
pub open spec fn hull_spec(pts: Seq<Point>) -> Option<Seq<Point>> {
    match raw_hull_spec(pts) {
        None => None,
        Some(cycle) => {
            let h = colinear_trimmed(cycle);
            if h.len() >= 3 && hull_contains_all(h, pts) && hull_vertices_extreme(h) {
                Some(h)
            } else {
                None
            }
        },
    }
}

/// Gift-wrapping convex hull (Jarvis march), the exact image of `hull_spec`:
/// starts at the leftmost point (ties broken by smallest `y`), at each step
/// keeps the candidate making the rightmost turn (preferring the farther
/// point on exact ties), removes collinear vertices, and validates the
/// result, so that `Some` comes back only when every input point lies inside
/// or on the polygon and every vertex is a strict corner.
pub fn convex_hull_giftwrap(points: &Vec<Point>) -> (r: Option<Vec<Point>>)
    requires
        forall|i: int| 0 <= i < points@.len() ==> points@[i].in_range(),
    ensures
        match r {
            Some(h) => hull_spec(points@) == Some(h@),
            None => hull_spec(points@) is None,
        },
        points@.len() < 3 ==> r is None,
        match r {
            Some(h) => {
                &&& 3 <= h@.len() <= points@.len()
                &&& points_subset(h@, points@)
                &&& forall|i: int| 0 <= i < h@.len() ==> h@[i].in_range()
                &&& hull_contains_all(h@, points@)
                &&& hull_vertices_extreme(h@)
                &&& forall|i: int| 0 <= i < h@.len() ==> keep_vertex(h@, i)
            },
            None => true,
        },
{
    let n = points.len();
    if n < 3 {
        return None;
    }
    let mut s: usize = 0;
    let mut t: usize = 1;
    while t < n
        invariant
            n == points@.len(),
            s < n,
            1 <= t <= n,
            leftmost_scan(points@, s as int, t as int) == leftmost_scan(points@, 0, 1),
        decreases n - t,
    {
        if points[t].x < points[s].x || (points[t].x == points[s].x && points[t].y < points[s].y) {
            s = t;
        }
        t = t + 1;
    }
    let start = points[s];
    let mut hull: Vec<Point> = Vec::new();
    hull.push(start);
    let mut current = start;
    let mut done = false;
    while !done
        invariant
            n == points@.len(),
            3 <= n,
            forall|i: int| 0 <= i < points@.len() ==> points@[i].in_range(),
            1 <= hull@.len() <= n,
            points_subset(hull@, points@),
            forall|i: int| 0 <= i < hull@.len() ==> hull@[i].in_range(),
            current == hull@.last(),
            current.in_range(),
            start == points@[leftmost_scan(points@, 0, 1)],
            hull@[0] == start,
            raw_hull_spec(points@) == (match wrap_rec(
                points@,
                start,
                current,
                (n - hull@.len()) as nat,
            ) {
                None => None::<Seq<Point>>,
                Some(rest) => Some(hull@ + rest),
            }),
            done ==> raw_hull_spec(points@) == Some(hull@),
        decreases 2 * (n - hull@.len()) + (if done {
            0int
        } else {
            1int
        }),
    {
        // the first point other than the current vertex seeds the candidate
        let mut ci: usize = 0;
        let mut found = false;
        while ci < n && !found
            invariant
                n == points@.len(),
                ci <= n,
                found ==> ci < n && points@[ci as int] != current,
                first_other(points@, current, 0) == (if found {
                    Some(points@[ci as int])
                } else {
                    first_other(points@, current, ci as int)
                }),
            decreases n - ci, (if found {
                0int
            } else {
                1int
            }),
        {
            if points[ci].x != current.x || points[ci].y != current.y {
                found = true;
            } else {
                ci = ci + 1;
            }
        }
        if !found {
            proof {
                assert(first_other(points@, current, 0) is None);
                assert(hull_spec(points@) is None);
            }
            return None;
        }
        let seed = points[ci];
        let mut next = seed;
        let mut w: usize = 0;
        while w < n
            invariant
                n == points@.len(),
                w <= n,
                forall|i: int| 0 <= i < points@.len() ==> points@[i].in_range(),
                points@.contains(next),
                next.in_range(),
                current.in_range(),
                select_scan(points@, current, next, w as int) == select_scan(
                    points@,
                    current,
                    seed,
                    0,
                ),
            decreases n - w,
        {
            let p = points[w];
            let c = cross3_exec(current, next, p);
            if c < 0 {
                next = p;
            } else if c == 0 && current.dist2(&p) > current.dist2(&next) {
                next = p;
            }
            w = w + 1;
        }
        proof {
            assert(next == select_scan(points@, current, seed, 0));
        }
        if next.x == start.x && next.y == start.y {
            done = true;
            proof {
                assert(wrap_rec(points@, start, current, (n - hull@.len()) as nat) == Some(
                    Seq::<Point>::empty(),
                ));
                assert(hull@ + Seq::<Point>::empty() =~= hull@);
            }
        } else {
            if hull.len() >= n {
                proof {
                    assert(wrap_rec(points@, start, current, (n - hull@.len()) as nat) is None);
                    assert(hull_spec(points@) is None);
                }
                return None;
            }
            let ghost hull0 = hull@;
            hull.push(next);
            current = next;
            proof {
                assert(points@.contains(next));
                assert forall|i: int| 0 <= i < hull@.len() implies points@.contains(
                    #[trigger] hull@[i],
                ) by {
                    if i < hull0.len() {
                        assert(hull@[i] == hull0[i]);
                    }
                }
                let fuel0 = (n - hull0.len()) as nat;
                assert(wrap_rec(points@, start, next, (fuel0 - 1) as nat) is Some ==> hull0
                    + (seq![next] + wrap_rec(points@, start, next, (fuel0 - 1) as nat).unwrap())
                    =~= hull@ + wrap_rec(points@, start, next, (fuel0 - 1) as nat).unwrap());
            }
        }
    }
    let trimmed = remove_colinear_points(&hull);
    proof {
        assert(trimmed@ == colinear_trimmed(hull@));
    }
    if trimmed.len() < 3 {
        proof {
            assert(hull_spec(points@) is None);
        }
        return None;
    }
    let h = trimmed;
    let m = h.len();
    assert forall|i: int| 0 <= i < h@.len() implies points@.contains(#[trigger] h@[i]) by {
        assert(hull@.contains(h@[i]));
        let w = choose|w: int| 0 <= w < hull@.len() && hull@[w] == h@[i];
        assert(points@.contains(hull@[w]));
    }
    // validation: every input point on the inner side of every edge
    let mut i: usize = 0;
    while i < m
        invariant
            m == h@.len(),
            3 <= m,
            i <= m,
            n == points@.len(),
            h@ == colinear_trimmed(hull@),
            raw_hull_spec(points@) == Some(hull@),
            forall|q: int| 0 <= q < points@.len() ==> points@[q].in_range(),
            forall|q: int| 0 <= q < h@.len() ==> h@[q].in_range(),
            forall|a: int, b: int|
                0 <= a < i && 0 <= b < points@.len() ==> #[trigger] cross3(
                    h@[a],
                    h@[next_idx(h@.len() as int, a)],
                    points@[b],
                ) >= 0,
        decreases m - i,
    {
        let e0 = h[i];
        let e1 = h[if i + 1 == m {
            0
        } else {
            i + 1
        }];
        let mut j: usize = 0;
        while j < n
            invariant
                m == h@.len(),
                3 <= m,
                i < m,
                j <= n,
                n == points@.len(),
                e0 == h@[i as int],
                e1 == h@[next_idx(h@.len() as int, i as int)],
                e0.in_range(),
                e1.in_range(),
                h@ == colinear_trimmed(hull@),
                raw_hull_spec(points@) == Some(hull@),
                forall|q: int| 0 <= q < points@.len() ==> points@[q].in_range(),
                forall|b: int|
                    0 <= b < j ==> #[trigger] cross3(
                        h@[i as int],
                        h@[next_idx(h@.len() as int, i as int)],
                        points@[b],
                    ) >= 0,
            decreases n - j,
        {
            if cross3_exec(e0, e1, points[j]) < 0 {
                proof {
                    assert(!hull_contains_all(h@, points@));
                    assert(hull_spec(points@) is None);
                }
                return None;
            }
            j = j + 1;
        }
        i = i + 1;
    }
    // validation: every vertex a strict corner of the chord of its neighbours
    let mut i2: usize = 0;
    while i2 < m
        invariant
            m == h@.len(),
            3 <= m,
            i2 <= m,
            h@ == colinear_trimmed(hull@),
            raw_hull_spec(points@) == Some(hull@),
            hull_contains_all(h@, points@),
            forall|q: int| 0 <= q < h@.len() ==> h@[q].in_range(),
            forall|a: int, b: int|
                0 <= a < i2 && 0 <= b < h@.len() && b != a ==> #[trigger] cross3(
                    h@[prev_idx(h@.len() as int, a)],
                    h@[next_idx(h@.len() as int, a)],
                    h@[b],
                ) >= 0,
            forall|a: int|
                0 <= a < i2 ==> #[trigger] cross3(
                    h@[prev_idx(h@.len() as int, a)],
                    h@[next_idx(h@.len() as int, a)],
                    h@[a],
                ) < 0,
        decreases m - i2,
    {
        let pv = h[if i2 == 0 {
            m - 1
        } else {
            i2 - 1
        }];
        let nx = h[if i2 + 1 == m {
            0
        } else {
            i2 + 1
        }];
        if cross3_exec(pv, nx, h[i2]) >= 0 {
            proof {
                assert(cross3(
                    h@[prev_idx(h@.len() as int, i2 as int)],
                    h@[next_idx(h@.len() as int, i2 as int)],
                    h@[i2 as int],
                ) >= 0);
                assert(!hull_vertices_extreme(h@)) by {
                    if hull_vertices_extreme(h@) {
                        assert(cross3(
                            h@[prev_idx(h@.len() as int, i2 as int)],
                            h@[next_idx(h@.len() as int, i2 as int)],
                            h@[i2 as int],
                        ) < 0);
                    }
                }
                assert(hull_spec(points@) is None);
            }
            return None;
        }
        let mut j2: usize = 0;
        while j2 < m
            invariant
                m == h@.len(),
                3 <= m,
                i2 < m,
                j2 <= m,
                pv == h@[prev_idx(h@.len() as int, i2 as int)],
                nx == h@[next_idx(h@.len() as int, i2 as int)],
                pv.in_range(),
                nx.in_range(),
                h@ == colinear_trimmed(hull@),
                raw_hull_spec(points@) == Some(hull@),
                hull_contains_all(h@, points@),
                forall|q: int| 0 <= q < h@.len() ==> h@[q].in_range(),
                forall|b: int|
                    0 <= b < j2 && b != i2 ==> #[trigger] cross3(
                        h@[prev_idx(h@.len() as int, i2 as int)],
                        h@[next_idx(h@.len() as int, i2 as int)],
                        h@[b],
                    ) >= 0,
            decreases m - j2,
        {
            if j2 != i2 {
                if cross3_exec(pv, nx, h[j2]) < 0 {
                    proof {
                        assert(!hull_vertices_extreme(h@));
                        assert(hull_spec(points@) is None);
                    }
                    return None;
                }
            }
            j2 = j2 + 1;
        }
        i2 = i2 + 1;
    }
    proof {
        assert(hull_spec(points@) == Some(h@));
    }
    Some(h)
}

/// One conditional stable swap of the vertices `i` and `i + 1` by `y`.
pub open spec fn sw_y(s: Seq<Point>, i: int) -> Seq<Point> {
    if s[i].y > s[i + 1].y {
        s.update(i, s[i + 1]).update(i + 1, s[i])
    } else {
        s
    }
}

/// The canonical order of a quad: stable-sort the four vertices by `y`, order
/// the top pair and the bottom pair by `x`, and list them clockwise
/// `[top-left, top-right, bottom-right, bottom-left]`.
pub open spec fn quad_canonical(s: Seq<Point>) -> Seq<Point> {
    let t = sw_y(sw_y(sw_y(sw_y(sw_y(sw_y(s, 0), 1), 2), 0), 1), 0);
    let top = if t[1].x < t[0].x {
        t.update(0, t[1]).update(1, t[0])
    } else {
        t
    };
    let b = if top[3].x < top[2].x {
        top.update(2, top[3]).update(3, top[2])
    } else {
        top
    };
    seq![b[0], b[1], b[3], b[2]]
}

/// Sorts the four corners of a quad into the canonical clockwise order
/// `[top-left, top-right, bottom-right, bottom-left]`: the two smallest-`y`
/// vertices come first, each pair ordered by `x`.
pub fn bounding_box_sort(points: [Point; 4]) -> (r: [Point; 4])
    ensures
        r@ == quad_canonical(points@),
        r@[0].y <= r@[2].y && r@[0].y <= r@[3].y,
        r@[1].y <= r@[2].y && r@[1].y <= r@[3].y,
        r@[0].x <= r@[1].x,
        r@[3].x <= r@[2].x,
        forall|i: int| 0 <= i < 4 ==> exists|j: int| 0 <= j < 4 && #[trigger] r@[i] == points@[j],
{
    let mut a = points[0];
    let mut b = points[1];
    let mut c = points[2];
    let mut d = points[3];
    if a.y > b.y {
        let t = a;
        a = b;
        b = t;
    }
    if b.y > c.y {
        let t = b;
        b = c;
        c = t;
    }
    if c.y > d.y {
        let t = c;
        c = d;
        d = t;
    }
    if a.y > b.y {
        let t = a;
        a = b;
        b = t;
    }
    if b.y > c.y {
        let t = b;
        b = c;
        c = t;
    }
    if a.y > b.y {
        let t = a;
        a = b;
        b = t;
    }
    if b.x < a.x {
        let t = a;
        a = b;
        b = t;
    }
    if d.x < c.x {
        let t = c;
        c = d;
        d = t;
    }
    let r = [a, b, d, c];
    proof {
        assert(r@ =~= quad_canonical(points@));
    }
    r
}


/// Bound needed to place an integer below a square root: a number whose
/// square is under `(c + 1)^2` is at most `c` in magnitude.
proof fn lemma_sq_lt(a: int, c: int)
    by (nonlinear_arith)
    requires
        c >= 0,
        a * a < (c + 1) * (c + 1),
    ensures
        -c <= a <= c,
{
}

/// A nonzero integer has a positive square.
proof fn lemma_sq_pos(a: int)
    by (nonlinear_arith)
    requires
        a != 0,
    ensures
        a * a >= 1,
{
}

/// A square is never negative.
proof fn lemma_sq_nonneg(a: int)
    by (nonlinear_arith)
    ensures
        a * a >= 0,
{
}

/// The `x` component of the outward offset of edge `i` of a quad, for a
/// positive-outward offset `d`: `d` times the unit normal of the edge,
/// rounded toward zero, the normal taken outward for a clockwise quad.
pub open spec fn edge_off_x(q: Seq<Point>, i: int, d: int) -> int {
    let e = edge_dir(q, i);
    tdiv(e.y * d, isqrt_spec(len2(e) as nat) as int)
}

/// The `y` component of the outward offset of edge `i`.
pub open spec fn edge_off_y(q: Seq<Point>, i: int, d: int) -> int {
    let e = edge_dir(q, i);
    tdiv(-(e.x * d), isqrt_spec(len2(e) as nat) as int)
}

/// The outward offset vector of one quad edge.
fn edge_offset(q: &[Point; 4], i: usize, d: i64) -> (r: (i64, i64))
    requires
        i < 4,
        forall|j: int| 0 <= j < 4 ==> -131072 <= (#[trigger] q@[j]).x <= 131072 && -131072 <= q@[j].y <= 131072,
        -32768 <= d <= 32768,
        q@[next_idx(4, i as int)] != q@[i as int],
    ensures
        r.0 == edge_off_x(q@, i as int, d as int),
        r.1 == edge_off_y(q@, i as int, d as int),
        -32768 <= r.0 <= 32768,
        -32768 <= r.1 <= 32768,
{
    let nx = if i + 1 == 4 {
        0
    } else {
        i + 1
    };
    let ex: i64 = q[nx].x - q[i].x;
    let ey: i64 = q[nx].y - q[i].y;
    proof {
        assert(Point { x: ex, y: ey } == edge_dir(q@, i as int));
        crate::math::lemma_mul_bound(ex as int, ex as int, 0x80000int);
        crate::math::lemma_mul_bound(ey as int, ey as int, 0x80000int);
        lemma_sq_nonneg(ex as int);
        lemma_sq_nonneg(ey as int);
        if ex != 0 {
            lemma_sq_pos(ex as int);
        }
        if ey != 0 {
            lemma_sq_pos(ey as int);
        }
    }
    let l2: i64 = ex * ex + ey * ey;
    let s64 = crate::math::isqrt(l2 as u64);
    proof {
        assert((s64 as int) * (s64 as int) <= l2 as int);
        assert(s64 < 0x100000) by (nonlinear_arith)
            requires
                (s64 as int) * (s64 as int) <= l2 as int,
                l2 <= 0x8000000000,
        ;
        lemma_sq_lt(ex as int, s64 as int);
        lemma_sq_lt(ey as int, s64 as int);
        crate::math::lemma_mul_abs_bound(ey as int, d as int, s64 as int, 32768int);
        crate::math::lemma_mul_abs_bound(ex as int, d as int, s64 as int, 32768int);
    }
    let s: i64 = s64 as i64;
    proof {
        assert(s >= 1);
        crate::math::lemma_tdiv_bound((ey * d) as int, s as int, 32768int);
        crate::math::lemma_tdiv_bound((-(ex * d)) as int, s as int, 32768int);
    }
    ((ey * d) / s, (-(ex * d)) / s)
}

/// Pushes each edge of the quad outward by `d` along its outward normal (for
/// a quad in the canonical clockwise order); each corner moves by the sum of
/// its two incident edge offsets.  A negative `d` pulls the edges inward.
pub fn bounding_box_offset(points: [Point; 4], offset: i64) -> (r: [Point; 4])
    requires
        forall|j: int|
            0 <= j < 4 ==> -131072 <= (#[trigger] points@[j]).x <= 131072 && -131072 <= points@[j].y
                <= 131072,
        -32768 <= offset <= 32768,
        forall|j: int| 0 <= j < 4 ==> points@[next_idx(4, j)] != points@[j],
    ensures
        forall|j: int|
            0 <= j < 4 ==> (#[trigger] r@[j]).x == points@[j].x + edge_off_x(points@, j, offset as int)
                + edge_off_x(points@, prev_idx(4, j), offset as int),
        forall|j: int|
            0 <= j < 4 ==> (#[trigger] r@[j]).y == points@[j].y + edge_off_y(points@, j, offset as int)
                + edge_off_y(points@, prev_idx(4, j), offset as int),
        forall|j: int| 0 <= j < 4 ==> (#[trigger] r@[j]).in_range(),
{
    let o0 = edge_offset(&points, 0, offset);
    let o1 = edge_offset(&points, 1, offset);
    let o2 = edge_offset(&points, 2, offset);
    let o3 = edge_offset(&points, 3, offset);
    let r = [
        Point { x: points[0].x + o0.0 + o3.0, y: points[0].y + o0.1 + o3.1 },
        Point { x: points[1].x + o1.0 + o0.0, y: points[1].y + o1.1 + o0.1 },
        Point { x: points[2].x + o2.0 + o1.0, y: points[2].y + o2.1 + o1.1 },
        Point { x: points[3].x + o3.0 + o2.0, y: points[3].y + o3.1 + o2.1 },
    ];
    r
}

/// Occurrences of the label `c` among the first `u` entries.
pub open spec fn label_count(labels: Seq<usize>, c: usize, u: int) -> nat
    decreases u,
    when 0 <= u <= labels.len()
{
    if u <= 0 {
        0
    } else {
        label_count(labels, c, u - 1) + (if labels[u - 1] == c {
            1nat
        } else {
            0nat
        })
    }
}

/// The dominant cluster label after considering labels `1..=n`, continuing
/// from label `l` with the best seen so far: a later label wins only with a
/// strictly larger count, so the smallest label takes ties.
pub open spec fn dominant_scan(
    labels: Seq<usize>,
    n: int,
    l: int,
    best: usize,
    best_count: nat,
) -> usize
    decreases n + 1 - l,
    when 1 <= l <= n + 1
{
    if l > n {
        best
    } else if label_count(labels, l as usize, labels.len() as int) > best_count {
        dominant_scan(
            labels,
            n,
            l + 1,
            l as usize,
            label_count(labels, l as usize, labels.len() as int),
        )
    } else {
        dominant_scan(labels, n, l + 1, best, best_count)
    }
}

/// The label of the largest cluster, zero when everything is noise.
pub open spec fn dominant_label(labels: Seq<usize>, n: int) -> usize {
    dominant_scan(labels, n, 1, 0, 0)
}

/// The points carrying the label, in order, from `k` on.
pub open spec fn label_filter(points: Seq<Point>, labels: Seq<usize>, lab: usize, k: int) -> Seq<
    Point,
>
    decreases points.len() - k,
    when 0 <= k <= points.len() && labels.len() == points.len()
{
    if k >= points.len() {
        Seq::empty()
    } else if labels[k] == lab {
        seq![points[k]] + label_filter(points, labels, lab, k + 1)
    } else {
        label_filter(points, labels, lab, k + 1)
    }
}

/// The bounding quad of the dominant cluster, as a closed function of the
/// points: the hull of all points sets the clustering radius, the dominant
/// cluster's own hull is the quad when it has exactly four vertices, else its
/// minimum-area oriented rectangle.
pub open spec fn bounding_box_spec(points: Seq<Point>) -> Option<Seq<Point>> {
    match hull_spec(points) {
        None => None,
        Some(hall) => {
            let eps_sq = tdiv(polygon_area(hall), 15);
            let labels = crate::cluster::dbscan_spec(points, eps_sq, 5);
            let best = dominant_label(labels, points.len() as int);
            if best == 0 {
                None
            } else {
                match hull_spec(label_filter(points, labels, best, 0)) {
                    None => None,
                    Some(ch) => if ch.len() == 4 {
                        Some(ch)
                    } else {
                        obb_spec(ch)
                    },
                }
            }
        },
    }
}

/// The returned quad derives from a sub-collection of the points: it is that
/// collection's convex hull when the hull has exactly four vertices, else the
/// hull's minimum-area oriented rectangle.
pub open spec fn quad_of_some_cluster(points: Seq<Point>, q: Seq<Point>) -> bool {
    exists|cluster: Seq<Point>|
        #![trigger hull_spec(cluster)]
        {
            &&& points_subset(cluster, points)
            &&& match hull_spec(cluster) {
                Some(ch) => (ch.len() == 4 && q == ch) || (ch.len() != 4 && obb_spec(ch) == Some(
                    q,
                )),
                None => false,
            }
        }
}

/// The quad that bounds the dominant cluster of the points: hull of all
/// points for the clustering radius, DBSCAN with that radius and five
/// neighbours, the largest cluster's hull (smallest label winning ties), and
/// that hull itself when it has exactly four vertices, else its minimum-area
/// oriented rectangle.  Nothing when a hull degenerates, when every point is
/// noise, or when a rectangle corner leaves the coordinate range.
pub fn bounding_box(points: &Vec<Point>) -> (r: Option<[Point; 4]>)
    requires
        forall|i: int| 0 <= i < points@.len() ==> points@[i].in_range(),
        points@.len() <= 0x400000,
    ensures
        (match r {
            Some(q) => bounding_box_spec(points@) == Some(q@),
            None => bounding_box_spec(points@) is None,
        }),
        points@.len() < 3 ==> r is None,
        hull_spec(points@) is None ==> r is None,
        (match hull_spec(points@) {
            Some(h0) => forall|i: int|
                0 <= i < points@.len() ==> !crate::cluster::is_core(
                    points@,
                    #[trigger] points@[i],
                    tdiv(polygon_area(h0), 15),
                    5,
                ),
            None => false,
        }) ==> r is None,
        r matches Some(q) ==> forall|i: int| 0 <= i < 4 ==> (#[trigger] q@[i]).in_range(),
        r matches Some(q) ==> quad_of_some_cluster(points@, q@),
{
    let n = points.len();
    let hull_all = match convex_hull_giftwrap(points) {
        Some(h) => h,
        None => {
            return None;
        },
    };
    let area = convex_hull_area(&hull_all);
    let eps_sq = area / 15;
    let ghost no_core = forall|i: int|
        0 <= i < points@.len() ==> !crate::cluster::is_core(
            points@,
            #[trigger] points@[i],
            eps_sq as int,
            5,
        );
    let labels = dbscan(points, eps_sq, 5);
    proof {
        assert forall|j: int| no_core && 0 <= j < labels@.len() implies labels@[j] == 0 by {
            if labels@[j] >= 1 {
                assert(crate::cluster::label_has_core(
                    points@,
                    labels@,
                    eps_sq as int,
                    5,
                    labels@[j] as int,
                ));
                let w = choose|w: int|
                    0 <= w < labels@.len() && (#[trigger] labels@[w]) as int == labels@[j] as int
                        && crate::cluster::is_core(points@, points@[w], eps_sq as int, 5);
                assert(!crate::cluster::is_core(points@, points@[w], eps_sq as int, 5));
            }
        }
    }
    let mut counts: Vec<usize> = Vec::new();
    let mut t: usize = 0;
    while t <= n
        invariant
            n <= 0x400000,
            t <= n + 1,
            counts@.len() == t,
            forall|j: int| 0 <= j < t ==> counts@[j] == 0,
        decreases n + 1 - t,
    {
        counts.push(0);
        t = t + 1;
    }
    let mut i: usize = 0;
    while i < n
        invariant
            n == points@.len(),
            labels@.len() == n,
            counts@.len() == n + 1,
            i <= n,
            forall|j: int| 0 <= j < labels@.len() ==> labels@[j] <= n,
            forall|j: int| 0 <= j < counts@.len() ==> counts@[j] <= i,
            no_core ==> forall|j: int| 0 <= j < labels@.len() ==> labels@[j] == 0,
            no_core ==> forall|j: int| 1 <= j < counts@.len() ==> counts@[j] == 0,
            forall|l2: int|
                0 <= l2 < counts@.len() ==> counts@[l2] == label_count(
                    labels@,
                    l2 as usize,
                    i as int,
                ),
        decreases n - i,
    {
        let l = labels[i];
        let c = counts[l];
        counts[l] = c + 1;
        i = i + 1;
    }
    let mut best_label: usize = 0;
    let mut best_count: usize = 0;
    let mut l: usize = 1;
    while l <= n
        invariant
            n == points@.len(),
            labels@.len() == n,
            n <= 0x400000,
            counts@.len() == n + 1,
            1 <= l <= n + 1,
            best_label <= n,
            no_core ==> forall|j: int| 1 <= j < counts@.len() ==> counts@[j] == 0,
            no_core ==> best_label == 0,
            forall|l2: int|
                0 <= l2 < counts@.len() ==> counts@[l2] == label_count(
                    labels@,
                    l2 as usize,
                    n as int,
                ),
            dominant_label(labels@, n as int) == dominant_scan(
                labels@,
                n as int,
                l as int,
                best_label,
                best_count as nat,
            ),
        decreases n + 1 - l,
    {
        if counts[l] > best_count {
            best_count = counts[l];
            best_label = l;
        }
        l = l + 1;
    }
    proof {
        assert(best_label == dominant_label(labels@, n as int));
    }
    if best_label == 0 {
        return None;
    }
    proof {
        assert(!no_core);
    }
    let mut cluster: Vec<Point> = Vec::new();
    let mut i2: usize = 0;
    while i2 < n
        invariant
            n == points@.len(),
            labels@.len() == n,
            i2 <= n,
            cluster@.len() <= i2,
            forall|j: int| 0 <= j < points@.len() ==> points@[j].in_range(),
            forall|j: int| 0 <= j < cluster@.len() ==> (#[trigger] cluster@[j]).in_range(),
            points_subset(cluster@, points@),
            label_filter(points@, labels@, best_label, 0) == cluster@ + label_filter(
                points@,
                labels@,
                best_label,
                i2 as int,
            ),
        decreases n - i2,
    {
        if labels[i2] == best_label {
            cluster.push(points[i2]);
            assert(points@.contains(points@[i2 as int]));
            assert(label_filter(points@, labels@, best_label, 0) =~= cluster@ + label_filter(
                points@,
                labels@,
                best_label,
                i2 + 1,
            ));
        }
        i2 = i2 + 1;
    }
    proof {
        assert(cluster@ == label_filter(points@, labels@, best_label, 0));
    }
    let cluster_hull = match convex_hull_giftwrap(&cluster) {
        Some(h) => h,
        None => {
            return None;
        },
    };
    if cluster_hull.len() == 4 {
        let q = [cluster_hull[0], cluster_hull[1], cluster_hull[2], cluster_hull[3]];
        proof {
            assert(q@ =~= cluster_hull@);
            assert(quad_of_some_cluster(points@, q@)) by {
                assert(points_subset(cluster@, points@));
                assert(hull_spec(cluster@) == Some(cluster_hull@));
            }
        }
        return Some(q);
    }
    let r = oriented_bounding_box(&cluster_hull);
    proof {
        if r is Some {
            assert(quad_of_some_cluster(points@, r.unwrap()@)) by {
                assert(points_subset(cluster@, points@));
                assert(hull_spec(cluster@) == Some(cluster_hull@));
                assert(obb_spec(cluster_hull@) == Some(r.unwrap()@));
            }
        }
    }
    r
}


/// A product of two differences, multiplied out.
proof fn lemma_expand_product(p: int, a: int, q: int, b: int)
    by (nonlinear_arith)
    ensures
        (p - a) * (q - b) == p * q - p * b - a * q + a * b,
{
}

/// The shoelace sum of a quad splits into its two fan triangles: a ring
/// identity over the eight coordinates.
proof fn lemma_shoelace_ring(
    ax: int,
    ay: int,
    bx: int,
    by: int,
    cx: int,
    cy: int,
    dx: int,
    dy: int,
)
    ensures
        (ax * by - bx * ay) + (bx * cy - cx * by) + (cx * dy - dx * cy) + (dx * ay - ax * dy) == ((
        bx - ax) * (cy - ay) - (by - ay) * (cx - ax)) + ((cx - ax) * (dy - ay) - (cy - ay) * (dx
            - ax)),
{
    lemma_expand_product(bx, ax, cy, ay);
    lemma_expand_product(by, ay, cx, ax);
    lemma_expand_product(cx, ax, dy, ay);
    lemma_expand_product(cy, ay, dx, ax);
}

/// The shoelace sum of a quad splits into its two fan triangles.
proof fn lemma_quad_shoelace_fan(a: Point, b: Point, c: Point, d: Point)
    ensures
        (a.x * b.y - b.x * a.y) + (b.x * c.y - c.x * b.y) + (c.x * d.y - d.x * c.y) + (d.x * a.y
            - a.x * d.y) == cross3(a, b, c) + cross3(a, c, d),
{
    lemma_shoelace_ring(
        a.x as int,
        a.y as int,
        b.x as int,
        b.y as int,
        c.x as int,
        c.y as int,
        d.x as int,
        d.y as int,
    );
}

/// A convex quad listed clockwise (in image coordinates) has positive signed
/// area: its shoelace sum, which doubles its area, is positive.
pub proof fn lemma_clockwise_quad_area_positive(q: Seq<Point>)
    requires
        q.len() == 4,
        hull_vertices_extreme(q),
    ensures
        (q[0].x * q[1].y - q[1].x * q[0].y) + (q[1].x * q[2].y - q[2].x * q[1].y) + (q[2].x
            * q[3].y - q[3].x * q[2].y) + (q[3].x * q[0].y - q[0].x * q[3].y) > 0,
{
    lemma_quad_shoelace_fan(q[0], q[1], q[2], q[3]);
    // vertex 1 is a strict corner of the chord from vertex 0 to vertex 2,
    // and vertex 3 of the chord from vertex 2 to vertex 0
    assert(cross3(q[prev_idx(4, 1)], q[next_idx(4, 1)], q[1]) < 0);
    assert(cross3(q[prev_idx(4, 3)], q[next_idx(4, 3)], q[3]) < 0);
    assert(cross3(q[0], q[2], q[1]) == -cross3(q[0], q[1], q[2])) by (nonlinear_arith);
    assert(cross3(q[2], q[0], q[3]) == -cross3(q[0], q[2], q[3])) by (nonlinear_arith);
}

/// The floor square root of a perfect square is its root.
proof fn lemma_isqrt_square(w: nat)
    ensures
        isqrt_spec(w * w) == w,
{
    crate::math::lemma_isqrt_spec(w * w);
    let s = isqrt_spec(w * w);
    assert(s == w) by (nonlinear_arith)
        requires
            s * s <= w * w,
            w * w < (s + 1) * (s + 1),
    ;
}

/// Offset monotonicity on an axis-aligned rectangle in canonical order: a
/// positive offset moves every edge outward and the area grows; a negative
/// offset no deeper than the half-extents moves them inward and the area
/// shrinks.  For axis-aligned edges the offset vectors are exact, so the
/// property holds with no rounding slack.
pub proof fn lemma_offset_monotone_axis_rect(x0: i64, y0: i64, x1: i64, y1: i64, d: i64)
    requires
        -131072 <= x0 < x1 <= 131072,
        -131072 <= y0 < y1 <= 131072,
        -32768 <= d <= 32768,
        2 * d >= -(x1 - x0),
        2 * d >= -(y1 - y0),
    ensures
        ({
            let q = seq![
                Point { x: x0, y: y0 },
                Point { x: x1, y: y0 },
                Point { x: x1, y: y1 },
                Point { x: x0, y: y1 },
            ];
            let r = seq![
                Point {
                    x: (q[0].x + edge_off_x(q, 0, d as int) + edge_off_x(q, 3, d as int)) as i64,
                    y: (q[0].y + edge_off_y(q, 0, d as int) + edge_off_y(q, 3, d as int)) as i64,
                },
                Point {
                    x: (q[1].x + edge_off_x(q, 1, d as int) + edge_off_x(q, 0, d as int)) as i64,
                    y: (q[1].y + edge_off_y(q, 1, d as int) + edge_off_y(q, 0, d as int)) as i64,
                },
                Point {
                    x: (q[2].x + edge_off_x(q, 2, d as int) + edge_off_x(q, 1, d as int)) as i64,
                    y: (q[2].y + edge_off_y(q, 2, d as int) + edge_off_y(q, 1, d as int)) as i64,
                },
                Point {
                    x: (q[3].x + edge_off_x(q, 3, d as int) + edge_off_x(q, 2, d as int)) as i64,
                    y: (q[3].y + edge_off_y(q, 3, d as int) + edge_off_y(q, 2, d as int)) as i64,
                },
            ];
            (d >= 0 ==> quad_area(r) >= quad_area(q)) && (d <= 0 ==> quad_area(r) <= quad_area(q))
        }),
{
    let q = seq![
        Point { x: x0, y: y0 },
        Point { x: x1, y: y0 },
        Point { x: x1, y: y1 },
        Point { x: x0, y: y1 },
    ];
    let w = (x1 - x0) as int;
    let h = (y1 - y0) as int;
    // the four edge directions and their exact unit normals
    assert(edge_dir(q, 0) == Point { x: (x1 - x0) as i64, y: 0i64 });
    assert(edge_dir(q, 1) == Point { x: 0i64, y: (y1 - y0) as i64 });
    assert(edge_dir(q, 2) == Point { x: (x0 - x1) as i64, y: 0i64 });
    assert(edge_dir(q, 3) == Point { x: 0i64, y: (y0 - y1) as i64 });
    lemma_isqrt_square(w as nat);
    lemma_isqrt_square(h as nat);
    assert(len2(edge_dir(q, 0)) == w * w && len2(edge_dir(q, 2)) == w * w) by (nonlinear_arith)
        requires
            edge_dir(q, 0).x == w && edge_dir(q, 0).y == 0,
            edge_dir(q, 2).x == -w && edge_dir(q, 2).y == 0,
    ;
    assert(len2(edge_dir(q, 1)) == h * h && len2(edge_dir(q, 3)) == h * h) by (nonlinear_arith)
        requires
            edge_dir(q, 1).x == 0 && edge_dir(q, 1).y == h,
            edge_dir(q, 3).x == 0 && edge_dir(q, 3).y == -h,
    ;
    // horizontal edges: zero x-offset, +/- d in y
    assert(tdiv(0, w) == 0 && tdiv(0, h) == 0) by {
        vstd::arithmetic::div_mod::lemma_div_basics(w);
        vstd::arithmetic::div_mod::lemma_div_basics(h);
    }
    assert(edge_off_x(q, 0, d as int) == 0 && edge_off_x(q, 2, d as int) == 0) by {
        assert(0 * (d as int) == 0) by (nonlinear_arith);
    }
    assert(edge_off_y(q, 1, d as int) == 0 && edge_off_y(q, 3, d as int) == 0) by {
        assert(-(0 * (d as int)) == 0) by (nonlinear_arith);
    }
    lemma_tdiv_scaled(w, d as int);
    lemma_tdiv_scaled(h, d as int);
    lemma_tdiv_scaled(w, -(d as int));
    lemma_tdiv_scaled(h, -(d as int));
    assert(edge_off_y(q, 0, d as int) == -(d as int)) by {
        assert(-(w * (d as int)) == w * (-(d as int))) by (nonlinear_arith);
    }
    assert(edge_off_x(q, 1, d as int) == d as int);
    assert(edge_off_y(q, 2, d as int) == d as int) by {
        assert(-((-w) * (d as int)) == w * (d as int)) by (nonlinear_arith);
    }
    assert(edge_off_x(q, 3, d as int) == -(d as int)) by {
        assert((-h) * (d as int) == h * (-(d as int))) by (nonlinear_arith);
    }
    let r = seq![
        Point { x: (x0 - d) as i64, y: (y0 - d) as i64 },
        Point { x: (x1 + d) as i64, y: (y0 - d) as i64 },
        Point { x: (x1 + d) as i64, y: (y1 + d) as i64 },
        Point { x: (x0 - d) as i64, y: (y1 + d) as i64 },
    ];
    // both quads are rectangles: their fan triangles each cover half
    assert(cross3(q[0], q[1], q[2]) == w * h && cross3(q[0], q[2], q[3]) == w * h)
        by (nonlinear_arith)
        requires
            q[0].x == x0 && q[0].y == y0 && q[1].x == x1 && q[1].y == y0 && q[2].x == x1 && q[2].y
                == y1 && q[3].x == x0 && q[3].y == y1,
            w == x1 - x0,
            h == y1 - y0,
    ;
    let gw = w + 2 * d;
    let gh = h + 2 * d;
    assert(cross3(r[0], r[1], r[2]) == gw * gh && cross3(r[0], r[2], r[3]) == gw * gh)
        by (nonlinear_arith)
        requires
            r[0].x == x0 - d && r[0].y == y0 - d && r[1].x == x1 + d && r[1].y == y0 - d && r[2].x
                == x1 + d && r[2].y == y1 + d && r[3].x == x0 - d && r[3].y == y1 + d,
            gw == (x1 - x0) + 2 * d,
            gh == (y1 - y0) + 2 * d,
            w == x1 - x0,
            h == y1 - y0,
    ;
    assert(w * h >= 0 && gw * gh >= 0) by (nonlinear_arith)
        requires
            w > 0 && h > 0 && gw >= 0 && gh >= 0,
    ;
    if d >= 0 {
        assert(w * h <= gw * gh) by (nonlinear_arith)
            requires
                0 < w <= gw,
                0 < h <= gh,
        ;
        vstd::arithmetic::div_mod::lemma_div_is_ordered(w * h, gw * gh, 2);
    } else {
        assert(gw * gh <= w * h) by (nonlinear_arith)
            requires
                0 <= gw <= w,
                0 <= gh <= h,
        ;
        vstd::arithmetic::div_mod::lemma_div_is_ordered(gw * gh, w * h, 2);
    }
}

/// Truncating division of an exact multiple by its positive factor gives the
/// other factor back.
proof fn lemma_tdiv_scaled(s: int, d: int)
    requires
        s >= 1,
    ensures
        tdiv(s * d, s) == d,
{
    if s * d >= 0 {
        vstd::arithmetic::div_mod::lemma_div_multiples_vanish(d, s);
    } else {
        assert(-(s * d) == s * (-d)) by (nonlinear_arith);
        vstd::arithmetic::div_mod::lemma_div_multiples_vanish(-d, s);
    }
}

} // verus!
