//! The lattice stage: sample a square ring of pixels around a candidate
//! corner, filter candidates by the caller's corner verdicts, and merge
//! near-duplicate points into their centroid.
//!
//! The corner decision itself (a DFT of the ring signal) is floating-point
//! work; the caller computes one verdict per candidate and hands them in, and
//! everything either side of that decision is verified here.
use vstd::prelude::*;

use crate::image::GrayImage;
use crate::math::tdiv;
use crate::point::Point;

verus! {

/// Chebyshev radius of the sampling ring around a candidate corner, in pixels.
pub const RING_RADIUS: u32 = 5;

/// Points closer than this (in coordinate units) are merged into one.
pub const MERGE_RADIUS: i64 = 5 * crate::SCALE;

/// The ring around `(x, y)` at Chebyshev radius `r` stays inside the image.
pub open spec fn ring_fits(img: GrayImage, x: int, y: int, r: int) -> bool {
    r <= x && x + r < img.width_spec() && r <= y && y + r < img.height_spec()
}

/// The `k`-th pixel position of the square ring around `(x, y)` at Chebyshev
/// radius `r`: `8 * r` samples, starting at the top cardinal point and walking
/// clockwise, `r` per half-side between cardinal points and corners.
pub open spec fn ring_pos(x: int, y: int, r: int, k: int) -> (int, int) {
    if k < r {
        (x + k, y - r)
    } else if k < 3 * r {
        (x + r, y - r + (k - r))
    } else if k < 5 * r {
        (x + r - (k - 3 * r), y + r)
    } else if k < 7 * r {
        (x - r, y + r - (k - 5 * r))
    } else {
        (x - r + (k - 7 * r), y - r)
    }
}

/// The intensity under the `k`-th ring sample.
pub open spec fn ring_sample(img: GrayImage, x: int, y: int, r: int, k: int) -> u8 {
    img.pixel(ring_pos(x, y, r, k).0, ring_pos(x, y, r, k).1)
}

/// Walks the square ring of Chebyshev radius `r` around `(x, y)` clockwise
/// from the top cardinal point and returns the `8 * r` intensities under it,
/// or nothing when the ring leaves the image.
pub fn get_circle(i: &GrayImage, x: u32, y: u32, r: u32) -> (out: Option<Vec<u8>>)
    requires
        i.wf(),
        1 <= r <= 1024,
    ensures
        match out {
            Some(v) => ring_fits(*i, x as int, y as int, r as int) && v@.len() == 8 * r
                && (forall|k: int|
                0 <= k < 8 * r ==> v@[k] == ring_sample(*i, x as int, y as int, r as int, k)),
            None => !ring_fits(*i, x as int, y as int, r as int),
        },
{
    let (width, height) = i.dimensions();
    if x < r || y < r || (x as u64) + (r as u64) >= width as u64 || (y as u64) + (r as u64)
        >= height as u64 {
        return None;
    }
    let total: u32 = 8 * r;
    let mut circle: Vec<u8> = Vec::new();
    let mut k: u32 = 0;
    while k < total
        invariant
            i.wf(),
            total == 8 * r,
            1 <= r <= 1024,
            k <= total,
            ring_fits(*i, x as int, y as int, r as int),
            circle@.len() == k,
            forall|j: int|
                0 <= j < k ==> circle@[j] == ring_sample(*i, x as int, y as int, r as int, j),
        decreases total - k,
    {
        let (px, py): (u32, u32) = if k < r {
            (x + k, y - r)
        } else if k < 3 * r {
            (x + r, y - r + (k - r))
        } else if k < 5 * r {
            (x + r - (k - 3 * r), y + r)
        } else if k < 7 * r {
            (x - r, y + r - (k - 5 * r))
        } else {
            (x - r + (k - 7 * r), y - r)
        };
        circle.push(i.get_pixel(px, py));
        k = k + 1;
    }
    Some(circle)
}

/// Indices of the not-yet-visited neighbours of `pts[i]` within squared
/// distance `rsq`, the pivot itself excluded, scanning upward from `k`.
pub open spec fn nbr_scan(pts: Seq<Point>, seen: Seq<bool>, i: int, rsq: int, k: int) -> Seq<usize>
    decreases pts.len() - k,
    when 0 <= k <= pts.len()
{
    if k >= pts.len() {
        Seq::empty()
    } else if k != i && !seen[k] && pts[i].dist2_spec(pts[k]) <= rsq {
        seq![k as usize] + nbr_scan(pts, seen, i, rsq, k + 1)
    } else {
        nbr_scan(pts, seen, i, rsq, k + 1)
    }
}

/// Sum of the `x` coordinates under the indices `idxs[m..]`.
pub open spec fn sum_x(pts: Seq<Point>, idxs: Seq<usize>, m: int) -> int
    decreases idxs.len() - m,
    when 0 <= m <= idxs.len()
{
    if m >= idxs.len() {
        0
    } else {
        pts[idxs[m] as int].x + sum_x(pts, idxs, m + 1)
    }
}

/// Sum of the `y` coordinates under the indices `idxs[m..]`.
pub open spec fn sum_y(pts: Seq<Point>, idxs: Seq<usize>, m: int) -> int
    decreases idxs.len() - m,
    when 0 <= m <= idxs.len()
{
    if m >= idxs.len() {
        0
    } else {
        pts[idxs[m] as int].y + sum_y(pts, idxs, m + 1)
    }
}

/// The arithmetic mean of the points under `idxs`, each coordinate rounded
/// toward zero.
pub open spec fn centroid(pts: Seq<Point>, idxs: Seq<usize>) -> Point {
    Point {
        x: tdiv(sum_x(pts, idxs, 0), idxs.len() as int) as i64,
        y: tdiv(sum_y(pts, idxs, 0), idxs.len() as int) as i64,
    }
}

/// `seen` with the indices `idxs[m..]` marked visited, in order.
pub open spec fn mark_seen(seen: Seq<bool>, idxs: Seq<usize>, m: int) -> Seq<bool>
    decreases idxs.len() - m,
    when 0 <= m <= idxs.len()
{
    if m >= idxs.len() {
        seen
    } else {
        mark_seen(seen.update(idxs[m] as int, true), idxs, m + 1)
    }
}

/// The near-duplicate merge, §"lattice" of the design: walk the points in
/// order; at each unvisited point collect its unvisited neighbours within the
/// merge radius; emit the point itself when there are none, else their mean,
/// marking all of them visited.
pub open spec fn merge_rec(pts: Seq<Point>, rsq: int, seen: Seq<bool>, k: int) -> Seq<Point>
    decreases pts.len() - k,
    when 0 <= k <= pts.len() && seen.len() == pts.len()
{
    if k >= pts.len() {
        Seq::empty()
    } else if seen[k] {
        merge_rec(pts, rsq, seen, k + 1)
    } else {
        let nb = nbr_scan(pts, seen, k, rsq, 0);
        if nb.len() == 0 {
            seq![pts[k]] + merge_rec(pts, rsq, seen.update(k, true), k + 1)
        } else {
            seq![centroid(pts, nb)] + merge_rec(
                pts,
                rsq,
                mark_seen(seen.update(k, true), nb, 0),
                k + 1,
            )
        }
    }
}

/// What the merge yields on `pts` with merge radius `r`.
pub open spec fn merged_points(pts: Seq<Point>, r: int) -> Seq<Point> {
    merge_rec(pts, r * r, Seq::new(pts.len(), |j: int| false), 0)
}

/// The pixel under a point: coordinates are clamped below at zero, then
/// reduced from units to whole pixels.
pub open spec fn pixel_of_point(p: Point) -> (int, int) {
    (
        tdiv(if p.x < 0 {
            0
        } else {
            p.x as int
        }, crate::SCALE as int),
        tdiv(if p.y < 0 {
            0
        } else {
            p.y as int
        }, crate::SCALE as int),
    )
}

/// The candidates of `pts[k..]` with in-range coordinates, in order.
pub open spec fn range_scan_pts(pts: Seq<Point>, flags: Seq<bool>, k: int) -> Seq<Point>
    decreases pts.len() - k,
    when 0 <= k <= pts.len() && flags.len() == pts.len()
{
    if k >= pts.len() {
        Seq::empty()
    } else if pts[k].in_range() {
        seq![pts[k]] + range_scan_pts(pts, flags, k + 1)
    } else {
        range_scan_pts(pts, flags, k + 1)
    }
}

/// The verdicts kept alongside `range_scan_pts`, in the same order.
pub open spec fn range_scan_flags(pts: Seq<Point>, flags: Seq<bool>, k: int) -> Seq<bool>
    decreases pts.len() - k,
    when 0 <= k <= pts.len() && flags.len() == pts.len()
{
    if k >= pts.len() {
        Seq::empty()
    } else if pts[k].in_range() {
        seq![flags[k]] + range_scan_flags(pts, flags, k + 1)
    } else {
        range_scan_flags(pts, flags, k + 1)
    }
}

/// Drops the candidates whose coordinates left the representable range,
/// keeping each survivor's verdict beside it.  Line crossings come unfiltered;
/// this is the callers' range filter of the geometry primitives.
pub fn filter_in_range(points: &Vec<Point>, flags: &Vec<bool>) -> (r: (Vec<Point>, Vec<bool>))
    requires
        flags@.len() == points@.len(),
    ensures
        r.0@ == range_scan_pts(points@, flags@, 0),
        r.1@ == range_scan_flags(points@, flags@, 0),
        r.0@.len() == r.1@.len() <= points@.len(),
        forall|i: int| 0 <= i < r.0@.len() ==> (#[trigger] r.0@[i]).in_range(),
        forall|i: int| 0 <= i < r.0@.len() ==> points@.contains(#[trigger] r.0@[i]),
{
    let n = points.len();
    let mut kept: Vec<Point> = Vec::new();
    let mut kept_flags: Vec<bool> = Vec::new();
    let mut k: usize = 0;
    while k < n
        invariant
            n == points@.len(),
            flags@.len() == n,
            k <= n,
            kept@.len() == kept_flags@.len() <= k,
            range_scan_pts(points@, flags@, 0) == kept@ + range_scan_pts(points@, flags@, k as int),
            range_scan_flags(points@, flags@, 0) == kept_flags@ + range_scan_flags(
                points@,
                flags@,
                k as int,
            ),
            forall|i: int| 0 <= i < kept@.len() ==> (#[trigger] kept@[i]).in_range(),
            forall|i: int| 0 <= i < kept@.len() ==> points@.contains(#[trigger] kept@[i]),
        decreases n - k,
    {
        let p = points[k];
        if -crate::MAX_COORD <= p.x && p.x <= crate::MAX_COORD && -crate::MAX_COORD <= p.y && p.y
            <= crate::MAX_COORD {
            kept.push(p);
            kept_flags.push(flags[k]);
            assert(range_scan_pts(points@, flags@, 0) =~= kept@ + range_scan_pts(
                points@,
                flags@,
                k + 1,
            ));
            assert(range_scan_flags(points@, flags@, 0) =~= kept_flags@ + range_scan_flags(
                points@,
                flags@,
                k + 1,
            ));
            assert(points@.contains(p));
        }
        k = k + 1;
    }
    (kept, kept_flags)
}

/// Merges near-duplicates: walks the points in order; at each unvisited point
/// collects every unvisited neighbour within distance `r` (inclusive); emits
/// the point itself when no neighbour exists, else the neighbours' mean, and
/// marks them visited.  The walk order defines the output order.
pub fn unique_within_dist(points: &Vec<Point>, r: i64) -> (out: Vec<Point>)
    requires
        forall|i: int| 0 <= i < points@.len() ==> points@[i].in_range(),
        0 <= r <= crate::MAX_COORD,
    ensures
        out@ == merged_points(points@, r as int),
        out@.len() <= points@.len(),
        forall|i: int| 0 <= i < out@.len() ==> out@[i].in_range(),
{
    let n = points.len();
    proof {
        crate::math::lemma_mul_bound(r as int, r as int, crate::MAX_COORD as int);
    }
    let rsq: i64 = r * r;
    let mut seen: Vec<bool> = Vec::new();
    let mut t: usize = 0;
    while t < n
        invariant
            t <= n,
            seen@.len() == t,
            forall|j: int| 0 <= j < t ==> !seen@[j],
        decreases n - t,
    {
        seen.push(false);
        t = t + 1;
    }
    assert(seen@ =~= Seq::new(points@.len(), |j: int| false));
    let mut out: Vec<Point> = Vec::new();
    let mut k: usize = 0;
    while k < n
        invariant
            n == points@.len(),
            seen@.len() == n,
            k <= n,
            rsq == r * r,
            0 <= r <= crate::MAX_COORD,
            forall|i: int| 0 <= i < points@.len() ==> points@[i].in_range(),
            merged_points(points@, r as int) == out@ + merge_rec(
                points@,
                rsq as int,
                seen@,
                k as int,
            ),
            out@.len() <= k,
            forall|i: int| 0 <= i < out@.len() ==> out@[i].in_range(),
        decreases n - k,
    {
        let ghost seen0 = seen@;
        let ghost out0 = out@;
        if !seen[k] {
            let pivot = points[k];
            let mut nb: Vec<usize> = Vec::new();
            let mut j: usize = 0;
            while j < n
                invariant
                    n == points@.len(),
                    seen@.len() == n,
                    k < n,
                    j <= n,
                    rsq == r * r,
                    pivot == points@[k as int],
                    forall|i: int| 0 <= i < points@.len() ==> points@[i].in_range(),
                    nbr_scan(points@, seen@, k as int, rsq as int, 0) == nb@ + nbr_scan(
                        points@,
                        seen@,
                        k as int,
                        rsq as int,
                        j as int,
                    ),
                    forall|m: int| 0 <= m < nb@.len() ==> nb@[m] < n,
                    nb@.len() <= j,
                decreases n - j,
            {
                let q = points[j];
                if j != k && !seen[j] && pivot.dist2(&q) <= rsq {
                    assert(nbr_scan(points@, seen@, k as int, rsq as int, j as int) == seq![j]
                        + nbr_scan(points@, seen@, k as int, rsq as int, j + 1));
                    nb.push(j);
                    assert(nbr_scan(points@, seen@, k as int, rsq as int, 0) =~= nb@ + nbr_scan(
                        points@,
                        seen@,
                        k as int,
                        rsq as int,
                        j + 1,
                    ));
                }
                j = j + 1;
            }
            let ghost nbg = nb@;
            assert(nbg == nbr_scan(points@, seen@, k as int, rsq as int, 0));
            if nb.len() == 0 {
                out.push(pivot);
                seen[k] = true;
                proof {
                    assert(merge_rec(points@, rsq as int, seen0, k as int) == seq![pivot]
                        + merge_rec(points@, rsq as int, seen0.update(k as int, true), k + 1));
                    assert(seen@ == seen0.update(k as int, true));
                    assert(out0 + merge_rec(points@, rsq as int, seen0, k as int) =~= out@
                        + merge_rec(points@, rsq as int, seen@, k + 1));
                }
            } else {
                let cnt = nb.len();
                let mut ax: i128 = 0;
                let mut ay: i128 = 0;
                let mut m: usize = 0;
                while m < cnt
                    invariant
                        n == points@.len(),
                        nb@ == nbg,
                        cnt == nb@.len(),
                        m <= cnt,
                        forall|q: int| 0 <= q < nb@.len() ==> nb@[q] < n,
                        forall|i: int| 0 <= i < points@.len() ==> points@[i].in_range(),
                        ax + sum_x(points@, nb@, m as int) == sum_x(points@, nb@, 0),
                        ay + sum_y(points@, nb@, m as int) == sum_y(points@, nb@, 0),
                        -(m as int) * (crate::MAX_COORD as int) <= ax <= (m as int) * (
                        crate::MAX_COORD as int),
                        -(m as int) * (crate::MAX_COORD as int) <= ay <= (m as int) * (
                        crate::MAX_COORD as int),
                    decreases cnt - m,
                {
                    let p = points[nb[m]];
                    ax = ax + p.x as i128;
                    ay = ay + p.y as i128;
                    m = m + 1;
                }
                proof {
                    crate::math::lemma_tdiv_bound(ax as int, cnt as int, crate::MAX_COORD as int);
                    crate::math::lemma_tdiv_bound(ay as int, cnt as int, crate::MAX_COORD as int);
                }
                let cx = ax / (cnt as i128);
                let cy = ay / (cnt as i128);
                let c = Point { x: cx as i64, y: cy as i64 };
                assert(c == centroid(points@, nbg));
                out.push(c);
                seen[k] = true;
                let ghost seen_mid = seen@;
                let mut m2: usize = 0;
                while m2 < cnt
                    invariant
                        n == points@.len(),
                        seen@.len() == n,
                        nb@ == nbg,
                        cnt == nb@.len(),
                        m2 <= cnt,
                        forall|q: int| 0 <= q < nb@.len() ==> nb@[q] < n,
                        mark_seen(seen_mid, nbg, 0) == mark_seen(seen@, nbg, m2 as int),
                    decreases cnt - m2,
                {
                    let idx = nb[m2];
                    proof {
                        assert(mark_seen(seen@, nbg, m2 as int) == mark_seen(
                            seen@.update(idx as int, true),
                            nbg,
                            m2 + 1,
                        ));
                    }
                    seen[idx] = true;
                    m2 = m2 + 1;
                }
                proof {
                    assert(seen@ == mark_seen(seen_mid, nbg, 0));
                    assert(merge_rec(points@, rsq as int, seen0, k as int) == seq![
                        centroid(points@, nbg),
                    ] + merge_rec(points@, rsq as int, mark_seen(seen0.update(k as int, true), nbg, 0), k + 1));
                    assert(seen_mid == seen0.update(k as int, true));
                    assert(out0 + merge_rec(points@, rsq as int, seen0, k as int) =~= out@
                        + merge_rec(points@, rsq as int, seen@, k + 1));
                }
            }
        }
        k = k + 1;
    }
    out
}

/// The points kept by the corner verdicts, scanning upward from `k`.
pub open spec fn kept_scan(pts: Seq<Point>, keep: Seq<bool>, k: int) -> Seq<Point>
    decreases pts.len() - k,
    when 0 <= k <= pts.len() && keep.len() == pts.len()
{
    if k >= pts.len() {
        Seq::empty()
    } else if keep[k] {
        seq![pts[k]] + kept_scan(pts, keep, k + 1)
    } else {
        kept_scan(pts, keep, k + 1)
    }
}

/// Keeps the candidates whose corner verdict is positive and merges
/// near-duplicates within the merge radius.  One verdict per candidate, in
/// candidate order; the caller derives each verdict from the candidate's ring
/// signal.
pub fn get_points(intersection_points: &Vec<Point>, corner_verdicts: &Vec<bool>) -> (r: Vec<Point>)
    requires
        corner_verdicts@.len() == intersection_points@.len(),
        forall|i: int|
            0 <= i < intersection_points@.len() ==> intersection_points@[i].in_range(),
    ensures
        r@ == merged_points(
            kept_scan(intersection_points@, corner_verdicts@, 0),
            MERGE_RADIUS as int,
        ),
        r@.len() <= intersection_points@.len(),
        forall|i: int| 0 <= i < r@.len() ==> r@[i].in_range(),
{
    let n = intersection_points.len();
    let mut kept: Vec<Point> = Vec::new();
    let mut j: usize = 0;
    while j < n
        invariant
            n == intersection_points@.len(),
            corner_verdicts@.len() == n,
            j <= n,
            forall|i: int|
                0 <= i < intersection_points@.len() ==> intersection_points@[i].in_range(),
            kept_scan(intersection_points@, corner_verdicts@, 0) == kept@ + kept_scan(
                intersection_points@,
                corner_verdicts@,
                j as int,
            ),
            kept@.len() <= j,
            forall|i: int| 0 <= i < kept@.len() ==> kept@[i].in_range(),
        decreases n - j,
    {
        if corner_verdicts[j] {
            kept.push(intersection_points[j]);
            assert(kept_scan(intersection_points@, corner_verdicts@, 0) =~= kept@ + kept_scan(
                intersection_points@,
                corner_verdicts@,
                j + 1,
            ));
        }
        j = j + 1;
    }
    unique_within_dist(&kept, MERGE_RADIUS)
}

/// Converts a point to the pixel it falls on.
pub fn point_pixel(p: &Point) -> (r: (u32, u32))
    requires
        p.in_range(),
    ensures
        r.0 == pixel_of_point(*p).0,
        r.1 == pixel_of_point(*p).1,
{
    let cx: i64 = if p.x < 0 {
        0
    } else {
        p.x
    };
    let cy: i64 = if p.y < 0 {
        0
    } else {
        p.y
    };
    ((cx / crate::SCALE) as u32, (cy / crate::SCALE) as u32)
}

} // verus!
