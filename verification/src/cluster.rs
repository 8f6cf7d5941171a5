//! Density clustering of 2D points (DBSCAN).
//!
//! Labels are assigned by point index, never by hashing coordinates: label 0
//! is noise, clusters count from 1.  Two points with identical coordinates
//! always receive identical labels, as if keyed by the coordinates.
use vstd::prelude::*;

use crate::point::Point;

verus! {

/// A point is still expandable while it is unassigned or marked noise.
pub open spec fn expandable(labels: Seq<usize>, assigned: Seq<bool>, m: int) -> bool {
    !assigned[m] || labels[m] == 0
}

/// How many of `[k, len)` are still expandable.
pub open spec fn count_expandable(labels: Seq<usize>, assigned: Seq<bool>, k: int) -> nat
    decreases labels.len() - k,
    when 0 <= k <= labels.len()
{
    if k >= labels.len() {
        0
    } else {
        (if expandable(labels, assigned, k) {
            1nat
        } else {
            0nat
        }) + count_expandable(labels, assigned, k + 1)
    }
}

/// Fewer entries are expandable afterwards when none became expandable.
proof fn lemma_count_le(
    l1: Seq<usize>,
    a1: Seq<bool>,
    l2: Seq<usize>,
    a2: Seq<bool>,
    k: int,
)
    requires
        l1.len() == a1.len() == l2.len() == a2.len(),
        0 <= k <= l1.len(),
        forall|m: int| k <= m < l1.len() && expandable(l2, a2, m) ==> expandable(l1, a1, m),
    ensures
        count_expandable(l2, a2, k) <= count_expandable(l1, a1, k),
    decreases l1.len() - k,
{
    if k < l1.len() {
        lemma_count_le(l1, a1, l2, a2, k + 1);
    }
}

/// Strictly fewer when additionally some expandable entry stopped being so.
proof fn lemma_count_lt(
    l1: Seq<usize>,
    a1: Seq<bool>,
    l2: Seq<usize>,
    a2: Seq<bool>,
    k: int,
    w: int,
)
    requires
        l1.len() == a1.len() == l2.len() == a2.len(),
        0 <= k <= w < l1.len(),
        forall|m: int| k <= m < l1.len() && expandable(l2, a2, m) ==> expandable(l1, a1, m),
        expandable(l1, a1, w),
        !expandable(l2, a2, w),
    ensures
        count_expandable(l2, a2, k) < count_expandable(l1, a1, k),
    decreases l1.len() - k,
{
    if k == w {
        lemma_count_le(l1, a1, l2, a2, k + 1);
    } else {
        lemma_count_lt(l1, a1, l2, a2, k + 1, w);
    }
}

/// Labels and visit marks agree on points with equal coordinates.
pub open spec fn coord_consistent(pts: Seq<Point>, labels: Seq<usize>, assigned: Seq<bool>) -> bool {
    forall|i: int, j: int|
        0 <= i < pts.len() && 0 <= j < pts.len() && pts[i] == pts[j] ==> labels[i] == labels[j]
            && assigned[i] == assigned[j]
}

/// Some point carries the label `c`.
pub open spec fn label_inhabited(labels: Seq<usize>, c: int) -> bool {
    exists|j: int| 0 <= j < labels.len() && (#[trigger] labels[j]) as int == c
}

/// Some core point carries the label `c`: every cluster is anchored by the
/// core point that founded it.
pub open spec fn label_has_core(
    pts: Seq<Point>,
    labels: Seq<usize>,
    eps_sq: int,
    min_pts: int,
    c: int,
) -> bool {
    exists|j: int|
        0 <= j < labels.len() && (#[trigger] labels[j]) as int == c && is_core(
            pts,
            pts[j],
            eps_sq,
            min_pts,
        )
}

/// Reassigning one zero-labelled coordinate class keeps every existing
/// nonzero label anchored by its core point: nonzero labels are never
/// overwritten.
proof fn lemma_inhabited_preserved(
    pts: Seq<Point>,
    l0: Seq<usize>,
    a0: Seq<bool>,
    l1: Seq<usize>,
    i: int,
    label: int,
    bound: int,
    eps_sq: int,
    min_pts: int,
)
    requires
        0 <= i < pts.len(),
        l0.len() == pts.len(),
        a0.len() == pts.len(),
        l1.len() == pts.len(),
        coord_consistent(pts, l0, a0),
        forall|j: int| 0 <= j < pts.len() && !a0[j] ==> l0[j] == 0,
        l0[i] == 0,
        forall|j: int| 0 <= j < pts.len() && pts[j] == pts[i] ==> l1[j] as int == label,
        forall|j: int| 0 <= j < pts.len() && pts[j] != pts[i] ==> l1[j] == l0[j],
        forall|c: int| 1 <= c <= bound ==> #[trigger] label_has_core(pts, l0, eps_sq, min_pts, c),
    ensures
        forall|c: int| 1 <= c <= bound ==> #[trigger] label_has_core(pts, l1, eps_sq, min_pts, c),
{
    assert forall|c: int| 1 <= c <= bound implies #[trigger] label_has_core(
        pts,
        l1,
        eps_sq,
        min_pts,
        c,
    ) by {
        assert(label_has_core(pts, l0, eps_sq, min_pts, c));
        let j = choose|j: int|
            0 <= j < l0.len() && (#[trigger] l0[j]) as int == c && is_core(
                pts,
                pts[j],
                eps_sq,
                min_pts,
            );
        assert(pts[j] != pts[i]) by {
            if pts[j] == pts[i] {
                assert(l0[j] == l0[i]);
            }
        }
        assert((l1[j]) as int == c);
    }
}

/// Indices of the points within squared distance `eps_sq` of the query point
/// `q`, points at exactly `q`'s coordinates excluded, scanning from `k` up.
pub open spec fn rq_scan(pts: Seq<Point>, q: Point, eps_sq: int, k: int) -> Seq<usize>
    decreases pts.len() - k,
    when 0 <= k <= pts.len()
{
    if k >= pts.len() {
        Seq::empty()
    } else if pts[k] != q && q.dist2_spec(pts[k]) <= eps_sq {
        seq![k as usize] + rq_scan(pts, q, eps_sq, k + 1)
    } else {
        rq_scan(pts, q, eps_sq, k + 1)
    }
}

/// A point is a core point when at least `min_pts` others lie within `eps`.
pub open spec fn is_core(pts: Seq<Point>, q: Point, eps_sq: int, min_pts: int) -> bool {
    rq_scan(pts, q, eps_sq, 0).len() >= min_pts
}


/// Count of the expandable entries never exceeds the table length.
proof fn lemma_count_le_len(labels: Seq<usize>, assigned: Seq<bool>, k: int)
    requires
        0 <= k <= labels.len(),
    ensures
        count_expandable(labels, assigned, k) <= labels.len() - k,
    decreases labels.len() - k,
{
    if k < labels.len() {
        lemma_count_le_len(labels, assigned, k + 1);
    }
}

/// The range query yields at most one index per point, each a valid index.
proof fn lemma_rq_bounds(pts: Seq<Point>, q: Point, eps_sq: int, k: int)
    requires
        0 <= k <= pts.len(),
    ensures
        rq_scan(pts, q, eps_sq, k).len() <= pts.len() - k,
        forall|m: int|
            0 <= m < rq_scan(pts, q, eps_sq, k).len() ==> #[trigger] rq_scan(
                pts,
                q,
                eps_sq,
                k,
            )[m] < pts.len(),
    decreases pts.len() - k,
{
    if k < pts.len() {
        lemma_rq_bounds(pts, q, eps_sq, k + 1);
    }
}

/// The labels after giving `label` to every coordinate twin of `p`.
pub open spec fn assign_labels(
    pts: Seq<Point>,
    labels: Seq<usize>,
    p: Point,
    label: usize,
) -> Seq<usize> {
    Seq::new(
        labels.len(),
        |j: int|
            if pts[j] == p {
                label
            } else {
                labels[j]
            },
    )
}

/// The visit marks after visiting every coordinate twin of `p`.
pub open spec fn assign_marks(pts: Seq<Point>, assigned: Seq<bool>, p: Point) -> Seq<bool> {
    Seq::new(
        assigned.len(),
        |j: int|
            if pts[j] == p {
                true
            } else {
                assigned[j]
            },
    )
}

/// The not-yet-visited entries of `idxs[k..]`, in order.
pub open spec fn unvisited_of(idxs: Seq<usize>, assigned: Seq<bool>, k: int) -> Seq<usize>
    decreases idxs.len() - k,
    when 0 <= k <= idxs.len()
{
    if k >= idxs.len() {
        Seq::empty()
    } else if !assigned[idxs[k] as int] {
        seq![idxs[k]] + unvisited_of(idxs, assigned, k + 1)
    } else {
        unvisited_of(idxs, assigned, k + 1)
    }
}

/// The filter keeps at most everything, and keeps only valid indices.
proof fn lemma_unvisited_bounds(idxs: Seq<usize>, assigned: Seq<bool>, k: int, bound: int)
    requires
        0 <= k <= idxs.len(),
        forall|m: int| 0 <= m < idxs.len() ==> idxs[m] < bound,
    ensures
        unvisited_of(idxs, assigned, k).len() <= idxs.len() - k,
        forall|m: int|
            0 <= m < unvisited_of(idxs, assigned, k).len() ==> #[trigger] unvisited_of(
                idxs,
                assigned,
                k,
            )[m] < bound,
    decreases idxs.len() - k,
{
    if k < idxs.len() {
        lemma_unvisited_bounds(idxs, assigned, k + 1, bound);
    }
}

/// Fuel that always suffices for one cluster's expansion.
pub open spec fn expand_fuel(n: nat) -> nat {
    (n + 1) * (n + 1)
}

/// The potential of an expansion state: every step lowers it, so it bounds
/// the steps left.
pub open spec fn expand_pot(labels: Seq<usize>, assigned: Seq<bool>, stack: Seq<usize>) -> nat {
    count_expandable(labels, assigned, 0) * (labels.len() + 1) + stack.len()
}

/// One cluster's expansion, processed from the top of the stack with explicit
/// fuel: a popped point claimed by a cluster is skipped; any other is given
/// the label together with its coordinate twins, and when it is itself a core
/// point its unvisited neighbours join the stack.
pub open spec fn expand_rec(
    pts: Seq<Point>,
    eps_sq: int,
    min_pts: usize,
    label: usize,
    labels: Seq<usize>,
    assigned: Seq<bool>,
    stack: Seq<usize>,
    fuel: nat,
) -> (Seq<usize>, Seq<bool>)
    decreases fuel,
{
    if stack.len() == 0 || fuel == 0 {
        (labels, assigned)
    } else {
        let idx = stack.last() as int;
        let rest = stack.drop_last();
        if assigned[idx] && labels[idx] != 0 {
            expand_rec(pts, eps_sq, min_pts, label, labels, assigned, rest, (fuel - 1) as nat)
        } else {
            let l2 = assign_labels(pts, labels, pts[idx], label);
            let a2 = assign_marks(pts, assigned, pts[idx]);
            let nn = rq_scan(pts, pts[idx], eps_sq, 0);
            let stack2 = if nn.len() >= min_pts {
                rest + unvisited_of(nn, a2, 0)
            } else {
                rest
            };
            expand_rec(pts, eps_sq, min_pts, label, l2, a2, stack2, (fuel - 1) as nat)
        }
    }
}

/// Any two fuels at least the state's potential reach the same tables.
proof fn lemma_expand_fuel(
    pts: Seq<Point>,
    eps_sq: int,
    min_pts: usize,
    label: usize,
    labels: Seq<usize>,
    assigned: Seq<bool>,
    stack: Seq<usize>,
    f1: nat,
    f2: nat,
)
    requires
        labels.len() == pts.len(),
        assigned.len() == pts.len(),
        label >= 1,
        forall|m: int| 0 <= m < stack.len() ==> stack[m] < pts.len(),
        f1 >= expand_pot(labels, assigned, stack),
        f2 >= expand_pot(labels, assigned, stack),
    ensures
        expand_rec(pts, eps_sq, min_pts, label, labels, assigned, stack, f1) == expand_rec(
            pts,
            eps_sq,
            min_pts,
            label,
            labels,
            assigned,
            stack,
            f2,
        ),
    decreases f1,
{
    let n = pts.len() as int;
    if stack.len() == 0 {
    } else {
        assert(f1 >= 1 && f2 >= 1);
        let idx = stack.last() as int;
        let rest = stack.drop_last();
        if assigned[idx] && labels[idx] != 0 {
            assert(expand_pot(labels, assigned, rest) == expand_pot(labels, assigned, stack) - 1);
            lemma_expand_fuel(
                pts,
                eps_sq,
                min_pts,
                label,
                labels,
                assigned,
                rest,
                (f1 - 1) as nat,
                (f2 - 1) as nat,
            );
        } else {
            let l2 = assign_labels(pts, labels, pts[idx], label);
            let a2 = assign_marks(pts, assigned, pts[idx]);
            let nn = rq_scan(pts, pts[idx], eps_sq, 0);
            let stack2 = if nn.len() >= min_pts {
                rest + unvisited_of(nn, a2, 0)
            } else {
                rest
            };
            lemma_rq_bounds(pts, pts[idx], eps_sq, 0);
            lemma_unvisited_bounds(nn, a2, 0, n);
            let c0 = count_expandable(labels, assigned, 0);
            let c2 = count_expandable(l2, a2, 0);
            lemma_count_lt(labels, assigned, l2, a2, 0, idx);
            lemma_count_le_len(labels, assigned, 0);
            assert(c2 * (n + 1) <= (c0 - 1) * (n + 1) && (c0 - 1) * (n + 1) == c0 * (n + 1) - (n
                + 1)) by (nonlinear_arith)
                requires
                    c2 <= c0 - 1,
                    n >= 0,
            ;
            assert(stack2.len() <= stack.len() - 1 + n);
            assert(expand_pot(l2, a2, stack2) <= expand_pot(labels, assigned, stack) - 1);
            assert(forall|m: int| 0 <= m < stack2.len() ==> stack2[m] < pts.len());
            lemma_expand_fuel(
                pts,
                eps_sq,
                min_pts,
                label,
                l2,
                a2,
                stack2,
                (f1 - 1) as nat,
                (f2 - 1) as nat,
            );
        }
    }
}


/// The whole clustering walk from point `i` on: an unvisited point with too
/// few neighbours becomes noise with its coordinate twins; otherwise it
/// founds the next cluster and the cluster expands over its neighbours.
pub open spec fn dbscan_rec(
    pts: Seq<Point>,
    eps_sq: int,
    min_pts: usize,
    labels: Seq<usize>,
    assigned: Seq<bool>,
    cluster_index: usize,
    i: int,
) -> Seq<usize>
    decreases pts.len() - i,
    when 0 <= i <= pts.len()
{
    if i >= pts.len() {
        labels
    } else if assigned[i] {
        dbscan_rec(pts, eps_sq, min_pts, labels, assigned, cluster_index, i + 1)
    } else {
        let nb = rq_scan(pts, pts[i], eps_sq, 0);
        if nb.len() < min_pts {
            dbscan_rec(
                pts,
                eps_sq,
                min_pts,
                assign_labels(pts, labels, pts[i], 0),
                assign_marks(pts, assigned, pts[i]),
                cluster_index,
                i + 1,
            )
        } else {
            let ci2 = (cluster_index + 1) as usize;
            let la = expand_rec(
                pts,
                eps_sq,
                min_pts,
                ci2,
                assign_labels(pts, labels, pts[i], ci2),
                assign_marks(pts, assigned, pts[i]),
                nb,
                expand_fuel(pts.len() as nat),
            );
            dbscan_rec(pts, eps_sq, min_pts, la.0, la.1, ci2, i + 1)
        }
    }
}

/// The labelling the clustering produces, as a closed mathematical function
/// of the inputs.
pub open spec fn dbscan_spec(pts: Seq<Point>, eps_sq: int, min_pts: usize) -> Seq<usize> {
    dbscan_rec(
        pts,
        eps_sq,
        min_pts,
        Seq::new(pts.len(), |j: int| 0usize),
        Seq::new(pts.len(), |j: int| false),
        0,
        0,
    )
}

/// Collects the neighbours of `points[i]` within distance `eps` (by squared
/// distance), bit-equal duplicates of the query point excluded.
fn range_query(points: &Vec<Point>, i: usize, eps_sq: i64) -> (r: Vec<usize>)
    requires
        forall|q: int| 0 <= q < points@.len() ==> points@[q].in_range(),
        i < points@.len(),
    ensures
        r@ == rq_scan(points@, points@[i as int], eps_sq as int, 0),
        r@.len() <= points@.len(),
        forall|m: int| 0 <= m < r@.len() ==> r@[m] < points@.len(),
{
    let n = points.len();
    let p = points[i];
    let mut r: Vec<usize> = Vec::new();
    let mut k: usize = 0;
    while k < n
        invariant
            n == points@.len(),
            i < n,
            k <= n,
            p == points@[i as int],
            forall|q: int| 0 <= q < points@.len() ==> points@[q].in_range(),
            rq_scan(points@, p, eps_sq as int, 0) == r@ + rq_scan(
                points@,
                p,
                eps_sq as int,
                k as int,
            ),
            r@.len() <= k,
            forall|m: int| 0 <= m < r@.len() ==> r@[m] < n,
        decreases n - k,
    {
        let q = points[k];
        if (q.x != p.x || q.y != p.y) && p.dist2(&q) <= eps_sq {
            r.push(k);
            assert(rq_scan(points@, p, eps_sq as int, 0) =~= r@ + rq_scan(
                points@,
                p,
                eps_sq as int,
                k + 1,
            ));
        }
        k = k + 1;
    }
    r
}

/// Gives `label` to `points[i]` and to every point with the same coordinates,
/// and marks them visited.
fn assign_all(
    labels: &mut Vec<usize>,
    assigned: &mut Vec<bool>,
    points: &Vec<Point>,
    i: usize,
    label: usize,
)
    requires
        old(labels)@.len() == points@.len(),
        old(assigned)@.len() == points@.len(),
        i < points@.len(),
    ensures
        final(labels)@.len() == points@.len(),
        final(assigned)@.len() == points@.len(),
        forall|j: int|
            0 <= j < points@.len() && points@[j] == points@[i as int] ==> final(labels)@[j]
                == label && final(assigned)@[j],
        forall|j: int|
            0 <= j < points@.len() && points@[j] != points@[i as int] ==> final(labels)@[j] == old(
                labels,
            )@[j] && final(assigned)@[j] == old(assigned)@[j],
{
    let n = points.len();
    let p = points[i];
    let mut j: usize = 0;
    while j < n
        invariant
            n == points@.len(),
            labels@.len() == n,
            assigned@.len() == n,
            i < n,
            p == points@[i as int],
            forall|q: int|
                0 <= q < j && points@[q] == points@[i as int] ==> labels@[q] == label
                    && assigned@[q],
            forall|q: int|
                j <= q < n ==> labels@[q] == old(labels)@[q] && assigned@[q] == old(assigned)@[q],
            forall|q: int|
                0 <= q < n && points@[q] != points@[i as int] ==> labels@[q] == old(labels)@[q]
                    && assigned@[q] == old(assigned)@[q],
        decreases n - j,
    {
        let q = points[j];
        if q.x == p.x && q.y == p.y {
            labels[j] = label;
            assigned[j] = true;
        }
        j = j + 1;
    }
}

/// Density clustering with parameters `(eps, min_pts)`, `eps` given as its
/// square in coordinate units.  Every input receives exactly one label, in
/// input order: 0 is noise, clusters count from 1 without gaps.  A border
/// point keeps the cluster that claimed it first, and points with equal
/// coordinates always carry equal labels.  Every core point (one with at
/// least `min_pts` neighbours within `eps`) lands in a cluster, and every
/// cluster is anchored by the core point that founded it, so when no core
/// point exists everything is noise.  The whole labelling equals the closed
/// specification `dbscan_spec`, so it depends only on the inputs and their
/// order, never on hash iteration.
pub fn dbscan(points: &Vec<Point>, eps_sq: i64, min_pts: usize) -> (r: Vec<usize>)
    requires
        forall|q: int| 0 <= q < points@.len() ==> points@[q].in_range(),
    ensures
        r@.len() == points@.len(),
        forall|i: int, j: int|
            0 <= i < points@.len() && 0 <= j < points@.len() && points@[i] == points@[j]
                ==> r@[i] == r@[j],
        forall|i: int| 0 <= i < r@.len() ==> r@[i] <= points@.len(),
        min_pts > points@.len() ==> forall|i: int| 0 <= i < r@.len() ==> r@[i] == 0,
        forall|i: int|
            0 <= i < points@.len() && #[trigger] is_core(
                points@,
                points@[i],
                eps_sq as int,
                min_pts as int,
            ) ==> r@[i] >= 1,
        forall|i: int, c: int|
            #![trigger r@[i], label_inhabited(r@, c)]
            0 <= i < r@.len() && 1 <= c <= r@[i] ==> label_inhabited(r@, c),
        forall|i: int, c: int|
            #![trigger r@[i], label_has_core(points@, r@, eps_sq as int, min_pts as int, c)]
            0 <= i < r@.len() && 1 <= c <= r@[i] ==> label_has_core(
                points@,
                r@,
                eps_sq as int,
                min_pts as int,
                c,
            ),
        r@ == dbscan_spec(points@, eps_sq as int, min_pts),
{
    let n = points.len();
    let mut labels: Vec<usize> = Vec::new();
    let mut assigned: Vec<bool> = Vec::new();
    let mut t: usize = 0;
    while t < n
        invariant
            t <= n,
            labels@.len() == t,
            assigned@.len() == t,
            forall|j: int| 0 <= j < t ==> labels@[j] == 0 && !assigned@[j],
        decreases n - t,
    {
        labels.push(0);
        assigned.push(false);
        t = t + 1;
    }
    proof {
        assert(labels@ =~= Seq::new(points@.len(), |j: int| 0usize));
        assert(assigned@ =~= Seq::new(points@.len(), |j: int| false));
    }
    let mut cluster_index: usize = 0;
    let mut i: usize = 0;
    while i < n
        invariant
            n == points@.len(),
            labels@.len() == n,
            assigned@.len() == n,
            i <= n,
            cluster_index <= i,
            forall|q: int| 0 <= q < points@.len() ==> points@[q].in_range(),
            coord_consistent(points@, labels@, assigned@),
            forall|j: int| 0 <= j < n ==> labels@[j] <= cluster_index,
            min_pts > n ==> forall|j: int| 0 <= j < n ==> labels@[j] == 0,
            forall|j: int| 0 <= j < i ==> assigned@[j],
            forall|j: int| 0 <= j < n && !assigned@[j] ==> labels@[j] == 0,
            forall|j: int|
                0 <= j < n && assigned@[j] && labels@[j] == 0 ==> !is_core(
                    points@,
                    #[trigger] points@[j],
                    eps_sq as int,
                    min_pts as int,
                ),
            forall|c: int|
                1 <= c <= cluster_index ==> #[trigger] label_has_core(
                    points@,
                    labels@,
                    eps_sq as int,
                    min_pts as int,
                    c,
                ),
            dbscan_spec(points@, eps_sq as int, min_pts) == dbscan_rec(
                points@,
                eps_sq as int,
                min_pts,
                labels@,
                assigned@,
                cluster_index,
                i as int,
            ),
        decreases n - i,
    {
        if !assigned[i] {
            let ghost olabels = labels@;
            let ghost oassigned = assigned@;
            let neighbors = range_query(points, i, eps_sq);
            if neighbors.len() < min_pts {
                assign_all(&mut labels, &mut assigned, points, i, 0);
                proof {
                    lemma_assign_consistent(
                        points@,
                        labels@,
                        assigned@,
                        olabels,
                        oassigned,
                        i as int,
                        0,
                    );
                    lemma_inhabited_preserved(
                        points@,
                        olabels,
                        oassigned,
                        labels@,
                        i as int,
                        0,
                        cluster_index as int,
                        eps_sq as int,
                        min_pts as int,
                    );
                    assert(!is_core(points@, points@[i as int], eps_sq as int, min_pts as int));
                    assert(labels@ =~= assign_labels(points@, olabels, points@[i as int], 0));
                    assert(assigned@ =~= assign_marks(points@, oassigned, points@[i as int]));
                }
            } else {
                let ghost oci = cluster_index;
                cluster_index = cluster_index + 1;
                assign_all(&mut labels, &mut assigned, points, i, cluster_index);
                proof {
                    lemma_assign_consistent(
                        points@,
                        labels@,
                        assigned@,
                        olabels,
                        oassigned,
                        i as int,
                        cluster_index as int,
                    );
                    lemma_inhabited_preserved(
                        points@,
                        olabels,
                        oassigned,
                        labels@,
                        i as int,
                        cluster_index as int,
                        (cluster_index - 1) as int,
                        eps_sq as int,
                        min_pts as int,
                    );
                    assert(labels@[i as int] as int == cluster_index as int);
                    assert(is_core(points@, points@[i as int], eps_sq as int, min_pts as int));
                    assert(label_has_core(
                        points@,
                        labels@,
                        eps_sq as int,
                        min_pts as int,
                        cluster_index as int,
                    ));
                    assert(labels@ =~= assign_labels(
                        points@,
                        olabels,
                        points@[i as int],
                        cluster_index,
                    ));
                    assert(assigned@ =~= assign_marks(points@, oassigned, points@[i as int]));
                }
                let ghost l2g = labels@;
                let ghost a2g = assigned@;
                let ghost nbg = neighbors@;
                proof {
                    lemma_count_le_len(l2g, a2g, 0);
                    lemma_rq_bounds(points@, points@[i as int], eps_sq as int, 0);
                    assert(expand_pot(l2g, a2g, nbg) <= expand_fuel(n as nat)) by (nonlinear_arith)
                        requires
                            expand_pot(l2g, a2g, nbg) == count_expandable(l2g, a2g, 0) * (
                            l2g.len() + 1) + nbg.len(),
                            count_expandable(l2g, a2g, 0) <= l2g.len(),
                            nbg.len() <= l2g.len(),
                            l2g.len() == n,
                            expand_fuel(n as nat) == ((n as nat) + 1) * ((n as nat) + 1),
                    ;
                    lemma_expand_fuel(
                        points@,
                        eps_sq as int,
                        min_pts,
                        cluster_index,
                        l2g,
                        a2g,
                        nbg,
                        expand_fuel(n as nat),
                        expand_pot(l2g, a2g, nbg),
                    );
                }
                let ghost tla = expand_rec(
                    points@,
                    eps_sq as int,
                    min_pts,
                    cluster_index,
                    l2g,
                    a2g,
                    nbg,
                    expand_fuel(n as nat),
                );
                let mut stack = neighbors;
                while stack.len() > 0
                    invariant
                        n == points@.len(),
                        labels@.len() == n,
                        assigned@.len() == n,
                        1 <= cluster_index <= i + 1,
                        i < n,
                        forall|q: int| 0 <= q < points@.len() ==> points@[q].in_range(),
                        coord_consistent(points@, labels@, assigned@),
                        forall|j: int| 0 <= j < n ==> labels@[j] <= cluster_index,
                        forall|m: int| 0 <= m < stack@.len() ==> stack@[m] < n,
                        forall|j: int| 0 <= j < i ==> assigned@[j],
                        assigned@[i as int],
                        forall|j: int| 0 <= j < n && !assigned@[j] ==> labels@[j] == 0,
                        forall|j: int|
                            0 <= j < n && assigned@[j] && labels@[j] == 0 ==> !is_core(
                                points@,
                                #[trigger] points@[j],
                                eps_sq as int,
                                min_pts as int,
                            ),
                        forall|c: int|
                            1 <= c <= cluster_index ==> #[trigger] label_has_core(
                                points@,
                                labels@,
                                eps_sq as int,
                                min_pts as int,
                                c,
                            ),
                        expand_rec(
                            points@,
                            eps_sq as int,
                            min_pts,
                            cluster_index,
                            labels@,
                            assigned@,
                            stack@,
                            expand_pot(labels@, assigned@, stack@),
                        ) == tla,
                    decreases count_expandable(labels@, assigned@, 0), stack@.len(),
                {
                    let ghost labels0 = labels@;
                    let ghost assigned0 = assigned@;
                    let ghost stack_pre = stack@;
                    let idx = stack.pop().unwrap();
                    let ghost restg = stack@;
                    if assigned[idx] && labels[idx] != 0 {
                        // claimed by a cluster already; never re-assigned
                        proof {
                            assert(labels@ == labels0 && assigned@ == assigned0);
                            assert(expand_pot(labels0, assigned0, stack_pre) >= 1);
                            assert(expand_pot(labels@, assigned@, stack@) == expand_pot(
                                labels0,
                                assigned0,
                                stack_pre,
                            ) - 1);
                        }
                    } else {
                        assign_all(&mut labels, &mut assigned, points, idx, cluster_index);
                        proof {
                            lemma_assign_consistent(
                                points@,
                                labels@,
                                assigned@,
                                labels0,
                                assigned0,
                                idx as int,
                                cluster_index as int,
                            );
                            lemma_count_lt(
                                labels0,
                                assigned0,
                                labels@,
                                assigned@,
                                0,
                                idx as int,
                            );
                            lemma_inhabited_preserved(
                                points@,
                                labels0,
                                assigned0,
                                labels@,
                                idx as int,
                                cluster_index as int,
                                cluster_index as int,
                                eps_sq as int,
                                min_pts as int,
                            );
                            assert(labels@ =~= assign_labels(
                                points@,
                                labels0,
                                points@[idx as int],
                                cluster_index,
                            ));
                            assert(assigned@ =~= assign_marks(
                                points@,
                                assigned0,
                                points@[idx as int],
                            ));
                        }
                        let nn = range_query(points, idx, eps_sq);
                        let ghost labels1 = labels@;
                        let ghost assigned1 = assigned@;
                        let ghost nng = nn@;
                        if nn.len() >= min_pts {
                            let mut m: usize = 0;
                            while m < nn.len()
                                invariant
                                    n == points@.len(),
                                    labels@ == labels1,
                                    assigned@ == assigned1,
                                    labels@.len() == n,
                                    assigned@.len() == n,
                                    m <= nn@.len(),
                                    nn@ == nng,
                                    forall|q: int| 0 <= q < nn@.len() ==> nn@[q] < n,
                                    forall|q: int| 0 <= q < stack@.len() ==> stack@[q] < n,
                                    restg + unvisited_of(nng, assigned1, 0) == stack@
                                        + unvisited_of(nng, assigned1, m as int),
                                decreases nn@.len() - m,
                            {
                                let cand = nn[m];
                                if !assigned[cand] {
                                    stack.push(cand);
                                    assert(restg + unvisited_of(nng, assigned1, 0) =~= stack@
                                        + unvisited_of(nng, assigned1, m + 1));
                                }
                                m = m + 1;
                            }
                            proof {
                                assert(stack@ =~= restg + unvisited_of(nng, assigned1, 0));
                            }
                        }
                        proof {
                            // one unfolding of the expansion, then fuel irrelevance
                            let pot_pre = expand_pot(labels0, assigned0, stack_pre);
                            let cnt0 = count_expandable(labels0, assigned0, 0);
                            let cnt1 = count_expandable(labels@, assigned@, 0);
                            lemma_rq_bounds(points@, points@[idx as int], eps_sq as int, 0);
                            lemma_unvisited_bounds(nng, assigned1, 0, n as int);
                            assert(cnt1 * (n + 1) <= (cnt0 - 1) * (n + 1) && (cnt0 - 1) * (n + 1)
                                == cnt0 * (n + 1) - (n + 1)) by (nonlinear_arith)
                                requires
                                    cnt1 <= cnt0 - 1,
                                    n >= 0,
                            ;
                            assert(stack@.len() <= stack_pre.len() - 1 + n);
                            assert(expand_pot(labels@, assigned@, stack@) <= pot_pre - 1);
                            assert(pot_pre >= 1);
                            assert(expand_rec(
                                points@,
                                eps_sq as int,
                                min_pts,
                                cluster_index,
                                labels0,
                                assigned0,
                                stack_pre,
                                pot_pre,
                            ) == expand_rec(
                                points@,
                                eps_sq as int,
                                min_pts,
                                cluster_index,
                                labels@,
                                assigned@,
                                stack@,
                                (pot_pre - 1) as nat,
                            ));
                            lemma_expand_fuel(
                                points@,
                                eps_sq as int,
                                min_pts,
                                cluster_index,
                                labels@,
                                assigned@,
                                stack@,
                                (pot_pre - 1) as nat,
                                expand_pot(labels@, assigned@, stack@),
                            );
                        }
                    }
                }
                proof {
                    assert((labels@, assigned@) == tla);
                    assert(dbscan_rec(
                        points@,
                        eps_sq as int,
                        min_pts,
                        olabels,
                        oassigned,
                        oci,
                        i as int,
                    ) == dbscan_rec(
                        points@,
                        eps_sq as int,
                        min_pts,
                        labels@,
                        assigned@,
                        cluster_index,
                        i + 1,
                    ));
                }
            }
        }
        i = i + 1;
    }
    proof {
        assert forall|i2: int, c: int|
            #![trigger labels@[i2], label_inhabited(labels@, c)]
            0 <= i2 < labels@.len() && 1 <= c <= labels@[i2] implies label_inhabited(
            labels@,
            c,
        ) by {
            assert(label_has_core(points@, labels@, eps_sq as int, min_pts as int, c));
            let j = choose|j: int|
                0 <= j < labels@.len() && (#[trigger] labels@[j]) as int == c && is_core(
                    points@,
                    points@[j],
                    eps_sq as int,
                    min_pts as int,
                );
            assert((labels@[j]) as int == c);
        }
    }
    labels
}

/// Assigning one label to a whole coordinate class keeps labels consistent.
proof fn lemma_assign_consistent(
    pts: Seq<Point>,
    labels: Seq<usize>,
    assigned: Seq<bool>,
    l0: Seq<usize>,
    a0: Seq<bool>,
    i: int,
    label: int,
)
    requires
        0 <= i < pts.len(),
        labels.len() == pts.len(),
        assigned.len() == pts.len(),
        l0.len() == pts.len(),
        a0.len() == pts.len(),
        coord_consistent(pts, l0, a0),
        forall|j: int|
            0 <= j < pts.len() && pts[j] == pts[i] ==> labels[j] == label && assigned[j],
        forall|j: int|
            0 <= j < pts.len() && pts[j] != pts[i] ==> labels[j] == l0[j] && assigned[j] == a0[j],
    ensures
        coord_consistent(pts, labels, assigned),
{
    assert forall|x: int, y: int|
        0 <= x < pts.len() && 0 <= y < pts.len() && pts[x] == pts[y] implies labels[x] == labels[y]
        && assigned[x] == assigned[y] by {
        if pts[x] == pts[i] {
        } else {
            assert(labels[x] == l0[x] && assigned[x] == a0[x]);
            assert(labels[y] == l0[y] && assigned[y] == a0[y]);
        }
    }
}

} // verus!
