//! Locates the play field of a chessboard in a photograph.
//!
//! The library is the geometric core of the pipeline: it turns a list of
//! detected lines and per-candidate corner verdicts into the four outer
//! corners of the board, ready for a perspective rectification.  All
//! coordinates are fixed-point: one pixel is `SCALE` units, so sub-pixel
//! geometry stays in exact integer arithmetic.
use vstd::prelude::*;

pub mod bounding_box;
pub mod cluster;
pub mod image;
pub mod lattice;
pub mod layer;
pub mod line;
pub mod math;
pub mod point;
pub mod sample_consensus;

use crate::line::Line;
use crate::point::Point;

verus! {

/// Number of coordinate units per image pixel.
pub const SCALE: i64 = 10;

/// Largest coordinate magnitude (in units) the geometry accepts; keeps every
/// intermediate product inside `i64` / `i128` range.
pub const MAX_COORD: i64 = 262144;

/// What one segmentation pass found: the four board corners in canonical
/// clockwise order, and the area of the bounding quad against the frame area
/// (both in squared coordinate units), from which the error metric
/// `1 - mbb_area / input_area` is read off.
pub struct SegmentResult {
    pub corners: [Point; 4],
    pub mbb_area: i64,
    pub input_area: i64,
}

impl SegmentResult {
    /// Both areas are nonnegative and small enough that doubling either one
    /// stays in range.
    pub open spec fn wf(self) -> bool {
        0 <= self.mbb_area <= 0x10000000000 && 0 < self.input_area <= 0x10000000000
    }

    /// Whether the error metric `1 - mbb_area / input_area` is below one
    /// half: the board quad covers more than half the frame.
    pub fn error_below_half(&self) -> (r: bool)
        requires
            self.wf(),
        ensures
            r == (2 * self.mbb_area > self.input_area),
    {
        2 * self.mbb_area > self.input_area
    }
}

/// The candidate nearest to `p` among `cands[k..]` given the best so far,
/// earliest winner on ties.
pub open spec fn nearest_scan(cands: Seq<Point>, p: Point, best: Point, k: int) -> Point
    decreases cands.len() - k,
    when 0 <= k <= cands.len()
{
    if k >= cands.len() {
        best
    } else if p.dist2_spec(cands[k]) < p.dist2_spec(best) {
        nearest_scan(cands, p, cands[k], k + 1)
    } else {
        nearest_scan(cands, p, best, k + 1)
    }
}

/// The candidate nearest to `p` by squared distance, the earliest on ties.
pub open spec fn nearest_point_spec(cands: Seq<Point>, p: Point) -> Point {
    nearest_scan(cands, p, cands[0], 1)
}

/// The in-range crossings of the detected lines: the lattice stage's
/// candidate points, in crossing order.
pub open spec fn crossing_candidates(lines: Seq<Line>, verdicts: Seq<bool>) -> Seq<Point> {
    crate::lattice::range_scan_pts(crate::line::intersections_spec(lines), verdicts, 0)
}

/// The verdicts of the in-range crossings, in the same order.
pub open spec fn crossing_verdicts(lines: Seq<Line>, verdicts: Seq<bool>) -> Seq<bool> {
    crate::lattice::range_scan_flags(crate::line::intersections_spec(lines), verdicts, 0)
}

/// The merged lattice points of one pass: the in-range crossings, kept by
/// their corner verdicts and merged within the merge radius.
pub open spec fn lattice_points_spec(lines: Seq<Line>, verdicts: Seq<bool>) -> Seq<Point> {
    crate::lattice::merged_points(
        crate::lattice::kept_scan(
            crossing_candidates(lines, verdicts),
            crossing_verdicts(lines, verdicts),
            0,
        ),
        crate::lattice::MERGE_RADIUS as int,
    )
}

/// The outward snap offset of one pass: a quarter of the larger of
/// `sqrt(error * mbb_area)` and `sqrt(mbb_area) / 6`, with
/// `error = 1 - mbb_area / input_area`, every step rounded toward zero.
pub open spec fn offset_amount(mbb_area: int, input_area: int) -> int {
    let off_err = if mbb_area < input_area {
        crate::math::isqrt_spec(
            crate::math::tdiv(mbb_area * (input_area - mbb_area), input_area) as nat,
        ) as int
    } else {
        0
    };
    let off_min = crate::math::tdiv(crate::math::isqrt_spec(mbb_area as nat) as int, 6);
    crate::math::tdiv(
        if off_err > off_min {
            off_err
        } else {
            off_min
        },
        4,
    )
}

/// One corner of the quad `q`, pushed outward by its two incident edge
/// offsets.
pub open spec fn offset_corner(q: Seq<Point>, k: int, d: int) -> Point {
    Point {
        x: (q[k].x + crate::bounding_box::edge_off_x(q, k, d) + crate::bounding_box::edge_off_x(
            q,
            crate::bounding_box::prev_idx(4, k),
            d,
        )) as i64,
        y: (q[k].y + crate::bounding_box::edge_off_y(q, k, d) + crate::bounding_box::edge_off_y(
            q,
            crate::bounding_box::prev_idx(4, k),
            d,
        )) as i64,
    }
}

/// The bounding quad `q` explains the pass outcome `res` over the crossing
/// candidates: the reported area is the quad's area, and each corner of the
/// outcome is the candidate nearest to the corresponding outward-offset
/// corner of the quad.
pub open spec fn quad_explains(cands: Seq<Point>, q: Seq<Point>, res: SegmentResult) -> bool {
    let off = offset_amount(crate::bounding_box::quad_area(q), res.input_area as int);
    &&& q.len() == 4
    &&& forall|j: int| 0 <= j < 4 ==> (#[trigger] q[j]).in_range()
    &&& forall|j: int| 0 <= j < 4 ==> q[crate::bounding_box::next_idx(4, j)] != #[trigger] q[j]
    &&& res.mbb_area == crate::bounding_box::quad_area(q)
    &&& 0 <= off <= 32768
    &&& forall|k: int|
        0 <= k < 4 ==> #[trigger] res.corners@[k] == nearest_point_spec(
            cands,
            offset_corner(q, k, off),
        )
}

/// Some bounding quad explains the pass outcome over the crossing
/// candidates of the given lines and verdicts.
pub open spec fn pass_explained(lines: Seq<Line>, verdicts: Seq<bool>, res: SegmentResult) -> bool {
    exists|q: Seq<Point>| #[trigger] quad_explains(crossing_candidates(lines, verdicts), q, res)
}

/// One pass of the driver as a closed function of its inputs: the merged
/// lattice of the in-range crossings, the dominant cluster's bounding quad,
/// the outward offset, and the snap of each offset corner to the nearest
/// crossing, with every guard of the implementation spelled out.
pub open spec fn segment_spec(
    width: u32,
    height: u32,
    lines: Seq<Line>,
    verdicts: Seq<bool>,
) -> Option<SegmentResult> {
    let merged = lattice_points_spec(lines, verdicts);
    let input_area = (width as int) * (height as int) * (SCALE * SCALE);
    if lines.len() == 0 {
        None
    } else if merged.len() < 4 || merged.len() > 0x400000 {
        None
    } else {
        match crate::bounding_box::bounding_box_spec(merged) {
            None => None,
            Some(q) => {
                let mbb_area = crate::bounding_box::quad_area(q);
                let off = offset_amount(mbb_area, input_area);
                if off > 32768 {
                    None
                } else if !(forall|j: int|
                    0 <= j < 4 ==> -131072 <= (#[trigger] q[j]).x <= 131072 && -131072 <= q[j].y
                        <= 131072) || !(forall|j: int|
                    0 <= j < 4 ==> q[crate::bounding_box::next_idx(4, j)] != #[trigger] q[j]) {
                    None
                } else {
                    let cands = crossing_candidates(lines, verdicts);
                    Some(
                        SegmentResult {
                            corners: [
                                nearest_point_spec(cands, offset_corner(q, 0, off)),
                                nearest_point_spec(cands, offset_corner(q, 1, off)),
                                nearest_point_spec(cands, offset_corner(q, 2, off)),
                                nearest_point_spec(cands, offset_corner(q, 3, off)),
                            ],
                            mbb_area: mbb_area as i64,
                            input_area: input_area as i64,
                        },
                    )
                }
            },
        }
    }
}

/// The index of the candidate nearest to `q` by squared distance, the
/// earliest on ties.
fn nearest_index(q: Point, candidates: &Vec<Point>) -> (r: usize)
    requires
        q.in_range(),
        candidates@.len() >= 1,
        forall|i: int| 0 <= i < candidates@.len() ==> (#[trigger] candidates@[i]).in_range(),
    ensures
        r < candidates@.len(),
        forall|j: int|
            0 <= j < candidates@.len() ==> q.dist2_spec(#[trigger] candidates@[j]) >= q.dist2_spec(
                candidates@[r as int],
            ),
        forall|j: int|
            0 <= j < r ==> q.dist2_spec(#[trigger] candidates@[j]) > q.dist2_spec(
                candidates@[r as int],
            ),
        candidates@[r as int] == nearest_point_spec(candidates@, q),
{
    let mut best: usize = 0;
    let mut best_d = q.dist2(&candidates[0]);
    let mut j: usize = 1;
    while j < candidates.len()
        invariant
            q.in_range(),
            candidates@.len() >= 1,
            forall|i: int| 0 <= i < candidates@.len() ==> (#[trigger] candidates@[i]).in_range(),
            best < j || best == 0,
            j <= candidates@.len(),
            best < candidates@.len(),
            best_d == q.dist2_spec(candidates@[best as int]),
            forall|i: int|
                0 <= i < j ==> q.dist2_spec(#[trigger] candidates@[i]) >= q.dist2_spec(
                    candidates@[best as int],
                ),
            forall|i: int|
                0 <= i < best ==> q.dist2_spec(#[trigger] candidates@[i]) > q.dist2_spec(
                    candidates@[best as int],
                ),
            nearest_point_spec(candidates@, q) == nearest_scan(
                candidates@,
                q,
                candidates@[best as int],
                j as int,
            ),
        decreases candidates@.len() - j,
    {
        let d = q.dist2(&candidates[j]);
        if d < best_d {
            best = j;
            best_d = d;
        }
        j = j + 1;
    }
    best
}

/// One segmentation pass over an image of `width` by `height` pixels: all
/// pairwise crossings of the detected lines (the out-of-range ones filtered
/// here, as the intersection primitive leaves that to its callers), the
/// corner-verdict filter and near-duplicate merge, the bounding quad of the
/// dominant cluster, an outward offset of a quarter of
/// `max(sqrt(error * mbb_area), sqrt(mbb_area) / 6)`, and a snap of each
/// offset corner to the nearest crossing.  One verdict per crossing, in
/// crossing order.  Nothing comes back when fewer than four lattice points
/// survive, when clustering finds only noise, or when a quad degenerates.
#[verifier::rlimit(100)]
pub fn segment(width: u32, height: u32, lines: &Vec<Line>, corner_verdicts: &Vec<bool>) -> (r:
    Option<SegmentResult>)
    requires
        1 <= width <= crate::image::MAX_DIM,
        1 <= height <= crate::image::MAX_DIM,
        forall|i: int| 0 <= i < lines@.len() ==> (#[trigger] lines@[i]).wf(),
        corner_verdicts@.len() == crate::line::intersections_spec(lines@).len(),
    ensures
        r == segment_spec(width, height, lines@, corner_verdicts@),
        lines@.len() == 0 ==> r is None,
        lattice_points_spec(lines@, corner_verdicts@).len() < 4 ==> r is None,
        crate::bounding_box::hull_spec(lattice_points_spec(lines@, corner_verdicts@)) is None
            ==> r is None,
        (match crate::bounding_box::hull_spec(lattice_points_spec(lines@, corner_verdicts@)) {
            Some(h0) => forall|i: int|
                0 <= i < lattice_points_spec(lines@, corner_verdicts@).len()
                    ==> !crate::cluster::is_core(
                    lattice_points_spec(lines@, corner_verdicts@),
                    #[trigger] lattice_points_spec(lines@, corner_verdicts@)[i],
                    crate::math::tdiv(crate::bounding_box::polygon_area(h0), 15),
                    5,
                ),
            None => false,
        }) ==> r is None,
        r matches Some(res) ==> {
            &&& res.wf()
            &&& res.input_area == (width as int) * (height as int) * (SCALE * SCALE)
            &&& pass_explained(lines@, corner_verdicts@, res)
            &&& forall|k: int|
                0 <= k < 4 ==> crate::line::intersections_spec(lines@).contains(
                    #[trigger] res.corners@[k],
                )
            &&& forall|k: int| 0 <= k < 4 ==> (#[trigger] res.corners@[k]).in_range()
        },
{
    let crossings = crate::line::pairwise_intersections(lines);
    if lines.len() == 0 {
        return None;
    }
    let (pts, kept_verdicts) = crate::lattice::filter_in_range(&crossings, corner_verdicts);
    let points = crate::lattice::get_points(&pts, &kept_verdicts);
    assert(points@ == lattice_points_spec(lines@, corner_verdicts@));
    if points.len() < 4 {
        return None;
    }
    if points.len() > 0x400000 {
        return None;
    }
    let mbb = match crate::bounding_box::bounding_box(&points) {
        Some(q) => q,
        None => {
            return None;
        },
    };
    let mbb_area = crate::bounding_box::bounding_box_area(mbb);
    proof {
        crate::math::lemma_mul_le_mono(
            width as int,
            crate::image::MAX_DIM as int,
            height as int,
            crate::image::MAX_DIM as int,
        );
        crate::math::lemma_mul_le_mono(1, width as int, 1, height as int);
    }
    let input_area: i64 = (width as i64) * (height as i64) * (SCALE * SCALE);
    proof {
        assert(100 <= input_area <= 0x10000000000) by (nonlinear_arith)
            requires
                1 <= width <= 8192,
                1 <= height <= 8192,
                input_area == (width as int) * (height as int) * 100,
        ;
    }
    let off_err: i64 = if mbb_area < input_area {
        proof {
            crate::math::lemma_mul_abs_bound(
                mbb_area as int,
                (input_area - mbb_area) as int,
                0x10000000000int,
                0x10000000000int,
            );
            crate::math::lemma_mul_le_mono(
                mbb_area as int,
                0x10000000000int,
                (input_area - mbb_area) as int,
                input_area as int,
            );
        }
        let prod: i128 = (mbb_area as i128) * ((input_area - mbb_area) as i128);
        let em: i128 = prod / (input_area as i128);
        proof {
            assert(prod >= 0) by (nonlinear_arith)
                requires
                    prod == (mbb_area as int) * ((input_area - mbb_area) as int),
                    mbb_area >= 0,
                    input_area - mbb_area >= 0,
            ;
            crate::math::lemma_tdiv_bound(prod as int, input_area as int, 0x10000000000int);
            assert(em >= 0) by (nonlinear_arith)
                requires
                    em == crate::math::tdiv(prod as int, input_area as int),
                    prod >= 0,
                    input_area >= 1,
            ;
        }
        let s = crate::math::isqrt(em as u64);
        proof {
            assert(s < 0x200000) by (nonlinear_arith)
                requires
                    (s as int) * (s as int) <= em as int,
                    em <= 0x10000000000,
            ;
        }
        s as i64
    } else {
        0
    };
    let s2 = crate::math::isqrt(mbb_area as u64);
    proof {
        assert(s2 < 0x200000) by (nonlinear_arith)
            requires
                (s2 as int) * (s2 as int) <= mbb_area as int,
                0 <= mbb_area <= 0x10000000000,
        ;
    }
    let off_min: i64 = (s2 as i64) / 6;
    let off_raw: i64 = if off_err > off_min {
        off_err
    } else {
        off_min
    };
    let off: i64 = off_raw / 4;
    assert(off == offset_amount(mbb_area as int, input_area as int));
    if off > 32768 {
        return None;
    }
    let mut k: usize = 0;
    while k < 4
        invariant
            k <= 4,
            lines@.len() != 0,
            4 <= lattice_points_spec(lines@, corner_verdicts@).len() <= 0x400000,
            crate::bounding_box::bounding_box_spec(lattice_points_spec(lines@, corner_verdicts@))
                == Some(mbb@),
            mbb_area == crate::bounding_box::quad_area(mbb@),
            input_area == (width as int) * (height as int) * (SCALE * SCALE),
            off == offset_amount(mbb_area as int, input_area as int),
            off <= 32768,
            forall|j: int|
                0 <= j < k ==> -131072 <= (#[trigger] mbb@[j]).x <= 131072 && -131072 <= mbb@[j].y
                    <= 131072,
            forall|j: int|
                0 <= j < k ==> mbb@[crate::bounding_box::next_idx(4, j)] != #[trigger] mbb@[j],
        decreases 4 - k,
    {
        let p = mbb[k];
        if p.x < -131072 || p.x > 131072 || p.y < -131072 || p.y > 131072 {
            proof {
                assert(!(forall|j: int|
                    0 <= j < 4 ==> -131072 <= (#[trigger] mbb@[j]).x <= 131072 && -131072
                        <= mbb@[j].y <= 131072)) by {
                    if forall|j: int|
                        0 <= j < 4 ==> -131072 <= (#[trigger] mbb@[j]).x <= 131072 && -131072
                            <= mbb@[j].y <= 131072 {
                        assert(-131072 <= mbb@[k as int].x <= 131072 && -131072 <= mbb@[k as int].y
                            <= 131072);
                    }
                }
                assert(segment_spec(width, height, lines@, corner_verdicts@) is None);
            }
            return None;
        }
        let nx = if k + 1 == 4 {
            0
        } else {
            k + 1
        };
        let q = mbb[nx];
        if p.x == q.x && p.y == q.y {
            proof {
                assert(!(forall|j: int|
                    0 <= j < 4 ==> mbb@[crate::bounding_box::next_idx(4, j)] != #[trigger] mbb@[j]))
                    by {
                    if forall|j: int|
                        0 <= j < 4 ==> mbb@[crate::bounding_box::next_idx(4, j)]
                            != #[trigger] mbb@[j] {
                        assert(mbb@[crate::bounding_box::next_idx(4, k as int)]
                            != mbb@[k as int]);
                    }
                }
                assert(segment_spec(width, height, lines@, corner_verdicts@) is None);
            }
            return None;
        }
        k = k + 1;
    }
    let off_mbb = crate::bounding_box::bounding_box_offset(mbb, off);
    assert(pts@.len() >= 1);
    let i0 = nearest_index(off_mbb[0], &pts);
    let i1 = nearest_index(off_mbb[1], &pts);
    let i2 = nearest_index(off_mbb[2], &pts);
    let i3 = nearest_index(off_mbb[3], &pts);
    let corners = [pts[i0], pts[i1], pts[i2], pts[i3]];
    let res = SegmentResult { corners, mbb_area, input_area };
    proof {
        assert forall|k2: int|
            0 <= k2 < 4 implies crate::line::intersections_spec(lines@).contains(
            #[trigger] corners@[k2],
        ) by {
            if k2 == 0 {
                assert(pts@[i0 as int] == corners@[k2]);
            } else if k2 == 1 {
                assert(pts@[i1 as int] == corners@[k2]);
            } else if k2 == 2 {
                assert(pts@[i2 as int] == corners@[k2]);
            } else {
                assert(pts@[i3 as int] == corners@[k2]);
            }
            assert(crossings@.contains(corners@[k2]));
        }
        let qw = mbb@;
        let cands = crossing_candidates(lines@, corner_verdicts@);
        assert(cands == pts@);
        assert(res.mbb_area == crate::bounding_box::quad_area(qw));
        let offg = offset_amount(crate::bounding_box::quad_area(qw), res.input_area as int);
        assert(offg == off);
        assert forall|k2: int|
            0 <= k2 < 4 implies #[trigger] res.corners@[k2] == nearest_point_spec(
            cands,
            offset_corner(qw, k2, offg),
        ) by {
            assert(off_mbb@[k2] == offset_corner(qw, k2, offg));
            if k2 == 0 {
                assert(pts@[i0 as int] == nearest_point_spec(pts@, off_mbb@[0]));
            } else if k2 == 1 {
                assert(pts@[i1 as int] == nearest_point_spec(pts@, off_mbb@[1]));
            } else if k2 == 2 {
                assert(pts@[i2 as int] == nearest_point_spec(pts@, off_mbb@[2]));
            } else {
                assert(pts@[i3 as int] == nearest_point_spec(pts@, off_mbb@[3]));
            }
        }
        assert(quad_explains(cands, qw, res));
        assert(pass_explained(lines@, corner_verdicts@, res)) by {
            assert(quad_explains(crossing_candidates(lines@, corner_verdicts@), qw, res));
        }
        assert(segment_spec(width, height, lines@, corner_verdicts@) == Some(res)) by {
            assert(crate::bounding_box::bounding_box_spec(
                lattice_points_spec(lines@, corner_verdicts@),
            ) == Some(mbb@));
            assert(res.corners@[0] == nearest_point_spec(cands, offset_corner(qw, 0, off as int)));
            assert(res.corners@[1] == nearest_point_spec(cands, offset_corner(qw, 1, off as int)));
            assert(res.corners@[2] == nearest_point_spec(cands, offset_corner(qw, 2, off as int)));
            assert(res.corners@[3] == nearest_point_spec(cands, offset_corner(qw, 3, off as int)));
        }
    }
    Some(res)
}

} // verus!
