use chessboard::image::GrayImage;
use chessboard::layer::layer_decision;
use chessboard::layer::LayerDecision;
use chessboard::line::pairwise_intersections;
use chessboard::line::Line;
use chessboard::math::isqrt;
use chessboard::point::Point;
use chessboard::sample_consensus::edges_of_triangle;
use chessboard::sample_consensus::neighbors_of_triangle;
use chessboard::sample_consensus::points_of_triangle;
use chessboard::sample_consensus::triangle_of_edge;
use chessboard::sample_consensus::Triangulation;
use chessboard::sample_consensus::EMPTY;
use chessboard::segment;
use chessboard::SegmentResult;
use chessboard::SCALE;

fn px(x: i64, y: i64) -> Point {
    Point { x: x * SCALE, y: y * SCALE }
}

fn line(ax: i64, ay: i64, bx: i64, by: i64) -> Line {
    Line { start: px(ax, ay), end: px(bx, by) }
}

#[test]
fn intersection_of_crossing_lines() {
    let h = line(0, 5, 10, 5);
    let v = line(3, 0, 3, 10);
    assert_eq!(h.intersection(&v), Some(px(3, 5)));
    assert_eq!(v.intersection(&h), Some(px(3, 5)));
}

#[test]
fn intersection_of_diagonals() {
    let a = line(0, 0, 10, 10);
    let b = line(10, 0, 0, 10);
    assert_eq!(a.intersection(&b), Some(px(5, 5)));
}

#[test]
fn far_crossing_is_still_returned() {
    // a near-horizontal line through the origin against the horizontal
    // y = 50 units: the determinant is nonzero, so the crossing comes back
    // even though it lies far outside the usual coordinate range; callers
    // filter by their own bounds
    let shallow = Line { start: Point { x: 0, y: 0 }, end: Point { x: 1000, y: 1 } };
    let level = Line { start: Point { x: 0, y: 500 }, end: Point { x: 1000, y: 500 } };
    assert_eq!(shallow.intersection(&level), Some(Point { x: 500000, y: 500 }));
}

#[test]
fn parallel_lines_do_not_intersect() {
    let a = line(0, 0, 10, 0);
    let b = line(0, 5, 10, 5);
    assert!(a.intersection(&b).is_none());
    // a line against itself has determinant zero too
    assert!(a.intersection(&a).is_none());
}

#[test]
fn pairwise_intersections_scan_order() {
    let h = line(0, 5, 10, 5);
    let v = line(3, 0, 3, 10);
    let lines = vec![h, v];
    let pts = pairwise_intersections(&lines);
    // self-pairs are parallel; both cross-pairs report the same crossing
    assert_eq!(pts, vec![px(3, 5), px(3, 5)]);
}

#[test]
fn nearly_equals_is_exact_equality() {
    assert!(px(1, 2).nearly_equals(&px(1, 2)));
    assert!(!px(1, 2).nearly_equals(&Point { x: 1 * SCALE + 1, y: 2 * SCALE }));
    assert_eq!(px(3, 4).dist2(&px(0, 0)), 25 * SCALE * SCALE);
}

#[test]
fn isqrt_exact_floors() {
    assert_eq!(isqrt(0), 0);
    assert_eq!(isqrt(1), 1);
    assert_eq!(isqrt(3), 1);
    assert_eq!(isqrt(4), 2);
    assert_eq!(isqrt(99), 9);
    assert_eq!(isqrt(100), 10);
    assert_eq!(isqrt(u64::MAX), 4294967295);
}

#[test]
fn triangle_edge_helpers() {
    assert_eq!(edges_of_triangle(0), [0, 1, 2]);
    assert_eq!(edges_of_triangle(7), [21, 22, 23]);
    assert_eq!(triangle_of_edge(0), 0);
    assert_eq!(triangle_of_edge(5), 1);
    assert_eq!(triangle_of_edge(21), 7);
}

#[test]
fn triangulation_neighbors() {
    // two triangles glued along one edge: 0-1-2 and 1-3-2; half-edge 1 of the
    // first is the twin of half-edge 5 of the second
    let tri = Triangulation {
        triangles: vec![0, 1, 2, 1, 3, 2],
        halfedges: vec![EMPTY, 5, EMPTY, EMPTY, EMPTY, 1],
    };
    assert_eq!(tri.len(), 2);
    assert_eq!(neighbors_of_triangle(&tri, 0), vec![1]);
    assert_eq!(neighbors_of_triangle(&tri, 1), vec![0]);
    let points = vec![px(0, 0), px(10, 0), px(0, 10), px(10, 10)];
    assert_eq!(points_of_triangle(&tri, &points, 0), [px(0, 0), px(10, 0), px(0, 10)]);
    assert_eq!(points_of_triangle(&tri, &points, 1), [px(10, 0), px(10, 10), px(0, 10)]);
}

#[test]
fn layer_decisions() {
    let good = SegmentResult {
        corners: [px(0, 0), px(10, 0), px(10, 10), px(0, 10)],
        mbb_area: 90,
        input_area: 160,
    };
    let poor = SegmentResult {
        corners: [px(0, 0), px(10, 0), px(10, 10), px(0, 10)],
        mbb_area: 40,
        input_area: 160,
    };
    // no projection: stop without warping
    assert_eq!(layer_decision(0, None), LayerDecision::Stop);
    // error below a half: warp once more and stop
    assert_eq!(layer_decision(0, Some(&good)), LayerDecision::WarpThenStop);
    // large error: keep iterating until the cap
    assert_eq!(layer_decision(0, Some(&poor)), LayerDecision::WarpThenContinue);
    assert_eq!(layer_decision(3, Some(&poor)), LayerDecision::WarpThenContinue);
    assert_eq!(layer_decision(4, Some(&poor)), LayerDecision::WarpThenStop);
    // the boundary error of exactly one half does not stop the loop
    let half = SegmentResult {
        corners: [px(0, 0), px(10, 0), px(10, 10), px(0, 10)],
        mbb_area: 80,
        input_area: 160,
    };
    assert_eq!(layer_decision(1, Some(&half)), LayerDecision::WarpThenContinue);
    assert!(good.error_below_half());
    assert!(!half.error_below_half());
}

#[test]
fn gray_image_shape() {
    assert!(GrayImage::new(3, 2, vec![0, 1, 2, 3, 4, 5]).is_some());
    assert!(GrayImage::new(3, 2, vec![0, 1, 2]).is_none());
    let img = GrayImage::new(2, 2, vec![9, 8, 7, 6]).unwrap();
    assert_eq!(img.dimensions(), (2, 2));
    assert_eq!(img.get_pixel(1, 0), 8);
    assert_eq!(img.get_pixel(0, 1), 7);
    assert_eq!(img.into_data(), vec![9, 8, 7, 6]);
}

#[test]
fn segment_needs_lines_and_corners() {
    // no lines at all: no crossings, no projection
    let lines: Vec<Line> = Vec::new();
    let verdicts: Vec<bool> = Vec::new();
    assert!(segment(400, 400, &lines, &verdicts).is_none());
    // two crossing lines give a single lattice point: fewer than four
    let lines = vec![line(0, 5, 10, 5), line(3, 0, 3, 10)];
    let pts = pairwise_intersections(&lines);
    let verdicts = vec![true; pts.len()];
    assert!(segment(400, 400, &lines, &verdicts).is_none());
}
