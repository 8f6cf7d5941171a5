use chessboard::bounding_box::bounding_box;
use chessboard::bounding_box::bounding_box_area;
use chessboard::bounding_box::bounding_box_offset;
use chessboard::bounding_box::bounding_box_sort;
use chessboard::bounding_box::convex_hull_area;
use chessboard::bounding_box::convex_hull_giftwrap;
use chessboard::bounding_box::cross_product;
use chessboard::bounding_box::dot_product;
use chessboard::bounding_box::perp;
use chessboard::bounding_box::dist_squared;
use chessboard::bounding_box::oriented_bounding_box;
use chessboard::bounding_box::remove_colinear_points;
use chessboard::point::Point;
use chessboard::SCALE;

fn pt(x: i64, y: i64) -> Point {
    Point { x, y }
}

/// A pixel coordinate in units.
fn px(x: i64, y: i64) -> Point {
    Point { x: x * SCALE, y: y * SCALE }
}

fn signed_area2(q: &[Point; 4]) -> i64 {
    let mut a: i64 = 0;
    for i in 0..4 {
        let j = (i + 1) % 4;
        a += q[i].x * q[j].y - q[j].x * q[i].y;
    }
    a
}

fn cross3(o: Point, a: Point, b: Point) -> i64 {
    (a.x - o.x) * (b.y - o.y) - (a.y - o.y) * (b.x - o.x)
}

#[test]
fn unit_square_hull() {
    let points = vec![px(0, 0), px(10, 0), px(10, 10), px(0, 10)];
    let hull = convex_hull_giftwrap(&points).unwrap();
    assert_eq!(hull, vec![px(0, 0), px(10, 0), px(10, 10), px(0, 10)]);
    let mbb = oriented_bounding_box(&hull).unwrap();
    assert_eq!(mbb, [px(0, 0), px(10, 0), px(10, 10), px(0, 10)]);
    // 100 square pixels, in squared units
    assert_eq!(bounding_box_area(mbb), 100 * SCALE * SCALE);
}

#[test]
fn collinear_triple_dropped() {
    let points = vec![px(0, 0), px(5, 0), px(10, 0), px(10, 10), px(0, 10)];
    let hull = convex_hull_giftwrap(&points).unwrap();
    assert_eq!(hull, vec![px(0, 0), px(10, 0), px(10, 10), px(0, 10)]);
}

#[test]
fn hull_contains_every_input_point() {
    let points = vec![
        px(3, 7),
        px(0, 0),
        px(12, 2),
        px(5, 5),
        px(9, 11),
        px(1, 9),
        px(7, 1),
        px(6, 6),
    ];
    let hull = convex_hull_giftwrap(&points).unwrap();
    assert!(hull.len() >= 3);
    for i in 0..hull.len() {
        let a = hull[i];
        let b = hull[(i + 1) % hull.len()];
        for p in &points {
            assert!(cross3(a, b, *p) >= 0);
        }
    }
    // no vertex strictly inside the hull of the others: each lies strictly
    // outside the chord of its neighbours
    for i in 0..hull.len() {
        let p = hull[(i + hull.len() - 1) % hull.len()];
        let n = hull[(i + 1) % hull.len()];
        assert!(cross3(p, n, hull[i]) < 0);
    }
}

#[test]
fn hull_no_collinear_triples() {
    let points = vec![
        px(0, 0),
        px(4, 0),
        px(8, 0),
        px(8, 3),
        px(8, 6),
        px(4, 6),
        px(0, 6),
        px(0, 3),
    ];
    let hull = convex_hull_giftwrap(&points).unwrap();
    assert_eq!(hull.len(), 4);
    for i in 0..hull.len() {
        let p = hull[(i + hull.len() - 1) % hull.len()];
        let v = hull[i];
        let n = hull[(i + 1) % hull.len()];
        let ep = (p.x - v.x, p.y - v.y);
        let en = (v.x - n.x, v.y - n.y);
        let dp = ep.0 * (-en.1) + ep.1 * en.0;
        assert!(dp.abs() > 1);
    }
}

#[test]
fn remove_colinear_collapses_degenerate_input() {
    let points = vec![px(0, 0), px(5, 0), px(10, 0)];
    let out = remove_colinear_points(&points);
    assert!(out.is_empty());
}

#[test]
fn hull_area_of_square() {
    let hull = vec![px(0, 0), px(10, 0), px(10, 10), px(0, 10)];
    assert_eq!(convex_hull_area(&hull), 100 * SCALE * SCALE);
}

#[test]
fn hull_area_of_triangle() {
    // half of a 10 x 10 pixel square
    let hull = vec![px(0, 0), px(10, 0), px(0, 10)];
    assert_eq!(convex_hull_area(&hull), 50 * SCALE * SCALE);
}

#[test]
fn mbb_contains_hull_and_beats_aabb() {
    // a diamond: its oriented box is the 45-degree square, smaller than the
    // axis-aligned box
    let points = vec![px(10, 0), px(20, 10), px(10, 20), px(0, 10)];
    let hull = convex_hull_giftwrap(&points).unwrap();
    let mbb = oriented_bounding_box(&hull).unwrap();
    let area = bounding_box_area(mbb);
    // axis-aligned box would be 20 x 20 = 400 square pixels; the tilted box
    // has half that area
    assert!(area <= 400 * SCALE * SCALE);
    assert!(area <= 210 * SCALE * SCALE);
    assert!(area >= 190 * SCALE * SCALE);
    // every hull vertex inside the rectangle, with a one-unit rounding margin
    for p in &hull {
        let eps = 2 * SCALE;
        let min_x = mbb.iter().map(|c| c.x).min().unwrap();
        let max_x = mbb.iter().map(|c| c.x).max().unwrap();
        let min_y = mbb.iter().map(|c| c.y).min().unwrap();
        let max_y = mbb.iter().map(|c| c.y).max().unwrap();
        assert!(p.x >= min_x - eps && p.x <= max_x + eps);
        assert!(p.y >= min_y - eps && p.y <= max_y + eps);
    }
}

#[test]
fn mbb_of_axis_rectangle_is_exact() {
    let points = vec![px(2, 3), px(12, 3), px(12, 8), px(2, 8)];
    let hull = convex_hull_giftwrap(&points).unwrap();
    let mbb = oriented_bounding_box(&hull).unwrap();
    assert_eq!(mbb, [px(2, 3), px(12, 3), px(12, 8), px(2, 8)]);
    assert_eq!(bounding_box_area(mbb), 50 * SCALE * SCALE);
}

#[test]
fn quad_sort_canonical_order() {
    let sorted = bounding_box_sort([px(10, 10), px(0, 0), px(0, 10), px(10, 0)]);
    assert_eq!(sorted, [px(0, 0), px(10, 0), px(10, 10), px(0, 10)]);
    // vertex 0: smallest y among the two smallest-y points, then smaller x
    assert!(sorted[0].y <= sorted[2].y && sorted[0].y <= sorted[3].y);
    assert!(sorted[1].y <= sorted[2].y && sorted[1].y <= sorted[3].y);
    assert!(sorted[0].x <= sorted[1].x);
    assert!(sorted[3].x <= sorted[2].x);
    // clockwise winding in image coordinates: positive signed area
    assert!(signed_area2(&sorted) > 0);
}

#[test]
fn quad_sort_tilted_rectangle_winding() {
    // a 45-degree square
    let sorted = bounding_box_sort([px(10, 0), px(20, 10), px(10, 20), px(0, 10)]);
    assert_eq!(sorted[0], px(10, 0));
    assert!(signed_area2(&sorted) > 0);
}

#[test]
fn offset_grows_and_shrinks_area() {
    let quad = [px(10, 10), px(30, 10), px(30, 25), px(10, 25)];
    let base = bounding_box_area(quad);
    let grown = bounding_box_offset(quad, 3 * SCALE);
    assert_eq!(
        grown,
        [px(7, 7), px(33, 7), px(33, 28), px(7, 28)]
    );
    assert!(bounding_box_area(grown) >= base);
    let shrunk = bounding_box_offset(quad, -3 * SCALE);
    assert_eq!(
        shrunk,
        [px(13, 13), px(27, 13), px(27, 22), px(13, 22)]
    );
    assert!(bounding_box_area(shrunk) <= base);
}

#[test]
fn offset_monotone_on_tilted_quad() {
    let quad = bounding_box_sort([px(20, 0), px(40, 20), px(20, 40), px(0, 20)]);
    let base = bounding_box_area(quad);
    let grown = bounding_box_offset(quad, 2 * SCALE);
    assert!(bounding_box_area(grown) >= base);
    let shrunk = bounding_box_offset(quad, -2 * SCALE);
    assert!(bounding_box_area(shrunk) <= base);
}

#[test]
fn points_in_bounds_filters_frame() {
    let pts = vec![px(5, 5), px(-1, 3), px(10, 10), px(3, 12)];
    let kept = chessboard::bounding_box::points_in_bounds(&pts, 10, 10);
    assert_eq!(kept, vec![px(5, 5)]);
}

#[test]
fn dist_squared_exact() {
    assert_eq!(dist_squared(pt(0, 0), pt(3, 4)), 25);
    assert_eq!(dist_squared(pt(-2, 1), pt(1, -3)), 25);
}

#[test]
fn vector_primitives() {
    assert_eq!(cross_product(pt(2, 0), pt(0, 3)), 6);
    assert_eq!(cross_product(pt(0, 3), pt(2, 0)), -6);
    assert_eq!(dot_product(pt(2, 5), pt(4, -1)), 3);
    assert_eq!(perp(pt(2, 3)), pt(-3, 2));
    assert_eq!(pt(1, 2).add(pt(3, 4)), pt(4, 6));
    assert_eq!(pt(1, 2).sub(pt(3, 4)), pt(-2, -2));
}

#[test]
fn bounding_box_picks_dominant_cluster() {
    // a dense 4 x 4 pixel grid of lattice points and two far outliers
    let mut points = Vec::new();
    for y in 0..4 {
        for x in 0..4 {
            points.push(px(10 * x, 10 * y));
        }
    }
    points.push(px(2000, 2000));
    points.push(px(-2000, 2000));
    let quad = bounding_box(&points).unwrap();
    // the quad hugs the grid, not the outliers
    for c in &quad {
        assert!(c.x >= -SCALE && c.x <= 31 * SCALE);
        assert!(c.y >= -SCALE && c.y <= 31 * SCALE);
    }
}

#[test]
fn bounding_box_rejects_tiny_input() {
    let points = vec![px(0, 0), px(10, 0)];
    assert!(bounding_box(&points).is_none());
}

#[test]
fn bounding_box_rejects_all_noise() {
    // five points so far apart that the clustering radius derived from their
    // hull reaches none of them: only noise, no quad
    let points = vec![px(0, 0), px(100, 0), px(0, 100), px(100, 100), px(50, 50)];
    assert!(bounding_box(&points).is_none());
}

#[test]
fn bounding_box_rejects_collinear_points() {
    // a degenerate input: every point on one line leaves no polygon after the
    // collinear vertices collapse
    let points = vec![px(0, 0), px(10, 0), px(20, 0), px(30, 0)];
    assert!(bounding_box(&points).is_none());
}
