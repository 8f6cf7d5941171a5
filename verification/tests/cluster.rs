use chessboard::cluster::dbscan;
use chessboard::point::Point;
use chessboard::SCALE;

fn px(x: i64, y: i64) -> Point {
    Point { x: x * SCALE, y: y * SCALE }
}

/// Twenty points inside a disc of pixel radius 2 around a centre, on a fixed
/// 5 x 4 grid of sub-pixel offsets.
fn disc(cx: i64, cy: i64) -> Vec<Point> {
    let mut out = Vec::new();
    for i in 0..20i64 {
        let dx = (i % 5) * 7 - 14;
        let dy = (i / 5) * 9 - 13;
        out.push(Point { x: cx * SCALE + dx, y: cy * SCALE + dy });
    }
    out
}

#[test]
fn dbscan_two_clusters() {
    let mut points = disc(0, 0);
    points.extend(disc(100, 100));
    // eps = 5 pixels, min_pts = 4
    let eps = 5 * SCALE;
    let labels = dbscan(&points, eps * eps, 4);
    assert_eq!(labels.len(), 40);
    // no noise
    for l in &labels {
        assert!(*l >= 1);
    }
    // exactly two clusters, split between the discs
    let first = labels[0];
    let second = labels[20];
    assert!(first != second);
    assert_eq!(labels.iter().filter(|l| **l == first).count(), 20);
    assert_eq!(labels.iter().filter(|l| **l == second).count(), 20);
    for i in 0..20 {
        assert_eq!(labels[i], first);
        assert_eq!(labels[20 + i], second);
    }
}

#[test]
fn dbscan_is_deterministic() {
    let mut points = disc(0, 0);
    points.extend(disc(30, 7));
    let eps = 5 * SCALE;
    let first = dbscan(&points, eps * eps, 4);
    let second = dbscan(&points, eps * eps, 4);
    assert_eq!(first, second);
}

#[test]
fn dbscan_all_noise() {
    // three far-apart points can never reach min_pts = 2
    let points = vec![px(0, 0), px(100, 0), px(0, 100)];
    let labels = dbscan(&points, SCALE * SCALE, 2);
    assert_eq!(labels, vec![0, 0, 0]);
}

#[test]
fn dbscan_empty() {
    let points: Vec<Point> = Vec::new();
    let labels = dbscan(&points, 100, 5);
    assert!(labels.is_empty());
}

#[test]
fn dbscan_duplicate_points_share_label() {
    // a dense cluster plus two bit-equal copies of one far point
    let mut points = vec![
        px(0, 0),
        px(1, 0),
        px(0, 1),
        px(1, 1),
        px(2, 1),
        px(50, 50),
        px(50, 50),
    ];
    points.push(px(2, 2));
    let labels = dbscan(&points, 4 * SCALE * SCALE, 3);
    assert_eq!(labels.len(), 8);
    assert_eq!(labels[5], labels[6]);
}

/// A five-point blob dense enough that each member has four neighbours.
fn blob(cx: i64, cy: i64) -> Vec<Point> {
    vec![
        Point { x: cx, y: cy },
        Point { x: cx + 10, y: cy },
        Point { x: cx, y: cy + 10 },
        Point { x: cx + 10, y: cy + 10 },
        Point { x: cx + 20, y: cy + 5 },
    ]
}

#[test]
fn dbscan_border_point_keeps_first_cluster() {
    // two dense cores with one border point reachable from both; it keeps the
    // label of the cluster that claims it first (the lower-indexed one)
    let mut points = blob(0, 0);
    // the shared border point: within reach of one arm of each blob only
    points.push(Point { x: 55, y: 5 });
    points.extend(blob(90, 0).into_iter().rev());
    let labels = dbscan(&points, 45 * 45, 4);
    let a = labels[0];
    let b = labels[6];
    assert!(a >= 1 && b >= 1 && a != b);
    assert_eq!(labels[5], a);
}
