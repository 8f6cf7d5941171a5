use chessboard::bounding_box::bounding_box_sort;
use chessboard::image::GrayImage;
use chessboard::lattice::get_circle;
use chessboard::lattice::point_pixel;
use chessboard::layer::layer_decision;
use chessboard::layer::LayerDecision;
use chessboard::line::pairwise_intersections;
use chessboard::line::Line;
use chessboard::point::Point;
use chessboard::segment;
use chessboard::SCALE;

/// Solves the 3x3 homography mapping four source points onto four
/// destination points (direct linear transform, last entry fixed to one).
fn homography(src: [(f64, f64); 4], dst: [(f64, f64); 4]) -> [f64; 9] {
    let mut m = [[0.0f64; 9]; 8];
    for i in 0..4 {
        let (x, y) = src[i];
        let (xx, yy) = dst[i];
        m[2 * i] = [x, y, 1.0, 0.0, 0.0, 0.0, -xx * x, -xx * y, xx];
        m[2 * i + 1] = [0.0, 0.0, 0.0, x, y, 1.0, -yy * x, -yy * y, yy];
    }
    // Gaussian elimination with partial pivoting on the 8x9 system
    for col in 0..8 {
        let mut piv = col;
        for row in col + 1..8 {
            if m[row][col].abs() > m[piv][col].abs() {
                piv = row;
            }
        }
        m.swap(col, piv);
        let d = m[col][col];
        for k in col..9 {
            m[col][k] /= d;
        }
        for row in 0..8 {
            if row != col {
                let f = m[row][col];
                for k in col..9 {
                    m[row][k] -= f * m[col][k];
                }
            }
        }
    }
    [m[0][8], m[1][8], m[2][8], m[3][8], m[4][8], m[5][8], m[6][8], m[7][8], 1.0]
}

fn apply(h: &[f64; 9], x: f64, y: f64) -> (f64, f64) {
    let w = h[6] * x + h[7] * y + h[8];
    ((h[0] * x + h[1] * y + h[2]) / w, (h[3] * x + h[4] * y + h[5]) / w)
}

fn invert3(h: &[f64; 9]) -> [f64; 9] {
    let det = h[0] * (h[4] * h[8] - h[5] * h[7]) - h[1] * (h[3] * h[8] - h[5] * h[6]) + h[2] * (h[3]
        * h[7] - h[4] * h[6]);
    [
        (h[4] * h[8] - h[5] * h[7]) / det,
        (h[2] * h[7] - h[1] * h[8]) / det,
        (h[1] * h[5] - h[2] * h[4]) / det,
        (h[5] * h[6] - h[3] * h[8]) / det,
        (h[0] * h[8] - h[2] * h[6]) / det,
        (h[2] * h[3] - h[0] * h[5]) / det,
        (h[3] * h[7] - h[4] * h[6]) / det,
        (h[1] * h[6] - h[0] * h[7]) / det,
        (h[0] * h[4] - h[1] * h[3]) / det,
    ]
}

fn compose(a: &[f64; 9], b: &[f64; 9]) -> [f64; 9] {
    // the matrix product a * b
    let mut r = [0.0f64; 9];
    for i in 0..3 {
        for j in 0..3 {
            let mut s = 0.0;
            for k in 0..3 {
                s += a[3 * i + k] * b[3 * k + j];
            }
            r[3 * i + j] = s;
        }
    }
    r
}

/// Renders a 400x400 grayscale view of the chessboard whose board
/// coordinates [0, 8] x [0, 8] map into the frame by `h`.
fn render(h: &[f64; 9]) -> GrayImage {
    let hinv = invert3(h);
    let mut data = Vec::with_capacity(400 * 400);
    for y in 0..400 {
        for x in 0..400 {
            let (u, v) = apply(&hinv, x as f64, y as f64);
            let value = if u >= 0.0 && u < 8.0 && v >= 0.0 && v < 8.0 {
                if (u.floor() as i64 + v.floor() as i64) % 2 == 0 {
                    235
                } else {
                    20
                }
            } else {
                128
            };
            data.push(value);
        }
    }
    GrayImage::new(400, 400, data).unwrap()
}

/// The eighteen grid lines of the board under `h`, as endpoint pairs in
/// coordinate units.
fn grid_lines(h: &[f64; 9]) -> Vec<Line> {
    let mut lines = Vec::new();
    let unit = |p: (f64, f64)| Point {
        x: (p.0 * SCALE as f64).round() as i64,
        y: (p.1 * SCALE as f64).round() as i64,
    };
    for i in 0..9 {
        let t = i as f64;
        lines.push(Line { start: unit(apply(h, t, 0.0)), end: unit(apply(h, t, 8.0)) });
        lines.push(Line { start: unit(apply(h, 0.0, t)), end: unit(apply(h, 8.0, t)) });
    }
    lines
}

fn ring_verdict(ring: &[u8]) -> bool {
    let input: Vec<f64> = ring.iter().map(|v| *v as f64).collect();
    let mut fft = chfft::RFft1D::<f64>::new(input.len());
    let output = fft.forward(&input);
    let mag_1 = (output[1].re * output[1].re + output[1].im * output[1].im).sqrt();
    let mag_2 = (output[2].re * output[2].re + output[2].im * output[2].im).sqrt();
    mag_2 > mag_1
}

fn corner_verdicts(img: &GrayImage, candidates: &[Point]) -> Vec<bool> {
    candidates
        .iter()
        .map(|p| {
            let (x, y) = point_pixel(p);
            match get_circle(img, x, y, 5) {
                Some(ring) => ring_verdict(&ring),
                None => false,
            }
        })
        .collect()
}

/// One segmentation pass on the board rendered from `h`.
fn segment_rendered(h: &[f64; 9]) -> Option<chessboard::SegmentResult> {
    let img = render(h);
    let lines = grid_lines(h);
    let crossings = pairwise_intersections(&lines);
    let verdicts = corner_verdicts(&img, &crossings);
    segment(400, 400, &lines, &verdicts)
}

fn board_corners(h: &[f64; 9]) -> [(f64, f64); 4] {
    [apply(h, 0.0, 0.0), apply(h, 8.0, 0.0), apply(h, 8.0, 8.0), apply(h, 0.0, 8.0)]
}

#[test]
fn round_trip_recovers_known_corners() {
    // a known, mildly oblique view of the board
    let h = homography(
        [(0.0, 0.0), (8.0, 0.0), (8.0, 8.0), (0.0, 8.0)],
        [(30.0, 25.0), (370.0, 20.0), (380.0, 375.0), (25.0, 365.0)],
    );
    let res = segment_rendered(&h).expect("no projection found");
    let found = bounding_box_sort(res.corners);
    let mut truth: Vec<(f64, f64)> = board_corners(&h).to_vec();
    // canonical order of the true corners: by y, each pair by x
    truth.sort_by(|a, b| a.1.partial_cmp(&b.1).unwrap());
    if truth[1].0 < truth[0].0 {
        truth.swap(0, 1);
    }
    if truth[3].0 < truth[2].0 {
        truth.swap(2, 3);
    }
    let truth = [truth[0], truth[1], truth[3], truth[2]];
    for k in 0..4 {
        let fx = found[k].x as f64 / SCALE as f64;
        let fy = found[k].y as f64 / SCALE as f64;
        let dx = fx - truth[k].0;
        let dy = fy - truth[k].1;
        // per-corner error of at most two pixels at the working resolution
        assert!(
            (dx * dx + dy * dy).sqrt() <= 2.0,
            "corner {} off: found ({}, {}), wanted {:?}",
            k,
            fx,
            fy,
            truth[k]
        );
    }
}

#[test]
fn layer_converges_on_small_board() {
    // the board starts at a quarter of the frame area
    let mut h = homography(
        [(0.0, 0.0), (8.0, 0.0), (8.0, 8.0), (0.0, 8.0)],
        [(100.0, 100.0), (300.0, 100.0), (300.0, 300.0), (100.0, 300.0)],
    );
    let mut warps = 0u32;
    let mut iteration = 0u32;
    loop {
        let outcome = segment_rendered(&h);
        let decision = layer_decision(iteration, outcome.as_ref());
        match decision {
            LayerDecision::Stop => break,
            LayerDecision::WarpThenStop | LayerDecision::WarpThenContinue => {
                let res = outcome.unwrap();
                let src = [
                    (res.corners[0].x as f64 / SCALE as f64, res.corners[0].y as f64 / SCALE as f64),
                    (res.corners[1].x as f64 / SCALE as f64, res.corners[1].y as f64 / SCALE as f64),
                    (res.corners[2].x as f64 / SCALE as f64, res.corners[2].y as f64 / SCALE as f64),
                    (res.corners[3].x as f64 / SCALE as f64, res.corners[3].y as f64 / SCALE as f64),
                ];
                let q = homography(src, [(0.0, 0.0), (400.0, 0.0), (400.0, 400.0), (0.0, 400.0)]);
                h = compose(&q, &h);
                warps += 1;
                if decision == LayerDecision::WarpThenStop {
                    break;
                }
            },
        }
        iteration += 1;
    }
    assert!(warps >= 1 && warps <= 3, "took {} warps", warps);
    // the board now covers at least 80 percent of the frame
    let c = board_corners(&h);
    let mut area2 = 0.0f64;
    for i in 0..4 {
        let j = (i + 1) % 4;
        area2 += c[i].0 * c[j].1 - c[j].0 * c[i].1;
    }
    let area = area2.abs() / 2.0;
    assert!(area >= 0.8 * 400.0 * 400.0, "board area {} too small", area);
}
