use chessboard::image::GrayImage;
use chessboard::lattice::get_circle;
use chessboard::lattice::get_points;
use chessboard::lattice::point_pixel;
use chessboard::lattice::unique_within_dist;
use chessboard::point::Point;
use chessboard::SCALE;

fn px(x: i64, y: i64) -> Point {
    Point { x: x * SCALE, y: y * SCALE }
}

/// An 11 x 11 patch built from a pixel rule.
fn patch<F: Fn(u32, u32) -> u8>(f: F) -> GrayImage {
    let mut data = Vec::new();
    for y in 0..11u32 {
        for x in 0..11u32 {
            data.push(f(x, y));
        }
    }
    GrayImage::new(11, 11, data).unwrap()
}

/// The corner decision of the detector: a ring of intensities around the
/// pixel, its discrete Fourier transform, and a comparison of the first two
/// non-constant bins.  A corner shows two alternations around the ring, so
/// the second harmonic dominates.
fn ring_verdict(ring: &[u8]) -> bool {
    let input: Vec<f64> = ring.iter().map(|v| *v as f64).collect();
    let mut fft = chfft::RFft1D::<f64>::new(input.len());
    let output = fft.forward(&input);
    let mag_1 = (output[1].re * output[1].re + output[1].im * output[1].im).sqrt();
    let mag_2 = (output[2].re * output[2].re + output[2].im * output[2].im).sqrt();
    mag_2 > mag_1
}

fn is_corner(i: &GrayImage, x: u32, y: u32) -> bool {
    match get_circle(i, x, y, 5) {
        Some(ring) => ring_verdict(&ring),
        None => false,
    }
}

#[test]
fn corner_detector_positive() {
    // black-white quadrants around the centre pixel
    let img = patch(|x, y| if (x < 5) == (y < 5) { 230 } else { 25 });
    assert!(is_corner(&img, 5, 5));
}

#[test]
fn corner_detector_negative() {
    // a single horizontal edge
    let img = patch(|_x, y| if y < 5 { 25 } else { 230 });
    assert!(!is_corner(&img, 5, 5));
}

#[test]
fn ring_leaves_image() {
    let img = patch(|_x, _y| 100);
    assert!(get_circle(&img, 4, 5, 5).is_none());
    assert!(get_circle(&img, 5, 6, 5).is_none());
    assert!(!is_corner(&img, 0, 0));
}

#[test]
fn ring_samples_walk_the_square() {
    let img = patch(|x, y| (12 * y + x) as u8);
    let ring = get_circle(&img, 5, 5, 5).unwrap();
    assert_eq!(ring.len(), 40);
    // starts at the top cardinal point, walks clockwise
    assert_eq!(ring[0], 5); // (5, 0)
    assert_eq!(ring[5], 10); // (10, 0), the top-right corner
    assert_eq!(ring[10], 12 * 5 + 10); // (10, 5), the right cardinal
    assert_eq!(ring[15], 12 * 10 + 10); // (10, 10), the bottom-right corner
    assert_eq!(ring[20], 12 * 10 + 5); // (5, 10), the bottom cardinal
    assert_eq!(ring[25], 12 * 10); // (0, 10), the bottom-left corner
    assert_eq!(ring[30], 12 * 5); // (0, 5), the left cardinal
    assert_eq!(ring[35], 0); // (0, 0), the top-left corner
    // all forty samples sit on the Chebyshev ring of radius five
    let mut seen = std::collections::HashSet::new();
    for s in ring.iter() {
        let x = (*s % 12) as i32;
        let y = (*s / 12) as i32;
        assert_eq!((x - 5).abs().max((y - 5).abs()), 5);
        seen.insert((x, y));
    }
    assert_eq!(seen.len(), 40);
}

#[test]
fn point_pixel_truncates_and_clamps() {
    assert_eq!(point_pixel(&Point { x: 57, y: 149 }), (5, 14));
    assert_eq!(point_pixel(&Point { x: -30, y: 5 }), (0, 0));
}

#[test]
fn merge_keeps_isolated_points() {
    let pts = vec![px(0, 0), px(20, 0), px(0, 20)];
    let out = unique_within_dist(&pts, 5 * SCALE);
    assert_eq!(out, pts);
}

#[test]
fn merge_fuses_neighbours_into_their_mean() {
    // the first point's neighbours within 5 pixels are the next two; they are
    // replaced by their mean, and the far point stays
    let pts = vec![px(0, 0), px(2, 0), px(0, 2), px(100, 100)];
    let out = unique_within_dist(&pts, 5 * SCALE);
    assert_eq!(out, vec![px(1, 1), px(100, 100)]);
}

#[test]
fn merge_emits_lone_pivot_itself() {
    let pts = vec![px(0, 0), px(3, 4), px(100, 0)];
    // 3-4-5 triangle: exactly on the merge radius, inclusive
    let out = unique_within_dist(&pts, 5 * SCALE);
    assert_eq!(out, vec![px(3, 4), px(100, 0)]);
}

#[test]
fn get_points_filters_by_verdict_then_merges() {
    let pts = vec![px(0, 0), px(2, 0), px(0, 2), px(50, 50), px(100, 100)];
    let verdicts = vec![true, true, true, false, true];
    let out = get_points(&pts, &verdicts);
    assert_eq!(out, vec![px(1, 1), px(100, 100)]);
}
