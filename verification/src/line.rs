//! Lines through the image, kept as two points, and their pairwise
//! intersections.
use vstd::prelude::*;

use crate::math::tdiv;
use crate::point::Point;

verus! {

/// An infinite line, remembered by two distinct points on it (usually the
/// endpoints where it crosses the image rectangle).
#[derive(Clone, Copy, PartialEq, Eq, Structural, Debug)]
pub struct Line {
    pub start: Point,
    pub end: Point,
}

impl Line {
    /// Both carrier points are within coordinate range.
    pub open spec fn wf(self) -> bool {
        self.start.in_range() && self.end.in_range()
    }

    /// Coefficients of the line as `a * x + b * y == c`.
    pub open spec fn coef_a(self) -> int {
        self.end.y - self.start.y
    }

    pub open spec fn coef_b(self) -> int {
        self.start.x - self.end.x
    }

    pub open spec fn coef_c(self) -> int {
        self.coef_a() * self.start.x + self.coef_b() * self.start.y
    }

    /// The determinant of the 2x2 system of two lines; zero means parallel
    /// (or a degenerate line).
    pub open spec fn det(self, other: Line) -> int {
        self.coef_a() * other.coef_b() - other.coef_a() * self.coef_b()
    }

    /// Where the two lines cross: the solution of the 2x2 system, each
    /// coordinate rounded toward zero.  Nothing exactly when the determinant
    /// is zero (parallel or degenerate lines); callers filter crossings by
    /// their own range or in-bounds test.
    pub open spec fn intersection_spec(self, other: Line) -> Option<Point> {
        let d = self.det(other);
        if d == 0 {
            None
        } else {
            let nx = other.coef_b() * self.coef_c() - self.coef_b() * other.coef_c();
            let ny = self.coef_a() * other.coef_c() - other.coef_a() * self.coef_c();
            let x = if d > 0 {
                tdiv(nx, d)
            } else {
                tdiv(-nx, -d)
            };
            let y = if d > 0 {
                tdiv(ny, d)
            } else {
                tdiv(-ny, -d)
            };
            Some(Point { x: x as i64, y: y as i64 })
        }
    }

    pub fn new(start: Point, end: Point) -> (r: Line)
        ensures
            r == (Line { start, end }),
    {
        Line { start, end }
    }

    /// Intersects the infinite lines spanned by `self` and `other`: a
    /// crossing comes back whenever the determinant is nonzero.
    pub fn intersection(&self, other: &Line) -> (r: Option<Point>)
        requires
            self.wf(),
            other.wf(),
        ensures
            r == self.intersection_spec(*other),
            (r is Some) <==> self.det(*other) != 0,
    {
        proof {
            lemma_line_coef_bounds(*self);
            lemma_line_coef_bounds(*other);
        }
        let a_self: i64 = self.end.y - self.start.y;
        let b_self: i64 = self.start.x - self.end.x;
        proof {
            crate::math::lemma_mul_abs_bound(
                a_self as int,
                self.start.x as int,
                0x80000int,
                crate::MAX_COORD as int,
            );
            crate::math::lemma_mul_abs_bound(
                b_self as int,
                self.start.y as int,
                0x80000int,
                crate::MAX_COORD as int,
            );
        }
        let c_self: i64 = a_self * self.start.x + b_self * self.start.y;
        let a_other: i64 = other.end.y - other.start.y;
        let b_other: i64 = other.start.x - other.end.x;
        proof {
            crate::math::lemma_mul_abs_bound(
                a_other as int,
                other.start.x as int,
                0x80000int,
                crate::MAX_COORD as int,
            );
            crate::math::lemma_mul_abs_bound(
                b_other as int,
                other.start.y as int,
                0x80000int,
                crate::MAX_COORD as int,
            );
        }
        let c_other: i64 = a_other * other.start.x + b_other * other.start.y;
        proof {
            crate::math::lemma_mul_abs_bound(a_self as int, b_other as int, 0x80000int, 0x80000int);
            crate::math::lemma_mul_abs_bound(a_other as int, b_self as int, 0x80000int, 0x80000int);
        }
        let determinant: i64 = a_self * b_other - a_other * b_self;
        if determinant == 0 {
            return None;
        }
        proof {
            crate::math::lemma_mul_abs_bound(
                b_other as int,
                c_self as int,
                0x80000int,
                0x4000000000int,
            );
            crate::math::lemma_mul_abs_bound(
                b_self as int,
                c_other as int,
                0x80000int,
                0x4000000000int,
            );
            crate::math::lemma_mul_abs_bound(
                a_self as int,
                c_other as int,
                0x80000int,
                0x4000000000int,
            );
            crate::math::lemma_mul_abs_bound(
                a_other as int,
                c_self as int,
                0x80000int,
                0x4000000000int,
            );
        }
        let nx: i64 = b_other * c_self - b_self * c_other;
        let ny: i64 = a_self * c_other - a_other * c_self;
        let x: i64 = if determinant > 0 {
            nx / determinant
        } else {
            (-nx) / (-determinant)
        };
        let y: i64 = if determinant > 0 {
            ny / determinant
        } else {
            (-ny) / (-determinant)
        };
        Some(Point { x, y })
    }
}

/// The coefficients of a well-formed line are small: each is a difference or a
/// sum of products of in-range coordinates.
pub proof fn lemma_line_coef_bounds(l: Line)
    requires
        l.wf(),
    ensures
        -0x80000 <= l.coef_a() <= 0x80000,
        -0x80000 <= l.coef_b() <= 0x80000,
        -0x4000000000 <= l.coef_c() <= 0x4000000000,
{
    crate::math::lemma_mul_abs_bound(
        l.coef_a(),
        l.start.x as int,
        0x80000int,
        crate::MAX_COORD as int,
    );
    crate::math::lemma_mul_abs_bound(
        l.coef_b(),
        l.start.y as int,
        0x80000int,
        crate::MAX_COORD as int,
    );
}

/// The crossings of `l` with `lines[j..]`, in scan order.
pub open spec fn isect_row(l: Line, lines: Seq<Line>, j: int) -> Seq<Point>
    decreases lines.len() - j,
    when 0 <= j <= lines.len()
{
    if j >= lines.len() {
        Seq::empty()
    } else {
        match l.intersection_spec(lines[j]) {
            Some(p) => seq![p] + isect_row(l, lines, j + 1),
            None => isect_row(l, lines, j + 1),
        }
    }
}

/// The crossings of each of `lines[i..]` with every line, row by row.
pub open spec fn isect_all(lines: Seq<Line>, i: int) -> Seq<Point>
    decreases lines.len() - i,
    when 0 <= i <= lines.len()
{
    if i >= lines.len() {
        Seq::empty()
    } else {
        isect_row(lines[i], lines, 0) + isect_all(lines, i + 1)
    }
}

/// Every pairwise crossing of the lines, ordered pairs in scan order.  A
/// line paired with itself has determinant zero and contributes nothing.
pub open spec fn intersections_spec(lines: Seq<Line>) -> Seq<Point> {
    isect_all(lines, 0)
}

/// Computes every pairwise line crossing, both orders of each pair scanned,
/// parallels skipped.
pub fn pairwise_intersections(lines: &Vec<Line>) -> (r: Vec<Point>)
    requires
        forall|i: int| 0 <= i < lines@.len() ==> lines@[i].wf(),
    ensures
        r@ == intersections_spec(lines@),
{
    let n = lines.len();
    let mut res: Vec<Point> = Vec::new();
    let mut i: usize = 0;
    while i < n
        invariant
            n == lines@.len(),
            i <= n,
            forall|q: int| 0 <= q < lines@.len() ==> lines@[q].wf(),
            intersections_spec(lines@) == res@ + isect_all(lines@, i as int),
        decreases n - i,
    {
        let a = lines[i];
        let mut j: usize = 0;
        assert(isect_all(lines@, i as int) == isect_row(lines@[i as int], lines@, 0) + isect_all(
            lines@,
            i + 1,
        ));
        while j < n
            invariant
                n == lines@.len(),
                i < n,
                j <= n,
                a == lines@[i as int],
                forall|q: int| 0 <= q < lines@.len() ==> lines@[q].wf(),
                intersections_spec(lines@) == res@ + isect_row(lines@[i as int], lines@, j as int)
                    + isect_all(lines@, i + 1),
            decreases n - j,
        {
            let b = lines[j];
            if let Some(p) = a.intersection(&b) {
                res.push(p);
                assert(res@ + isect_row(lines@[i as int], lines@, j + 1) =~= res@.drop_last() + (
                seq![p] + isect_row(lines@[i as int], lines@, j + 1)));
            }
            j = j + 1;
        }
        i = i + 1;
    }
    res
}

} // verus!
