//! Helpers over a triangulation's half-edge tables: the three edges of a
//! triangle, the triangle owning an edge, and triangle adjacency.
use vstd::prelude::*;

use crate::point::Point;

verus! {

/// Marks a half-edge without a twin: the edge lies on the outer boundary.
pub const EMPTY: usize = usize::MAX;

/// A triangulation in half-edge form: `triangles` lists point indices three
/// per triangle, and `halfedges[e]` is the opposite half-edge of `e`, or
/// `EMPTY` on the boundary.
pub struct Triangulation {
    pub triangles: Vec<usize>,
    pub halfedges: Vec<usize>,
}

impl Triangulation {
    /// Three table entries per triangle, each `triangles` entry a valid index
    /// into a point list of length `npoints`.
    pub open spec fn wf(self, npoints: int) -> bool {
        self.triangles@.len() == self.halfedges@.len() && self.triangles@.len() % 3 == 0
            && forall|i: int|
            0 <= i < self.triangles@.len() ==> self.triangles@[i] < npoints
    }

    /// How many triangles the table holds.
    pub fn len(&self) -> (r: usize)
        ensures
            r == self.triangles@.len() / 3,
    {
        self.triangles.len() / 3
    }
}

/// The three half-edge indices of triangle `t`.
pub fn edges_of_triangle(t: usize) -> (r: [usize; 3])
    requires
        3 * t + 2 <= usize::MAX,
    ensures
        r@[0] == 3 * t && r@[1] == 3 * t + 1 && r@[2] == 3 * t + 2,
{
    [3 * t, 3 * t + 1, 3 * t + 2]
}

/// The triangle a half-edge belongs to.
pub fn triangle_of_edge(e: usize) -> (r: usize)
    ensures
        r == e / 3,
{
    e / 3
}

/// The corner points of triangle `t`.
pub fn points_of_triangle(tri: &Triangulation, points: &Vec<Point>, t: usize) -> (r: [Point; 3])
    requires
        tri.wf(points@.len() as int),
        3 * t + 2 < tri.triangles@.len(),
    ensures
        r@[0] == points@[tri.triangles@[3 * t] as int],
        r@[1] == points@[tri.triangles@[3 * t + 1] as int],
        r@[2] == points@[tri.triangles@[3 * t + 2] as int],
{
    let _table_len = tri.triangles.len();
    let edges = edges_of_triangle(t);
    [
        points[tri.triangles[edges[0]]],
        points[tri.triangles[edges[1]]],
        points[tri.triangles[edges[2]]],
    ]
}

/// The neighbours that triangle `t` has across its three edges, in edge
/// order, boundary edges skipped.
pub open spec fn neighbors_spec(h: Seq<usize>, t: int) -> Seq<usize> {
    (if h[3 * t] != EMPTY {
        seq![(h[3 * t] / 3) as usize]
    } else {
        Seq::empty()
    }) + (if h[3 * t + 1] != EMPTY {
        seq![(h[3 * t + 1] / 3) as usize]
    } else {
        Seq::empty()
    }) + (if h[3 * t + 2] != EMPTY {
        seq![(h[3 * t + 2] / 3) as usize]
    } else {
        Seq::empty()
    })
}

/// The triangles adjacent to `t`: for each of its half-edges with a twin, the
/// triangle owning the twin.
pub fn neighbors_of_triangle(tri: &Triangulation, t: usize) -> (r: Vec<usize>)
    requires
        3 * t + 2 < tri.halfedges@.len(),
    ensures
        r@ == neighbors_spec(tri.halfedges@, t as int),
{
    let _table_len = tri.halfedges.len();
    let mut neighbors: Vec<usize> = Vec::new();
    let o0 = tri.halfedges[3 * t];
    if o0 != EMPTY {
        neighbors.push(triangle_of_edge(o0));
    }
    let o1 = tri.halfedges[3 * t + 1];
    if o1 != EMPTY {
        neighbors.push(triangle_of_edge(o1));
    }
    let o2 = tri.halfedges[3 * t + 2];
    if o2 != EMPTY {
        neighbors.push(triangle_of_edge(o2));
    }
    proof {
        assert(neighbors@ =~= neighbors_spec(tri.halfedges@, t as int));
    }
    neighbors
}

} // verus!
