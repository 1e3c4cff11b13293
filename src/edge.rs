//! Mesh edges: two point indices and the number of triangles that use them.
use vstd::prelude::*;

verus! {

/// An edge between two points (by index) with its incidence counter.
#[derive(Clone, Copy, PartialEq, Eq, Structural, Debug)]
pub struct Edge {
    pub p1: usize,
    pub p2: usize,
    pub num_triangles_this_edge_in: usize,
}

impl Edge {
    /// A fresh edge between `p1` and `p2` that no triangle uses yet.
    pub fn new(p1: usize, p2: usize) -> (r: Edge)
        ensures
            r.p1 == p1,
            r.p2 == p2,
            r.num_triangles_this_edge_in == 0,
    {
        Edge { p1, p2, num_triangles_this_edge_in: 0 }
    }

    /// Whether this edge joins `a` and `b`, in either direction.
    pub open spec fn joins(self, a: int, b: int) -> bool {
        (self.p1 == a && self.p2 == b) || (self.p1 == b && self.p2 == a)
    }

    /// The same edge used by one more triangle.
    pub open spec fn bumped(self) -> Edge {
        Edge { num_triangles_this_edge_in: (self.num_triangles_this_edge_in + 1) as usize, ..self }
    }
}

} // verus!
