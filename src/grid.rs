//! The spatial grid and the mesh ledger: each point's cell, the edges with
//! their incidence counters, and the triangles.
use vstd::prelude::*;

use crate::cell::{bucket_in_range, checked_encode_cell, code_of, valid_code};
use crate::edge::Edge;
use std::collections::HashMap;

verus! {

broadcast use vstd::std_specs::hash::group_hash_axioms;

/// Why a grid could not be built.
#[derive(Clone, Copy, PartialEq, Eq, Structural, Debug)]
pub enum GridError {
    /// The bucket index of this point does not fit the cell packing on some axis.
    BucketOutOfRange { point: usize },
}

/// Where a point stands in the mesh, read off the counters of its edges.
#[derive(Clone, Copy, PartialEq, Eq, Structural, Debug)]
pub enum PointStatus {
    /// No edge touches the point.
    Untouched,
    /// Some edge at the point is used by exactly one triangle.
    OnFront,
    /// Edges touch the point, and none of them is on the front.
    Interior,
}

/// Points bucketed into cells, plus the edges and triangles built over them.
///
/// Point `i` lies in the cell `cell_codes[i]`; `cells` maps each occupied
/// cell to its points in increasing order.
pub struct Grid {
    pub cell_codes: Vec<isize>,
    pub cells: HashMap<isize, Vec<usize>>,
    pub edges: Vec<Edge>,
    pub triangles: Vec<(usize, usize, usize)>,
}

/// Some edge of `edges` joins `a` and `b`.
pub open spec fn has_edge(edges: Seq<Edge>, a: int, b: int) -> bool {
    exists|i: int| 0 <= i < edges.len() && #[trigger] edges[i].joins(a, b)
}

/// `a` and `b` are already bridged through some other point: an existing edge
/// leads from `a` or from `b` to a point that is neither of them nor `excluded`.
pub open spec fn path_exists(edges: Seq<Edge>, a: int, b: int, excluded: int) -> bool {
    exists|w: int|
        #![trigger has_edge(edges, a, w)]
        #![trigger has_edge(edges, b, w)]
        w != a && w != b && w != excluded && (has_edge(edges, a, w) || has_edge(edges, b, w))
}

/// Incidence counter of a new edge: one triangle, plus one when the edge
/// closes a triangle that the mesh already implies.
pub open spec fn initial_count(closes: bool) -> usize {
    if closes {
        2
    } else {
        1
    }
}

/// The edges after one more triangle uses the pair `(u, v)`: the existing
/// edge's counter goes up by one, or a new edge is appended.
pub open spec fn with_edge_use(edges: Seq<Edge>, u: int, v: int, closes: bool) -> Seq<Edge> {
    if has_edge(edges, u, v) {
        edges.map_values(|e: Edge| if e.joins(u, v) { e.bumped() } else { e })
    } else {
        edges.push(Edge { p1: u as usize, p2: v as usize, num_triangles_this_edge_in: initial_count(closes) })
    }
}

/// The edges after the triangle `(a, b, c)` is added; whether a new edge
/// closes an implied triangle is decided on the edges as they were before.
pub open spec fn with_triangle_edges(edges: Seq<Edge>, a: int, b: int, c: int) -> Seq<Edge> {
    let ab = path_exists(edges, a, b, c);
    let bc = path_exists(edges, b, c, a);
    let ac = path_exists(edges, a, c, b);
    with_edge_use(with_edge_use(with_edge_use(edges, a, b, ab), b, c, bc), a, c, ac)
}

/// The edges after the stored triangle `t` is added, its pairs taken in
/// stored order.
pub open spec fn with_triangle(edges: Seq<Edge>, t: (usize, usize, usize)) -> Seq<Edge> {
    with_triangle_edges(edges, t.0 as int, t.1 as int, t.2 as int)
}

/// `new` keeps every edge of `old` at its position, with the same endpoints
/// and a counter at least as high, and may append more.
#[verifier::opaque]
pub open spec fn edges_grow(old: Seq<Edge>, new: Seq<Edge>) -> bool {
    &&& new.len() >= old.len()
    &&& forall|i: int|
        0 <= i < old.len() ==> (#[trigger] new[i]).p1 == old[i].p1 && new[i].p2 == old[i].p2
            && new[i].num_triangles_this_edge_in >= old[i].num_triangles_this_edge_in
}

/// Each edge of `new` joins `u` and `v`, or is an edge of `old` at the same
/// position with the same endpoints.
#[verifier::opaque]
pub open spec fn step_keeps(old: Seq<Edge>, new: Seq<Edge>, u: int, v: int) -> bool {
    forall|k: int|
        0 <= k < new.len() ==> (#[trigger] new[k]).joins(u, v) || (k < old.len() && new[k].p1 == old[k].p1 && new[k].p2
            == old[k].p2)
}

/// Every edge list grows into itself.
pub(crate) proof fn lemma_grow_refl(e: Seq<Edge>)
    ensures
        edges_grow(e, e),
{
    reveal(edges_grow);
}

/// With no edges, every edge bounds a triangle.
pub(crate) proof fn lemma_bound_empty(ts: Seq<(usize, usize, usize)>)
    ensures
        edges_bound(Seq::empty(), ts),
{
    reveal(edges_bound);
}

/// Growth of edge lists is transitive.
pub(crate) proof fn lemma_grow_trans(e0: Seq<Edge>, e1: Seq<Edge>, e2: Seq<Edge>)
    requires
        edges_grow(e0, e1),
        edges_grow(e1, e2),
    ensures
        edges_grow(e0, e2),
{
    reveal(edges_grow);
    assert forall|i: int| 0 <= i < e0.len() implies (#[trigger] e2[i]).p1 == e0[i].p1 && e2[i].p2 == e0[i].p2
        && e2[i].num_triangles_this_edge_in >= e0[i].num_triangles_this_edge_in by {
        assert(e1[i].p1 == e0[i].p1);
    }
}

proof fn lemma_bound_after(
    e0: Seq<Edge>,
    e1: Seq<Edge>,
    e2: Seq<Edge>,
    e3: Seq<Edge>,
    ts: Seq<(usize, usize, usize)>,
    a: usize,
    b: usize,
    c: usize,
)
    requires
        edges_bound(e0, ts),
        step_keeps(e0, e1, a as int, b as int),
        step_keeps(e1, e2, b as int, c as int),
        step_keeps(e2, e3, a as int, c as int),
    ensures
        edges_bound(e3, ts.push(ordered(a, b, c))),
{
    reveal(edges_bound);
    reveal(step_keeps);
    let t = ordered(a, b, c);
    let ts2 = ts.push(t);
    let last = ts.len() as int;
    assert(ts2[last] == t);
    assert forall|k: int| 0 <= k < e3.len() implies exists|x: int|
        0 <= x < ts2.len() && bounds(#[trigger] e3[k], #[trigger] ts2[x]) by {
        if e3[k].joins(a as int, b as int) || e3[k].joins(b as int, c as int) || e3[k].joins(a as int, c as int) {
            assert(bounds(e3[k], ts2[last]));
        } else if e2[k].joins(b as int, c as int) || e1[k].joins(a as int, b as int) {
            assert(k < e2.len());
            if !e2[k].joins(b as int, c as int) {
                assert(k < e1.len());
            }
        } else {
            assert(k < e2.len());
            assert(k < e1.len());
            assert(k < e0.len());
            let e = e0[k];
            let x = choose|x: int| 0 <= x < ts.len() && bounds(e0[k], #[trigger] ts[x]);
            assert(ts2[x] == ts[x]);
            assert(bounds(e3[k], ts2[x]));
        }
    }
}

/// Every edge joins two vertices of some triangle.
#[verifier::opaque]
pub open spec fn edges_bound(edges: Seq<Edge>, triangles: Seq<(usize, usize, usize)>) -> bool {
    forall|i: int|
        0 <= i < edges.len() ==> exists|t: int|
            0 <= t < triangles.len() && bounds(#[trigger] edges[i], #[trigger] triangles[t])
}

/// `e` joins two vertices of `t`.
pub open spec fn bounds(e: Edge, t: (usize, usize, usize)) -> bool {
    e.joins(t.0 as int, t.1 as int) || e.joins(t.1 as int, t.2 as int) || e.joins(t.0 as int, t.2 as int)
}

/// The three vertices in increasing order of index.
pub open spec fn ordered(a: usize, b: usize, c: usize) -> (usize, usize, usize) {
    if a <= b && b <= c {
        (a, b, c)
    } else if a <= c && c <= b {
        (a, c, b)
    } else if b <= a && a <= c {
        (b, a, c)
    } else if b <= c && c <= a {
        (b, c, a)
    } else if c <= a && a <= b {
        (c, a, b)
    } else {
        (c, b, a)
    }
}

/// An edge over points `0..n` that joins two different points and is used by
/// at most two triangles.
pub open spec fn edge_ok(e: Edge, n: int) -> bool {
    &&& e.p1 < n
    &&& e.p2 < n
    &&& e.p1 != e.p2
    &&& 1 <= e.num_triangles_this_edge_in <= 2
}

/// Three different points among `0..n`.
pub open spec fn triangle_ok(t: (usize, usize, usize), n: int) -> bool {
    &&& t.0 < n
    &&& t.1 < n
    &&& t.2 < n
    &&& t.0 != t.1
    &&& t.1 != t.2
    &&& t.0 != t.2
}

/// Every edge is sound, and no two edges join the same pair of points.
pub open spec fn edges_ok(edges: Seq<Edge>, n: int) -> bool {
    &&& forall|i: int| 0 <= i < edges.len() ==> edge_ok(#[trigger] edges[i], n)
    &&& forall|i: int, j: int|
        0 <= i < edges.len() && 0 <= j < edges.len() && i != j ==> !(#[trigger] edges[i]).joins(
            (#[trigger] edges[j]).p1 as int,
            edges[j].p2 as int,
        )
}

impl Grid {
    /// Every triangle's vertex pairs are joined by edges.
    pub open spec fn closed(&self) -> bool {
        triangles_have_edges(self.edges@, self.triangles@)
    }

    /// Number of points in the grid.
    pub open spec fn num_points(&self) -> int {
        self.cell_codes.len() as int
    }

    pub open spec fn wf(&self) -> bool {
        &&& forall|i: int| 0 <= i < self.cell_codes.len() ==> valid_code(#[trigger] self.cell_codes[i] as int)
        &&& edges_ok(self.edges@, self.num_points())
        &&& forall|t: int| 0 <= t < self.triangles.len() ==> triangle_ok(#[trigger] self.triangles[t], self.num_points())
        &&& cells_ok(self.cells@, self.cell_codes@, self.num_points())
    }

    /// Buckets the points, point `i` into the cell with bucket indices
    /// `buckets[i]`. Fails on the first point whose indices do not fit.
    pub fn new(buckets: &Vec<(isize, isize, isize)>) -> (r: Result<Grid, GridError>)
        ensures
            match r {
                Ok(g) => {
                    &&& g.wf()
                    &&& all_in_range(buckets@)
                    &&& g.cell_codes.len() == buckets.len()
                    &&& forall|i: int| 0 <= i < buckets.len() ==> #[trigger] g.cell_codes[i] == code_of(buckets[i].0 as int, buckets[i].1 as int, buckets[i].2 as int)
                    &&& g.edges.len() == 0
                    &&& g.triangles.len() == 0
                    &&& g.closed()
                    &&& edges_bound(g.edges@, g.triangles@)
                },
                Err(GridError::BucketOutOfRange { point }) => {
                    &&& point < buckets.len()
                    &&& !triple_in_range(buckets[point as int])
                    &&& forall|i: int| 0 <= i < point ==> triple_in_range(#[trigger] buckets[i])
                },
            },
    {
        let mut grid = Grid { cell_codes: Vec::new(), cells: HashMap::new(), edges: Vec::new(), triangles: Vec::new() };
        match grid.init_with_data(buckets) {
            Ok(()) => {
                proof {
                    assert(grid.edges@ =~= Seq::<Edge>::empty());
                    lemma_bound_empty(grid.triangles@);
                }
                Ok(grid)
            },
            Err(e) => Err(e),
        }
    }

    /// Assigns every point its cell code; on failure the grid is left as it was.
    pub fn init_with_data(&mut self, buckets: &Vec<(isize, isize, isize)>) -> (r: Result<(), GridError>)
        ensures
            final(self).edges == old(self).edges,
            final(self).triangles == old(self).triangles,
            match r {
                Ok(()) => {
                    &&& all_in_range(buckets@)
                    &&& final(self).cell_codes.len() == buckets.len()
                    &&& forall|i: int| 0 <= i < buckets.len() ==> #[trigger] final(self).cell_codes[i] == code_of(buckets[i].0 as int, buckets[i].1 as int, buckets[i].2 as int)
                },
                Err(GridError::BucketOutOfRange { point }) => {
                    &&& final(self).cell_codes == old(self).cell_codes
                    &&& final(self).cells == old(self).cells
                    &&& point < buckets.len()
                    &&& !triple_in_range(buckets[point as int])
                    &&& forall|i: int| 0 <= i < point ==> triple_in_range(#[trigger] buckets[i])
                },
            },
            r is Ok ==> cells_ok(final(self).cells@, final(self).cell_codes@, final(self).cell_codes.len() as int),
            r is Ok ==> forall|i: int| 0 <= i < final(self).cell_codes.len() ==> valid_code(#[trigger] final(self).cell_codes[i] as int),
            (r is Ok && old(self).edges.len() == 0 && old(self).triangles.len() == 0) ==> final(self).wf(),
    {
        let mut codes: Vec<isize> = Vec::new();
        let mut cells: HashMap<isize, Vec<usize>> = HashMap::new();
        let mut i: usize = 0;
        while i < buckets.len()
            invariant
                i <= buckets.len(),
                codes.len() == i,
                cells_ok(cells@, codes@, i as int),
                forall|j: int| 0 <= j < i ==> triple_in_range(#[trigger] buckets[j]),
                forall|j: int| 0 <= j < i ==> #[trigger] codes[j] == code_of(buckets[j].0 as int, buckets[j].1 as int, buckets[j].2 as int),
                forall|j: int| 0 <= j < i ==> valid_code(#[trigger] codes[j] as int),
            decreases buckets.len() - i,
        {
            let (x, y, z) = buckets[i];
            match checked_encode_cell(x, y, z) {
                Some(c) => {
                    proof {
                        crate::cell::lemma_encode_decode(x, y, z);
                    }
                    let ghost m0 = cells@;
                    let ghost codes0 = codes@;
                    let mut bucket = match cells.remove(&c) {
                        Some(v) => v,
                        None => Vec::new(),
                    };
                    let ghost b0 = bucket@;
                    bucket.push(i);
                    let ghost nb = bucket;
                    let ghost m_removed = cells@;
                    cells.insert(c, bucket);
                    codes.push(c);
                    proof {
                        lemma_bucket_extend(m0, codes0, i as int, c, b0);
                        assert(m_removed == m0.remove(c));
                        assert(cells@ =~= m0.insert(c, nb));
                    }
                },
                None => {
                    return Err(GridError::BucketOutOfRange { point: i });
                },
            }
            i = i + 1;
        }
        self.cell_codes = codes;
        self.cells = cells;
        Ok(())
    }

    /// The points bucketed at `cell_code`, in increasing order (none if the
    /// cell is empty).
    pub fn get_cell_points(&self, cell_code: isize) -> (r: Vec<usize>)
        requires
            self.wf(),
        ensures
            forall|p: usize| r@.contains(p) <==> (p < self.cell_codes.len() && self.cell_codes[p as int] == cell_code),
            forall|i: int, j: int| 0 <= i < j < r.len() ==> r[i] < r[j],
            forall|i: int| 0 <= i < r.len() ==> #[trigger] r[i] < self.cell_codes.len(),
    {
        let mut r: Vec<usize> = Vec::new();
        match self.cells.get(&cell_code) {
            Some(v) => {
                let mut k: usize = 0;
                while k < v.len()
                    invariant
                        k <= v.len(),
                        r@ == v@.take(k as int),
                    decreases v.len() - k,
                {
                    r.push(v[k]);
                    proof {
                        assert(v@.take(k + 1) =~= v@.take(k as int).push(v[k as int]));
                    }
                    k = k + 1;
                }
                proof {
                    assert(r@ =~= v@);
                    assert forall|i: int| 0 <= i < r.len() implies #[trigger] r[i] < self.cell_codes.len() by {
                        assert(r@.contains(r[i]));
                    }
                }
            },
            None => {
                proof {
                    assert forall|p: usize| !(p < self.cell_codes.len() && self.cell_codes[p as int] == cell_code) by {
                        if p < self.cell_codes.len() {
                            assert(self.cells@.contains_key(self.cell_codes[p as int]));
                        }
                    }
                }
            },
        }
        r
    }

    /// Index of the edge joining `a` and `b`, if there is one.
    pub fn find_edge(&self, a: usize, b: usize) -> (r: Option<usize>)
        ensures
            match r {
                Some(i) => i < self.edges.len() && self.edges[i as int].joins(a as int, b as int),
                None => !has_edge(self.edges@, a as int, b as int),
            },
    {
        let mut i: usize = 0;
        while i < self.edges.len()
            invariant
                i <= self.edges.len(),
                forall|j: int| 0 <= j < i ==> !(#[trigger] self.edges[j]).joins(a as int, b as int),
            decreases self.edges.len() - i,
        {
            let e = self.edges[i];
            if (e.p1 == a && e.p2 == b) || (e.p1 == b && e.p2 == a) {
                return Some(i);
            }
            i = i + 1;
        }
        None
    }

    /// Whether `p1` and `p2` are already bridged through a third point other
    /// than `point_of_triangle_we_creating`: some existing edge leads from
    /// `p1` or `p2` to such a point.
    pub fn is_there_a_path_between_two_points(
        &self,
        p1: usize,
        p2: usize,
        point_of_triangle_we_creating: usize,
    ) -> (r: bool)
        ensures
            r == path_exists(self.edges@, p1 as int, p2 as int, point_of_triangle_we_creating as int),
    {
        let mut i: usize = 0;
        while i < self.edges.len()
            invariant
                i <= self.edges.len(),
                forall|j: int, w: int|
                    0 <= j < i && #[trigger] self.edges[j].joins(p1 as int, w) ==> (w == p1 || w == p2 || w == point_of_triangle_we_creating),
                forall|j: int, w: int|
                    0 <= j < i && #[trigger] self.edges[j].joins(p2 as int, w) ==> (w == p1 || w == p2 || w == point_of_triangle_we_creating),
            decreases self.edges.len() - i,
        {
            let e = self.edges[i];
            if (e.p1 == p1 || e.p1 == p2) && e.p2 != p1 && e.p2 != p2 && e.p2 != point_of_triangle_we_creating {
                proof {
                    let w = e.p2 as int;
                    assert(self.edges[i as int].joins(e.p1 as int, w));
                    if e.p1 == p1 {
                        assert(has_edge(self.edges@, p1 as int, w));
                    } else {
                        assert(has_edge(self.edges@, p2 as int, w));
                    }
                    assert(path_exists(self.edges@, p1 as int, p2 as int, point_of_triangle_we_creating as int));
                }
                return true;
            }
            if (e.p2 == p1 || e.p2 == p2) && e.p1 != p1 && e.p1 != p2 && e.p1 != point_of_triangle_we_creating {
                proof {
                    let w = e.p1 as int;
                    assert(self.edges[i as int].joins(e.p2 as int, w));
                    if e.p2 == p1 {
                        assert(has_edge(self.edges@, p1 as int, w));
                    } else {
                        assert(has_edge(self.edges@, p2 as int, w));
                    }
                    assert(path_exists(self.edges@, p1 as int, p2 as int, point_of_triangle_we_creating as int));
                }
                return true;
            }
            i = i + 1;
        }
        false
    }
}

impl Grid {
    /// Records that one more triangle uses the pair `(u, v)`: bumps the
    /// existing edge, or appends a new one whose counter says whether it
    /// closes an implied triangle.
    fn use_edge(&mut self, u: usize, v: usize, closes: bool)
        requires
            old(self).wf(),
            u < old(self).num_points(),
            v < old(self).num_points(),
            u != v,
            forall|i: int|
                0 <= i < old(self).edges.len() && #[trigger] old(self).edges[i].joins(u as int, v as int)
                    ==> old(self).edges[i].num_triangles_this_edge_in < 2,
        ensures
            final(self).wf(),
            final(self).cells == old(self).cells,
            final(self).cell_codes == old(self).cell_codes,
            final(self).triangles == old(self).triangles,
            final(self).edges@ == with_edge_use(old(self).edges@, u as int, v as int, closes),
            final(self).edges.len() >= old(self).edges.len(),
            edges_grow(old(self).edges@, final(self).edges@),
            step_keeps(old(self).edges@, final(self).edges@, u as int, v as int),
    {
        reveal(edges_grow);
        reveal(step_keeps);
        let ghost before = self.edges@;
        match self.find_edge(u, v) {
            Some(i) => {
                let mut e = self.edges[i];
                e.num_triangles_this_edge_in = e.num_triangles_this_edge_in + 1;
                self.edges.set(i, e);
                proof {
                    assert(has_edge(before, u as int, v as int));
                    assert forall|j: int| 0 <= j < before.len() && j != i implies !before[j].joins(u as int, v as int) by {
                        assert(!before[j].joins(before[i as int].p1 as int, before[i as int].p2 as int));
                    }
                    assert(self.edges@ =~= before.map_values(|e: Edge| if e.joins(u as int, v as int) { e.bumped() } else { e }));
                }
            },
            None => {
                let mut e = Edge::new(u, v);
                e.num_triangles_this_edge_in = if closes { 2 } else { 1 };
                self.edges.push(e);
                proof {
                    let n = self.num_points();
                    assert forall|i: int, j: int|
                        0 <= i < self.edges.len() && 0 <= j < self.edges.len() && i != j implies !(#[trigger] self.edges[i]).joins(
                            (#[trigger] self.edges[j]).p1 as int,
                            self.edges[j].p2 as int,
                        ) by {
                        if i < before.len() && j < before.len() {
                            assert(self.edges[i] == before[i]);
                            assert(self.edges[j] == before[j]);
                        } else if i < before.len() {
                            assert(self.edges[i] == before[i]);
                            if before[i].joins(u as int, v as int) {
                                assert(has_edge(before, u as int, v as int));
                            }
                        } else {
                            assert(self.edges[j] == before[j]);
                            if before[j].joins(u as int, v as int) {
                                assert(has_edge(before, u as int, v as int));
                            }
                        }
                    }
                    assert(edges_ok(self.edges@, n));
                }
            },
        }
    }

    /// Adds the triangle `(a, b, c)` with its pairs taken in this order.
    fn insert_triangle(&mut self, a: usize, b: usize, c: usize) -> (r: (usize, usize, usize))
        requires
            old(self).wf(),
            a < old(self).num_points(),
            b < old(self).num_points(),
            c < old(self).num_points(),
            a != b,
            b != c,
            a != c,
            forall|i: int|
                0 <= i < old(self).edges.len() ==> ((#[trigger] old(self).edges[i]).joins(a as int, b as int)
                    || old(self).edges[i].joins(b as int, c as int) || old(self).edges[i].joins(a as int, c as int))
                    ==> old(self).edges[i].num_triangles_this_edge_in < 2,
        ensures
            final(self).wf(),
            final(self).cell_codes == old(self).cell_codes,
            final(self).cells == old(self).cells,
            final(self).edges@ == with_triangle_edges(old(self).edges@, a as int, b as int, c as int),
            r == ordered(a, b, c),
            final(self).triangles@ == old(self).triangles@.push(r),
            final(self).edges.len() >= old(self).edges.len(),
            old(self).closed() ==> final(self).closed(),
            edges_grow(old(self).edges@, final(self).edges@),
            edges_bound(old(self).edges@, old(self).triangles@) ==> edges_bound(final(self).edges@, final(self).triangles@),
    {
        let ab = self.is_there_a_path_between_two_points(a, b, c);
        let bc = self.is_there_a_path_between_two_points(b, c, a);
        let ac = self.is_there_a_path_between_two_points(a, c, b);
        let ghost e0 = self.edges@;
        self.use_edge(a, b, ab);
        proof {
            assert forall|i: int| 0 <= i < self.edges.len() && #[trigger] self.edges[i].joins(b as int, c as int)
                implies self.edges[i].num_triangles_this_edge_in < 2 by {
                if has_edge(e0, a as int, b as int) {
                    assert(self.edges[i] == (if e0[i].joins(a as int, b as int) { e0[i].bumped() } else { e0[i] }));
                } else if i < e0.len() {
                    assert(self.edges[i] == e0[i]);
                }
            }
        }
        let ghost e1 = self.edges@;
        self.use_edge(b, c, bc);
        proof {
            assert forall|i: int| 0 <= i < self.edges.len() && #[trigger] self.edges[i].joins(a as int, c as int)
                implies self.edges[i].num_triangles_this_edge_in < 2 by {
                if has_edge(e1, b as int, c as int) {
                    assert(self.edges[i] == (if e1[i].joins(b as int, c as int) { e1[i].bumped() } else { e1[i] }));
                } else if i < e1.len() {
                    assert(self.edges[i] == e1[i]);
                }
                if i < e1.len() {
                    if has_edge(e0, a as int, b as int) {
                        assert(e1[i] == (if e0[i].joins(a as int, b as int) { e0[i].bumped() } else { e0[i] }));
                    } else if i < e0.len() {
                        assert(e1[i] == e0[i]);
                    }
                }
            }
        }
        let ghost e2 = self.edges@;
        self.use_edge(a, c, ac);
        let t = if a <= b && b <= c {
            (a, b, c)
        } else if a <= c && c <= b {
            (a, c, b)
        } else if b <= a && a <= c {
            (b, a, c)
        } else if b <= c && c <= a {
            (b, c, a)
        } else if c <= a && a <= b {
            (c, a, b)
        } else {
            (c, b, a)
        };
        self.triangles.push(t);
        proof {
            if edges_bound(old(self).edges@, old(self).triangles@) {
                lemma_bound_after(old(self).edges@, e1, e2, self.edges@, old(self).triangles@, a, b, c);
            }
            lemma_grow_trans(old(self).edges@, e1, e2);
            lemma_grow_trans(old(self).edges@, e2, self.edges@);
            if old(self).closed() {
                lemma_add_triangle_keeps_edges(old(self).edges@, old(self).triangles@, a, b, c);
            }
            assert forall|k: int| 0 <= k < self.triangles.len() implies triangle_ok(#[trigger] self.triangles[k], self.num_points()) by {
                if k < self.triangles.len() - 1 {
                    assert(self.triangles[k] == old(self).triangles[k]);
                }
            }
        }
        t
    }

    /// Adds the triangle `(a, b, c)`: each of its three vertex pairs gets its
    /// existing edge's counter raised by one, or a new edge that starts at one,
    /// or at two when the pair is already bridged through another point (see
    /// `path_exists`, decided before anything changes). The triangle is stored
    /// with its vertices in increasing order, which is returned; the three
    /// pairs are taken in that order: first and second, second and third,
    /// first and third.
    pub fn add_triangle(&mut self, a: usize, b: usize, c: usize) -> (r: (usize, usize, usize))
        requires
            old(self).wf(),
            a < old(self).num_points(),
            b < old(self).num_points(),
            c < old(self).num_points(),
            a != b,
            b != c,
            a != c,
            forall|i: int|
                0 <= i < old(self).edges.len() ==> ((#[trigger] old(self).edges[i]).joins(a as int, b as int)
                    || old(self).edges[i].joins(b as int, c as int) || old(self).edges[i].joins(a as int, c as int))
                    ==> old(self).edges[i].num_triangles_this_edge_in < 2,
        ensures
            final(self).wf(),
            final(self).cell_codes == old(self).cell_codes,
            final(self).cells == old(self).cells,
            r == ordered(a, b, c),
            final(self).edges@ == with_triangle(old(self).edges@, r),
            final(self).triangles@ == old(self).triangles@.push(r),
            final(self).edges.len() >= old(self).edges.len(),
            old(self).closed() ==> final(self).closed(),
            edges_grow(old(self).edges@, final(self).edges@),
            edges_bound(old(self).edges@, old(self).triangles@) ==> edges_bound(final(self).edges@, final(self).triangles@),
    {
        let t = if a <= b && b <= c {
            (a, b, c)
        } else if a <= c && c <= b {
            (a, c, b)
        } else if b <= a && a <= c {
            (b, a, c)
        } else if b <= c && c <= a {
            (b, c, a)
        } else if c <= a && a <= b {
            (c, a, b)
        } else {
            (c, b, a)
        };
        let (x, y, z) = t;
        proof {
            assert forall|i: int|
                0 <= i < self.edges.len() && ((#[trigger] self.edges[i]).joins(x as int, y as int)
                    || self.edges[i].joins(y as int, z as int) || self.edges[i].joins(x as int, z as int))
                    implies self.edges[i].num_triangles_this_edge_in < 2 by {
                assert(self.edges[i].joins(a as int, b as int) || self.edges[i].joins(b as int, c as int)
                    || self.edges[i].joins(a as int, c as int));
            }
        }
        let r = self.insert_triangle(x, y, z);
        proof {
            assert(ordered(x, y, z) == t);
        }
        r
    }

    /// Appends an edge between two different points that no edge joins yet.
    pub fn add_edge(&mut self, edge: Edge)
        requires
            old(self).wf(),
            edge_ok(edge, old(self).num_points()),
            !has_edge(old(self).edges@, edge.p1 as int, edge.p2 as int),
        ensures
            final(self).wf(),
            final(self).cell_codes == old(self).cell_codes,
            final(self).triangles == old(self).triangles,
            final(self).edges@ == old(self).edges@.push(edge),
    {
        let ghost before = self.edges@;
        self.edges.push(edge);
        proof {
            assert forall|i: int, j: int|
                0 <= i < self.edges.len() && 0 <= j < self.edges.len() && i != j implies !(#[trigger] self.edges[i]).joins(
                    (#[trigger] self.edges[j]).p1 as int,
                    self.edges[j].p2 as int,
                ) by {
                if i < before.len() && j < before.len() {
                    assert(self.edges[i] == before[i]);
                    assert(self.edges[j] == before[j]);
                } else if i < before.len() {
                    assert(self.edges[i] == before[i]);
                    if before[i].joins(edge.p1 as int, edge.p2 as int) {
                        assert(has_edge(before, edge.p1 as int, edge.p2 as int));
                    }
                } else {
                    assert(self.edges[j] == before[j]);
                    if before[j].joins(edge.p1 as int, edge.p2 as int) {
                        assert(has_edge(before, edge.p1 as int, edge.p2 as int));
                    }
                }
            }
        }
    }

    /// Removes the first edge equal to `edge`, which must be present.
    pub fn remove_grid(&mut self, edge: Edge)
        requires
            old(self).wf(),
            old(self).edges@.contains(edge),
        ensures
            final(self).wf(),
            final(self).cell_codes == old(self).cell_codes,
            final(self).triangles == old(self).triangles,
            exists|i: int|
                0 <= i < old(self).edges.len() && old(self).edges[i] == edge && (forall|j: int| 0 <= j < i ==> old(self).edges[j] != edge)
                    && final(self).edges@ == old(self).edges@.remove(i),
    {
        let ghost before = self.edges@;
        let mut idx: usize = 0;
        while idx < self.edges.len() && self.edges[idx] != edge
            invariant
                idx <= self.edges.len(),
                self.edges@ == before,
                before.contains(edge),
                forall|j: int| 0 <= j < idx ==> before[j] != edge,
            decreases self.edges.len() - idx,
        {
            idx = idx + 1;
        }
        proof {
            if idx == self.edges.len() {
                let k = choose|k: int| 0 <= k < before.len() && before[k] == edge;
                assert(before[k] != edge);
            }
        }
        self.edges.remove(idx);
        proof {
            assert forall|i: int| 0 <= i < self.edges.len() implies edge_ok(#[trigger] self.edges[i], self.num_points()) by {
                if i < idx {
                    assert(self.edges[i] == before[i]);
                } else {
                    assert(self.edges[i] == before[i + 1]);
                }
            }
            assert forall|i: int, j: int|
                0 <= i < self.edges.len() && 0 <= j < self.edges.len() && i != j implies !(#[trigger] self.edges[i]).joins(
                    (#[trigger] self.edges[j]).p1 as int,
                    self.edges[j].p2 as int,
                ) by {
                let i0 = if i < idx { i } else { i + 1 };
                let j0 = if j < idx { j } else { j + 1 };
                assert(self.edges[i] == before[i0]);
                assert(self.edges[j] == before[j0]);
            }
        }
    }
}

/// When `a` and `b` have a common neighbor `w` other than `excluded`, the
/// path check reports them as bridged.
pub proof fn lemma_common_neighbor_bridges(edges: Seq<Edge>, a: int, b: int, excluded: int, w: int)
    requires
        has_edge(edges, a, w),
        has_edge(edges, b, w),
        w != a,
        w != b,
        w != excluded,
    ensures
        path_exists(edges, a, b, excluded),
{
}

/// When no edge leads from `a` or `b` to any point other than `a`, `b` and
/// `excluded`, the path check reports no bridge.
pub proof fn lemma_isolated_pair_not_bridged(edges: Seq<Edge>, a: int, b: int, excluded: int)
    requires
        forall|i: int, w: int|
            0 <= i < edges.len() && #[trigger] edges[i].joins(a, w) ==> (w == a || w == b || w == excluded),
        forall|i: int, w: int|
            0 <= i < edges.len() && #[trigger] edges[i].joins(b, w) ==> (w == a || w == b || w == excluded),
    ensures
        !path_exists(edges, a, b, excluded),
{
}

/// The counter of the edge joining `u` and `v`; zero when there is none.
pub open spec fn incidence(edges: Seq<Edge>, u: int, v: int) -> int {
    if has_edge(edges, u, v) {
        edges[edge_index(edges, u, v)].num_triangles_this_edge_in as int
    } else {
        0
    }
}

/// The position of an edge joining `u` and `v` (the only one, under the edge
/// invariant).
pub open spec fn edge_index(edges: Seq<Edge>, u: int, v: int) -> int {
    choose|i: int| 0 <= i < edges.len() && #[trigger] edges[i].joins(u, v)
}

/// Under the edge invariant, every edge joining `u` and `v` carries the
/// counter that `incidence` reports.
pub proof fn lemma_incidence_everywhere(edges: Seq<Edge>, n: int, u: int, v: int)
    requires
        edges_ok(edges, n),
    ensures
        forall|i: int|
            0 <= i < edges.len() && #[trigger] edges[i].joins(u, v) ==> edges[i].num_triangles_this_edge_in == incidence(
                edges,
                u,
                v,
            ),
{
    assert forall|i: int|
        0 <= i < edges.len() && #[trigger] edges[i].joins(u, v) implies edges[i].num_triangles_this_edge_in == incidence(
            edges,
            u,
            v,
        ) by {
        lemma_incidence_at(edges, n, i, u, v);
    }
}

/// `(x, y)` and `(u, v)` are the same unordered pair.
pub open spec fn same_pair(x: int, y: int, u: int, v: int) -> bool {
    (x == u && y == v) || (x == v && y == u)
}

pub(crate) proof fn lemma_incidence_at(edges: Seq<Edge>, n: int, i: int, u: int, v: int)
    requires
        edges_ok(edges, n),
        0 <= i < edges.len(),
        edges[i].joins(u, v),
    ensures
        has_edge(edges, u, v),
        incidence(edges, u, v) == edges[i].num_triangles_this_edge_in,
        edge_index(edges, u, v) == i,
{
    assert(has_edge(edges, u, v));
    let k = choose|k: int| 0 <= k < edges.len() && #[trigger] edges[k].joins(u, v);
    if k != i {
        assert(!edges[k].joins(edges[i].p1 as int, edges[i].p2 as int));
    }
}

proof fn lemma_edge_use(edges: Seq<Edge>, n: int, u: int, v: int, closes: bool)
    requires
        edges_ok(edges, n),
        n <= usize::MAX,
        0 <= u < n,
        0 <= v < n,
        u != v,
        incidence(edges, u, v) < 2,
    ensures
        edges_ok(with_edge_use(edges, u, v, closes), n),
        incidence(with_edge_use(edges, u, v, closes), u, v) == if has_edge(edges, u, v) {
            incidence(edges, u, v) + 1
        } else {
            initial_count(closes) as int
        },
        forall|x: int, y: int|
            !same_pair(x, y, u, v) ==> (has_edge(#[trigger] with_edge_use(edges, u, v, closes), x, y) == has_edge(edges, x, y)
                && incidence(with_edge_use(edges, u, v, closes), x, y) == incidence(edges, x, y)),
{
    let e2 = with_edge_use(edges, u, v, closes);
    if has_edge(edges, u, v) {
        let i = choose|i: int| 0 <= i < edges.len() && #[trigger] edges[i].joins(u, v);
        lemma_incidence_at(edges, n, i, u, v);
        assert forall|k: int| 0 <= k < e2.len() implies edge_ok(#[trigger] e2[k], n) by {
            if k != i {
                assert(!edges[k].joins(edges[i].p1 as int, edges[i].p2 as int));
            }
        }
        assert forall|k: int, j: int|
            0 <= k < e2.len() && 0 <= j < e2.len() && k != j implies !(#[trigger] e2[k]).joins(
                (#[trigger] e2[j]).p1 as int,
                e2[j].p2 as int,
            ) by {
            assert(!edges[k].joins(edges[j].p1 as int, edges[j].p2 as int));
        }
        assert(edges_ok(e2, n));
        lemma_incidence_at(e2, n, i, u, v);
        assert forall|x: int, y: int|
            !same_pair(x, y, u, v) implies (has_edge(#[trigger] with_edge_use(edges, u, v, closes), x, y) == has_edge(edges, x, y)
                && incidence(with_edge_use(edges, u, v, closes), x, y) == incidence(edges, x, y)) by {
            if has_edge(edges, x, y) {
                let k = choose|k: int| 0 <= k < edges.len() && #[trigger] edges[k].joins(x, y);
                lemma_incidence_at(edges, n, k, x, y);
                assert(e2[k].joins(x, y));
                if edges[k].joins(u, v) {
                    assert(same_pair(x, y, u, v));
                }
                lemma_incidence_at(e2, n, k, x, y);
            }
            if has_edge(e2, x, y) {
                let k = choose|k: int| 0 <= k < e2.len() && #[trigger] e2[k].joins(x, y);
                assert(edges[k].joins(x, y));
            }
        }
    } else {
        let i = edges.len() as int;
        assert(e2 == edges.push(Edge { p1: u as usize, p2: v as usize, num_triangles_this_edge_in: initial_count(closes) }));
        assert forall|k: int| 0 <= k < e2.len() implies edge_ok(#[trigger] e2[k], n) by {
            if k < i {
                assert(e2[k] == edges[k]);
            }
        }
        assert forall|k: int, j: int|
            0 <= k < e2.len() && 0 <= j < e2.len() && k != j implies !(#[trigger] e2[k]).joins(
                (#[trigger] e2[j]).p1 as int,
                e2[j].p2 as int,
            ) by {
            if k < i && j < i {
                assert(e2[k] == edges[k]);
                assert(e2[j] == edges[j]);
            } else if k < i {
                assert(e2[k] == edges[k]);
                if edges[k].joins(u, v) {
                    assert(has_edge(edges, u, v));
                }
            } else {
                assert(e2[j] == edges[j]);
                if edges[j].joins(u, v) {
                    assert(has_edge(edges, u, v));
                }
            }
        }
        assert(edges_ok(e2, n));
        assert(e2[i].joins(u, v));
        lemma_incidence_at(e2, n, i, u, v);
        assert forall|x: int, y: int|
            !same_pair(x, y, u, v) implies (has_edge(#[trigger] with_edge_use(edges, u, v, closes), x, y) == has_edge(edges, x, y)
                && incidence(with_edge_use(edges, u, v, closes), x, y) == incidence(edges, x, y)) by {
            if has_edge(edges, x, y) {
                let k = choose|k: int| 0 <= k < edges.len() && #[trigger] edges[k].joins(x, y);
                lemma_incidence_at(edges, n, k, x, y);
                assert(e2[k] == edges[k]);
                lemma_incidence_at(e2, n, k, x, y);
            }
            if has_edge(e2, x, y) {
                let k = choose|k: int| 0 <= k < e2.len() && #[trigger] e2[k].joins(x, y);
                if k < i {
                    assert(e2[k] == edges[k]);
                    assert(edges[k].joins(x, y));
                } else {
                    assert(same_pair(x, y, u, v));
                }
            }
        }
    }
}

/// Adding the triangle `(a, b, c)` raises the counter of each of its three
/// vertex pairs by exactly one (a pair without an edge counts as zero), except
/// that a new edge closing a triangle already implied through another point
/// starts at two; every other pair keeps its counter, and no counter exceeds
/// two.
pub proof fn lemma_triangle_incidence(edges: Seq<Edge>, n: int, a: int, b: int, c: int)
    requires
        edges_ok(edges, n),
        n <= usize::MAX,
        0 <= a < n,
        0 <= b < n,
        0 <= c < n,
        a != b,
        b != c,
        a != c,
        incidence(edges, a, b) < 2,
        incidence(edges, b, c) < 2,
        incidence(edges, a, c) < 2,
    ensures
        edges_ok(with_triangle_edges(edges, a, b, c), n),
        incidence(with_triangle_edges(edges, a, b, c), a, b) == if !has_edge(edges, a, b) && path_exists(edges, a, b, c) {
            2
        } else {
            incidence(edges, a, b) + 1
        },
        incidence(with_triangle_edges(edges, a, b, c), b, c) == if !has_edge(edges, b, c) && path_exists(edges, b, c, a) {
            2
        } else {
            incidence(edges, b, c) + 1
        },
        incidence(with_triangle_edges(edges, a, b, c), a, c) == if !has_edge(edges, a, c) && path_exists(edges, a, c, b) {
            2
        } else {
            incidence(edges, a, c) + 1
        },
        forall|x: int, y: int|
            !same_pair(x, y, a, b) && !same_pair(x, y, b, c) && !same_pair(x, y, a, c) ==> #[trigger] incidence(
                with_triangle_edges(edges, a, b, c),
                x,
                y,
            ) == incidence(edges, x, y),
{
    let ab = path_exists(edges, a, b, c);
    let bc = path_exists(edges, b, c, a);
    let ac = path_exists(edges, a, c, b);
    let e1 = with_edge_use(edges, a, b, ab);
    lemma_edge_use(edges, n, a, b, ab);
    assert(has_edge(e1, b, c) == has_edge(edges, b, c) && incidence(e1, b, c) == incidence(edges, b, c));
    assert(has_edge(e1, a, c) == has_edge(edges, a, c) && incidence(e1, a, c) == incidence(edges, a, c));
    let e2 = with_edge_use(e1, b, c, bc);
    lemma_edge_use(e1, n, b, c, bc);
    assert(has_edge(e2, a, c) == has_edge(edges, a, c) && incidence(e2, a, c) == incidence(edges, a, c));
    assert(incidence(e2, a, b) == incidence(e1, a, b));
    let e3 = with_edge_use(e2, a, c, ac);
    lemma_edge_use(e2, n, a, c, ac);
    assert(incidence(e3, a, b) == incidence(e2, a, b));
    assert(incidence(e3, b, c) == incidence(e2, b, c));
    assert forall|x: int, y: int|
        !same_pair(x, y, a, b) && !same_pair(x, y, b, c) && !same_pair(x, y, a, c) implies #[trigger] incidence(
            with_triangle_edges(edges, a, b, c),
            x,
            y,
        ) == incidence(edges, x, y) by {
        assert(incidence(e1, x, y) == incidence(edges, x, y));
        assert(incidence(e2, x, y) == incidence(e1, x, y));
        assert(incidence(e3, x, y) == incidence(e2, x, y));
    }
}

impl Grid {
    /// The status of point `p`: untouched when no edge has it as an endpoint,
    /// on the front when one of its edges is used by exactly one triangle,
    /// interior otherwise.
    pub fn point_status(&self, p: usize) -> (r: PointStatus)
        ensures
            r == if !(exists|i: int| 0 <= i < self.edges.len() && #[trigger] touches(self.edges[i], p)) {
                PointStatus::Untouched
            } else if exists|i: int|
                0 <= i < self.edges.len() && #[trigger] touches(self.edges[i], p)
                    && self.edges[i].num_triangles_this_edge_in == 1 {
                PointStatus::OnFront
            } else {
                PointStatus::Interior
            },
    {
        let mut touched = false;
        let mut i: usize = 0;
        while i < self.edges.len()
            invariant
                i <= self.edges.len(),
                touched == exists|j: int| 0 <= j < i && #[trigger] touches(self.edges[j], p),
                forall|j: int| 0 <= j < i && #[trigger] touches(self.edges[j], p) ==> self.edges[j].num_triangles_this_edge_in != 1,
            decreases self.edges.len() - i,
        {
            let e = self.edges[i];
            if e.p1 == p || e.p2 == p {
                if e.num_triangles_this_edge_in == 1 {
                    assert(touches(self.edges[i as int], p));
                    return PointStatus::OnFront;
                }
                touched = true;
                assert(touches(self.edges[i as int], p));
            }
            i = i + 1;
        }
        if touched {
            PointStatus::Interior
        } else {
            PointStatus::Untouched
        }
    }
}

impl Grid {
    /// The counter of the edge joining `u` and `v`, or zero when there is none.
    pub fn edge_incidence(&self, u: usize, v: usize) -> (r: usize)
        requires
            self.wf(),
        ensures
            r == incidence(self.edges@, u as int, v as int),
    {
        match self.find_edge(u, v) {
            Some(k) => {
                proof {
                    lemma_incidence_at(self.edges@, self.num_points(), k as int, u as int, v as int);
                }
                self.edges[k].num_triangles_this_edge_in
            },
            None => 0,
        }
    }
}

/// Every vertex pair of every triangle is joined by an edge.
pub open spec fn triangles_have_edges(edges: Seq<Edge>, triangles: Seq<(usize, usize, usize)>) -> bool {
    forall|t: int|
        0 <= t < triangles.len() ==> {
            let tri = #[trigger] triangles[t];
            &&& has_edge(edges, tri.0 as int, tri.1 as int)
            &&& has_edge(edges, tri.1 as int, tri.2 as int)
            &&& has_edge(edges, tri.0 as int, tri.2 as int)
        }
}

proof fn lemma_edge_use_keeps_edges(edges: Seq<Edge>, u: int, v: int, closes: bool)
    requires
        0 <= u <= usize::MAX,
        0 <= v <= usize::MAX,
    ensures
        has_edge(with_edge_use(edges, u, v, closes), u, v),
        forall|x: int, y: int| has_edge(edges, x, y) ==> #[trigger] has_edge(with_edge_use(edges, u, v, closes), x, y),
{
    let e2 = with_edge_use(edges, u, v, closes);
    if has_edge(edges, u, v) {
        let i = choose|i: int| 0 <= i < edges.len() && #[trigger] edges[i].joins(u, v);
        assert(e2[i].joins(u, v));
        assert forall|x: int, y: int| has_edge(edges, x, y) implies #[trigger] has_edge(e2, x, y) by {
            let k = choose|k: int| 0 <= k < edges.len() && #[trigger] edges[k].joins(x, y);
            assert(e2[k].joins(x, y));
        }
    } else {
        assert(e2[edges.len() as int].joins(u, v));
        assert forall|x: int, y: int| has_edge(edges, x, y) implies #[trigger] has_edge(e2, x, y) by {
            let k = choose|k: int| 0 <= k < edges.len() && #[trigger] edges[k].joins(x, y);
            assert(e2[k] == edges[k]);
        }
    }
}

/// Adding a triangle keeps every triangle's vertex pairs joined by edges,
/// the new triangle's included.
pub proof fn lemma_add_triangle_keeps_edges(
    edges: Seq<Edge>,
    triangles: Seq<(usize, usize, usize)>,
    a: usize,
    b: usize,
    c: usize,
)
    requires
        triangles_have_edges(edges, triangles),
    ensures
        triangles_have_edges(with_triangle_edges(edges, a as int, b as int, c as int), triangles.push(ordered(a, b, c))),
{
    let ab = path_exists(edges, a as int, b as int, c as int);
    let bc = path_exists(edges, b as int, c as int, a as int);
    let ac = path_exists(edges, a as int, c as int, b as int);
    let e1 = with_edge_use(edges, a as int, b as int, ab);
    let e2 = with_edge_use(e1, b as int, c as int, bc);
    let e3 = with_edge_use(e2, a as int, c as int, ac);
    lemma_edge_use_keeps_edges(edges, a as int, b as int, ab);
    lemma_edge_use_keeps_edges(e1, b as int, c as int, bc);
    lemma_edge_use_keeps_edges(e2, a as int, c as int, ac);
    assert(has_edge(e3, a as int, b as int));
    assert(has_edge(e3, b as int, c as int));
    assert(has_edge(e3, a as int, c as int));
    let ts = triangles.push(ordered(a, b, c));
    assert forall|t: int| 0 <= t < ts.len() implies {
        let tri = #[trigger] ts[t];
        &&& has_edge(e3, tri.0 as int, tri.1 as int)
        &&& has_edge(e3, tri.1 as int, tri.2 as int)
        &&& has_edge(e3, tri.0 as int, tri.2 as int)
    } by {
        if t < triangles.len() {
            let tri = triangles[t];
            assert(ts[t] == tri);
            assert(has_edge(e1, tri.0 as int, tri.1 as int));
            assert(has_edge(e1, tri.1 as int, tri.2 as int));
            assert(has_edge(e1, tri.0 as int, tri.2 as int));
            assert(has_edge(e2, tri.0 as int, tri.1 as int));
            assert(has_edge(e2, tri.1 as int, tri.2 as int));
            assert(has_edge(e2, tri.0 as int, tri.2 as int));
        } else {
            let tri = ordered(a, b, c);
            assert(ts[t] == tri);
            assert(has_edge(e3, b as int, a as int)) by {
                let k = choose|k: int| 0 <= k < e3.len() && #[trigger] e3[k].joins(a as int, b as int);
                assert(e3[k].joins(b as int, a as int));
            }
            assert(has_edge(e3, c as int, b as int)) by {
                let k = choose|k: int| 0 <= k < e3.len() && #[trigger] e3[k].joins(b as int, c as int);
                assert(e3[k].joins(c as int, b as int));
            }
            assert(has_edge(e3, c as int, a as int)) by {
                let k = choose|k: int| 0 <= k < e3.len() && #[trigger] e3[k].joins(a as int, c as int);
                assert(e3[k].joins(c as int, a as int));
            }
        }
    }
}

/// When every triangle's vertex pairs have edges, each vertex of a triangle
/// is touched by an edge, so its status is not `Untouched`.
pub proof fn lemma_triangle_vertices_touched(g: Grid, t: int, p: usize)
    requires
        triangles_have_edges(g.edges@, g.triangles@),
        0 <= t < g.triangles.len(),
        p == g.triangles[t].0 || p == g.triangles[t].1 || p == g.triangles[t].2,
    ensures
        exists|i: int| 0 <= i < g.edges.len() && #[trigger] touches(g.edges[i], p),
{
    let tri = g.triangles[t];
    let (x, y) = if p == tri.2 { (tri.0, tri.2) } else { (tri.0, tri.1) };
    assert(has_edge(g.edges@, x as int, y as int));
    let k = choose|k: int| 0 <= k < g.edges.len() && #[trigger] g.edges[k].joins(x as int, y as int);
    if p == tri.1 && p != tri.0 {
        assert(has_edge(g.edges@, tri.1 as int, tri.2 as int));
        let k2 = choose|k2: int| 0 <= k2 < g.edges.len() && #[trigger] g.edges[k2].joins(tri.1 as int, tri.2 as int);
        assert(touches(g.edges[k2], p));
    } else {
        assert(touches(g.edges[k], p));
    }
}

/// `p` is an endpoint of `e`.
pub open spec fn touches(e: Edge, p: usize) -> bool {
    e.p1 == p || e.p2 == p
}

/// `v` lists, in increasing order, exactly the points below `limit` whose
/// code is `c`.
pub open spec fn bucket_ok(v: Seq<usize>, codes: Seq<isize>, c: isize, limit: int) -> bool {
    &&& forall|p: usize| v.contains(p) <==> (p < limit && codes[p as int] == c)
    &&& forall|i: int, j: int| 0 <= i < j < v.len() ==> v[i] < v[j]
}

/// The cell index agrees with the codes of the points below `limit`: every
/// listed cell holds exactly its points, and every point's cell is listed.
pub open spec fn cells_ok(cells: Map<isize, Vec<usize>>, codes: Seq<isize>, limit: int) -> bool {
    &&& forall|c: isize| #[trigger] cells.contains_key(c) ==> bucket_ok(cells[c]@, codes, c, limit)
    &&& forall|p: int| 0 <= p < limit ==> cells.contains_key(#[trigger] codes[p])
}

proof fn lemma_bucket_extend(m0: Map<isize, Vec<usize>>, codes0: Seq<isize>, i: int, c: isize, b0: Seq<usize>)
    requires
        cells_ok(m0, codes0, i),
        codes0.len() == i,
        0 <= i < usize::MAX,
        m0.contains_key(c) ==> b0 == m0[c]@,
        !m0.contains_key(c) ==> b0.len() == 0,
    ensures
        forall|nb: Vec<usize>|
            nb@ == b0.push(i as usize) ==> cells_ok(#[trigger] m0.insert(c, nb), codes0.push(c), i + 1),
{
    let codes1 = codes0.push(c);
    assert forall|nb: Vec<usize>| nb@ == b0.push(i as usize) implies cells_ok(#[trigger] m0.insert(c, nb), codes1, i + 1) by {
        let m1 = m0.insert(c, nb);
        assert forall|d: isize| #[trigger] m1.contains_key(d) implies bucket_ok(m1[d]@, codes1, d, i + 1) by {
            if d == c {
                if m0.contains_key(c) {
                    assert(bucket_ok(m0[c]@, codes0, c, i));
                }
                assert forall|p: usize| #[trigger] nb@.contains(p) <==> (p < i + 1 && codes1[p as int] == c) by {
                    if nb@.contains(p) && p != i {
                        let k = choose|k: int| 0 <= k < nb@.len() && nb@[k] == p;
                        assert(k < b0.len());
                        assert(b0[k] == p);
                        assert(b0.contains(p));
                        assert(codes1[p as int] == codes0[p as int]);
                    }
                    if p < i && codes1[p as int] == c {
                        assert(codes0[p as int] == c);
                        assert(m0.contains_key(codes0[p as int]));
                        assert(b0.contains(p));
                        let k = choose|k: int| 0 <= k < b0.len() && b0[k] == p;
                        assert(nb@[k] == p);
                    }
                    if p == i {
                        assert(nb@[b0.len() as int] == p);
                        assert(codes1[i] == c);
                    }
                }
                assert forall|x: int, y: int| 0 <= x < y < nb@.len() implies nb@[x] < nb@[y] by {
                    assert(nb@[x] == b0[x]);
                    if y == b0.len() {
                        assert(b0.contains(b0[x]));
                    } else {
                        assert(nb@[y] == b0[y]);
                    }
                }
                assert(bucket_ok(nb@, codes1, c, i + 1));
            } else {
                assert(m0.contains_key(d));
                assert(m1[d] == m0[d]);
                assert(bucket_ok(m0[d]@, codes0, d, i));
                assert forall|p: usize| m1[d]@.contains(p) <==> (p < i + 1 && codes1[p as int] == d) by {
                    if p < i {
                        assert(codes1[p as int] == codes0[p as int]);
                    }
                }
            }
        }
        assert forall|p: int| 0 <= p < i + 1 implies m1.contains_key(#[trigger] codes1[p]) by {
            if p < i {
                assert(codes1[p] == codes0[p]);
                assert(m0.contains_key(codes0[p]));
            }
        }
    }
}

/// A bucket triple that fits the cell packing.
pub open spec fn triple_in_range(t: (isize, isize, isize)) -> bool {
    bucket_in_range(t.0 as int) && bucket_in_range(t.1 as int) && bucket_in_range(t.2 as int)
}

/// Every bucket triple fits the cell packing.
pub open spec fn all_in_range(buckets: Seq<(isize, isize, isize)>) -> bool {
    forall|i: int| 0 <= i < buckets.len() ==> triple_in_range(#[trigger] buckets[i])
}

} // verus!
