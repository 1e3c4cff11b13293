//! Seed search and front expansion of the ball-pivoting algorithm.
//!
//! The geometry is handed in by the caller as three functions over point
//! indices: `span(a, b, q)` orders candidates (a key that grows with
//! `distance(a, q) + distance(b, q)`), `fits(a, b, c)` accepts a triangle for
//! the pivot ball (in-circle radius and angle bounds), and
//! `overlap(a, b, known, q)` tells whether the triangle `(a, b, q)` would fold
//! onto `(a, b, known)`. Each must give the same result on the same
//! arguments; the contracts then fix the whole run: the seed is the first one
//! found in the order described by `seed_chosen` and `start_rejected`, and
//! growth follows `grow_step` exactly.
use vstd::prelude::*;

use crate::cell::{is_neighbor_code, neighbor_cells};
use crate::grid::{
    edge_index, edges_bound, edges_grow, lemma_grow_refl, lemma_grow_trans, has_edge, incidence, lemma_incidence_at, lemma_incidence_everywhere, ordered, triple_in_range, with_triangle, Grid, GridError,
};
use crate::edge::Edge;
use crate::shortlist::{distinct_codes, pairs_ascending, sorted_pairs};

verus! {

/// Number of nearest points tried as the second vertex of a seed.
pub const SECOND_VERTEX_CANDIDATES: usize = 7;

/// Number of nearest points tried as the third vertex of a seed.
pub const THIRD_VERTEX_CANDIDATES: usize = 5;

/// Why no mesh could be started.
#[derive(Clone, Copy, PartialEq, Eq, Structural, Debug)]
pub enum SeedError {
    /// Every start point was tried and none gave an acceptable triangle: the
    /// radius or the point cloud has to change.
    NoSeed,
}

/// An edge on the growth front, with the vertex opposite to it in the one
/// triangle that uses it.
#[derive(Clone, Copy, PartialEq, Eq, Structural, Debug)]
pub struct FrontEdge {
    pub edge: usize,
    pub known: usize,
}

/// The reconstruction state: the grid with its mesh, and the growth front.
///
/// The front is a queue: `front[front_head..]` are the entries not yet
/// examined, in the order in which they joined. `num_workers` is advisory;
/// the growth is sequential.
pub struct BPA {
    pub grid: Grid,
    pub num_workers: usize,
    pub front: Vec<FrontEdge>,
    pub front_head: usize,
}

/// `f` can be called on every triple of point indices.
pub open spec fn total3<R, F: Fn(usize, usize, usize) -> R>(f: &F) -> bool {
    forall|a: usize, b: usize, c: usize| #[trigger] f.requires((a, b, c))
}

/// `f` can be called on every quadruple of point indices.
pub open spec fn total4<R, F: Fn(usize, usize, usize, usize) -> R>(f: &F) -> bool {
    forall|a: usize, b: usize, c: usize, d: usize| #[trigger] f.requires((a, b, c, d))
}

impl BPA {
    /// The grid is sound and every front entry names an existing edge and a
    /// point.
    pub open spec fn wf(&self) -> bool {
        &&& self.grid.wf()
        &&& self.front_head <= self.front.len()
        &&& forall|i: int| 0 <= i < self.front.len() ==> (#[trigger] self.front[i]).edge < self.grid.edges.len()
            && self.front[i].known < self.grid.num_points()
    }

    /// Sets up the grid over the bucketed points; nothing is meshed yet.
    pub fn new(buckets: &Vec<(isize, isize, isize)>, num_workers: usize) -> (r: Result<BPA, GridError>)
        ensures
            match r {
                Ok(b) => {
                    &&& b.wf()
                    &&& b.grid.cell_codes.len() == buckets.len()
                    &&& crate::grid::all_in_range(buckets@)
                    &&& forall|i: int| 0 <= i < buckets.len() ==> #[trigger] b.grid.cell_codes[i] == crate::cell::code_of(buckets[i].0 as int, buckets[i].1 as int, buckets[i].2 as int)
                    &&& b.grid.edges.len() == 0
                    &&& b.grid.triangles.len() == 0
                    &&& b.grid.closed()
                    &&& edges_bound(b.grid.edges@, b.grid.triangles@)
                    &&& b.front.len() == 0
                    &&& b.num_workers == num_workers
                },
                Err(GridError::BucketOutOfRange { point }) => {
                    &&& point < buckets.len()
                    &&& !triple_in_range(buckets[point as int])
                    &&& forall|i: int| 0 <= i < point ==> triple_in_range(#[trigger] buckets[i])
                },
            },
    {
        match Grid::new(buckets) {
            Ok(grid) => Ok(BPA { grid, num_workers, front: Vec::new(), front_head: 0 }),
            Err(e) => Err(e),
        }
    }
}

impl BPA {
    /// All points bucketed in the given cells, cell by cell.
    fn gather_points(&self, cells: &Vec<isize>) -> (r: Vec<usize>)
        requires
            self.grid.wf(),
            cells@.no_duplicates(),
        ensures
            r@.no_duplicates(),
            forall|i: int| 0 <= i < r.len() ==> #[trigger] r[i] < self.grid.num_points(),
            forall|q: usize|
                r@.contains(q) <==> (q < self.grid.num_points() && cells@.contains(self.grid.cell_codes[q as int])),
    {
        let mut r: Vec<usize> = Vec::new();
        let mut i: usize = 0;
        while i < cells.len()
            invariant
                self.grid.wf(),
                cells@.no_duplicates(),
                r@.no_duplicates(),
                i <= cells.len(),
                forall|k: int| 0 <= k < r.len() ==> #[trigger] r[k] < self.grid.num_points(),
                forall|q: usize|
                    r@.contains(q) <==> (q < self.grid.num_points() && cells@.take(i as int).contains(
                        self.grid.cell_codes[q as int],
                    )),
            decreases cells.len() - i,
        {
            let pts = self.grid.get_cell_points(cells[i]);
            let ghost r0 = r@;
            let mut j: usize = 0;
            while j < pts.len()
                invariant
                    j <= pts.len(),
                    forall|k: int| 0 <= k < pts.len() ==> #[trigger] pts[k] < self.grid.num_points(),
                    forall|k: int| 0 <= k < r.len() ==> #[trigger] r[k] < self.grid.num_points(),
                    r@ == r0 + pts@.take(j as int),
                decreases pts.len() - j,
            {
                r.push(pts[j]);
                proof {
                    assert(pts@.take(j + 1) =~= pts@.take(j as int).push(pts[j as int]));
                }
                j = j + 1;
            }
            proof {
                assert(pts@.take(pts.len() as int) =~= pts@);
                assert(cells@.take(i + 1) =~= cells@.take(i as int).push(cells[i as int]));
                assert forall|x: int, y: int| 0 <= x < r.len() && 0 <= y < r.len() && x != y implies r@[x] != r@[y] by {
                    if x >= r0.len() && y >= r0.len() {
                        assert(r@[x] == pts[x - r0.len()]);
                        assert(r@[y] == pts[y - r0.len()]);
                        if x < y {
                            assert(pts[x - r0.len()] < pts[y - r0.len()]);
                        } else {
                            assert(pts[y - r0.len()] < pts[x - r0.len()]);
                        }
                    } else if x < r0.len() && y < r0.len() {
                        assert(r@[x] == r0[x]);
                        assert(r@[y] == r0[y]);
                    } else {
                        let (o, nw) = if x < r0.len() { (x, y) } else { (y, x) };
                        let q = r0[o];
                        assert(r@[o] == q);
                        assert(r0.contains(q));
                        let code = self.grid.cell_codes[q as int];
                        assert(cells@.take(i as int).contains(code));
                        let m = choose|m: int| 0 <= m < i && #[trigger] cells@.take(i as int)[m] == code;
                        assert(cells[m] == code);
                        let p = pts[nw - r0.len()];
                        assert(r@[nw] == p);
                        assert(pts@.contains(p));
                        assert(self.grid.cell_codes[p as int] == cells[i as int]);
                        assert(cells[m] != cells[i as int]);
                    }
                }
                assert forall|q: usize|
                    #[trigger] r@.contains(q) <==> (q < self.grid.num_points() && cells@.take(i + 1).contains(
                        self.grid.cell_codes[q as int],
                    )) by {
                    if r@.contains(q) {
                        let k = choose|k: int| 0 <= k < r.len() && r[k] == q;
                        let code = self.grid.cell_codes[q as int];
                        if k < r0.len() {
                            assert(r0[k] == q);
                            assert(r0.contains(q));
                            assert(cells@.take(i as int).contains(code));
                            let m = choose|m: int| 0 <= m < i && #[trigger] cells@.take(i as int)[m] == code;
                            assert(cells@.take(i + 1)[m] == code);
                        } else {
                            assert(pts[k - r0.len()] == q);
                            assert(pts@.contains(q));
                            assert(cells@.take(i + 1)[i as int] == code);
                        }
                    }
                    if q < self.grid.num_points() && cells@.take(i + 1).contains(self.grid.cell_codes[q as int]) {
                        let code = self.grid.cell_codes[q as int];
                        let m = choose|m: int| 0 <= m < i + 1 && #[trigger] cells@.take(i + 1)[m] == code;
                        if m < i {
                            assert(cells@.take(i as int)[m] == code);
                        }
                        if cells@.take(i as int).contains(self.grid.cell_codes[q as int]) {
                            assert(r0.contains(q));
                            let k = choose|k: int| 0 <= k < r0.len() && r0[k] == q;
                            assert(r@[k] == q);
                        } else {
                            assert(self.grid.cell_codes[q as int] == cells[i as int]);
                            assert(pts@.contains(q));
                            let k = choose|k: int| 0 <= k < pts.len() && pts[k] == q;
                            assert(r@[r0.len() + k] == q);
                        }
                    }
                }
            }
            i = i + 1;
        }
        proof {
            assert(cells@.take(cells.len() as int) =~= cells@);
        }
        r
    }

    /// The distinct cells around `a` and around `b` together.
    fn joint_cells(&self, a: usize, b: usize) -> (r: Vec<isize>)
        requires
            self.grid.wf(),
            a < self.grid.num_points(),
            b < self.grid.num_points(),
        ensures
            r@.no_duplicates(),
            forall|c: isize|
                r@.contains(c) <==> (is_neighbor_code(self.grid.cell_codes[a as int] as int, c as int) || is_neighbor_code(
                    self.grid.cell_codes[b as int] as int,
                    c as int,
                )),
    {
        let mut cells = neighbor_cells(self.grid.cell_codes[a]);
        let ghost first = cells@;
        let other = neighbor_cells(self.grid.cell_codes[b]);
        let mut i: usize = 0;
        while i < other.len()
            invariant
                i <= other.len(),
                cells@ == first + other@.take(i as int),
            decreases other.len() - i,
        {
            cells.push(other[i]);
            proof {
                assert(other@.take(i + 1) =~= other@.take(i as int).push(other[i as int]));
            }
            i = i + 1;
        }
        proof {
            assert(other@.take(other.len() as int) =~= other@);
            assert forall|c: isize| #[trigger] cells@.contains(c) <==> (first.contains(c) || other@.contains(c)) by {
                if cells@.contains(c) {
                    let k = choose|k: int| 0 <= k < cells.len() && cells[k] == c;
                    if k < first.len() {
                        assert(first[k] == c);
                    } else {
                        assert(other[k - first.len()] == c);
                    }
                }
                if first.contains(c) {
                    let k = choose|k: int| 0 <= k < first.len() && first[k] == c;
                    assert(cells[k] == c);
                }
                if other@.contains(c) {
                    let k = choose|k: int| 0 <= k < other.len() && other[k] == c;
                    assert(cells[first.len() + k] == c);
                }
            }
        }
        distinct_codes(cells)
    }
}

/// Every call of `f` on the same arguments gives the same result.
pub open spec fn det3<R, F: Fn(usize, usize, usize) -> R>(f: &F) -> bool {
    forall|a: usize, b: usize, c: usize, r1: R, r2: R|
        #[trigger] f.ensures((a, b, c), r1) && #[trigger] f.ensures((a, b, c), r2) ==> r1 == r2
}

/// Every call of `f` on the same arguments gives the same result.
pub open spec fn det4<R, F: Fn(usize, usize, usize, usize) -> R>(f: &F) -> bool {
    forall|a: usize, b: usize, c: usize, d: usize, r1: R, r2: R|
        #[trigger] f.ensures((a, b, c, d), r1) && #[trigger] f.ensures((a, b, c, d), r2) ==> r1 == r2
}

/// The result of `f(a, b, c)`.
pub open spec fn result3<R, F: Fn(usize, usize, usize) -> R>(f: &F, a: usize, b: usize, c: usize) -> R {
    choose|r: R| f.ensures((a, b, c), r)
}

/// The result of `f(a, b, c, d)`.
pub open spec fn result4<R, F: Fn(usize, usize, usize, usize) -> R>(f: &F, a: usize, b: usize, c: usize, d: usize) -> R {
    choose|r: R| f.ensures((a, b, c, d), r)
}

proof fn lemma_result3<R, F: Fn(usize, usize, usize) -> R>(f: &F, a: usize, b: usize, c: usize, r: R)
    requires
        det3(f),
        f.ensures((a, b, c), r),
    ensures
        result3(f, a, b, c) == r,
{
    let x = result3(f, a, b, c);
    assert(f.ensures((a, b, c), x));
}

proof fn lemma_result4<R, F: Fn(usize, usize, usize, usize) -> R>(f: &F, a: usize, b: usize, c: usize, d: usize, r: R)
    requires
        det4(f),
        f.ensures((a, b, c, d), r),
    ensures
        result4(f, a, b, c, d) == r,
{
    let x = result4(f, a, b, c, d);
    assert(f.ensures((a, b, c, d), x));
}

/// Each point `q` of `pts` keyed by `span(a, b, q)`.
fn keyed<D: Fn(usize, usize, usize) -> u64>(pts: &Vec<usize>, a: usize, b: usize, span: &D) -> (r: Vec<(u64, usize)>)
    requires
        total3(span),
    ensures
        r.len() == pts.len(),
        pts@.no_duplicates() ==> r@.no_duplicates(),
        forall|i: int| 0 <= i < r.len() ==> #[trigger] r[i].1 == pts[i] && span.ensures((a, b, r[i].1), r[i].0),
        forall|i: int| 0 <= i < r.len() ==> pts@.contains(#[trigger] r[i].1),
{
    let mut r: Vec<(u64, usize)> = Vec::new();
    let mut i: usize = 0;
    while i < pts.len()
        invariant
            total3(span),
            i <= pts.len(),
            r.len() == i,
            forall|k: int| 0 <= k < r.len() ==> #[trigger] r[k].1 == pts[k] && span.ensures((a, b, r[k].1), r[k].0),
            forall|k: int| 0 <= k < r.len() ==> pts@.contains(#[trigger] r[k].1),
        decreases pts.len() - i,
    {
        let q = pts[i];
        let key = span(a, b, q);
        r.push((key, q));
        i = i + 1;
    }
    proof {
        if pts@.no_duplicates() {
            assert forall|x: int, y: int| 0 <= x < r.len() && 0 <= y < r.len() && x != y implies r@[x] != r@[y] by {
                assert(r[x].1 == pts[x] && r[y].1 == pts[y]);
            }
        }
    }
    r
}

/// `after` is `before` with the seed-style triangle `(a, b, c)` added: three
/// different points, accepted by `fits`, no two of them joined by an edge
/// beforehand.
pub open spec fn seed_added<F: Fn(usize, usize, usize) -> bool>(before: Grid, after: Grid, fits: &F, a: usize, b: usize, c: usize) -> bool {
    &&& a < before.num_points()
    &&& b < before.num_points()
    &&& c < before.num_points()
    &&& a != b && b != c && a != c
    &&& fits.ensures((a, b, c), true)
    &&& !has_edge(before.edges@, a as int, b as int)
    &&& !has_edge(before.edges@, b as int, c as int)
    &&& !has_edge(before.edges@, a as int, c as int)
    &&& after.cell_codes == before.cell_codes
    &&& after.edges@ == with_triangle(before.edges@, ordered(a, b, c))
    &&& after.cells == before.cells
    &&& after.triangles@ == before.triangles@.push(ordered(a, b, c))
}

/// `r` ranks the points of the joint block of `a` and `b`: it holds exactly
/// the pairs `(span(a, b, q), q)` of those points, each once, in ascending
/// order.
pub open spec fn ranks<D: Fn(usize, usize, usize) -> u64>(codes: Seq<isize>, span: &D, a: usize, b: usize, r: Seq<(u64, usize)>) -> bool {
    &&& pairs_ascending(r)
    &&& r.no_duplicates()
    &&& forall|x: (u64, usize)|
        #[trigger] r.contains(x) <==> (in_joint_block(codes, a, b, x.1) && x.0 == result3(span, a, b, x.1))
}

proof fn lemma_rank_step(r1: Seq<(u64, usize)>, r2: Seq<(u64, usize)>, i: int)
    requires
        pairs_ascending(r1),
        pairs_ascending(r2),
        r1.no_duplicates(),
        r2.no_duplicates(),
        forall|x: (u64, usize)| #[trigger] r1.contains(x) <==> r2.contains(x),
        0 <= i < r1.len(),
        forall|k: int| 0 <= k < i ==> r1[k] == r2[k],
    ensures
        i < r2.len(),
        r1[i] == r2[i],
{
    let x = r1[i];
    assert(r1.contains(x));
    assert(r2.contains(x));
    let j = choose|j: int| 0 <= j < r2.len() && r2[j] == x;
    if j < i {
        assert(r1[j] == x);
    }
    let y = r2[i];
    assert(r2.contains(y));
    assert(r1.contains(y));
    let m = choose|m: int| 0 <= m < r1.len() && r1[m] == y;
    if m < i {
        assert(r2[m] == y);
    }
    if j > i {
        assert(r2[i].0 < r2[j].0 || (r2[i].0 == r2[j].0 && r2[i].1 <= r2[j].1));
    }
    if m > i {
        assert(r1[i].0 < r1[m].0 || (r1[i].0 == r1[m].0 && r1[i].1 <= r1[m].1));
    }
}

proof fn lemma_rank_from(r1: Seq<(u64, usize)>, r2: Seq<(u64, usize)>, i: int)
    requires
        pairs_ascending(r1),
        pairs_ascending(r2),
        r1.no_duplicates(),
        r2.no_duplicates(),
        forall|x: (u64, usize)| #[trigger] r1.contains(x) <==> r2.contains(x),
        0 <= i <= r1.len(),
        forall|k: int| 0 <= k < i ==> r1[k] == r2[k],
    ensures
        r2.len() >= r1.len(),
        forall|k: int| 0 <= k < r1.len() ==> r1[k] == r2[k],
    decreases r1.len() - i,
{
    if i < r1.len() {
        lemma_rank_step(r1, r2, i);
        lemma_rank_from(r1, r2, i + 1);
    } else if i > 0 {
        lemma_rank_step(r1, r2, i - 1);
    }
}

/// A block has exactly one ranking: the search is determined by its inputs.
pub proof fn lemma_ranking_unique<D: Fn(usize, usize, usize) -> u64>(
    codes: Seq<isize>,
    span: &D,
    a: usize,
    b: usize,
    r1: Seq<(u64, usize)>,
    r2: Seq<(u64, usize)>,
)
    requires
        ranks(codes, span, a, b, r1),
        ranks(codes, span, a, b, r2),
    ensures
        r1 == r2,
{
    assert forall|x: (u64, usize)| #[trigger] r1.contains(x) <==> r2.contains(x) by {
        if r1.contains(x) {
            assert(r2.contains(x));
        }
    }
    lemma_rank_from(r1, r2, 0);
    assert forall|x: (u64, usize)| #[trigger] r2.contains(x) <==> r1.contains(x) by {}
    lemma_rank_from(r2, r1, 0);
    assert(r1 =~= r2);
}

/// `(p1, p2, p3)` may start the mesh over `edges`: three different points
/// that the ball fits, no two of them joined yet.
pub open spec fn seed_ok<F: Fn(usize, usize, usize) -> bool>(edges: Seq<Edge>, fits: &F, p1: usize, p2: usize, p3: usize) -> bool {
    &&& p1 != p2 && p2 != p3 && p1 != p3
    &&& result3(fits, p1, p2, p3)
    &&& !has_edge(edges, p1 as int, p2 as int)
    &&& !has_edge(edges, p2 as int, p3 as int)
    &&& !has_edge(edges, p1 as int, p3 as int)
}

/// No third vertex among the `THIRD_VERTEX_CANDIDATES` points of the joint
/// block of `p1` and `p2` nearest to both completes a seed.
pub open spec fn thirds_rejected<D, F>(codes: Seq<isize>, edges: Seq<Edge>, span: &D, fits: &F, p1: usize, p2: usize) -> bool where
    D: Fn(usize, usize, usize) -> u64,
    F: Fn(usize, usize, usize) -> bool,
 {
    exists|r: Seq<(u64, usize)>|
        #[trigger] ranks(codes, span, p1, p2, r) && forall|j: int|
            0 <= j < r.len() && j < THIRD_VERTEX_CANDIDATES ==> !seed_ok(edges, fits, p1, p2, #[trigger] r[j].1)
}

/// No seed starts at `p1`: for each second vertex among the
/// `SECOND_VERTEX_CANDIDATES` points of its block nearest to it (itself
/// excepted), no third vertex completes a seed.
pub open spec fn start_rejected<D, F>(codes: Seq<isize>, edges: Seq<Edge>, span: &D, fits: &F, p1: usize) -> bool where
    D: Fn(usize, usize, usize) -> u64,
    F: Fn(usize, usize, usize) -> bool,
 {
    exists|r: Seq<(u64, usize)>|
        #[trigger] ranks(codes, span, p1, p1, r) && forall|i: int|
            0 <= i < r.len() && i < SECOND_VERTEX_CANDIDATES && r[i].1 != p1 ==> thirds_rejected(
                codes,
                edges,
                span,
                fits,
                p1,
                #[trigger] r[i].1,
            )
}

/// The seed `(p1, p2, p3)` is the one the search takes from `p1`: `p2` is the
/// first second vertex in rank order with a completing third vertex among
/// its shortlist, and `p3` the first such third vertex.
pub open spec fn seed_chosen<D, F>(codes: Seq<isize>, edges: Seq<Edge>, span: &D, fits: &F, p1: usize, p2: usize, p3: usize) -> bool where
    D: Fn(usize, usize, usize) -> u64,
    F: Fn(usize, usize, usize) -> bool,
 {
    &&& seed_ok(edges, fits, p1, p2, p3)
    &&& exists|r1: Seq<(u64, usize)>, i: int|
        #![trigger ranks(codes, span, p1, p1, r1), r1[i]]
        ranks(codes, span, p1, p1, r1) && 0 <= i < r1.len() && i < SECOND_VERTEX_CANDIDATES && r1[i].1 == p2
            && forall|k: int|
            0 <= k < i && r1[k].1 != p1 ==> thirds_rejected(codes, edges, span, fits, p1, #[trigger] r1[k].1)
    &&& exists|r2: Seq<(u64, usize)>, j: int|
        #![trigger ranks(codes, span, p1, p2, r2), r2[j]]
        ranks(codes, span, p1, p2, r2) && 0 <= j < r2.len() && j < THIRD_VERTEX_CANDIDATES && r2[j].1 == p3
            && forall|k: int| 0 <= k < j ==> !seed_ok(edges, fits, p1, p2, #[trigger] r2[k].1)
}

proof fn lemma_next_start(x: int, n: int)
    requires
        n > 0,
        x >= 0,
    ensures
        0 <= x % n < n,
        (x + 1) % n == if x % n + 1 >= n { 0 } else { x % n + 1 },
{
    vstd::arithmetic::div_mod::lemma_fundamental_div_mod(x, n);
    vstd::arithmetic::div_mod::lemma_mod_bound(x, n);
    let q = x / n;
    let r = x % n;
    if r + 1 < n {
        assert(x + 1 == q * n + (r + 1)) by (nonlinear_arith)
            requires
                x == n * q + r,
        ;
        vstd::arithmetic::div_mod::lemma_fundamental_div_mod_converse(x + 1, n, q, r + 1);
    } else {
        assert(x + 1 == (q + 1) * n) by (nonlinear_arith)
            requires
                x == n * q + r,
                r + 1 == n,
        ;
        vstd::arithmetic::div_mod::lemma_fundamental_div_mod_converse(x + 1, n, q + 1, 0);
    }
}

/// A start point from which a seed is chosen is not rejected.
pub proof fn lemma_chosen_not_rejected<D, F>(codes: Seq<isize>, edges: Seq<Edge>, span: &D, fits: &F, a: usize, b: usize, c: usize) where
    D: Fn(usize, usize, usize) -> u64,
    F: Fn(usize, usize, usize) -> bool,

    requires
        seed_chosen(codes, edges, span, fits, a, b, c),
    ensures
        !start_rejected(codes, edges, span, fits, a),
{
    let (r1, i) = choose|r1: Seq<(u64, usize)>, i: int|
        #![trigger ranks(codes, span, a, a, r1), r1[i]]
        ranks(codes, span, a, a, r1) && 0 <= i < r1.len() && i < SECOND_VERTEX_CANDIDATES && r1[i].1 == b && forall|k: int|
            0 <= k < i && r1[k].1 != a ==> thirds_rejected(codes, edges, span, fits, a, #[trigger] r1[k].1);
    let (r2, j) = choose|r2: Seq<(u64, usize)>, j: int|
        #![trigger ranks(codes, span, a, b, r2), r2[j]]
        ranks(codes, span, a, b, r2) && 0 <= j < r2.len() && j < THIRD_VERTEX_CANDIDATES && r2[j].1 == c && forall|k: int|
            0 <= k < j ==> !seed_ok(edges, fits, a, b, #[trigger] r2[k].1);
    if start_rejected(codes, edges, span, fits, a) {
        let r = choose|r: Seq<(u64, usize)>|
            #[trigger] ranks(codes, span, a, a, r) && forall|k: int|
                0 <= k < r.len() && k < SECOND_VERTEX_CANDIDATES && r[k].1 != a ==> thirds_rejected(
                    codes,
                    edges,
                    span,
                    fits,
                    a,
                    #[trigger] r[k].1,
                );
        lemma_ranking_unique(codes, span, a, a, r, r1);
        assert(r[i].1 == b);
        assert(thirds_rejected(codes, edges, span, fits, a, b));
        let rr = choose|rr: Seq<(u64, usize)>|
            #[trigger] ranks(codes, span, a, b, rr) && forall|k: int|
                0 <= k < rr.len() && k < THIRD_VERTEX_CANDIDATES ==> !seed_ok(edges, fits, a, b, #[trigger] rr[k].1);
        lemma_ranking_unique(codes, span, a, b, rr, r2);
        assert(rr[j].1 == c);
    }
}

/// From a given start point the search chooses at most one seed.
pub proof fn lemma_seed_chosen_unique<D, F>(
    codes: Seq<isize>,
    edges: Seq<Edge>,
    span: &D,
    fits: &F,
    a: usize,
    b1: usize,
    c1: usize,
    b2: usize,
    c2: usize,
) where
    D: Fn(usize, usize, usize) -> u64,
    F: Fn(usize, usize, usize) -> bool,

    requires
        seed_chosen(codes, edges, span, fits, a, b1, c1),
        seed_chosen(codes, edges, span, fits, a, b2, c2),
    ensures
        b1 == b2,
        c1 == c2,
{
    let (r1, i1) = choose|r1: Seq<(u64, usize)>, i: int|
        #![trigger ranks(codes, span, a, a, r1), r1[i]]
        ranks(codes, span, a, a, r1) && 0 <= i < r1.len() && i < SECOND_VERTEX_CANDIDATES && r1[i].1 == b1 && forall|k: int|
            0 <= k < i && r1[k].1 != a ==> thirds_rejected(codes, edges, span, fits, a, #[trigger] r1[k].1);
    let (s1, i2) = choose|r1: Seq<(u64, usize)>, i: int|
        #![trigger ranks(codes, span, a, a, r1), r1[i]]
        ranks(codes, span, a, a, r1) && 0 <= i < r1.len() && i < SECOND_VERTEX_CANDIDATES && r1[i].1 == b2 && forall|k: int|
            0 <= k < i && r1[k].1 != a ==> thirds_rejected(codes, edges, span, fits, a, #[trigger] r1[k].1);
    lemma_ranking_unique(codes, span, a, a, r1, s1);
    let (r2, j1) = choose|r2: Seq<(u64, usize)>, j: int|
        #![trigger ranks(codes, span, a, b1, r2), r2[j]]
        ranks(codes, span, a, b1, r2) && 0 <= j < r2.len() && j < THIRD_VERTEX_CANDIDATES && r2[j].1 == c1 && forall|k: int|
            0 <= k < j ==> !seed_ok(edges, fits, a, b1, #[trigger] r2[k].1);
    let (s2, j2) = choose|r2: Seq<(u64, usize)>, j: int|
        #![trigger ranks(codes, span, a, b2, r2), r2[j]]
        ranks(codes, span, a, b2, r2) && 0 <= j < r2.len() && j < THIRD_VERTEX_CANDIDATES && r2[j].1 == c2 && forall|k: int|
            0 <= k < j ==> !seed_ok(edges, fits, a, b2, #[trigger] r2[k].1);
    if i1 < i2 {
        assert(thirds_rejected(codes, edges, span, fits, a, b1));
        let rr = choose|rr: Seq<(u64, usize)>|
            #[trigger] ranks(codes, span, a, b1, rr) && forall|k: int|
                0 <= k < rr.len() && k < THIRD_VERTEX_CANDIDATES ==> !seed_ok(edges, fits, a, b1, #[trigger] rr[k].1);
        lemma_ranking_unique(codes, span, a, b1, rr, r2);
        assert(rr[j1].1 == c1);
    } else if i2 < i1 {
        assert(thirds_rejected(codes, edges, span, fits, a, b2));
        let rr = choose|rr: Seq<(u64, usize)>|
            #[trigger] ranks(codes, span, a, b2, rr) && forall|k: int|
                0 <= k < rr.len() && k < THIRD_VERTEX_CANDIDATES ==> !seed_ok(edges, fits, a, b2, #[trigger] rr[k].1);
        lemma_ranking_unique(codes, span, a, b2, rr, s2);
        assert(rr[j2].1 == c2);
    } else {
        assert(b1 == b2);
        lemma_ranking_unique(codes, span, a, b1, r2, s2);
        if j1 < j2 {
            assert(!seed_ok(edges, fits, a, b2, s2[j1].1));
        } else if j2 < j1 {
            assert(!seed_ok(edges, fits, a, b1, r2[j2].1));
        }
    }
}

/// The seed search has one outcome: two seeds that each satisfy its contract
/// (a chosen seed at the first start point that is not rejected) are equal.
pub proof fn lemma_seed_search_determined<D, F>(
    codes: Seq<isize>,
    edges: Seq<Edge>,
    span: &D,
    fits: &F,
    first: int,
    n: int,
    k1: int,
    b1: usize,
    c1: usize,
    k2: int,
    b2: usize,
    c2: usize,
) where
    D: Fn(usize, usize, usize) -> u64,
    F: Fn(usize, usize, usize) -> bool,

    requires
        0 <= k1 < n,
        0 <= k2 < n,
        seed_chosen(codes, edges, span, fits, start_at(first, n, k1) as usize, b1, c1),
        seed_chosen(codes, edges, span, fits, start_at(first, n, k2) as usize, b2, c2),
        forall|m: int| 0 <= m < k1 ==> start_rejected(codes, edges, span, fits, #[trigger] start_at(first, n, m) as usize),
        forall|m: int| 0 <= m < k2 ==> start_rejected(codes, edges, span, fits, #[trigger] start_at(first, n, m) as usize),
    ensures
        k1 == k2,
        b1 == b2,
        c1 == c2,
{
    if k1 < k2 {
        lemma_chosen_not_rejected(codes, edges, span, fits, start_at(first, n, k1) as usize, b1, c1);
        assert(start_rejected(codes, edges, span, fits, start_at(first, n, k1) as usize));
    } else if k2 < k1 {
        lemma_chosen_not_rejected(codes, edges, span, fits, start_at(first, n, k2) as usize, b2, c2);
        assert(start_rejected(codes, edges, span, fits, start_at(first, n, k2) as usize));
    } else {
        lemma_seed_chosen_unique(codes, edges, span, fits, start_at(first, n, k1) as usize, b1, c1, b2, c2);
    }
}

/// The first start point: `first_point_index`, or 0 when that is past the
/// last of `n` points.
pub open spec fn first_start(first_point_index: int, n: int) -> int {
    if first_point_index >= n {
        0
    } else {
        first_point_index
    }
}

/// The start point tried at attempt `k` from `first` over `n` points.
pub open spec fn start_at(first: int, n: int, k: int) -> int {
    (first + k) % n
}

impl BPA {
    /// The pairs `(span(a, b, q), q)` of the points of the joint block of `a`
    /// and `b`, in ascending order.
    fn ranked<D: Fn(usize, usize, usize) -> u64>(&self, a: usize, b: usize, span: &D) -> (r: Vec<(u64, usize)>)
        requires
            self.grid.wf(),
            a < self.grid.num_points(),
            b < self.grid.num_points(),
            total3(span),
            det3(span),
        ensures
            ranks(self.grid.cell_codes@, span, a, b, r@),
            forall|i: int| 0 <= i < r.len() ==> #[trigger] r[i].1 < self.grid.num_points(),
    {
        let ghost codes = self.grid.cell_codes@;
        let cells = self.joint_cells(a, b);
        let pts = self.gather_points(&cells);
        let keys = keyed(&pts, a, b, span);
        let ghost kv = keys@;
        let s = sorted_pairs(keys);
        proof {
            s@.to_multiset_ensures();
            kv.to_multiset_ensures();
            assert forall|x: (u64, usize)| #[trigger] s@.contains(x) <==> kv.contains(x) by {
                assert(s@.to_multiset().count(x) == kv.to_multiset().count(x));
            }
            assert forall|x: (u64, usize)|
                #[trigger] s@.contains(x) <==> (in_joint_block(codes, a, b, x.1) && x.0 == result3(span, a, b, x.1)) by {
                if s@.contains(x) {
                    assert(kv.contains(x));
                    let i = choose|i: int| 0 <= i < kv.len() && kv[i] == x;
                    assert(kv[i].1 == pts[i]);
                    assert(pts@.contains(x.1));
                    lemma_result3(span, a, b, x.1, x.0);
                }
                if in_joint_block(codes, a, b, x.1) && x.0 == result3(span, a, b, x.1) {
                    assert(cells@.contains(codes[x.1 as int]));
                    assert(pts@.contains(x.1));
                    let i = choose|i: int| 0 <= i < pts.len() && pts[i] == x.1;
                    assert(kv[i].1 == x.1);
                    lemma_result3(span, a, b, x.1, kv[i].0);
                    assert(kv[i] == x);
                    assert(kv.contains(x));
                }
            }
            kv.lemma_multiset_has_no_duplicates();
            assert forall|x: (u64, usize)| s@.to_multiset().contains(x) implies s@.to_multiset().count(x) == 1 by {
                assert(s@.to_multiset().count(x) == kv.to_multiset().count(x));
            }
            s@.lemma_multiset_has_no_duplicates_conv();
            assert forall|i: int| 0 <= i < s.len() implies #[trigger] s[i].1 < self.grid.num_points() by {
                assert(s@.contains(s[i]));
            }
        }
        s
    }

    /// Seed search from the start point `p1`: the nearest points around `p1`
    /// are tried as second vertex, and for each the points nearest to both as
    /// third vertex; the first triangle that is new to the mesh and that
    /// `fits` accepts is added.
    fn try_seed_from<D, F>(&mut self, p1: usize, span: &D, fits: &F) -> (r: Option<(usize, usize, usize)>) where
        D: Fn(usize, usize, usize) -> u64,
        F: Fn(usize, usize, usize) -> bool,

        requires
            old(self).wf(),
            p1 < old(self).grid.num_points(),
            total3(span),
            total3(fits),
            det3(span),
            det3(fits),
        ensures
            edges_grow(old(self).grid.edges@, final(self).grid.edges@),
            edges_bound(old(self).grid.edges@, old(self).grid.triangles@) ==> edges_bound(final(self).grid.edges@, final(self).grid.triangles@),
            old(self).grid.closed() ==> final(self).grid.closed(),
            final(self).wf(),
            final(self).front == old(self).front,
            final(self).front_head == old(self).front_head,
            final(self).num_workers == old(self).num_workers,
            match r {
                Some(t) => {
                    &&& t.0 == p1
                    &&& seed_added(old(self).grid, final(self).grid, fits, t.0, t.1, t.2)
                    &&& seed_chosen(old(self).grid.cell_codes@, old(self).grid.edges@, span, fits, t.0, t.1, t.2)
                },
                None => {
                    &&& final(self).grid == old(self).grid
                    &&& start_rejected(old(self).grid.cell_codes@, old(self).grid.edges@, span, fits, p1)
                },
            },
    {
        let n = self.grid.cell_codes.len();
        let ghost codes = self.grid.cell_codes@;
        let ghost es = self.grid.edges@;
        let near = self.ranked(p1, p1, span);
        let lim1: usize = if near.len() < SECOND_VERTEX_CANDIDATES { near.len() } else { SECOND_VERTEX_CANDIDATES };
        let mut i: usize = 0;
        while i < lim1
            invariant
                self.wf(),
                self.grid == old(self).grid,
                self.front == old(self).front,
                self.front_head == old(self).front_head,
                self.num_workers == old(self).num_workers,
                n == self.grid.num_points(),
                codes == self.grid.cell_codes@,
                es == self.grid.edges@,
                p1 < n,
                total3(span),
                total3(fits),
                det3(span),
                det3(fits),
                lim1 <= near.len(),
                lim1 <= SECOND_VERTEX_CANDIDATES,
                lim1 == near.len() || lim1 == SECOND_VERTEX_CANDIDATES,
                ranks(codes, span, p1, p1, near@),
                forall|k: int| 0 <= k < near.len() ==> #[trigger] near[k].1 < n,
                forall|k: int|
                    0 <= k < i && near[k].1 != p1 ==> thirds_rejected(codes, es, span, fits, p1, #[trigger] near@[k].1),
            decreases lim1 - i,
        {
            let p2 = near[i].1;
            if p2 == p1 {
                i = i + 1;
                continue;
            }
            let third = self.ranked(p1, p2, span);
            let lim2: usize = if third.len() < THIRD_VERTEX_CANDIDATES { third.len() } else { THIRD_VERTEX_CANDIDATES };
            let mut j: usize = 0;
            while j < lim2
                invariant
                    self.wf(),
                    self.grid == old(self).grid,
                    self.front == old(self).front,
                    self.front_head == old(self).front_head,
                    self.num_workers == old(self).num_workers,
                    n == self.grid.num_points(),
                    codes == self.grid.cell_codes@,
                    es == self.grid.edges@,
                    p1 < n,
                    p2 < n,
                    p1 != p2,
                    p2 == near[i as int].1,
                    i < lim1,
                    total3(span),
                    total3(fits),
                    det3(span),
                    det3(fits),
                    lim1 <= near.len(),
                    lim1 <= SECOND_VERTEX_CANDIDATES,
                    lim2 <= third.len(),
                    lim2 <= THIRD_VERTEX_CANDIDATES,
                    lim2 == third.len() || lim2 == THIRD_VERTEX_CANDIDATES,
                    ranks(codes, span, p1, p1, near@),
                    ranks(codes, span, p1, p2, third@),
                    forall|k: int| 0 <= k < third.len() ==> #[trigger] third[k].1 < n,
                    forall|k: int|
                        0 <= k < i && near[k].1 != p1 ==> thirds_rejected(codes, es, span, fits, p1, #[trigger] near@[k].1),
                    forall|k: int| 0 <= k < j ==> !seed_ok(es, fits, p1, p2, #[trigger] third@[k].1),
                decreases lim2 - j,
            {
                let p3 = third[j].1;
                let ball_fits = fits(p1, p2, p3);
                let ok = self.seed_candidate_ok(p1, p2, p3, ball_fits);
                proof {
                    lemma_result3(fits, p1, p2, p3, ball_fits);
                }
                if ok {
                    proof {
                        assert(seed_chosen(codes, es, span, fits, p1, p2, p3)) by {
                            assert(ranks(codes, span, p1, p1, near@) && 0 <= i < near@.len() && i < SECOND_VERTEX_CANDIDATES && near@[i as int].1 == p2);
                            assert(ranks(codes, span, p1, p2, third@) && 0 <= j < third@.len() && j < THIRD_VERTEX_CANDIDATES && third@[j as int].1 == p3);
                        }
                    }
                    let ghost before = self.grid;
                    self.grid.add_triangle(p1, p2, p3);
                    proof {
                        assert forall|k: int| 0 <= k < self.front.len() implies (#[trigger] self.front[k]).edge < self.grid.edges.len()
                            && self.front[k].known < self.grid.num_points() by {
                            assert(before.edges.len() <= self.grid.edges.len());
                        }
                    }
                    return Some((p1, p2, p3));
                }
                j = j + 1;
            }
            proof {
                assert(thirds_rejected(codes, es, span, fits, p1, p2)) by {
                    assert(ranks(codes, span, p1, p2, third@));
                }
            }
            i = i + 1;
        }
        proof {
            lemma_grow_refl(es);
            assert(start_rejected(codes, es, span, fits, p1)) by {
                assert(ranks(codes, span, p1, p1, near@));
            }
        }
        None
    }

    /// Finds a first triangle to grow the mesh from, trying the start points
    /// in cyclic order from `first_point_index` (from 0 when that is past the
    /// last point), each at most once. Returns the triangle, first vertex
    /// being the start point, and that start point.
    pub fn find_seed_triangle<D, F>(&mut self, first_point_index: usize, span: &D, fits: &F) -> (r: Result<((usize, usize, usize), usize), SeedError>) where
        D: Fn(usize, usize, usize) -> u64,
        F: Fn(usize, usize, usize) -> bool,

        requires
            old(self).wf(),
            total3(span),
            total3(fits),
            det3(span),
            det3(fits),
        ensures
            edges_grow(old(self).grid.edges@, final(self).grid.edges@),
            edges_bound(old(self).grid.edges@, old(self).grid.triangles@) ==> edges_bound(final(self).grid.edges@, final(self).grid.triangles@),
            old(self).grid.closed() ==> final(self).grid.closed(),
            final(self).wf(),
            final(self).front == old(self).front,
            final(self).front_head == old(self).front_head,
            final(self).num_workers == old(self).num_workers,
            match r {
                Ok((t, start)) => {
                    let n = old(self).grid.num_points();
                    let first = first_start(first_point_index as int, n);
                    &&& start < n
                    &&& t.0 == start
                    &&& seed_added(old(self).grid, final(self).grid, fits, t.0, t.1, t.2)
                    &&& seed_chosen(old(self).grid.cell_codes@, old(self).grid.edges@, span, fits, t.0, t.1, t.2)
                    &&& exists|k: int|
                        0 <= k < n && start == start_at(first, n, k) && forall|m: int|
                            0 <= m < k ==> start_rejected(
                                old(self).grid.cell_codes@,
                                old(self).grid.edges@,
                                span,
                                fits,
                                #[trigger] start_at(first, n, m) as usize,
                            )
                },
                Err(SeedError::NoSeed) => {
                    &&& final(self).grid == old(self).grid
                    &&& forall|p: usize|
                        p < old(self).grid.num_points() ==> #[trigger] start_rejected(
                            old(self).grid.cell_codes@,
                            old(self).grid.edges@,
                            span,
                            fits,
                            p,
                        )
                },
            },
    {
        let n = self.grid.cell_codes.len();
        proof {
            lemma_grow_refl(self.grid.edges@);
        }
        if n == 0 {
            return Err(SeedError::NoSeed);
        }
        let ghost codes = self.grid.cell_codes@;
        let ghost es = self.grid.edges@;
        let first: usize = if first_point_index >= n { 0 } else { first_point_index };
        let mut start: usize = first;
        let mut attempts: usize = 0;
        proof {
            vstd::arithmetic::div_mod::lemma_fundamental_div_mod_converse(first as int, n as int, 0, first as int);
        }
        while attempts < n
            invariant
                self.wf(),
                self.grid == old(self).grid,
                self.front == old(self).front,
                self.front_head == old(self).front_head,
                self.num_workers == old(self).num_workers,
                n == self.grid.num_points(),
                codes == self.grid.cell_codes@,
                es == self.grid.edges@,
                first < n,
                first == first_start(first_point_index as int, n as int),
                attempts <= n,
                start == start_at(first as int, n as int, attempts as int),
                total3(span),
                total3(fits),
                det3(span),
                det3(fits),
                forall|m: int| 0 <= m < attempts ==> start_rejected(codes, es, span, fits, #[trigger] start_at(first as int, n as int, m) as usize),
            decreases n - attempts,
        {
            proof {
                vstd::arithmetic::div_mod::lemma_mod_bound(first + attempts, n as int);
            }
            match self.try_seed_from(start, span, fits) {
                Some(t) => {
                    proof {
                        let k = attempts as int;
                        assert(0 <= k < n && start == start_at(first as int, n as int, k) && forall|m: int|
                            0 <= m < k ==> start_rejected(codes, es, span, fits, #[trigger] start_at(first as int, n as int, m) as usize));
                    }
                    return Ok((t, start));
                },
                None => {},
            }
            proof {
                lemma_next_start(first + attempts, n as int);
            }
            start = if start + 1 >= n { 0 } else { start + 1 };
            attempts = attempts + 1;
        }
        proof {
            assert forall|p: usize| p < n implies #[trigger] start_rejected(codes, es, span, fits, p) by {
                if p >= first {
                    vstd::arithmetic::div_mod::lemma_fundamental_div_mod_converse(first + (p - first), n as int, 0, p as int);
                    assert(start_at(first as int, n as int, p - first) == p);
                } else {
                    vstd::arithmetic::div_mod::lemma_fundamental_div_mod_converse(first + (p + n - first), n as int, 1, p as int);
                    assert(start_at(first as int, n as int, p + n - first) == p);
                }
            }
        }
        Err(SeedError::NoSeed)
    }
}

impl BPA {
    /// The vertex of `triangle` that is neither `p1` nor `p2`: the last such one
    /// in the order `(.0, .1, .2)` when there are several, none when there is none.
    pub fn get_third_point_of_triangle(triangle: (usize, usize, usize), p1: usize, p2: usize) -> (r: Option<usize>)
        ensures
            r == if triangle.2 != p1 && triangle.2 != p2 {
                Some(triangle.2)
            } else if triangle.1 != p1 && triangle.1 != p2 {
                Some(triangle.1)
            } else if triangle.0 != p1 && triangle.0 != p2 {
                Some(triangle.0)
            } else {
                None::<usize>
            },
    {
        let mut rp: Option<usize> = None;
        if triangle.0 != p1 && triangle.0 != p2 {
            rp = Some(triangle.0);
        }
        if triangle.1 != p1 && triangle.1 != p2 {
            rp = Some(triangle.1);
        }
        if triangle.2 != p1 && triangle.2 != p2 {
            rp = Some(triangle.2);
        }
        rp
    }

    /// Whether `(p1, p2, p3)` may start the mesh, given whether the pivot ball
    /// fits it (`fits`): three different points, no two of them joined by an
    /// edge yet, and the ball fits.
    pub fn seed_candidate_ok(&self, p1: usize, p2: usize, p3: usize, fits: bool) -> (r: bool)
        requires
            self.grid.wf(),
        ensures
            r == (p1 != p2 && p2 != p3 && p1 != p3 && fits && !has_edge(self.grid.edges@, p1 as int, p2 as int)
                && !has_edge(self.grid.edges@, p2 as int, p3 as int) && !has_edge(
                self.grid.edges@,
                p1 as int,
                p3 as int,
            )),
    {
        if p1 == p2 || p2 == p3 || p1 == p3 || !fits {
            return false;
        }
        self.grid.find_edge(p1, p3).is_none() && self.grid.find_edge(p1, p2).is_none() && self.grid.find_edge(
            p2,
            p3,
        ).is_none()
    }

    /// Whether pivoting over the front edge `(p1, p2)`, whose triangle has
    /// `known` as third vertex, may reach `q`, given whether the ball fits
    /// `(p1, p2, q)` and whether that triangle folds onto the known one: `q`
    /// is a new point, the ball fits, there is no fold, and neither edge from
    /// `q` to the front edge is already used by two triangles.
    pub fn pivot_candidate_ok(&self, p1: usize, p2: usize, known: usize, q: usize, fits: bool, folds: bool) -> (r: bool)
        requires
            self.grid.wf(),
        ensures
            r == (q != p1 && q != p2 && q != known && fits && !folds && incidence(self.grid.edges@, p1 as int, q as int)
                < 2 && incidence(self.grid.edges@, p2 as int, q as int) < 2),
    {
        if q == p1 || q == p2 || q == known || !fits || folds {
            return false;
        }
        self.grid.edge_incidence(p1, q) < 2 && self.grid.edge_incidence(p2, q) < 2
    }
}

/// The part of the reconstruction state that growth changes.
pub struct MeshState {
    pub edges: Seq<Edge>,
    pub triangles: Seq<(usize, usize, usize)>,
    pub front: Seq<FrontEdge>,
    pub head: int,
}

/// `q` lies in the 27-cell block of `a` or of `b`.
pub open spec fn in_joint_block(codes: Seq<isize>, a: usize, b: usize, q: usize) -> bool {
    &&& q < codes.len()
    &&& (is_neighbor_code(codes[a as int] as int, codes[q as int] as int) || is_neighbor_code(
        codes[b as int] as int,
        codes[q as int] as int,
    ))
}

/// The pair `(k1, q1)` comes before `(k2, q2)`: by key, then by point index.
pub open spec fn pair_before(k1: u64, q1: usize, k2: u64, q2: usize) -> bool {
    k1 < k2 || (k1 == k2 && q1 < q2)
}

/// Pivoting over `(p1, p2)`, whose triangle has `known` as third vertex, may
/// reach `q`: a new point of the joint block that the ball fits, with no fold,
/// and whose two edges to the front edge are used by fewer than two triangles.
pub open spec fn pivot_passes<F, O>(codes: Seq<isize>, edges: Seq<Edge>, fits: &F, overlap: &O, p1: usize, p2: usize, known: usize, q: usize) -> bool where
    F: Fn(usize, usize, usize) -> bool,
    O: Fn(usize, usize, usize, usize) -> bool,
 {
    &&& in_joint_block(codes, p1, p2, q)
    &&& q != p1 && q != p2 && q != known
    &&& result3(fits, p1, p2, q)
    &&& !result4(overlap, p1, p2, known, q)
    &&& incidence(edges, p1 as int, q as int) < 2
    &&& incidence(edges, p2 as int, q as int) < 2
}

/// `q` passes, and no point that comes before it in key order passes.
pub open spec fn first_pivot<D, F, O>(codes: Seq<isize>, edges: Seq<Edge>, span: &D, fits: &F, overlap: &O, p1: usize, p2: usize, known: usize, q: usize) -> bool where
    D: Fn(usize, usize, usize) -> u64,
    F: Fn(usize, usize, usize) -> bool,
    O: Fn(usize, usize, usize, usize) -> bool,
 {
    &&& pivot_passes(codes, edges, fits, overlap, p1, p2, known, q)
    &&& forall|x: usize|
        pair_before(result3(span, p1, p2, x), x, result3(span, p1, p2, q), q) ==> !#[trigger] pivot_passes(
            codes,
            edges,
            fits,
            overlap,
            p1,
            p2,
            known,
            x,
        )
}

/// The front with the edge joining `u` and `v` appended (opposite vertex
/// `known`) when exactly one triangle uses it.
pub open spec fn with_boundary(edges: Seq<Edge>, front: Seq<FrontEdge>, u: usize, v: usize, known: usize) -> Seq<FrontEdge> {
    if has_edge(edges, u as int, v as int) && incidence(edges, u as int, v as int) == 1 {
        front.push(FrontEdge { edge: edge_index(edges, u as int, v as int) as usize, known })
    } else {
        front
    }
}

/// One iteration of growth: the next front entry is taken; if its edge is
/// still used by one triangle and some candidate passes, the first one in key
/// order gets its triangle, and the new edges used once join the front.
pub open spec fn grow_step<D, F, O>(codes: Seq<isize>, m: MeshState, span: &D, fits: &F, overlap: &O) -> MeshState where
    D: Fn(usize, usize, usize) -> u64,
    F: Fn(usize, usize, usize) -> bool,
    O: Fn(usize, usize, usize, usize) -> bool,
 {
    if m.head < 0 || m.head >= m.front.len() {
        m
    } else {
        let fe = m.front[m.head];
        let e = m.edges[fe.edge as int];
        let passed = MeshState { head: m.head + 1, ..m };
        if e.num_triangles_this_edge_in != 1 {
            passed
        } else if exists|q: usize| first_pivot(codes, m.edges, span, fits, overlap, e.p1, e.p2, fe.known, q) {
            let q = choose|q: usize| first_pivot(codes, m.edges, span, fits, overlap, e.p1, e.p2, fe.known, q);
            let t = ordered(e.p1, e.p2, q);
            let edges = with_triangle(m.edges, t);
            MeshState {
                edges,
                triangles: m.triangles.push(t),
                front: with_boundary(edges, with_boundary(edges, m.front, e.p1, q, e.p2), e.p2, q, e.p1),
                head: m.head + 1,
            }
        } else {
            passed
        }
    }
}

/// `n` iterations of growth.
pub open spec fn grow<D, F, O>(codes: Seq<isize>, m: MeshState, n: nat, span: &D, fits: &F, overlap: &O) -> MeshState where
    D: Fn(usize, usize, usize) -> u64,
    F: Fn(usize, usize, usize) -> bool,
    O: Fn(usize, usize, usize, usize) -> bool,

    decreases n,
{
    if n == 0 {
        m
    } else {
        grow_step(codes, grow(codes, m, (n - 1) as nat, span, fits, overlap), span, fits, overlap)
    }
}

/// The state right after the seed `(a, b, c)` is added and its edges used
/// once are put on the front.
pub open spec fn seeded(m: MeshState, a: usize, b: usize, c: usize) -> MeshState {
    let edges = with_triangle(m.edges, ordered(a, b, c));
    MeshState {
        edges,
        triangles: m.triangles.push(ordered(a, b, c)),
        front: with_boundary(edges, with_boundary(edges, with_boundary(edges, m.front, a, b, c), b, c, a), a, c, b),
        head: m.head,
    }
}

proof fn lemma_first_pivot_unique<D, F, O>(codes: Seq<isize>, edges: Seq<Edge>, span: &D, fits: &F, overlap: &O, p1: usize, p2: usize, known: usize, q1: usize, q2: usize) where
    D: Fn(usize, usize, usize) -> u64,
    F: Fn(usize, usize, usize) -> bool,
    O: Fn(usize, usize, usize, usize) -> bool,

    requires
        first_pivot(codes, edges, span, fits, overlap, p1, p2, known, q1),
        first_pivot(codes, edges, span, fits, overlap, p1, p2, known, q2),
    ensures
        q1 == q2,
{
    let k1 = result3(span, p1, p2, q1);
    let k2 = result3(span, p1, p2, q2);
    if q1 != q2 {
        if pair_before(k1, q1, k2, q2) {
            assert(!pivot_passes(codes, edges, fits, overlap, p1, p2, known, q1));
        } else {
            assert(pair_before(k2, q2, k1, q1));
            assert(!pivot_passes(codes, edges, fits, overlap, p1, p2, known, q2));
        }
    }
}

impl BPA {
    /// The part of the state that growth changes.
    pub open spec fn state(&self) -> MeshState {
        MeshState {
            edges: self.grid.edges@,
            triangles: self.grid.triangles@,
            front: self.front@,
            head: self.front_head as int,
        }
    }

    /// Puts the edge joining `u` and `v` on the front, with `known` as its
    /// opposite vertex, when it is used by exactly one triangle.
    fn push_if_boundary(&mut self, u: usize, v: usize, known: usize)
        requires
            old(self).wf(),
            known < old(self).grid.num_points(),
        ensures
            final(self).wf(),
            final(self).grid == old(self).grid,
            final(self).front_head == old(self).front_head,
            final(self).num_workers == old(self).num_workers,
            final(self).front@ == with_boundary(old(self).grid.edges@, old(self).front@, u, v, known),
    {
        match self.grid.find_edge(u, v) {
            Some(k) => {
                proof {
                    lemma_incidence_at(self.grid.edges@, self.grid.num_points(), k as int, u as int, v as int);
                }
                if self.grid.edges[k].num_triangles_this_edge_in == 1 {
                    self.front.push(FrontEdge { edge: k, known });
                }
            },
            None => {},
        }
    }

    /// Tries the candidates around the front edge `(p1, p2)`, whose triangle
    /// has `known` as third vertex, in key order, and adds the triangle
    /// `(p1, p2, q)` for the first `q` that passes; its new edges used once
    /// join the front.
    fn pivot<D, F, O>(&mut self, p1: usize, p2: usize, known: usize, edge: usize, span: &D, fits: &F, overlap: &O) -> (r: Option<usize>) where
        D: Fn(usize, usize, usize) -> u64,
        F: Fn(usize, usize, usize) -> bool,
        O: Fn(usize, usize, usize, usize) -> bool,

        requires
            old(self).wf(),
            edge < old(self).grid.edges.len(),
            old(self).grid.edges[edge as int].p1 == p1,
            old(self).grid.edges[edge as int].p2 == p2,
            old(self).grid.edges[edge as int].num_triangles_this_edge_in == 1,
            known < old(self).grid.num_points(),
            total3(span),
            total3(fits),
            total4(overlap),
            det3(span),
            det3(fits),
            det4(overlap),
        ensures
            edges_grow(old(self).grid.edges@, final(self).grid.edges@),
            edges_bound(old(self).grid.edges@, old(self).grid.triangles@) ==> edges_bound(final(self).grid.edges@, final(self).grid.triangles@),
            old(self).grid.closed() ==> final(self).grid.closed(),
            final(self).wf(),
            final(self).front_head == old(self).front_head,
            final(self).num_workers == old(self).num_workers,
            final(self).grid.cell_codes == old(self).grid.cell_codes,
            final(self).grid.cells == old(self).grid.cells,
            match r {
                Some(q) => {
                    &&& first_pivot(old(self).grid.cell_codes@, old(self).grid.edges@, span, fits, overlap, p1, p2, known, q)
                    &&& final(self).grid.edges@ == with_triangle(old(self).grid.edges@, ordered(p1, p2, q))
                    &&& final(self).grid.triangles@ == old(self).grid.triangles@.push(ordered(p1, p2, q))
                    &&& final(self).front@ == with_boundary(
                        final(self).grid.edges@,
                        with_boundary(final(self).grid.edges@, old(self).front@, p1, q, p2),
                        p2,
                        q,
                        p1,
                    )
                },
                None => {
                    &&& !exists|q: usize| first_pivot(old(self).grid.cell_codes@, old(self).grid.edges@, span, fits, overlap, p1, p2, known, q)
                    &&& final(self).grid == old(self).grid
                    &&& final(self).front == old(self).front
                },
            },
    {
        let n = self.grid.cell_codes.len();
        let ghost codes = self.grid.cell_codes@;
        let ghost es = self.grid.edges@;
        let cells = self.joint_cells(p1, p2);
        let pts = self.gather_points(&cells);
        let keys = keyed(&pts, p1, p2, span);
        let ghost kv = keys@;
        let s = sorted_pairs(keys);
        proof {
            s@.to_multiset_ensures();
            kv.to_multiset_ensures();
            assert forall|x: (u64, usize)| #[trigger] s@.contains(x) <==> kv.contains(x) by {
                assert(s@.to_multiset().count(x) == kv.to_multiset().count(x));
            }
        }
        let mut j: usize = 0;
        while j < s.len()
            invariant
                self.wf(),
                self.grid == old(self).grid,
                self.front == old(self).front,
                self.front_head == old(self).front_head,
                self.num_workers == old(self).num_workers,
                n == self.grid.num_points(),
                codes == self.grid.cell_codes@,
                es == self.grid.edges@,
                edge < self.grid.edges.len(),
                self.grid.edges[edge as int].p1 == p1,
                self.grid.edges[edge as int].p2 == p2,
                self.grid.edges[edge as int].num_triangles_this_edge_in == 1,
                known < n,
                total3(span),
                total3(fits),
                total4(overlap),
                det3(span),
                det3(fits),
                det4(overlap),
                kv.len() == pts.len(),
                forall|i: int| 0 <= i < kv.len() ==> #[trigger] kv[i].1 == pts[i] && span.ensures((p1, p2, kv[i].1), kv[i].0),
                forall|i: int| 0 <= i < pts.len() ==> #[trigger] pts[i] < n,
                forall|q: usize| pts@.contains(q) <==> (q < n && cells@.contains(codes[q as int])),
                forall|c: isize|
                    cells@.contains(c) <==> (is_neighbor_code(codes[p1 as int] as int, c as int) || is_neighbor_code(
                        codes[p2 as int] as int,
                        c as int,
                    )),
                forall|x: (u64, usize)| #[trigger] s@.contains(x) <==> kv.contains(x),
                pairs_ascending(s@),
                forall|jj: int| 0 <= jj < j ==> !pivot_passes(codes, es, fits, overlap, p1, p2, known, #[trigger] s[jj].1),
            decreases s.len() - j,
        {
            let q = s[j].1;
            proof {
                assert(s@.contains(s[j as int]));
                assert(kv.contains(s[j as int]));
                let i = choose|i: int| 0 <= i < kv.len() && kv[i] == s[j as int];
                assert(kv[i].1 == pts[i]);
                assert(pts@.contains(q));
                lemma_result3(span, p1, p2, q, s[j as int].0);
            }
            let ball_fits = fits(p1, p2, q);
            let folds = overlap(p1, p2, known, q);
            let ok = self.pivot_candidate_ok(p1, p2, known, q, ball_fits, folds);
            proof {
                lemma_result3(fits, p1, p2, q, ball_fits);
                lemma_result4(overlap, p1, p2, known, q, folds);
                assert(ok == pivot_passes(codes, es, fits, overlap, p1, p2, known, q));
            }
            if ok {
                proof {
                    assert forall|x: usize|
                        pair_before(result3(span, p1, p2, x), x, result3(span, p1, p2, q), q) implies !#[trigger] pivot_passes(
                            codes,
                            es,
                            fits,
                            overlap,
                            p1,
                            p2,
                            known,
                            x,
                        ) by {
                        if pivot_passes(codes, es, fits, overlap, p1, p2, known, x) {
                            assert(cells@.contains(codes[x as int]));
                            assert(pts@.contains(x));
                            let i = choose|i: int| 0 <= i < pts.len() && pts[i] == x;
                            assert(kv[i].1 == x);
                            lemma_result3(span, p1, p2, x, kv[i].0);
                            assert(kv.contains(kv[i]));
                            assert(s@.contains(kv[i]));
                            let jj = choose|jj: int| 0 <= jj < s.len() && s[jj] == kv[i];
                            if jj > j {
                                assert(s[j as int].0 < s[jj].0 || (s[j as int].0 == s[jj].0 && s[j as int].1 <= s[jj].1));
                            }
                        }
                    }
                    lemma_incidence_everywhere(es, n as int, p2 as int, q as int);
                    lemma_incidence_everywhere(es, n as int, p1 as int, q as int);
                    assert forall|i: int|
                        0 <= i < es.len() && (#[trigger] es[i].joins(p1 as int, p2 as int) || es[i].joins(p2 as int, q as int)
                            || es[i].joins(p1 as int, q as int)) implies es[i].num_triangles_this_edge_in < 2 by {
                        if es[i].joins(p1 as int, p2 as int) && i != edge {
                            assert(!es[i].joins(es[edge as int].p1 as int, es[edge as int].p2 as int));
                        }
                    }
                    assert(self.grid.edges[edge as int].p1 != self.grid.edges[edge as int].p2);
                }
                let ghost before = self.grid;
                let t = self.grid.add_triangle(p1, p2, q);
                proof {
                    assert forall|k: int| 0 <= k < self.front.len() implies (#[trigger] self.front[k]).edge < self.grid.edges.len()
                        && self.front[k].known < self.grid.num_points() by {
                        assert(before.edges.len() <= self.grid.edges.len());
                    }
                }
                self.push_if_boundary(p1, q, p2);
                self.push_if_boundary(p2, q, p1);
                return Some(q);
            }
            j = j + 1;
        }
        proof {
            lemma_grow_refl(es);
            assert forall|q: usize| !first_pivot(codes, es, span, fits, overlap, p1, p2, known, q) by {
                if pivot_passes(codes, es, fits, overlap, p1, p2, known, q) {
                    assert(cells@.contains(codes[q as int]));
                    assert(pts@.contains(q));
                    let i = choose|i: int| 0 <= i < pts.len() && pts[i] == q;
                    assert(kv.contains(kv[i]));
                    assert(s@.contains(kv[i]));
                    let jj = choose|jj: int| 0 <= jj < s.len() && s[jj] == kv[i];
                    assert(s[jj].1 == q);
                }
            }
        }
        None
    }

    /// Grows the mesh from its front, one front entry per iteration, in the
    /// order in which entries joined, until the front is exhausted or `limit`
    /// iterations have run (see `grow_step`). Returns the number of triangles
    /// added.
    pub fn expand_front<D, F, O>(&mut self, limit: usize, span: &D, fits: &F, overlap: &O) -> (r: usize) where
        D: Fn(usize, usize, usize) -> u64,
        F: Fn(usize, usize, usize) -> bool,
        O: Fn(usize, usize, usize, usize) -> bool,

        requires
            old(self).wf(),
            total3(span),
            total3(fits),
            total4(overlap),
            det3(span),
            det3(fits),
            det4(overlap),
        ensures
            edges_grow(old(self).grid.edges@, final(self).grid.edges@),
            edges_bound(old(self).grid.edges@, old(self).grid.triangles@) ==> edges_bound(final(self).grid.edges@, final(self).grid.triangles@),
            old(self).grid.closed() ==> final(self).grid.closed(),
            final(self).wf(),
            final(self).num_workers == old(self).num_workers,
            final(self).grid.cell_codes == old(self).grid.cell_codes,
            final(self).grid.cells == old(self).grid.cells,
            old(self).front_head <= final(self).front_head <= old(self).front_head + limit,
            final(self).state() == grow(
                old(self).grid.cell_codes@,
                old(self).state(),
                (final(self).front_head - old(self).front_head) as nat,
                span,
                fits,
                overlap,
            ),
            final(self).front_head == final(self).front.len() || final(self).front_head == old(self).front_head + limit,
            final(self).grid.triangles.len() == old(self).grid.triangles.len() + r,
            r <= limit,
    {
        let ghost codes = self.grid.cell_codes@;
        proof {
            lemma_grow_refl(self.grid.edges@);
        }
        let mut added: usize = 0;
        let mut iterations: usize = 0;
        while self.front_head < self.front.len() && iterations < limit
            invariant
                self.wf(),
                old(self).grid.closed() ==> self.grid.closed(),
                self.num_workers == old(self).num_workers,
                self.grid.cell_codes == old(self).grid.cell_codes,
                self.grid.cells == old(self).grid.cells,
                codes == old(self).grid.cell_codes@,
                self.grid.triangles.len() == old(self).grid.triangles.len() + added,
                added <= iterations,
                iterations <= limit,
                self.front_head == old(self).front_head + iterations,
                edges_grow(old(self).grid.edges@, self.grid.edges@),
                edges_bound(old(self).grid.edges@, old(self).grid.triangles@) ==> edges_bound(self.grid.edges@, self.grid.triangles@),
                self.state() == grow(codes, old(self).state(), iterations as nat, span, fits, overlap),
                total3(span),
                total3(fits),
                total4(overlap),
                det3(span),
                det3(fits),
                det4(overlap),
            decreases limit - iterations,
        {
            let ghost m = self.state();
            let fe = self.front[self.front_head];
            self.front_head = self.front_head + 1;
            iterations = iterations + 1;
            let e = self.grid.edges[fe.edge];
            proof {
                assert(m.front[m.head] == fe);
            }
            if e.num_triangles_this_edge_in != 1 {
                proof {
                    assert(self.state() == grow_step(codes, m, span, fits, overlap));
                }
                continue;
            }
            let ghost eb = self.grid.edges@;
            match self.pivot(e.p1, e.p2, fe.known, fe.edge, span, fits, overlap) {
                Some(q) => {
                    added = added + 1;
                    proof {
                        let q2 = choose|q2: usize| first_pivot(codes, m.edges, span, fits, overlap, e.p1, e.p2, fe.known, q2);
                        lemma_grow_trans(old(self).grid.edges@, eb, self.grid.edges@);
                        lemma_first_pivot_unique(codes, m.edges, span, fits, overlap, e.p1, e.p2, fe.known, q, q2);
                        assert(self.state() == grow_step(codes, m, span, fits, overlap));
                    }
                },
                None => {
                    proof {
                        assert(self.state() == grow_step(codes, m, span, fits, overlap));
                    }
                },
            }
        }
        added
    }

    /// Finds a seed triangle from `first_point_index` on, puts its edges used
    /// once on the front and grows the mesh, running at most
    /// `limit_iterations` front iterations (no limit below `usize::MAX` when
    /// none is given). Returns the number of triangles added, seed included.
    pub fn create_mesh<D, F, O>(&mut self, limit_iterations: Option<usize>, first_point_index: usize, span: &D, fits: &F, overlap: &O) -> (r: Result<usize, SeedError>) where
        D: Fn(usize, usize, usize) -> u64,
        F: Fn(usize, usize, usize) -> bool,
        O: Fn(usize, usize, usize, usize) -> bool,

        requires
            old(self).wf(),
            total3(span),
            total3(fits),
            total4(overlap),
            det3(span),
            det3(fits),
            det4(overlap),
        ensures
            edges_grow(old(self).grid.edges@, final(self).grid.edges@),
            edges_bound(old(self).grid.edges@, old(self).grid.triangles@) ==> edges_bound(final(self).grid.edges@, final(self).grid.triangles@),
            old(self).grid.closed() ==> final(self).grid.closed(),
            final(self).wf(),
            final(self).grid.cell_codes == old(self).grid.cell_codes,
            final(self).grid.cells == old(self).grid.cells,
            forall|i: int| 0 <= i < final(self).grid.edges.len() ==> (#[trigger] final(self).grid.edges[i]).num_triangles_this_edge_in <= 2,
            match r {
                Ok(count) => {
                    let limit = match limit_iterations { Some(l) => l as int, None => usize::MAX as int };
                    &&& 1 <= count <= limit + 1
                    &&& final(self).grid.triangles.len() == old(self).grid.triangles.len() + count
                    &&& old(self).front_head <= final(self).front_head <= old(self).front_head + limit
                    &&& (final(self).front_head == final(self).front.len() || final(self).front_head == old(self).front_head + limit)
                    &&& exists|a: usize, b: usize, c: usize, k: int|
                        #![trigger seeded(old(self).state(), a, b, c), start_at(first_start(first_point_index as int, old(self).grid.num_points()), old(self).grid.num_points(), k)]
                        seed_chosen(old(self).grid.cell_codes@, old(self).grid.edges@, span, fits, a, b, c)
                        && 0 <= k < old(self).grid.num_points()
                        && a == start_at(first_start(first_point_index as int, old(self).grid.num_points()), old(self).grid.num_points(), k)
                        && (forall|m: int| 0 <= m < k ==> start_rejected(
                            old(self).grid.cell_codes@,
                            old(self).grid.edges@,
                            span,
                            fits,
                            #[trigger] start_at(first_start(first_point_index as int, old(self).grid.num_points()), old(self).grid.num_points(), m) as usize,
                        ))
                        && final(self).state() == grow(
                            old(self).grid.cell_codes@,
                            seeded(old(self).state(), a, b, c),
                            (final(self).front_head - old(self).front_head) as nat,
                            span,
                            fits,
                            overlap,
                        )
                },
                Err(SeedError::NoSeed) => {
                    &&& final(self).grid == old(self).grid
                    &&& final(self).front == old(self).front
                    &&& forall|p: usize|
                        p < old(self).grid.num_points() ==> #[trigger] start_rejected(
                            old(self).grid.cell_codes@,
                            old(self).grid.edges@,
                            span,
                            fits,
                            p,
                        )
                },
            },
    {
        let limit = match limit_iterations {
            Some(l) => l,
            None => usize::MAX,
        };
        let ghost e0 = self.grid.edges@;
        let ghost m0 = self.state();
        match self.find_seed_triangle(first_point_index, span, fits) {
            Ok((t, _start)) => {
                let (a, b, c) = t;
                self.push_if_boundary(a, b, c);
                self.push_if_boundary(b, c, a);
                self.push_if_boundary(a, c, b);
                proof {
                    assert(self.state() == seeded(m0, a, b, c));
                }
                let ghost e1 = self.grid.edges@;
                let more = self.expand_front(limit, span, fits, overlap);
                proof {
                    lemma_grow_trans(e0, e1, self.grid.edges@);
                }
                Ok(more + 1)
            },
            Err(e) => Err(e),
        }
    }
}

} // verus!
