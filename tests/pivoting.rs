use ball_pivoting::bpa::{SeedError, BPA};
use ball_pivoting::grid::PointStatus;
use ball_pivoting::shortlist::distinct_codes;

type P = [f64; 3];

fn dist(a: P, b: P) -> f64 {
    ((a[0] - b[0]).powi(2) + (a[1] - b[1]).powi(2) + (a[2] - b[2]).powi(2)).sqrt()
}

fn incircle(a: P, b: P, c: P) -> f64 {
    let (x, y, z) = (dist(a, b), dist(b, c), dist(a, c));
    let s = (x + y + z) / 2.0;
    ((s - x) * (s - y) * (s - z) / s).sqrt()
}

fn sub(a: P, b: P) -> P {
    [a[0] - b[0], a[1] - b[1], a[2] - b[2]]
}

fn dot(a: P, b: P) -> f64 {
    a[0] * b[0] + a[1] * b[1] + a[2] * b[2]
}

fn cross(a: P, b: P) -> P {
    [a[1] * b[2] - a[2] * b[1], a[2] * b[0] - a[0] * b[2], a[0] * b[1] - a[1] * b[0]]
}

fn angle(at: P, u: P, v: P) -> f64 {
    let (a, b) = (sub(u, at), sub(v, at));
    (dot(a, b) / (dot(a, a).sqrt() * dot(b, b).sqrt())).acos().to_degrees()
}

fn angles(a: P, b: P, c: P) -> (f64, f64) {
    let t = [angle(a, b, c), angle(b, a, c), angle(c, a, b)];
    (t.iter().cloned().fold(f64::MAX, f64::min), t.iter().cloned().fold(f64::MIN, f64::max))
}

fn overlap(p1: P, p2: P, p3: P, p4: P) -> bool {
    let v1 = sub(p3, p1);
    let v2 = sub(p2, p1);
    let plane = cross(v2, cross(v1, v2));
    dot(plane, v1).signum() == dot(plane, sub(p4, p1)).signum()
}

fn square() -> Vec<P> {
    vec![[0.0, 0.0, 0.0], [1.0, 0.0, 0.0], [0.0, 1.0, 0.0], [1.0, 1.0, 0.0]]
}

fn setup(n: usize) -> BPA {
    let buckets = vec![(0isize, 0isize, 0isize); n];
    match BPA::new(&buckets, 1) {
        Ok(b) => b,
        Err(_) => panic!("one cell fits"),
    }
}

#[test]
fn seed_on_unit_square_has_proper_angles() {
    let pts = square();
    let radius = 0.2;
    let mut bpa = setup(4);
    let span = |a: usize, b: usize, q: usize| (dist(pts[a], pts[q]) + dist(pts[b], pts[q])).to_bits();
    let fits = |a: usize, b: usize, c: usize| {
        let (lo, hi) = angles(pts[a], pts[b], pts[c]);
        radius <= incircle(pts[a], pts[b], pts[c]) && lo >= 20.0 && hi <= 170.0
    };
    let (t, start) = bpa.find_seed_triangle(0, &span, &fits).unwrap();
    assert_eq!(start, 0);
    assert_eq!(t, (0, 1, 2));
    let (lo, hi) = angles(pts[t.0], pts[t.1], pts[t.2]);
    assert!(lo > 20.0 && hi < 170.0);
    assert_eq!(bpa.grid.triangles, vec![(0, 1, 2)]);
    assert!(bpa.grid.edges.iter().all(|e| e.num_triangles_this_edge_in == 1));
}

#[test]
fn seed_fails_when_ball_never_fits() {
    let pts = square();
    let mut bpa = setup(4);
    let span = |a: usize, b: usize, q: usize| (dist(pts[a], pts[q]) + dist(pts[b], pts[q])).to_bits();
    let fits = |a: usize, b: usize, c: usize| 5.0 <= incircle(pts[a], pts[b], pts[c]);
    assert_eq!(bpa.find_seed_triangle(2, &span, &fits), Err(SeedError::NoSeed));
    assert!(bpa.grid.triangles.is_empty());
    assert!(bpa.grid.edges.is_empty());
}

#[test]
fn seed_start_index_wraps() {
    let pts = square();
    let mut bpa = setup(4);
    let span = |a: usize, b: usize, q: usize| (dist(pts[a], pts[q]) + dist(pts[b], pts[q])).to_bits();
    let fits = |a: usize, b: usize, c: usize| 0.2 <= incircle(pts[a], pts[b], pts[c]);
    let (t, start) = bpa.find_seed_triangle(9, &span, &fits).unwrap();
    assert_eq!(start, 0);
    assert_eq!(t.0, 0);
}

#[test]
fn golden_mesh_of_unit_square() {
    let pts = square();
    let radius = 0.2;
    let mut bpa = setup(4);
    let span = |a: usize, b: usize, q: usize| (dist(pts[a], pts[q]) + dist(pts[b], pts[q])).to_bits();
    let fits = |a: usize, b: usize, c: usize| {
        let (lo, hi) = angles(pts[a], pts[b], pts[c]);
        radius <= incircle(pts[a], pts[b], pts[c]) && lo >= 20.0 && hi <= 170.0
    };
    let folds = |a: usize, b: usize, k: usize, q: usize| overlap(pts[a], pts[b], pts[k], pts[q]);
    assert_eq!(bpa.create_mesh(None, 0, &span, &fits, &folds), Ok(2));
    assert_eq!(bpa.grid.triangles, vec![(0, 1, 2), (1, 2, 3)]);
    let counts: Vec<(usize, usize, usize)> =
        bpa.grid.edges.iter().map(|e| (e.p1, e.p2, e.num_triangles_this_edge_in)).collect();
    assert_eq!(counts, vec![(0, 1, 1), (1, 2, 2), (0, 2, 1), (2, 3, 2), (1, 3, 2)]);
    for p in 0..4 {
        assert_ne!(bpa.grid.point_status(p), PointStatus::Untouched);
    }
    assert_eq!(bpa.grid.point_status(3), PointStatus::Interior);
}

#[test]
fn iteration_ceiling_stops_growth() {
    let pts = square();
    let mut bpa = setup(4);
    let span = |a: usize, b: usize, q: usize| (dist(pts[a], pts[q]) + dist(pts[b], pts[q])).to_bits();
    let fits = |a: usize, b: usize, c: usize| 0.2 <= incircle(pts[a], pts[b], pts[c]);
    let folds = |a: usize, b: usize, k: usize, q: usize| overlap(pts[a], pts[b], pts[k], pts[q]);
    assert_eq!(bpa.create_mesh(Some(0), 0, &span, &fits, &folds), Ok(1));
    assert_eq!(bpa.grid.triangles, vec![(0, 1, 2)]);
    assert_eq!(bpa.front.len(), 3);
}

#[test]
fn third_point_is_the_other_vertex() {
    assert_eq!(BPA::get_third_point_of_triangle((4, 7, 9), 4, 9), Some(7));
    assert_eq!(BPA::get_third_point_of_triangle((4, 7, 9), 7, 9), Some(4));
    assert_eq!(BPA::get_third_point_of_triangle((4, 7, 9), 1, 2), Some(9));
    assert_eq!(BPA::get_third_point_of_triangle((4, 4, 4), 4, 2), None);
}

#[test]
fn distinct_codes_keep_first_occurrence() {
    assert_eq!(distinct_codes(vec![4, 2, 4, 7, 2, 1]), vec![4, 2, 7, 1]);
}

#[test]
fn seed_takes_nearest_candidates_first() {
    let pts: Vec<P> = vec![[0.0, 0.0, 0.0], [3.0, 0.0, 0.0], [0.0, 3.0, 0.0], [1.0, 0.6, 0.0]];
    let radius = 0.1;
    let mut bpa = setup(4);
    let span = |a: usize, b: usize, q: usize| (dist(pts[a], pts[q]) + dist(pts[b], pts[q])).to_bits();
    let fits = |a: usize, b: usize, c: usize| {
        let (lo, hi) = angles(pts[a], pts[b], pts[c]);
        radius <= incircle(pts[a], pts[b], pts[c]) && lo >= 20.0 && hi <= 170.0
    };
    // Point 3 is nearest to point 0; (0, 3, 1) is a sliver, so (0, 3, 2) is taken.
    let (t, start) = bpa.find_seed_triangle(0, &span, &fits).unwrap();
    assert_eq!(start, 0);
    assert_eq!(t, (0, 3, 2));
    assert_eq!(bpa.grid.triangles, vec![(0, 2, 3)]);
}
