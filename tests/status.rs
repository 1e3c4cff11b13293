use ball_pivoting::bpa::BPA;
use ball_pivoting::cell::{decode_cell, encode_cell, is_valid_code};
use ball_pivoting::grid::PointStatus;

fn setup(n: usize) -> BPA {
    let buckets = vec![(0isize, 0isize, 0isize); n];
    match BPA::new(&buckets, 1) {
        Ok(b) => b,
        Err(_) => panic!("one cell fits"),
    }
}

#[test]
fn round_trip_over_every_xy_plane_sample() {
    for z in [0isize, 1, 128, 255] {
        for y in 0..256isize {
            for x in 0..256isize {
                let c = encode_cell(x, y, z);
                assert!(is_valid_code(c));
                assert_eq!(decode_cell(c), (x, y, z));
            }
        }
    }
    assert!(!is_valid_code(-1));
    assert!(!is_valid_code(1 << 24));
}

#[test]
fn point_status_follows_edge_counters() {
    let mut bpa = setup(5);
    assert_eq!(bpa.grid.point_status(0), PointStatus::Untouched);
    bpa.grid.add_triangle(0, 1, 2);
    assert_eq!(bpa.grid.point_status(0), PointStatus::OnFront);
    assert_eq!(bpa.grid.point_status(4), PointStatus::Untouched);
    bpa.grid.add_triangle(1, 2, 3);
    // Point 3's edges closed implied triangles and start at two.
    assert_eq!(bpa.grid.point_status(3), PointStatus::Interior);
    assert_eq!(bpa.grid.point_status(1), PointStatus::OnFront);
}

#[test]
fn edge_incidence_reads_counters() {
    let mut bpa = setup(4);
    assert_eq!(bpa.grid.edge_incidence(0, 1), 0);
    bpa.grid.add_triangle(0, 1, 2);
    assert_eq!(bpa.grid.edge_incidence(1, 0), 1);
    bpa.grid.add_triangle(1, 2, 3);
    assert_eq!(bpa.grid.edge_incidence(2, 1), 2);
    assert_eq!(bpa.grid.edge_incidence(0, 3), 0);
}

#[test]
fn seed_candidate_rules() {
    let mut bpa = setup(6);
    assert!(bpa.seed_candidate_ok(0, 1, 2, true));
    assert!(!bpa.seed_candidate_ok(0, 1, 2, false));
    assert!(!bpa.seed_candidate_ok(0, 0, 2, true));
    bpa.grid.add_triangle(0, 1, 2);
    assert!(!bpa.seed_candidate_ok(0, 1, 3, true));
    assert!(!bpa.seed_candidate_ok(3, 2, 1, true));
    assert!(bpa.seed_candidate_ok(3, 4, 5, true));
}

#[test]
fn pivot_candidate_rules() {
    let mut bpa = setup(5);
    bpa.grid.add_triangle(0, 1, 2);
    assert!(bpa.pivot_candidate_ok(0, 1, 2, 3, true, false));
    assert!(!bpa.pivot_candidate_ok(0, 1, 2, 3, false, false));
    assert!(!bpa.pivot_candidate_ok(0, 1, 2, 3, true, true));
    assert!(!bpa.pivot_candidate_ok(0, 1, 2, 2, true, false));
    assert!(!bpa.pivot_candidate_ok(0, 1, 2, 0, true, false));
    bpa.grid.add_triangle(1, 2, 3);
    // Edge (1, 3) is now used twice: nothing more may pivot onto it.
    assert!(!bpa.pivot_candidate_ok(0, 1, 2, 3, true, false));
    assert!(bpa.pivot_candidate_ok(0, 1, 2, 4, true, false));
}
