use ball_pivoting::cell::encode_cell;
use ball_pivoting::edge::Edge;
use ball_pivoting::grid::{Grid, GridError};

fn grid_of(n: usize) -> Grid {
    let buckets: Vec<(isize, isize, isize)> = (0..n).map(|i| (i as isize % 2, 0, 0)).collect();
    match Grid::new(&buckets) {
        Ok(g) => g,
        Err(_) => panic!("buckets are in range"),
    }
}

#[test]
fn grid_codes_points_by_bucket() {
    let g = grid_of(5);
    assert_eq!(g.cell_codes, vec![0, 1, 0, 1, 0]);
    assert_eq!(g.get_cell_points(encode_cell(0, 0, 0)), vec![0, 2, 4]);
    assert_eq!(g.get_cell_points(encode_cell(1, 0, 0)), vec![1, 3]);
    assert_eq!(g.get_cell_points(encode_cell(2, 0, 0)), Vec::<usize>::new());
}

#[test]
fn grid_rejects_bucket_overflow() {
    let buckets = vec![(0, 0, 0), (0, 256, 0), (-1, 0, 0)];
    match Grid::new(&buckets) {
        Err(e) => assert_eq!(e, GridError::BucketOutOfRange { point: 1 }),
        Ok(_) => panic!("bucket 256 does not fit"),
    }
}

#[test]
fn edge_new_starts_unused() {
    let e = Edge::new(3, 4);
    assert_eq!((e.p1, e.p2, e.num_triangles_this_edge_in), (3, 4, 0));
}

#[test]
fn path_check_finds_common_neighbor() {
    let mut g = grid_of(4);
    g.add_edge(Edge { p1: 0, p2: 2, num_triangles_this_edge_in: 1 });
    g.add_edge(Edge { p1: 2, p2: 1, num_triangles_this_edge_in: 1 });
    assert!(g.is_there_a_path_between_two_points(0, 1, 3));
    assert!(!g.is_there_a_path_between_two_points(0, 1, 2));
}

#[test]
fn path_check_false_without_connectivity() {
    let mut g = grid_of(5);
    assert!(!g.is_there_a_path_between_two_points(0, 1, 2));
    g.add_edge(Edge { p1: 0, p2: 1, num_triangles_this_edge_in: 1 });
    assert!(!g.is_there_a_path_between_two_points(0, 1, 2));
    g.add_edge(Edge { p1: 3, p2: 4, num_triangles_this_edge_in: 1 });
    assert!(!g.is_there_a_path_between_two_points(0, 1, 2));
}

#[test]
fn find_and_remove_edges() {
    let mut g = grid_of(4);
    g.add_edge(Edge { p1: 0, p2: 1, num_triangles_this_edge_in: 1 });
    g.add_edge(Edge { p1: 2, p2: 3, num_triangles_this_edge_in: 2 });
    assert_eq!(g.find_edge(1, 0), Some(0));
    assert_eq!(g.find_edge(3, 2), Some(1));
    assert_eq!(g.find_edge(0, 2), None);
    g.remove_grid(Edge { p1: 0, p2: 1, num_triangles_this_edge_in: 1 });
    assert_eq!(g.edges, vec![Edge { p1: 2, p2: 3, num_triangles_this_edge_in: 2 }]);
}

#[test]
fn triangle_bumps_each_edge_once() {
    let mut g = grid_of(4);
    let t = g.add_triangle(2, 0, 1);
    assert_eq!(t, (0, 1, 2));
    assert_eq!(g.triangles, vec![(0, 1, 2)]);
    assert_eq!(g.edges.len(), 3);
    assert!(g.edges.iter().all(|e| e.num_triangles_this_edge_in == 1));
    // The shared edge (1, 2) goes to two; the new edges close triangles
    // already implied through point 0, so they start at two.
    g.add_triangle(1, 2, 3);
    let e12 = g.find_edge(1, 2).unwrap();
    assert_eq!(g.edges[e12].num_triangles_this_edge_in, 2);
    let e01 = g.find_edge(0, 1).unwrap();
    assert_eq!(g.edges[e01].num_triangles_this_edge_in, 1);
    assert_eq!(g.edges[g.find_edge(2, 3).unwrap()].num_triangles_this_edge_in, 2);
    assert_eq!(g.edges[g.find_edge(1, 3).unwrap()].num_triangles_this_edge_in, 2);
    assert!(g.edges.iter().all(|e| e.num_triangles_this_edge_in <= 2));
}

#[test]
fn triangle_on_fresh_points_starts_edges_at_one() {
    let mut g = grid_of(6);
    g.add_triangle(0, 1, 2);
    g.add_triangle(3, 4, 5);
    assert_eq!(g.edges.len(), 6);
    assert!(g.edges.iter().all(|e| e.num_triangles_this_edge_in == 1));
    assert_eq!(g.triangles, vec![(0, 1, 2), (3, 4, 5)]);
}
