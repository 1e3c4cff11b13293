use ball_pivoting::cell::{checked_encode_cell, decode_cell, encode_cell, neighbor_cells};

#[test]
fn encode_packs_eight_bits_per_axis() {
    assert_eq!(encode_cell(3, 4, 5), 3 + 4 * 256 + 5 * 65536);
    assert_eq!(encode_cell(0, 0, 0), 0);
    assert_eq!(encode_cell(255, 255, 255), 16777215);
}

#[test]
fn decode_inverts_encode() {
    for &(x, y, z) in &[(0, 0, 0), (1, 2, 3), (255, 0, 7), (0, 255, 255), (255, 255, 255)] {
        assert_eq!(decode_cell(encode_cell(x, y, z)), (x, y, z));
    }
}

#[test]
fn decode_of_negative_code_follows_bit_layout() {
    assert_eq!(decode_cell(-1), (255, 255, -1));
}

#[test]
fn checked_encode_rejects_out_of_range_buckets() {
    assert_eq!(checked_encode_cell(256, 0, 0), None);
    assert_eq!(checked_encode_cell(0, -1, 0), None);
    assert_eq!(checked_encode_cell(0, 0, 300), None);
    assert_eq!(checked_encode_cell(1, 2, 3), Some(encode_cell(1, 2, 3)));
}

#[test]
fn neighbors_of_interior_cell_are_all_27() {
    let code = encode_cell(5, 5, 5);
    let n = neighbor_cells(code);
    assert_eq!(n.len(), 27);
    assert!(n.contains(&code));
    assert!(n.contains(&encode_cell(4, 6, 5)));
    assert!(!n.contains(&encode_cell(7, 5, 5)));
    for w in n.windows(2) {
        assert!(w[0] < w[1]);
    }
}

#[test]
fn neighbors_at_origin_corner_skip_negative_buckets() {
    let n = neighbor_cells(encode_cell(0, 0, 0));
    assert_eq!(n.len(), 8);
    for c in n {
        let (x, y, z) = decode_cell(c);
        assert!(x >= 0 && y >= 0 && z >= 0);
        assert!(x <= 1 && y <= 1 && z <= 1);
    }
}

#[test]
fn neighbors_at_far_corner_stay_in_range() {
    let n = neighbor_cells(encode_cell(255, 255, 255));
    assert_eq!(n.len(), 8);
    for c in n {
        let (x, y, z) = decode_cell(c);
        assert!(x >= 254 && y >= 254 && z >= 254);
        assert!(x <= 255 && y <= 255 && z <= 255);
    }
}
