//! Packing of three per-axis bucket indices into one signed cell code.
use vstd::prelude::*;

verus! {

/// Number of buckets along each axis (eight bits per axis): indices run from
/// 0 to `AXIS_BUCKETS - 1`.
pub const AXIS_BUCKETS: isize = 256;

/// Largest cell code plus one.
pub const CODE_LIMIT: isize = 16777216;

/// A per-axis bucket index that fits the packing.
pub open spec fn bucket_in_range(i: int) -> bool {
    0 <= i < AXIS_BUCKETS
}

/// The code of the cell with bucket indices `(x, y, z)`.
pub open spec fn code_of(x: int, y: int, z: int) -> int {
    x + 256 * y + 65536 * z
}

/// A code that some in-range bucket triple packs to.
pub open spec fn valid_code(c: int) -> bool {
    0 <= c < CODE_LIMIT
}

/// The bucket indices packed in a valid code.
pub open spec fn x_of(c: int) -> int {
    c % 256
}

pub open spec fn y_of(c: int) -> int {
    (c / 256) % 256
}

pub open spec fn z_of(c: int) -> int {
    c / 65536
}

/// `d` is one of the (at most 27) valid codes whose bucket indices differ
/// from those of `c` by at most one on each axis (`c` itself included).
pub open spec fn is_neighbor_code(c: int, d: int) -> bool {
    &&& valid_code(d)
    &&& -1 <= x_of(d) - x_of(c) <= 1
    &&& -1 <= y_of(d) - y_of(c) <= 1
    &&& -1 <= z_of(d) - z_of(c) <= 1
}

proof fn lemma_decode_of_code(x: int, y: int, z: int)
    requires
        bucket_in_range(x),
        bucket_in_range(y),
        bucket_in_range(z),
    ensures
        valid_code(code_of(x, y, z)),
        x_of(code_of(x, y, z)) == x,
        y_of(code_of(x, y, z)) == y,
        z_of(code_of(x, y, z)) == z,
{
    let c = code_of(x, y, z);
    assert(c == x + 256 * (y + 256 * z)) by (nonlinear_arith)
        requires
            c == x + 256 * y + 65536 * z,
    ;
    assert(c / 256 == y + 256 * z && c % 256 == x) by (nonlinear_arith)
        requires
            c == x + 256 * (y + 256 * z),
            0 <= x < 256,
            0 <= y + 256 * z,
    ;
    assert(c / 65536 == z) by (nonlinear_arith)
        requires
            c == (x + 256 * y) + 65536 * z,
            0 <= x + 256 * y < 65536,
    ;
    assert((y + 256 * z) % 256 == y) by (nonlinear_arith)
        requires
            0 <= y < 256,
            0 <= z,
    ;
    assert(c < CODE_LIMIT) by (nonlinear_arith)
        requires
            c == (x + 256 * y) + 65536 * z,
            0 <= x + 256 * y < 65536,
            0 <= z < 256,
    ;
}

proof fn lemma_code_of_decode(c: int)
    requires
        valid_code(c),
    ensures
        bucket_in_range(x_of(c)),
        bucket_in_range(y_of(c)),
        bucket_in_range(z_of(c)),
        code_of(x_of(c), y_of(c), z_of(c)) == c,
{
    let q = c / 256;
    assert(c == 256 * q + c % 256 && 0 <= c % 256 < 256);
    assert(q == 256 * (q / 256) + q % 256 && 0 <= q % 256 < 256);
    assert(q / 256 == c / 65536) by {
        vstd::arithmetic::div_mod::lemma_div_denominator(c, 256, 256);
    }
    assert(c / 65536 < 256) by {
        vstd::arithmetic::div_mod::lemma_div_is_ordered(c, CODE_LIMIT - 1, 65536);
    }
    assert(0 <= q / 256) by {
        vstd::arithmetic::div_mod::lemma_div_pos_is_pos(q, 256);
    }
}

/// Decoding the code of an in-range bucket triple gives the triple back.
pub proof fn lemma_encode_decode(x: isize, y: isize, z: isize)
    requires
        bucket_in_range(x as int),
        bucket_in_range(y as int),
        bucket_in_range(z as int),
    ensures
        decoded(code_of(x as int, y as int, z as int)) == (x as int, y as int, z as int),
{
    lemma_decode_of_code(x as int, y as int, z as int);
}

/// Encoding the decoded indices of a valid code gives the code back.
pub proof fn lemma_decode_encode(c: isize)
    requires
        valid_code(c as int),
    ensures
        bucket_in_range(x_of(c as int)),
        bucket_in_range(y_of(c as int)),
        bucket_in_range(z_of(c as int)),
        code_of(x_of(c as int), y_of(c as int), z_of(c as int)) == c,
{
    lemma_code_of_decode(c as int);
}

/// The bucket triple of a valid code.
pub open spec fn decoded(c: int) -> (int, int, int) {
    (x_of(c), y_of(c), z_of(c))
}

/// Packs three in-range bucket indices into one code, eight bits per axis.
pub fn encode_cell(x: isize, y: isize, z: isize) -> (r: isize)
    requires
        bucket_in_range(x as int),
        bucket_in_range(y as int),
        bucket_in_range(z as int),
    ensures
        r == code_of(x as int, y as int, z as int),
        valid_code(r as int),
        decoded(r as int) == (x as int, y as int, z as int),
{
    proof {
        lemma_decode_of_code(x as int, y as int, z as int);
    }
    x + y * 256 + z * 65536
}

/// Packs three bucket indices, or reports that one of them does not fit.
pub fn checked_encode_cell(x: isize, y: isize, z: isize) -> (r: Option<isize>)
    ensures
        r is Some <==> (bucket_in_range(x as int) && bucket_in_range(y as int) && bucket_in_range(
            z as int,
        )),
        r matches Some(c) ==> c == code_of(x as int, y as int, z as int),
{
    if 0 <= x && x < AXIS_BUCKETS && 0 <= y && y < AXIS_BUCKETS && 0 <= z && z < AXIS_BUCKETS {
        Some(encode_cell(x, y, z))
    } else {
        None
    }
}

/// Whether `code` is one that some in-range bucket triple packs to.
pub fn is_valid_code(code: isize) -> (r: bool)
    ensures
        r == valid_code(code as int),
{
    0 <= code && code < CODE_LIMIT
}

/// Unpacks a code into its three bucket indices: the low eight bits, the next
/// eight bits, and the rest shifted down by sixteen.
pub fn decode_cell(code: isize) -> (r: (isize, isize, isize))
    ensures
        r.0 == code & 255,
        r.1 == (code & 65280) >> 8,
        r.2 == code >> 16,
        0 <= code ==> (r.0 as int, r.1 as int, r.2 as int) == decoded(code as int),
{
    let x = code & 255;
    let y = (code & 65280) >> 8;
    let z = code >> 16;
    proof {
        if 0 <= code {
            assert(code & 255 == code % 256) by (bit_vector)
                requires
                    0 <= code,
            ;
            assert((code & 65280) >> 8 == (code / 256) % 256) by (bit_vector)
                requires
                    0 <= code,
            ;
            assert(code >> 16 == code / 65536) by (bit_vector)
                requires
                    0 <= code,
            ;
        }
    }
    (x, y, z)
}

/// Offsets of a neighbor code from the code it surrounds.
proof fn lemma_neighbor_offset(c: int, d: int)
    requires
        valid_code(c),
        valid_code(d),
    ensures
        d - c == (x_of(d) - x_of(c)) + 256 * (y_of(d) - y_of(c)) + 65536 * (z_of(d) - z_of(c)),
{
    lemma_code_of_decode(c);
    lemma_code_of_decode(d);
}

/// The codes of the 3 x 3 x 3 block of cells around `code` (the cell itself
/// included), leaving out every cell whose bucket index on some axis would fall
/// outside the packing, in increasing order.
#[verifier::rlimit(40)]
pub fn neighbor_cells(code: isize) -> (r: Vec<isize>)
    requires
        valid_code(code as int),
    ensures
        r.len() <= 27,
        forall|d: isize| r@.contains(d) <==> is_neighbor_code(code as int, d as int),
        forall|i: int, j: int| 0 <= i < j < r.len() ==> r[i] < r[j],
        forall|i: int| 0 <= i < r.len() ==> is_neighbor_code(code as int, #[trigger] r[i] as int),
        forall|i: int|
            0 <= i < r.len() ==> 0 <= x_of(#[trigger] r[i] as int) && 0 <= y_of(r[i] as int) && 0 <= z_of(
                r[i] as int,
            ),
{
    let (x, y, z) = decode_cell(code);
    proof {
        lemma_code_of_decode(code as int);
    }
    let mut r: Vec<isize> = Vec::new();
    let mut dx: isize = -1;
    let mut dy: isize = -1;
    let mut dz: isize = -1;
    let mut k: usize = 0;
    while k < 27
        invariant
            valid_code(code as int),
            (x as int, y as int, z as int) == decoded(code as int),
            -1 <= dx <= 1,
            -1 <= dy <= 1,
            -1 <= dz <= 2,
            k == (dz + 1) * 9 + (dy + 1) * 3 + (dx + 1),
            k <= 27,
            r.len() <= k,
            forall|d: isize|
                r@.contains(d) <==> (is_neighbor_code(code as int, d as int) && d < code + dx
                    + 256 * dy + 65536 * dz),
            forall|i: int| 0 <= i < r.len() ==> r[i] < code + dx + 256 * dy + 65536 * dz,
            forall|i: int| 0 <= i < r.len() ==> is_neighbor_code(code as int, #[trigger] r[i] as int),
            forall|i: int, j: int| 0 <= i < j < r.len() ==> r[i] < r[j],
        decreases 27 - k,
    {
        let ghost cur: int = code + dx + 256 * dy + 65536 * dz;
        let nx = x + dx;
        let ny = y + dy;
        let nz = z + dz;
        let ghost old_r = r@;
        if 0 <= nx && nx < AXIS_BUCKETS && 0 <= ny && ny < AXIS_BUCKETS && 0 <= nz && nz
            < AXIS_BUCKETS {
            let c = encode_cell(nx, ny, nz);
            proof {
                lemma_code_of_decode(code as int);
                assert(c == cur);
            }
            r.push(c);
            proof {
                assert forall|d: isize|
                    r@.contains(d) <==> (is_neighbor_code(code as int, d as int) && d < cur
                        + 1) by {
                    if r@.contains(d) && d != cur {
                        let i = choose|i: int| 0 <= i < r.len() && r[i] == d;
                        assert(i < old_r.len());
                        assert(old_r[i] == d);
                        assert(old_r.contains(d));
                    }
                    if is_neighbor_code(code as int, d as int) && d < cur + 1 && d != cur {
                        assert(old_r.contains(d));
                        let i = choose|i: int| 0 <= i < old_r.len() && old_r[i] == d;
                        assert(r[i] == d);
                    }
                    if d == cur {
                        assert(r[r.len() - 1] == d);
                    }
                }
            }
        } else {
            proof {
                assert forall|d: isize|
                    r@.contains(d) <==> (is_neighbor_code(code as int, d as int) && d < cur
                        + 1) by {
                    if is_neighbor_code(code as int, d as int) && d == cur {
                        lemma_neighbor_offset(code as int, d as int);
                    }
                }
            }
        }
        proof {
            assert forall|d: int|
                is_neighbor_code(code as int, d) && cur < d implies d >= (if dx < 1 {
                    cur + 1
                } else if dy < 1 {
                    cur - 2 + 256
                } else {
                    cur - 2 - 512 + 65536
                }) by {
                if is_neighbor_code(code as int, d) && cur < d {
                    lemma_neighbor_offset(code as int, d);
                }
            }
        }
        if dx < 1 {
            dx = dx + 1;
        } else if dy < 1 {
            dx = -1;
            dy = dy + 1;
        } else {
            dx = -1;
            dy = -1;
            dz = dz + 1;
        }
        k = k + 1;
    }
    proof {
        assert forall|d: int| is_neighbor_code(code as int, d) implies d < code + dx + 256 * dy
            + 65536 * dz by {
            lemma_neighbor_offset(code as int, d);
        }
        assert forall|i: int| 0 <= i < r.len() implies 0 <= x_of(#[trigger] r[i] as int) && 0 <= y_of(r[i] as int) && 0 <= z_of(
                r[i] as int,
            ) by {
            lemma_code_of_decode(r[i] as int);
        }
    }
    r
}

} // verus!
