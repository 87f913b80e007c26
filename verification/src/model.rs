//! Target models: the grid size and which voxels are filled.
use vstd::prelude::*;
use crate::grid::{V2, V3, view3, is_cube, is_rect};

verus! {

/// A target shape: an `r` by `r` by `r` grid of voxels.
pub struct Model {
    pub r: usize,
    pub filled: V3<bool>,
}

/// Bit `p` of the voxel bitmap stored after the first byte: bit `p % 8` (least
/// significant first) of byte `1 + p / 8`.
pub open spec fn model_bit(bytes: Seq<u8>, p: int) -> bool {
    ((bytes[1 + p / 8] >> ((p % 8) as u8)) & 1u8) != 0u8
}

/// The encoding holds the size byte and the bitmap of all `r^3` voxels.
pub open spec fn encoding_complete(bytes: Seq<u8>) -> bool {
    &&& bytes.len() >= 1
    &&& bytes[0] == 0 || 1 + (bytes[0] * bytes[0] * bytes[0] - 1) / 8 < bytes.len()
}

proof fn lemma_index_bound(r: int, x: int, y: int, z: int)
    requires
        0 <= x < r,
        0 <= y < r,
        0 <= z < r,
    ensures
        0 <= x * r * r + y * r + z <= r * r * r - 1,
{
    assert(0 <= x * r * r + y * r + z <= r * r * r - 1) by (nonlinear_arith)
        requires 0 <= x < r, 0 <= y < r, 0 <= z < r;
}

/// Decodes a model: the first byte is the size `r`; voxel `(x, y, z)` is bit
/// `x * r * r + y * r + z` of the bitmap that follows.
pub fn decode_model(bytes: &Vec<u8>) -> (m: Model)
    requires
        encoding_complete(bytes@),
    ensures
        m.r == bytes@[0],
        is_cube(view3(&m.filled), m.r as int),
        forall|x: int, y: int, z: int| 0 <= x < m.r && 0 <= y < m.r && 0 <= z < m.r ==>
            #[trigger] view3(&m.filled)[x][y][z] == model_bit(bytes@, x * m.r * m.r + y * m.r + z),
{
    let r = bytes[0] as usize;
    let ghost b = bytes@;
    let ghost ri = r as int;
    let mut filled: V3<bool> = Vec::new();
    let mut x: usize = 0;
    while x < r
        invariant
            b == bytes@,
            encoding_complete(b),
            r == b[0],
            ri == r,
            r <= 255,
            x <= r,
            filled@.len() == x,
            forall|a: int| 0 <= a < x ==> is_rect(#[trigger] view3(&filled)[a], ri, ri),
            forall|a: int, c: int, e: int| 0 <= a < x && 0 <= c < r && 0 <= e < r ==>
                #[trigger] view3(&filled)[a][c][e] == model_bit(b, a * ri * ri + c * ri + e),
        decreases r - x,
    {
        let mut plane: V2<bool> = Vec::new();
        let mut y: usize = 0;
        while y < r
            invariant
                b == bytes@,
                encoding_complete(b),
                r == b[0],
                ri == r,
                r <= 255,
                x < r,
                y <= r,
                plane@.len() == y,
                forall|c: int| 0 <= c < y ==> (#[trigger] plane@[c])@.len() == r,
                forall|c: int, e: int| 0 <= c < y && 0 <= e < r ==>
                    #[trigger] plane@[c]@[e] == model_bit(b, x * ri * ri + c * ri + e),
            decreases r - y,
        {
            let mut row: Vec<bool> = Vec::new();
            let mut z: usize = 0;
            while z < r
                invariant
                    b == bytes@,
                    encoding_complete(b),
                    r == b[0],
                    ri == r,
                    r <= 255,
                    x < r,
                    y < r,
                    z <= r,
                    row@.len() == z,
                    forall|e: int| 0 <= e < z ==> #[trigger] row@[e] == model_bit(b, x * ri * ri + y * ri + e),
                decreases r - z,
            {
                proof {
                    lemma_index_bound(ri, x as int, y as int, z as int);
                    assert(r * r * r <= 255 * 255 * 255) by (nonlinear_arith)
                        requires r <= 255;
                    let p = x * ri * ri + y * ri + z;
                    vstd::arithmetic::div_mod::lemma_div_is_ordered(p, ri * ri * ri - 1, 8);
                    vstd::arithmetic::div_mod::lemma_div_pos_is_pos(p, 8);
                }
                assert(x * r <= 65025 && x * r * r <= 16581375 && y * r <= 65025) by (nonlinear_arith)
                    requires x < r, y < r, r <= 255;
                let p = x * r * r + y * r + z;
                let bit = (bytes[1 + p / 8] >> ((p % 8) as u8)) & 1 != 0;
                row.push(bit);
                z += 1;
            }
            plane.push(row);
            y += 1;
        }
        let ghost before = filled@;
        let ghost old_view = view3(&filled);
        filled.push(plane);
        proof {
            assert(view3(&filled)[x as int] == view3(&filled)[x as int]);
            assert forall|a: int, c: int, e: int| 0 <= a < x + 1 && 0 <= c < r && 0 <= e < r implies
                #[trigger] view3(&filled)[a][c][e] == model_bit(b, a * ri * ri + c * ri + e) by {
                if a < x {
                    assert(filled@[a] == before[a]);
                    assert(view3(&filled)[a] == old_view[a]);
                } else {
                    assert(filled@[a] == plane);
                    assert(view3(&filled)[a] == plane@.map_values(|row: Vec<bool>| row@));
                    assert(view3(&filled)[a][c] == plane@[c]@);
                }
            }
            assert forall|a: int| 0 <= a < x + 1 implies is_rect(#[trigger] view3(&filled)[a], ri, ri) by {
                if a < x {
                    assert(filled@[a] == before[a]);
                    assert(view3(&filled)[a] == old_view[a]);
                } else {
                    assert(filled@[a] == plane);
                    assert(view3(&filled)[a] == plane@.map_values(|row: Vec<bool>| row@));
                    assert forall|c: int| 0 <= c < ri implies #[trigger] view3(&filled)[a][c].len() == ri by {
                        assert(view3(&filled)[a][c] == plane@[c]@);
                    }
                }
            }
        }
        x += 1;
    }
    Model { r, filled }
}

} // verus!
