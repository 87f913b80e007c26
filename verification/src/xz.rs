//! Projections of the voxel grid onto the `x`/`z` plane and coarse block
//! summaries of such projections.
use vstd::prelude::*;
use crate::grid::{V2, V3, view2, view3, is_rect, is_cube};

verus! {

/// Column `(x, z)` of `f` holds at least one `true` cell.
pub open spec fn column_any(f: Seq<Seq<Seq<bool>>>, x: int, z: int) -> bool {
    exists|y: int| 0 <= y < f.len() && #[trigger] f[x][y][z]
}

/// The projection of a voxel grid along `y`: cell `(x, z)` is set when some cell
/// of the column above it is set.
pub fn any_y(filled: &V3<bool>) -> (ret: V2<bool>)
    requires
        is_cube(view3(filled), filled@.len() as int),
    ensures
        is_rect(view2(&ret), filled@.len() as int, filled@.len() as int),
        forall|x: int, z: int|
            0 <= x < filled@.len() && 0 <= z < filled@.len() ==>
                (#[trigger] view2(&ret)[x][z] <==> column_any(view3(filled), x, z)),
{
    let r = filled.len();
    let ghost f = view3(filled);
    let mut ret: V2<bool> = Vec::new();
    let mut x: usize = 0;
    while x < r
        invariant
            r == filled@.len(),
            f == view3(filled),
            is_cube(f, r as int),
            x <= r,
            ret@.len() == x,
            forall|a: int| 0 <= a < x ==> (#[trigger] ret@[a])@.len() == r,
            forall|a: int, c: int|
                0 <= a < x && 0 <= c < r ==> (ret@[a]@[c] <==> #[trigger] column_any(f, a, c)),
        decreases r - x,
    {
        let mut row: Vec<bool> = Vec::new();
        let mut z: usize = 0;
        while z < r
            invariant
                r == filled@.len(),
                f == view3(filled),
                is_cube(f, r as int),
                x < r,
                z <= r,
                row@.len() == z,
                forall|c: int| 0 <= c < z ==> (row@[c] <==> #[trigger] column_any(f, x as int, c)),
            decreases r - z,
        {
            let mut acc = false;
            let mut y: usize = 0;
            while y < r
                invariant
                    r == filled@.len(),
                    f == view3(filled),
                    is_cube(f, r as int),
                    x < r,
                    z < r,
                    y <= r,
                    acc <==> exists|b: int| 0 <= b < y && #[trigger] f[x as int][b][z as int],
                decreases r - y,
            {
                assert(f[x as int].len() == r);
                assert(f[x as int][y as int].len() == r);
                assert(f[x as int][y as int][z as int] == filled@[x as int]@[y as int]@[z as int]);
                let cell = filled[x][y][z];
                acc = acc || cell;
                y += 1;
                assert(acc <==> exists|b: int| 0 <= b < y && #[trigger] f[x as int][b][z as int]) by {
                    if acc {
                        if !cell {
                            let b = choose|b: int| 0 <= b < y - 1 && #[trigger] f[x as int][b][z as int];
                            assert(f[x as int][b][z as int]);
                        } else {
                            assert(f[x as int][y - 1][z as int]);
                        }
                    }
                }
            }
            row.push(acc);
            z += 1;
        }
        let ghost before = ret@;
        ret.push(row);
        assert(ret@[x as int] == row);
        x += 1;
        assert forall|a: int, c: int|
            0 <= a < x && 0 <= c < r implies (ret@[a]@[c] <==> #[trigger] column_any(f, a, c)) by {
            if a < x - 1 {
                assert(ret@[a] == before[a]);
            }
        }
    }
    assert(is_rect(view2(&ret), r as int, r as int));
    ret
}

// ---------------------------------------------------------------------------
// Prefix counts over a two-dimensional boolean grid.

/// Number of `true` entries among the first `z` entries of `row`.
pub open spec fn row_count(row: Seq<bool>, z: int) -> int
    decreases z,
{
    if z <= 0 {
        0
    } else {
        row_count(row, z - 1) + if row[z - 1] { 1int } else { 0int }
    }
}

/// Number of `true` cells of `o` in the rectangle `[0, x) x [0, z)`.
pub open spec fn prefix_count(o: Seq<Seq<bool>>, x: int, z: int) -> int
    decreases x,
{
    if x <= 0 {
        0
    } else {
        prefix_count(o, x - 1, z) + row_count(o[x - 1], z)
    }
}

/// Number of `true` cells of `o` in the rectangle `[x0, x1) x [z0, z1)`.
pub open spec fn rect_count(o: Seq<Seq<bool>>, x0: int, x1: int, z0: int, z1: int) -> int
    decreases x1 - x0,
{
    if x1 <= x0 {
        0
    } else {
        rect_count(o, x0, x1 - 1, z0, z1) + (row_count(o[x1 - 1], z1) - row_count(o[x1 - 1], z0))
    }
}

/// Some cell of `o` in the rectangle `[x0, x1) x [z0, z1)` is `true`.
pub open spec fn any_in(o: Seq<Seq<bool>>, x0: int, x1: int, z0: int, z1: int) -> bool {
    exists|x: int, z: int| x0 <= x < x1 && z0 <= z < z1 && #[trigger] o[x][z]
}

proof fn lemma_row_segment(row: Seq<bool>, z0: int, z1: int)
    requires
        0 <= z0 <= z1,
    ensures
        row_count(row, z1) - row_count(row, z0) >= 0,
        row_count(row, z1) - row_count(row, z0) <= z1 - z0,
        (row_count(row, z1) - row_count(row, z0) > 0) <==> (exists|z: int| z0 <= z < z1 && #[trigger] row[z]),
    decreases z1 - z0,
{
    if z1 > z0 {
        lemma_row_segment(row, z0, z1 - 1);
        if exists|z: int| z0 <= z < z1 && #[trigger] row[z] {
            let z = choose|z: int| z0 <= z < z1 && #[trigger] row[z];
            if z < z1 - 1 {
                assert(z0 <= z < z1 - 1 && row[z]);
            }
        }
        if row[z1 - 1] {
            assert(z0 <= z1 - 1 < z1 && row[z1 - 1]);
        }
        if exists|z: int| z0 <= z < z1 - 1 && #[trigger] row[z] {
            let z = choose|z: int| z0 <= z < z1 - 1 && #[trigger] row[z];
            assert(z0 <= z < z1 && row[z]);
        }
    }
}

proof fn lemma_rect_count(o: Seq<Seq<bool>>, x0: int, x1: int, z0: int, z1: int)
    requires
        0 <= x0 <= x1,
        0 <= z0 <= z1,
    ensures
        rect_count(o, x0, x1, z0, z1) >= 0,
        (rect_count(o, x0, x1, z0, z1) > 0) <==> any_in(o, x0, x1, z0, z1),
    decreases x1 - x0,
{
    if x1 > x0 {
        lemma_rect_count(o, x0, x1 - 1, z0, z1);
        lemma_row_segment(o[x1 - 1], z0, z1);
        if any_in(o, x0, x1, z0, z1) {
            let (x, z) = choose|x: int, z: int| x0 <= x < x1 && z0 <= z < z1 && #[trigger] o[x][z];
            if x < x1 - 1 {
                assert(any_in(o, x0, x1 - 1, z0, z1));
            } else {
                assert(z0 <= z < z1 && o[x1 - 1][z]);
            }
        }
        if any_in(o, x0, x1 - 1, z0, z1) {
            let (x, z) = choose|x: int, z: int| x0 <= x < x1 - 1 && z0 <= z < z1 && #[trigger] o[x][z];
            assert(x0 <= x < x1 && z0 <= z < z1 && o[x][z]);
        }
        if exists|z: int| z0 <= z < z1 && #[trigger] o[x1 - 1][z] {
            let z = choose|z: int| z0 <= z < z1 && #[trigger] o[x1 - 1][z];
            assert(x0 <= x1 - 1 < x1 && z0 <= z < z1 && o[x1 - 1][z]);
        }
    }
}

proof fn lemma_four_corners(o: Seq<Seq<bool>>, x0: int, x1: int, z0: int, z1: int)
    requires
        0 <= x0 <= x1,
    ensures
        prefix_count(o, x1, z1) - prefix_count(o, x0, z1) - prefix_count(o, x1, z0)
            + prefix_count(o, x0, z0) == rect_count(o, x0, x1, z0, z1),
    decreases x1 - x0,
{
    if x1 > x0 {
        lemma_four_corners(o, x0, x1 - 1, z0, z1);
    }
}

proof fn lemma_prefix_zero_width(o: Seq<Seq<bool>>, x: int)
    ensures
        prefix_count(o, x, 0) == 0,
    decreases x,
{
    if x > 0 {
        lemma_prefix_zero_width(o, x - 1);
    }
}

proof fn lemma_prefix_bounds(o: Seq<Seq<bool>>, x: int, z: int, rx: int, rz: int)
    requires
        0 <= x <= rx,
        0 <= z <= rz,
    ensures
        0 <= prefix_count(o, x, z) <= prefix_count(o, rx, rz),
{
    lemma_prefix_zero_width(o, x);
    lemma_prefix_zero_width(o, rx);
    lemma_prefix_zero_width(o, 0);
    lemma_four_corners(o, 0, x, 0, z);
    lemma_rect_count(o, 0, x, 0, z);
    lemma_four_corners(o, x, rx, 0, rz);
    lemma_rect_count(o, x, rx, 0, rz);
    lemma_four_corners(o, 0, x, z, rz);
    lemma_rect_count(o, 0, x, z, rz);
}

// ---------------------------------------------------------------------------
// Coarse block summaries.

/// Number of blocks of width `g` along an axis of length `n` when the first
/// block is cut short to width `b`.
pub open spec fn blocks(n: int, g: int, b: int) -> int {
    (n + g - b + g - 1) / g
}

/// First coordinate covered by block `i` (blocks end at `b + i * g`).
pub open spec fn block_lo(g: int, b: int, i: int) -> int {
    (if g >= b + i * g { g } else { b + i * g }) - g
}

/// One past the last coordinate covered by block `i`, clipped to the axis length `n`.
pub open spec fn block_hi(n: int, g: int, b: int, i: int) -> int {
    if n <= b + i * g { n } else { b + i * g }
}

/// The coarse grid for block offsets `(bx, bz)`: cell `(ix, iz)` is set when
/// some cell of `o` inside the block is set.
pub open spec fn shrunk(o: Seq<Seq<bool>>, rx: int, rz: int, g: int, bx: int, bz: int) -> Seq<Seq<bool>> {
    Seq::new(
        blocks(rx, g, bx) as nat,
        |ix: int|
            Seq::new(
                blocks(rz, g, bz) as nat,
                |iz: int|
                    any_in(o, block_lo(g, bx, ix), block_hi(rx, g, bx, ix), block_lo(g, bz, iz), block_hi(rz, g, bz, iz)),
            ),
    )
}

/// Position of the entry for block offsets `(i + 1, j + 1)` in the result of `shrink`.
pub open spec fn flat_index(i: int, j: int, g: int) -> int {
    i * g + j
}

/// `e` is the entry of `shrink` for block offsets `(bx, bz)`.
pub open spec fn shrink_entry(e: (i32, i32, V2<bool>), o: Seq<Seq<bool>>, rx: int, rz: int, g: int, bx: int, bz: int) -> bool {
    &&& e.0 == bx - g
    &&& e.1 == bz - g
    &&& view2(&e.2) == shrunk(o, rx, rz, g, bx, bz)
}

proof fn lemma_block_bound(n: int, g: int, i: int)
    requires
        g > 0,
        n >= 0,
        0 <= i < n / g,
    ensures
        i * g + g <= n,
{
    assert(n == g * (n / g) + n % g) by {
        vstd::arithmetic::div_mod::lemma_fundamental_div_mod(n, g);
    }
    assert((i + 1) * g <= (n / g) * g) by (nonlinear_arith)
        requires
            i + 1 <= n / g,
            g > 0,
    ;
    assert(i * g + g == (i + 1) * g) by (nonlinear_arith);
    assert((n / g) * g == g * (n / g)) by (nonlinear_arith);
}

/// For every pair of block offsets `(bx, bz)` in `1..=grid_size`, in
/// lexicographic order, summarizes `orig` on blocks of `grid_size` by
/// `grid_size` cells, the first block along each axis being cut to width `bx`
/// (resp. `bz`).  Each entry holds `bx - grid_size`, `bz - grid_size` and the
/// coarse grid, whose cell is set when some cell of its block is set.
pub fn shrink(orig: &V2<bool>, grid_size: usize) -> (ret: Vec<(i32, i32, V2<bool>)>)
    requires
        orig@.len() >= 1,
        is_rect(view2(orig), orig@.len() as int, orig@[0]@.len() as int),
        prefix_count(view2(orig), orig@.len() as int, orig@[0]@.len() as int) <= 0x3fff_ffff,
        grid_size <= i32::MAX,
        orig@.len() + 2 * grid_size <= usize::MAX,
        orig@[0]@.len() + 2 * grid_size <= usize::MAX,
    ensures
        ret@.len() == grid_size * grid_size,
        forall|i: int, j: int|
            0 <= i < grid_size && 0 <= j < grid_size ==> shrink_entry(
                #[trigger] ret@[flat_index(i, j, grid_size as int)],
                view2(orig),
                orig@.len() as int,
                orig@[0]@.len() as int,
                grid_size as int,
                i + 1,
                j + 1,
            ),
{
    let rx = orig.len();
    let rz = orig[0].len();
    let ghost o = view2(orig);
    let ghost total = prefix_count(o, rx as int, rz as int);
    // cum[x][z] = number of set cells in [0, x) x [0, z)
    let mut cum: Vec<Vec<i32>> = Vec::new();
    let mut first: Vec<i32> = Vec::new();
    first.push(0);
    let mut z: usize = 0;
    while z < rz
        invariant
            z <= rz,
            first@.len() == z + 1,
            forall|c: int| 0 <= c <= z ==> first@[c] == prefix_count(o, 0, c),
        decreases rz - z,
    {
        first.push(0);
        z += 1;
    }
    cum.push(first);
    let mut x: usize = 0;
    while x < rx
        invariant
            rx == orig@.len(),
            rz == orig@[0]@.len(),
            o == view2(orig),
            is_rect(o, rx as int, rz as int),
            total == prefix_count(o, rx as int, rz as int),
            total <= 0x3fff_ffff,
            x <= rx,
            cum@.len() == x + 1,
            forall|a: int| 0 <= a <= x ==> (#[trigger] cum@[a])@.len() == rz + 1,
            forall|a: int, c: int| 0 <= a <= x && 0 <= c <= rz ==> cum@[a]@[c] == prefix_count(o, a, c),
        decreases rx - x,
    {
        let mut row: Vec<i32> = Vec::new();
        row.push(0);
        proof {
            lemma_prefix_zero_width(o, x + 1);
        }
        let mut z: usize = 0;
        while z < rz
            invariant
                rx == orig@.len(),
                rz == orig@[0]@.len(),
                o == view2(orig),
                is_rect(o, rx as int, rz as int),
                total == prefix_count(o, rx as int, rz as int),
                total <= 0x3fff_ffff,
                x < rx,
                z <= rz,
                cum@.len() == x + 1,
                forall|a: int| 0 <= a <= x ==> (#[trigger] cum@[a])@.len() == rz + 1,
                forall|a: int, c: int| 0 <= a <= x && 0 <= c <= rz ==> cum@[a]@[c] == prefix_count(o, a, c),
                row@.len() == z + 1,
                forall|c: int| 0 <= c <= z ==> row@[c] == prefix_count(o, x + 1, c),
            decreases rz - z,
        {
            proof {
                lemma_prefix_bounds(o, x as int, z as int, rx as int, rz as int);
                lemma_prefix_bounds(o, x as int, z + 1, rx as int, rz as int);
                lemma_prefix_bounds(o, x + 1, z as int, rx as int, rz as int);
                lemma_prefix_bounds(o, x + 1, z + 1, rx as int, rz as int);
                assert(o[x as int].len() == rz);
                assert(prefix_count(o, x + 1, z + 1) == prefix_count(o, x as int, z + 1) + row_count(o[x as int], z + 1));
                assert(prefix_count(o, x + 1, z as int) == prefix_count(o, x as int, z as int) + row_count(o[x as int], z as int));
            }
            let cell: i32 = if orig[x][z] { 1 } else { 0 };
            let v = cell + cum[x][z + 1] + row[z] - cum[x][z];
            row.push(v);
            z += 1;
        }
        let ghost before = cum@;
        cum.push(row);
        x += 1;
        assert forall|a: int, c: int| 0 <= a <= x && 0 <= c <= rz implies cum@[a]@[c] == prefix_count(o, a, c) by {
            if a < x {
                assert(cum@[a] == before[a]);
            }
        }
        assert forall|a: int| 0 <= a <= x implies (#[trigger] cum@[a])@.len() == rz + 1 by {
            if a < x {
                assert(cum@[a] == before[a]);
            }
        }
    }
    let g = grid_size;
    let mut ret: Vec<(i32, i32, V2<bool>)> = Vec::new();
    let mut bx: usize = 1;
    while bx <= g
        invariant
            rx == orig@.len(),
            rz == orig@[0]@.len(),
            o == view2(orig),
            is_rect(o, rx as int, rz as int),
            total == prefix_count(o, rx as int, rz as int),
            total <= 0x3fff_ffff,
            g == grid_size,
            g <= i32::MAX,
            rx + 2 * g <= usize::MAX,
            rz + 2 * g <= usize::MAX,
            cum@.len() == rx + 1,
            forall|a: int| 0 <= a <= rx ==> (#[trigger] cum@[a])@.len() == rz + 1,
            forall|a: int, c: int| 0 <= a <= rx && 0 <= c <= rz ==> cum@[a]@[c] == prefix_count(o, a, c),
            1 <= bx <= g + 1,
            ret@.len() == (bx - 1) * g,
            forall|i: int, j: int|
                0 <= i < bx - 1 && 0 <= j < g ==> shrink_entry(
                    #[trigger] ret@[flat_index(i, j, g as int)], o, rx as int, rz as int, g as int, i + 1, j + 1),
        decreases g + 1 - bx,
    {
        let mut bz: usize = 1;
        while bz <= g
            invariant
                rx == orig@.len(),
                rz == orig@[0]@.len(),
                o == view2(orig),
                is_rect(o, rx as int, rz as int),
                total == prefix_count(o, rx as int, rz as int),
                total <= 0x3fff_ffff,
                g == grid_size,
                g <= i32::MAX,
                rx + 2 * g <= usize::MAX,
                rz + 2 * g <= usize::MAX,
                cum@.len() == rx + 1,
                forall|a: int| 0 <= a <= rx ==> (#[trigger] cum@[a])@.len() == rz + 1,
                forall|a: int, c: int| 0 <= a <= rx && 0 <= c <= rz ==> cum@[a]@[c] == prefix_count(o, a, c),
                1 <= bx <= g,
                1 <= bz <= g + 1,
                ret@.len() == (bx - 1) * g + (bz - 1),
                forall|i: int, j: int|
                    0 <= i < bx - 1 && 0 <= j < g ==> shrink_entry(
                        #[trigger] ret@[flat_index(i, j, g as int)], o, rx as int, rz as int, g as int, i + 1, j + 1),
                forall|j: int|
                    0 <= j < bz - 1 ==> shrink_entry(
                        #[trigger] ret@[flat_index(bx - 1, j, g as int)], o, rx as int, rz as int, g as int, bx as int, j + 1),
            decreases g + 1 - bz,
        {
            let rx_small = (rx + g - bx + g - 1) / g;
            let rz_small = (rz + g - bz + g - 1) / g;
            proof {
                vstd::arithmetic::div_mod::lemma_div_pos_is_pos(rx + g - bx + g - 1, g as int);
                vstd::arithmetic::div_mod::lemma_div_pos_is_pos(rz + g - bz + g - 1, g as int);
            }
            let ghost want = shrunk(o, rx as int, rz as int, g as int, bx as int, bz as int);
            let mut small: V2<bool> = Vec::new();
            let mut ix: usize = 0;
            while ix < rx_small
                invariant
                    rx == orig@.len(),
                    rz == orig@[0]@.len(),
                    o == view2(orig),
                    is_rect(o, rx as int, rz as int),
                    total == prefix_count(o, rx as int, rz as int),
                    total <= 0x3fff_ffff,
                    g == grid_size,
                    rx + 2 * g <= usize::MAX,
                    rz + 2 * g <= usize::MAX,
                    cum@.len() == rx + 1,
                    forall|a: int| 0 <= a <= rx ==> (#[trigger] cum@[a])@.len() == rz + 1,
                    forall|a: int, c: int| 0 <= a <= rx && 0 <= c <= rz ==> cum@[a]@[c] == prefix_count(o, a, c),
                    1 <= bx <= g,
                    1 <= bz <= g,
                    rx_small == blocks(rx as int, g as int, bx as int),
                    rz_small == blocks(rz as int, g as int, bz as int),
                    want == shrunk(o, rx as int, rz as int, g as int, bx as int, bz as int),
                    ix <= rx_small,
                    small@.len() == ix,
                    forall|a: int| 0 <= a < ix ==> (#[trigger] small@[a])@ == want[a],
                decreases rx_small - ix,
            {
                proof {
                    lemma_block_bound(rx + g - bx + g - 1, g as int, ix as int);
                }
                let px = bx + ix * g;
                let gx0 = (if g >= px { g } else { px }) - g;
                let gx1 = if rx <= px { rx } else { px };
                let mut srow: Vec<bool> = Vec::new();
                let mut iz: usize = 0;
                while iz < rz_small
                    invariant
                        rx == orig@.len(),
                        rz == orig@[0]@.len(),
                        o == view2(orig),
                        is_rect(o, rx as int, rz as int),
                        total == prefix_count(o, rx as int, rz as int),
                        total <= 0x3fff_ffff,
                        g == grid_size,
                        rz + 2 * g <= usize::MAX,
                        cum@.len() == rx + 1,
                        forall|a: int| 0 <= a <= rx ==> (#[trigger] cum@[a])@.len() == rz + 1,
                        forall|a: int, c: int| 0 <= a <= rx && 0 <= c <= rz ==> cum@[a]@[c] == prefix_count(o, a, c),
                        1 <= bz <= g,
                        1 <= bx <= g,
                        rz_small == blocks(rz as int, g as int, bz as int),
                        rx_small == blocks(rx as int, g as int, bx as int),
                        ix < rx_small,
                        want == shrunk(o, rx as int, rz as int, g as int, bx as int, bz as int),
                        gx0 == block_lo(g as int, bx as int, ix as int),
                        gx1 == block_hi(rx as int, g as int, bx as int, ix as int),
                        0 <= gx0 <= gx1 <= rx,
                        iz <= rz_small,
                        srow@.len() == iz,
                        forall|c: int| 0 <= c < iz ==> srow@[c] == want[ix as int][c],
                    decreases rz_small - iz,
                {
                    proof {
                        lemma_block_bound(rz + g - bz + g - 1, g as int, iz as int);
                    }
                    let pz = bz + iz * g;
                    let gz0 = (if g >= pz { g } else { pz }) - g;
                    let gz1 = if rz <= pz { rz } else { pz };
                    proof {
                        lemma_prefix_bounds(o, gx0 as int, gz0 as int, rx as int, rz as int);
                        lemma_prefix_bounds(o, gx0 as int, gz1 as int, rx as int, rz as int);
                        lemma_prefix_bounds(o, gx1 as int, gz0 as int, rx as int, rz as int);
                        lemma_prefix_bounds(o, gx1 as int, gz1 as int, rx as int, rz as int);
                        lemma_four_corners(o, gx0 as int, gx1 as int, gz0 as int, gz1 as int);
                        lemma_rect_count(o, gx0 as int, gx1 as int, gz0 as int, gz1 as int);
                    }
                    let count = cum[gx1][gz1] - cum[gx0][gz1] - cum[gx1][gz0] + cum[gx0][gz0];
                    proof {
                        assert(gz0 == block_lo(g as int, bz as int, iz as int));
                        assert(gz1 == block_hi(rz as int, g as int, bz as int, iz as int));
                        assert(want.len() == rx_small);
                        assert(want[ix as int].len() == rz_small);
                        assert(want[ix as int][iz as int] == any_in(o, gx0 as int, gx1 as int, gz0 as int, gz1 as int));
                    }
                    srow.push(count > 0);
                    iz += 1;
                }
                assert(srow@ =~= want[ix as int]);
                small.push(srow);
                ix += 1;
            }
            assert(view2(&small) =~= want);
            let entry = (bx as i32 - g as i32, bz as i32 - g as i32, small);
            ret.push(entry);
            proof {
                assert(flat_index(bx - 1, bz - 1, g as int) == (bx - 1) * g + (bz - 1));
                assert forall|i: int, j: int|
                    0 <= i < bx - 1 && 0 <= j < g implies shrink_entry(
                        #[trigger] ret@[flat_index(i, j, g as int)], o, rx as int, rz as int, g as int, i + 1, j + 1) by {
                    assert(flat_index(i, j, g as int) < (bx - 1) * g) by (nonlinear_arith)
                        requires 0 <= i < bx - 1, 0 <= j < g;
                }
                assert forall|j: int| 0 <= j < bz implies shrink_entry(
                        #[trigger] ret@[flat_index(bx - 1, j, g as int)], o, rx as int, rz as int, g as int, bx as int, j + 1) by {
                }
            }
            bz += 1;
        }
        assert(ret@.len() == bx * g) by (nonlinear_arith)
            requires ret@.len() == (bx - 1) * g + g;
        bx += 1;
    }
    assert(ret@.len() == g * g) by (nonlinear_arith)
        requires ret@.len() == (bx - 1) * g, bx == g + 1;
    ret
}

} // verus!
