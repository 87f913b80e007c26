//! Supports for building a shape outward from a middle `z` layer.
use vstd::prelude::*;
use crate::grid::{V3, view3, is_cube, is_rect, copy3, filled_grid3, set3, lemma_cube_cell, lemma_cube_plane};
use crate::point::P;
use crate::order::SetMax;
use crate::support::{
    Cube, Potential, in_cube, pot, lower, supported, certified, grounded, assigned_ok, contains_cube,
    extends, assign, hanging, count2, lemma_count2_mono, lemma_assigned_ok_mono, lemma_assign_one,
    lemma_cell_added, cell_added, column_added, ground_floor, floor_pot, add_cell,
};

verus! {

/// The shape stays clear of the far `x` and `y` faces.
pub open spec fn clear_of_far_xy(t0: Cube, r: int) -> bool {
    forall|x: int, y: int, z: int| in_cube(r, x, y, z) && #[trigger] t0[x][y][z] ==> x + 1 < r && y + 1 < r
}

/// A neighbour layer `nz` of layer `z` that lies on the middle side of the
/// split at `z0`: layers `z0` and `z0 - 1` rest on no other layer, layers
/// above `z0` on the one below them, layers below `z0 - 1` on the one above.
pub open spec fn inward(z: int, z0: int, nz: int) -> bool {
    (z > z0 && nz == z - 1) || (z < z0 - 1 && nz == z + 1)
}

/// Under `d`, the cell rests on the floor or on a filled cell of smaller
/// potential beside it or below it in its own layer, or next to it in the
/// neighbour layer on the middle side (`inward`).
pub open spec fn supported_inward(t: Cube, r: int, d: Potential, x: int, y: int, z: int, z0: int) -> bool {
    let k = pot(d, x, y, z);
    ||| k == 0 && y == 0
    ||| k > 0 && {
        ||| lower(t, r, d, x - 1, y, z, k)
        ||| lower(t, r, d, x + 1, y, z, k)
        ||| lower(t, r, d, x, y - 1, z, k)
        ||| (inward(z, z0, z - 1) && lower(t, r, d, x, y, z - 1, k))
        ||| (inward(z, z0, z + 1) && lower(t, r, d, x, y, z + 1, k))
    }
}

/// Every cell with a potential rests inward (see `supported_inward`).
pub open spec fn assigned_inward(t: Cube, r: int, d: Potential, z0: int) -> bool {
    forall|x: int, y: int, z: int|
        in_cube(r, x, y, z) && #[trigger] pot(d, x, y, z) >= 0 ==> supported_inward(t, r, d, x, y, z, z0)
}

/// Growing the shape and extending the potential keeps every cell resting inward.
proof fn lemma_inward_mono(t1: Cube, t2: Cube, r: int, d1: Potential, d2: Potential, z0: int)
    requires
        assigned_inward(t1, r, d1, z0),
        contains_cube(t1, t2, r),
        extends(d1, d2),
    ensures
        forall|x: int, y: int, z: int|
            in_cube(r, x, y, z) && #[trigger] pot(d1, x, y, z) >= 0 ==> supported_inward(t2, r, d2, x, y, z, z0),
{
    assert forall|x: int, y: int, z: int|
        in_cube(r, x, y, z) && #[trigger] pot(d1, x, y, z) >= 0 implies supported_inward(t2, r, d2, x, y, z, z0) by {
        assert(supported_inward(t1, r, d1, x, y, z, z0));
        assert(pot(d2, x, y, z) == pot(d1, x, y, z));
        let k = pot(d1, x, y, z);
        if k > 0 {
            if lower(t1, r, d1, x - 1, y, z, k) {
                assert(pot(d2, x - 1, y, z) == pot(d1, x - 1, y, z));
                assert(lower(t2, r, d2, x - 1, y, z, k));
            } else if lower(t1, r, d1, x + 1, y, z, k) {
                assert(pot(d2, x + 1, y, z) == pot(d1, x + 1, y, z));
                assert(lower(t2, r, d2, x + 1, y, z, k));
            } else if lower(t1, r, d1, x, y - 1, z, k) {
                assert(pot(d2, x, y - 1, z) == pot(d1, x, y - 1, z));
                assert(lower(t2, r, d2, x, y - 1, z, k));
            } else if inward(z, z0, z - 1) && lower(t1, r, d1, x, y, z - 1, k) {
                assert(pot(d2, x, y, z - 1) == pot(d1, x, y, z - 1));
                assert(lower(t2, r, d2, x, y, z - 1, k));
            } else {
                assert(pot(d2, x, y, z + 1) == pot(d1, x, y, z + 1));
                assert(lower(t2, r, d2, x, y, z + 1, k));
            }
        }
    }
}

/// The filled cells of `t` in the layers `lo..=hi`.
pub open spec fn zlayers(t: Cube, r: int, lo: int, hi: int) -> Cube {
    Seq::new(r as nat, |a: int| Seq::new(r as nat, |b: int| Seq::new(r as nat, |c: int| t[a][b][c] && lo <= c <= hi)))
}

/// From the middle outward: when `d` certifies `t` and every cell rests
/// inward, the layers from the split at `z0` out to any layer, on either
/// side, are connected to the floor through cells of those layers alone.
pub proof fn lemma_grounded_outward(t: Cube, r: int, d: Potential, z0: int, lo: int, hi: int)
    requires
        certified(t, r, d),
        assigned_inward(t, r, d, z0),
        lo == z0 || hi == z0 - 1,
    ensures
        grounded(zlayers(t, r, lo, hi), r),
{
    let u = zlayers(t, r, lo, hi);
    assert forall|x: int, y: int, z: int| in_cube(r, x, y, z) && #[trigger] u[x][y][z] implies
        pot(d, x, y, z) >= 0 && supported(u, r, d, x, y, z) by {
        assert(t[x][y][z]);
        assert(pot(d, x, y, z) >= 0);
        assert(supported_inward(t, r, d, x, y, z, z0));
        let k = pot(d, x, y, z);
        if k > 0 {
            if lower(t, r, d, x - 1, y, z, k) {
                assert(lower(u, r, d, x - 1, y, z, k));
            } else if lower(t, r, d, x + 1, y, z, k) {
                assert(lower(u, r, d, x + 1, y, z, k));
            } else if lower(t, r, d, x, y - 1, z, k) {
                assert(lower(u, r, d, x, y - 1, z, k));
            } else if inward(z, z0, z - 1) && lower(t, r, d, x, y, z - 1, k) {
                assert(lower(u, r, d, x, y, z - 1, k));
            } else {
                assert(lower(u, r, d, x, y, z + 1, k));
            }
        }
    }
    assert(certified(u, r, d));
}

/// Facts kept throughout the construction.
pub open spec fn tz_common(t0: Cube, t: Cube, g: Cube, d: Potential, r: int, z0: int) -> bool {
    &&& assigned_inward(t, r, d, z0)
    &&& is_cube(t0, r)
    &&& is_cube(t, r)
    &&& is_cube(g, r)
    &&& contains_cube(t0, t, r)
    &&& hanging(t0, t, r)
    &&& assigned_ok(t, r, d)
    &&& forall|x: int, y: int, z: int| in_cube(r, x, y, z) && #[trigger] g[x][y][z] ==> pot(d, x, y, z) >= 0
    &&& clear_of_far_xy(t0, r)
}

/// Cells of layer `z` that are not grounded.
pub open spec fn free_in(g: Cube, z: int) -> spec_fn(int, int) -> bool {
    |a: int, b: int| !g[a][b][z]
}

/// Cells of layer `z` that are filled but not grounded.
pub open spec fn pending_in(t: Cube, g: Cube, z: int) -> spec_fn(int, int) -> bool {
    |a: int, b: int| t[a][b][z] && !g[a][b][z]
}

/// Stacked cells lie in layer `z` and are grounded.
pub open spec fn stack_in(s: Seq<P>, g: Cube, r: int, z: int) -> bool {
    forall|k: int| 0 <= k < s.len() ==> {
        let p = #[trigger] s[k];
        &&& in_cube(r, p.x as int, p.y as int, p.z as int)
        &&& p.z == z
        &&& g[p.x as int][p.y as int][p.z as int]
    }
}

// ---------------------------------------------------------------------------
// The supports chosen, stated exactly.

/// The point `(a, b, z)` is on the stack.
pub open spec fn in_stack_z(s: Seq<P>, a: int, b: int, z: int) -> bool {
    s.contains(P { x: a as i32, y: b as i32, z: z as i32 })
}

/// The cells after `(a, b)` of layer `z` in the positive `x` and `y`
/// directions are grounded in `g` when filled in `t`.
pub open spec fn closed_z(t: Cube, g: Cube, r: int, z: int, a: int, b: int) -> bool {
    &&& (a + 1 < r && t[a + 1][b][z]) ==> g[a + 1][b][z]
    &&& (b + 1 < r && t[a][b + 1][z]) ==> g[a][b + 1][z]
}

/// The cells of layer `z` on the stack.
pub open spec fn stack_set(s: Seq<P>, z: int) -> spec_fn(int, int) -> bool {
    |a: int, b: int| in_stack_z(s, a, b, z)
}

/// A layer whose grounded cells include the starting cells, and whose
/// starting and newly grounded cells are all closed, holds every explored cell.
pub proof fn lemma_explored_grounded(t: Cube, g: Cube, g0: spec_fn(int, int) -> bool, s0: spec_fn(int, int) -> bool, r: int, z: int, x: int, y: int)
    requires
        x >= 0,
        y >= 0,
        forall|a: int, b: int| 0 <= a < r && 0 <= b < r && #[trigger] s0(a, b) ==> g[a][b][z],
        forall|a: int, b: int| 0 <= a < r && 0 <= b < r && #[trigger] g0(a, b) ==> g[a][b][z],
        forall|a: int, b: int| 0 <= a < r && 0 <= b < r && (#[trigger] s0(a, b) || (g[a][b][z] && !g0(a, b))) ==> closed_z(t, g, r, z, a, b),
    ensures
        explored_z(t, z, g0, s0, r, x, y) ==> g[x][y][z],
    decreases x + y,
{
    if explored_z(t, z, g0, s0, r, x, y) && !s0(x, y) {
        if x > 0 && explored_z(t, z, g0, s0, r, x - 1, y) {
            lemma_explored_grounded(t, g, g0, s0, r, z, x - 1, y);
            assert(s0(x - 1, y) || (g[x - 1][y][z] && !g0(x - 1, y)));
            assert(closed_z(t, g, r, z, x - 1, y));
        } else {
            assert(y > 0 && explored_z(t, z, g0, s0, r, x, y - 1));
            lemma_explored_grounded(t, g, g0, s0, r, z, x, y - 1);
            assert(s0(x, y - 1) || (g[x][y - 1][z] && !g0(x, y - 1)));
            assert(closed_z(t, g, r, z, x, y - 1));
        }
    }
}

/// The cells of layer `z` of `g`, indexed by `x` and `y`.
pub open spec fn zlayer_of(g: Cube, z: int) -> spec_fn(int, int) -> bool {
    |a: int, b: int| g[a][b][z]
}

/// The highest row below `y` whose cell in column `x` of layer `z` is filled
/// and in `g`, or `-1`.
pub open spec fn top_below_z(t: Cube, g: spec_fn(int, int) -> bool, x: int, y: int, z: int) -> int
    decreases y,
{
    if y <= 0 {
        -1
    } else if t[x][y - 1][z] && g(x, y - 1) {
        y - 1
    } else {
        top_below_z(t, g, x, y - 1, z)
    }
}

/// The running choice after considering cell `(a, b)` of layer `z` (see
/// `consider` for layers of constant height).
pub open spec fn consider_z(t: Cube, g: spec_fn(int, int) -> bool, z: int, cur: (int, int, int), a: int, b: int) -> (int, int, int) {
    if t[a][b][z] && !g(a, b) && top_below_z(t, g, a, b, z) > cur.0 {
        (top_below_z(t, g, a, b, z), a, b)
    } else {
        cur
    }
}

/// The choice after the cells `(a, 0)` to `(a, n - 1)`.
pub open spec fn pick_row_z(t: Cube, g: spec_fn(int, int) -> bool, z: int, cur: (int, int, int), a: int, n: int) -> (int, int, int)
    decreases n,
{
    if n <= 0 {
        cur
    } else {
        consider_z(t, g, z, pick_row_z(t, g, z, cur, a, n - 1), a, n - 1)
    }
}

/// The filled cell of layer `z` outside `g` whose `top_below_z` is highest,
/// the first such in `x`-then-`y` order among the rows `x < m`; height `-2`
/// when there is none.
pub open spec fn pick_upto_z(t: Cube, g: spec_fn(int, int) -> bool, z: int, r: int, m: int) -> (int, int, int)
    decreases m,
{
    if m <= 0 {
        (-2, 0, 0)
    } else {
        pick_row_z(t, g, z, pick_upto_z(t, g, z, r, m - 1), m - 1, r)
    }
}

/// `t` with the column `x` of layer `z` filled from just above its
/// `top_below_z` up to just below row `y`.
pub open spec fn with_column_z(t: Cube, r: int, g: spec_fn(int, int) -> bool, x: int, y: int, z: int) -> Cube {
    Seq::new(r as nat, |a: int| Seq::new(r as nat, |b: int| Seq::new(r as nat, |c: int|
        t[a][b][c] || (a == x && c == z && top_below_z(t, g, x, y, z) < b < y))))
}

/// The cells of layer `z` outside `g`.
pub open spec fn not_in(g: spec_fn(int, int) -> bool) -> spec_fn(int, int) -> bool {
    |a: int, b: int| !g(a, b)
}

/// `top_below_z` lies in `[-1, y)`, on a filled cell of `g`, with none in between.
pub proof fn lemma_top_below_z_range(t: Cube, g: spec_fn(int, int) -> bool, x: int, y: int, z: int)
    ensures
        -1 <= top_below_z(t, g, x, y, z) < if y > 0 { y } else { 0 },
        top_below_z(t, g, x, y, z) >= 0 ==> t[x][top_below_z(t, g, x, y, z)][z] && g(x, top_below_z(t, g, x, y, z)),
        forall|b: int| top_below_z(t, g, x, y, z) < b < y ==> !(#[trigger] t[x][b][z] && g(x, b)),
    decreases y,
{
    if y > 0 && !(t[x][y - 1][z] && g(x, y - 1)) {
        lemma_top_below_z_range(t, g, x, y - 1, z);
    }
}

/// Skipping cells that are not both filled and in `g`.
pub proof fn lemma_top_below_z_skip(t: Cube, g: spec_fn(int, int) -> bool, x: int, k: int, y: int, z: int)
    requires
        0 <= k <= y,
        forall|b: int| k <= b < y ==> !(#[trigger] t[x][b][z] && g(x, b)),
        k == 0 || (t[x][k - 1][z] && g(x, k - 1)),
    ensures
        top_below_z(t, g, x, y, z) == k - 1,
    decreases y - k,
{
    if y > k {
        lemma_top_below_z_skip(t, g, x, k, y - 1, z);
    }
}

proof fn lemma_pick_row_z(t: Cube, g: spec_fn(int, int) -> bool, z: int, cur: (int, int, int), a: int, n: int)
    requires
        cur.0 >= -2,
    ensures
        pick_row_z(t, g, z, cur, a, n).0 >= cur.0,
        pick_row_z(t, g, z, cur, a, n) != cur ==> {
            let p = pick_row_z(t, g, z, cur, a, n);
            &&& p.1 == a
            &&& 0 <= p.2 < n
            &&& t[a][p.2][z]
            &&& !g(a, p.2)
            &&& p.0 == top_below_z(t, g, a, p.2, z)
        },
    decreases n,
{
    if n > 0 {
        lemma_pick_row_z(t, g, z, cur, a, n - 1);
    }
}

/// The choice is a filled cell of the layer outside `g` when it is not `-2`.
pub proof fn lemma_pick_upto_z(t: Cube, g: spec_fn(int, int) -> bool, z: int, r: int, m: int)
    requires
        0 <= m,
        r >= 0,
    ensures
        pick_upto_z(t, g, z, r, m).0 >= -2,
        pick_upto_z(t, g, z, r, m).0 != -2 ==> {
            let p = pick_upto_z(t, g, z, r, m);
            &&& 0 <= p.1 < m
            &&& 0 <= p.2 < r
            &&& t[p.1][p.2][z]
            &&& !g(p.1, p.2)
            &&& p.0 == top_below_z(t, g, p.1, p.2, z)
        },
    decreases m,
{
    if m > 0 {
        lemma_pick_upto_z(t, g, z, r, m - 1);
        let prev = pick_upto_z(t, g, z, r, m - 1);
        lemma_pick_row_z(t, g, z, prev, m - 1, r);
        let cur = pick_upto_z(t, g, z, r, m);
        if cur != prev {
            lemma_top_below_z_range(t, g, m - 1, cur.2, z);
        }
    }
}

proof fn lemma_pick_row_z_congr(t: Cube, g1: spec_fn(int, int) -> bool, g2: spec_fn(int, int) -> bool, z: int, r: int, cur: (int, int, int), a: int, n: int)
    requires
        0 <= a < r,
        n <= r,
        forall|x: int, b: int| 0 <= x < r && 0 <= b < r ==> #[trigger] g1(x, b) == g2(x, b),
    ensures
        pick_row_z(t, g1, z, cur, a, n) == pick_row_z(t, g2, z, cur, a, n),
    decreases n,
{
    if n > 0 {
        lemma_pick_row_z_congr(t, g1, g2, z, r, cur, a, n - 1);
        assert(g1(a, n - 1) == g2(a, n - 1));
        assert(top_below_z(t, g1, a, n - 1, z) == top_below_z(t, g2, a, n - 1, z)) by {
            lemma_top_below_z_congr(t, g1, g2, r, a, n - 1, z);
        }
    }
}

proof fn lemma_top_below_z_congr(t: Cube, g1: spec_fn(int, int) -> bool, g2: spec_fn(int, int) -> bool, r: int, x: int, y: int, z: int)
    requires
        0 <= x < r,
        y <= r,
        forall|a: int, b: int| 0 <= a < r && 0 <= b < r ==> #[trigger] g1(a, b) == g2(a, b),
    ensures
        top_below_z(t, g1, x, y, z) == top_below_z(t, g2, x, y, z),
    decreases y,
{
    if y > 0 {
        assert(g1(x, y - 1) == g2(x, y - 1));
        lemma_top_below_z_congr(t, g1, g2, r, x, y - 1, z);
    }
}

/// The choice only looks at the grounded cells inside the layer.
pub proof fn lemma_pick_z_congr(t: Cube, g1: spec_fn(int, int) -> bool, g2: spec_fn(int, int) -> bool, z: int, r: int, m: int)
    requires
        m <= r,
        forall|x: int, b: int| 0 <= x < r && 0 <= b < r ==> #[trigger] g1(x, b) == g2(x, b),
    ensures
        pick_upto_z(t, g1, z, r, m) == pick_upto_z(t, g2, z, r, m),
    decreases m,
{
    if m > 0 {
        lemma_pick_z_congr(t, g1, g2, z, r, m - 1);
        lemma_pick_row_z_congr(t, g1, g2, z, r, pick_upto_z(t, g1, z, r, m - 1), m - 1, r);
    }
}

/// Cell `(x, y)` of layer `z` is explored by a search from the cells `s`
/// that steps in the positive `x` or `y` direction onto filled cells outside
/// `g` (the cells of `s` lie in `g`).
pub open spec fn explored_z(t: Cube, z: int, g: spec_fn(int, int) -> bool, s: spec_fn(int, int) -> bool, r: int, x: int, y: int) -> bool
    decreases x + y,
    when x >= 0 && y >= 0
{
    &&& 0 <= x < r
    &&& 0 <= y < r
    &&& {
        ||| s(x, y)
        ||| {
            &&& t[x][y][z]
            &&& !g(x, y)
            &&& ((x > 0 && explored_z(t, z, g, s, r, x - 1, y)) || (y > 0 && explored_z(t, z, g, s, r, x, y - 1)))
        }
    }
}

/// The grounded cells of layer `z` after the search from `s`: those of `g`
/// and those explored (see `explored_z`).
pub open spec fn flooded_z(t: Cube, z: int, g: spec_fn(int, int) -> bool, s: spec_fn(int, int) -> bool, r: int) -> spec_fn(int, int) -> bool {
    |a: int, b: int| g(a, b) || (a >= 0 && b >= 0 && explored_z(t, z, g, s, r, a, b))
}

/// The single cell `(x, y)`.
pub open spec fn single(x: int, y: int) -> spec_fn(int, int) -> bool {
    |a: int, b: int| a == x && b == y
}

/// Layer `z` after its supports, from the grounded cells `g`: while a filled
/// cell of the layer is not grounded, the one chosen by `pick_upto_z` gets a
/// column (see `with_column_z`), is grounded, and the search from it grounds
/// more cells (see `flooded_z`).
pub open spec fn layer_run_z(t: Cube, g: spec_fn(int, int) -> bool, r: int, z: int) -> Cube
    decreases count2(not_in(g), r, r),
    when r >= 0 && 0 <= z < r
{
    let q = pick_upto_z(t, g, z, r, r);
    if q.0 == -2 {
        t
    } else {
        proof {
            lemma_layer_run_z_step(t, g, r, z);
        }
        let t2 = with_column_z(t, r, g, q.1, q.2, z);
        layer_run_z(t2, flooded_z(t2, z, add_cell(g, q.1, q.2), single(q.1, q.2), r), r, z)
    }
}

/// One step of `layer_run_z` grounds one more cell of the layer.
pub proof fn lemma_layer_run_z_step(t: Cube, g: spec_fn(int, int) -> bool, r: int, z: int)
    requires
        r >= 0,
        0 <= z < r,
        pick_upto_z(t, g, z, r, r).0 != -2,
    ensures
        ({
            let q = pick_upto_z(t, g, z, r, r);
            let t2 = with_column_z(t, r, g, q.1, q.2, z);
            let g2 = flooded_z(t2, z, add_cell(g, q.1, q.2), single(q.1, q.2), r);
            0 <= count2(not_in(g2), r, r) < count2(not_in(g), r, r)
        }),
{
    let q = pick_upto_z(t, g, z, r, r);
    lemma_pick_upto_z(t, g, z, r, r);
    let t2 = with_column_z(t, r, g, q.1, q.2, z);
    let g2 = flooded_z(t2, z, add_cell(g, q.1, q.2), single(q.1, q.2), r);
    assert(not_in(g)(q.1, q.2));
    assert(!not_in(g2)(q.1, q.2));
    lemma_count2_mono(not_in(g), not_in(g2), r, r);
}

/// A layer seeded with `g`: the search from the seeds, then `layer_run_z`.
pub open spec fn layer_start_z(t: Cube, g: spec_fn(int, int) -> bool, r: int, z: int) -> Cube {
    layer_run_z(t, flooded_z(t, z, g, g, r), r, z)
}

/// The seeds of layer `z`: its filled floor cells and, unless it is one of
/// the two middle layers, its filled cells next to a filled cell of layer `zn`.
pub open spec fn seeds_z(t: Cube, z: int, zn: int, mid: bool) -> spec_fn(int, int) -> bool {
    |a: int, b: int| t[a][b][z] && (b == 0 || (!mid && t[a][b][zn]))
}

/// One of the two middle layers around `z0`.
pub open spec fn middle(z: int, z0: int) -> bool {
    z == z0 || z == z0 - 1
}

/// The shape after the supports of the layers `z` to `r - 1`, in increasing
/// order, each seeded from the layer below it.
pub open spec fn z_up_from(t: Cube, r: int, z0: int, z: int) -> Cube
    decreases r - z,
{
    if z >= r || z < 0 {
        t
    } else {
        z_up_from(layer_start_z(t, seeds_z(t, z, z - 1, middle(z, z0)), r, z), r, z0, z + 1)
    }
}

/// The shape after the supports of the layers `k - 1` down to `0`, each seeded
/// from the layer above it.
pub open spec fn z_down_from(t: Cube, r: int, z0: int, k: int) -> Cube
    decreases k,
{
    if k <= 0 || k > r {
        t
    } else {
        z_down_from(layer_start_z(t, seeds_z(t, k - 1, k, middle(k - 1, z0)), r, k - 1), r, z0, k - 1)
    }
}

/// The grounded cells after a search only depend on the grounded and starting
/// cells inside the layer.
pub proof fn lemma_flooded_congr(
    t: Cube, z: int, g1: spec_fn(int, int) -> bool, g2: spec_fn(int, int) -> bool,
    s1: spec_fn(int, int) -> bool, s2: spec_fn(int, int) -> bool, r: int,
)
    requires
        forall|a: int, b: int| 0 <= a < r && 0 <= b < r ==> #[trigger] g1(a, b) == g2(a, b),
        forall|a: int, b: int| 0 <= a < r && 0 <= b < r ==> #[trigger] s1(a, b) == s2(a, b),
    ensures
        forall|a: int, b: int| 0 <= a < r && 0 <= b < r ==> #[trigger] flooded_z(t, z, g1, s1, r)(a, b) == flooded_z(t, z, g2, s2, r)(a, b),
{
    assert forall|a: int, b: int| 0 <= a < r && 0 <= b < r implies #[trigger] flooded_z(t, z, g1, s1, r)(a, b) == flooded_z(t, z, g2, s2, r)(a, b) by {
        lemma_explored_z_congr(t, z, g1, g2, s1, s2, r, a, b);
    }
}

/// The layer's supports only depend on the grounded cells inside the layer.
pub proof fn lemma_layer_run_z_congr(t: Cube, g1: spec_fn(int, int) -> bool, g2: spec_fn(int, int) -> bool, r: int, z: int)
    requires
        0 <= z < r,
        forall|a: int, b: int| 0 <= a < r && 0 <= b < r ==> #[trigger] g1(a, b) == g2(a, b),
    ensures
        layer_run_z(t, g1, r, z) == layer_run_z(t, g2, r, z),
    decreases count2(not_in(g1), r, r),
{
    lemma_pick_z_congr(t, g1, g2, z, r, r);
    let q = pick_upto_z(t, g1, z, r, r);
    if q.0 != -2 {
        lemma_pick_upto_z(t, g1, z, r, r);
        lemma_layer_run_z_step(t, g1, r, z);
        assert forall|x: int, y: int| 0 <= x < r && 0 <= y < r implies
            #[trigger] top_below_z(t, g1, x, y, z) == top_below_z(t, g2, x, y, z) by {
            lemma_top_below_z_congr(t, g1, g2, r, x, y, z);
        }
        let t1 = with_column_z(t, r, g1, q.1, q.2, z);
        let t2 = with_column_z(t, r, g2, q.1, q.2, z);
        assert(t1 == t2) by {
            lemma_top_below_z_congr(t, g1, g2, r, q.1, q.2, z);
            assert(t1 =~~= t2);
        }
        let f1 = flooded_z(t1, z, add_cell(g1, q.1, q.2), single(q.1, q.2), r);
        let f2 = flooded_z(t1, z, add_cell(g2, q.1, q.2), single(q.1, q.2), r);
        assert forall|a: int, b: int| 0 <= a < r && 0 <= b < r implies #[trigger] f1(a, b) == f2(a, b) by {
            lemma_explored_z_congr(t1, z, add_cell(g1, q.1, q.2), add_cell(g2, q.1, q.2), single(q.1, q.2), single(q.1, q.2), r, a, b);
        }
        lemma_layer_run_z_congr(t1, f1, f2, r, z);
    }
}

/// The search only looks at the grounded and starting cells inside the layer.
pub proof fn lemma_explored_z_congr(
    t: Cube, z: int, g1: spec_fn(int, int) -> bool, g2: spec_fn(int, int) -> bool,
    s1: spec_fn(int, int) -> bool, s2: spec_fn(int, int) -> bool, r: int, x: int, y: int,
)
    requires
        x >= 0,
        y >= 0,
        forall|a: int, b: int| 0 <= a < r && 0 <= b < r ==> #[trigger] g1(a, b) == g2(a, b),
        forall|a: int, b: int| 0 <= a < r && 0 <= b < r ==> #[trigger] s1(a, b) == s2(a, b),
    ensures
        explored_z(t, z, g1, s1, r, x, y) == explored_z(t, z, g2, s2, r, x, y),
    decreases x + y,
{
    if x > 0 {
        lemma_explored_z_congr(t, z, g1, g2, s1, s2, r, x - 1, y);
    }
    if y > 0 {
        lemma_explored_z_congr(t, z, g1, g2, s1, s2, r, x, y - 1);
    }
}

/// Filled cells keep clear of the far `x` and `y` faces.
proof fn lemma_filled_clear(t0: Cube, t: Cube, r: int, x: int, y: int, z: int)
    requires
        contains_cube(t0, t, r),
        hanging(t0, t, r),
        clear_of_far_xy(t0, r),
        in_cube(r, x, y, z),
        t[x][y][z],
    ensures
        x + 1 < r,
        y + 1 < r,
{
    if !t0[x][y][z] {
        let y2 = choose|y2: int| y < y2 < r && #[trigger] t0[x][y2][z];
        assert(t0[x][y2][z]);
    }
}

/// Grounds a filled cell (if not yet grounded), giving it a potential when it has none.
proof fn lemma_ground_cell(
    t0: Cube, t: Cube, g: Cube, g2: Cube, d: Potential, r: int, x: int, y: int, z: int, nx: int, ny: int, nz: int, z0: int,
) -> (d2: Potential)
    requires
        tz_common(t0, t, g, d, r, z0),
        in_cube(r, x, y, z),
        t[x][y][z],
        cell_added(g, g2, r, x, y, z),
        in_cube(r, nx, ny, nz),
        t[nx][ny][nz],
        pot(d, nx, ny, nz) >= 0,
        (nx == x - 1 && ny == y && nz == z) || (nx == x && ny == y - 1 && nz == z)
            || (nx == x && ny == y && inward(z, z0, nz)),
    ensures
        tz_common(t0, t, g2, d2, r, z0),
        extends(d, d2),
        forall|a: int, b: int, c: int| #[trigger] pot(d2, a, b, c) != pot(d, a, b, c) ==> a == x && b == y && c == z,
{
    if pot(d, x, y, z) >= 0 {
        assert forall|a: int, b: int, c: int| in_cube(r, a, b, c) && #[trigger] g2[a][b][c] implies pot(d, a, b, c) >= 0 by {
            assert(g2[a][b][c] == (g[a][b][c] || (a == x && b == y && c == z)));
        }
        d
    } else {
        let k = pot(d, nx, ny, nz);
        let d2 = assign(d, x, y, z, k + 1);
        assert(lower(t, r, d2, nx, ny, nz, k + 1));
        assert(supported(t, r, d2, x, y, z));
        assert(supported_inward(t, r, d2, x, y, z, z0));
        lemma_assign_one(t, r, d, x, y, z, k + 1);
        assert(extends(d, d2));
        lemma_inward_mono(t, t, r, d, d2, z0);
        assert forall|a: int, b: int, c: int|
            in_cube(r, a, b, c) && #[trigger] pot(d2, a, b, c) >= 0 implies supported_inward(t, r, d2, a, b, c, z0) by {
            if !(a == x && b == y && c == z) {
                assert(pot(d, a, b, c) >= 0);
            }
        }
        assert forall|a: int, b: int, c: int| in_cube(r, a, b, c) && #[trigger] g2[a][b][c] implies pot(d2, a, b, c) >= 0 by {
            assert(g2[a][b][c] == (g[a][b][c] || (a == x && b == y && c == z)));
            if !(a == x && b == y && c == z) {
                assert(pot(d, a, b, c) >= 0);
            }
        }
        d2
    }
}

/// `g2` holds every cell of `g`.
pub open spec fn grows(g: Cube, g2: Cube, r: int) -> bool {
    forall|a: int, b: int, c: int| in_cube(r, a, b, c) && #[trigger] g[a][b][c] ==> g2[a][b][c]
}

proof fn lemma_free_drop(g: Cube, g2: Cube, r: int, x: int, y: int, z: int)
    requires
        0 <= z < r,
        cell_added(g, g2, r, x, y, z),
        in_cube(r, x, y, z),
        !g[x][y][z],
    ensures
        count2(free_in(g2, z), r, r) < count2(free_in(g, z), r, r),
        grows(g, g2, r),
{
    assert forall|a: int, b: int| 0 <= a < r && 0 <= b < r && #[trigger] free_in(g2, z)(a, b) implies free_in(g, z)(a, b) by {
        assert(g2[a][b][z] == (g[a][b][z] || (a == x && b == y && z == z)));
    }
    assert(free_in(g, z)(x, y));
    assert(!free_in(g2, z)(x, y));
    lemma_count2_mono(free_in(g, z), free_in(g2, z), r, r);
}

/// Grounds, in layer `z`, every filled cell reachable from the stacked cells by
/// steps in the positive `x` or `y` direction (the unit steps of `P::adj` that
/// stay in the layer).
fn flood_z(
    target2: &V3<bool>,
    ground: &mut V3<bool>,
    stack: &mut Vec<P>,
    r: usize,
    z: usize,
    Ghost(t0): Ghost<Cube>,
    Ghost(d0): Ghost<Potential>,
    Ghost(z0): Ghost<int>,
) -> (dd: Ghost<Potential>)
    requires
        r == target2@.len(),
        z < r,
        r <= 0x7fff_fffe,
        tz_common(t0, view3(target2), view3(old(ground)), d0, r as int, z0),
        stack_in(old(stack)@, view3(old(ground)), r as int, z as int),
    ensures
        tz_common(t0, view3(target2), view3(final(ground)), dd@, r as int, z0),
        grows(view3(old(ground)), view3(final(ground)), r as int),
        final(stack)@.len() == 0,
        count2(free_in(view3(final(ground)), z as int), r as int, r as int)
            <= count2(free_in(view3(old(ground)), z as int), r as int, r as int),
        forall|a: int, b: int, c: int| in_cube(r as int, a, b, c) && c != z ==>
            #[trigger] view3(final(ground))[a][b][c] == view3(old(ground))[a][b][c],
        forall|a: int, b: int| 0 <= a < r && 0 <= b < r ==>
            #[trigger] view3(final(ground))[a][b][z as int] == flooded_z(view3(target2), z as int,
                zlayer_of(view3(old(ground)), z as int), stack_set(old(stack)@, z as int), r as int)(a, b),
{
    let ghost t = view3(target2);
    let ghost mut d = d0;
    let ghost g_start = view3(ground);
    let ghost ri = r as int;
    let ghost zi = z as int;
    let ghost g0 = zlayer_of(g_start, zi);
    let ghost s0 = stack_set(stack@, zi);
    while stack.len() > 0
        invariant
            r == target2@.len(),
            z < r,
            r <= 0x7fff_fffe,
            t == view3(target2),
            ri == r,
            zi == z,
            tz_common(t0, t, view3(ground), d, ri, z0),
            grows(g_start, view3(ground), ri),
            stack_in(stack@, view3(ground), ri, zi),
            count2(free_in(view3(ground), zi), ri, ri) <= count2(free_in(g_start, zi), ri, ri),
            g_start == view3(old(ground)),
            forall|a: int, b: int, c: int| in_cube(ri, a, b, c) && c != zi ==> #[trigger] view3(ground)[a][b][c] == g_start[a][b][c],
            forall|a: int, b: int| 0 <= a < ri && 0 <= b < ri && #[trigger] g_start[a][b][zi] ==> view3(ground)[a][b][zi],
            g0 == zlayer_of(g_start, zi),
            s0 == stack_set(old(stack)@, zi),
            forall|a: int, b: int| 0 <= a < ri && 0 <= b < ri && #[trigger] view3(ground)[a][b][zi] ==>
                g0(a, b) || explored_z(t, zi, g0, s0, ri, a, b),
            forall|k: int| 0 <= k < stack@.len() ==> explored_z(t, zi, g0, s0, ri, (#[trigger] stack@[k]).x as int, stack@[k].y as int),
            forall|a: int, b: int| 0 <= a < ri && 0 <= b < ri && (#[trigger] s0(a, b) || (view3(ground)[a][b][zi] && !g0(a, b))) ==>
                in_stack_z(stack@, a, b, zi) || closed_z(t, view3(ground), ri, zi, a, b),
        decreases count2(free_in(view3(ground), zi), ri, ri), stack@.len(),
    {
        let ghost count_before = count2(free_in(view3(ground), zi), ri, ri);
        let ghost len_before = stack@.len();
        let ghost stack_before = stack@;
        let p = stack.pop().unwrap();
        assert(stack@ == stack_before.drop_last());
        assert(p == stack_before[stack_before.len() - 1]);
        let ghost len_after_pop = stack@.len();
        assert(stack_in(stack@, view3(ground), ri, zi)) by {
            assert forall|k: int| 0 <= k < stack@.len() implies #[trigger] stack@[k] == stack_before[k] by {}
        }
        let ghost px = p.x as int;
        let ghost py = p.y as int;
        assert(in_cube(ri, px, py, zi));
        assert(view3(ground)[px][py][zi]);
        assert(pot(d, px, py, zi) >= 0);
        assert(t[px][py][zi]);
        proof {
            lemma_filled_clear(t0, t, ri, px, py, zi);
        }
        proof {
            assert forall|a: int, b: int| 0 <= a < ri && 0 <= b < ri && (#[trigger] s0(a, b) || (view3(ground)[a][b][zi] && !g0(a, b))) implies
                in_stack_z(stack@, a, b, zi) || closed_z(t, view3(ground), ri, zi, a, b) || (a == px && b == py) by {
                if in_stack_z(stack_before, a, b, zi) && !(a == px && b == py) {
                    let k = choose|k: int| 0 <= k < stack_before.len() && stack_before[k] == (P { x: a as i32, y: b as i32, z: zi as i32 });
                    if k == stack_before.len() - 1 {
                        assert(stack_before[k] == p);
                    } else {
                        assert(stack@[k] == stack_before[k]);
                    }
                }
            }
            assert(explored_z(t, zi, g0, s0, ri, stack_before[stack_before.len() - 1].x as int, stack_before[stack_before.len() - 1].y as int));
            assert forall|k: int| 0 <= k < stack@.len() implies explored_z(t, zi, g0, s0, ri, (#[trigger] stack@[k]).x as int, stack@[k].y as int) by {
                assert(stack@[k] == stack_before[k]);
            }
        }
        let qs = p.adj(r);
        let mut i: usize = 0;
        while i < qs.len()
            invariant
                r == target2@.len(),
                z < r,
                r <= 0x7fff_fffe,
                t == view3(target2),
                ri == r,
                zi == z,
                tz_common(t0, t, view3(ground), d, ri, z0),
                grows(g_start, view3(ground), ri),
                stack_in(stack@, view3(ground), ri, zi),
                count2(free_in(view3(ground), zi), ri, ri) <= count_before,
                (stack@.len() == len_after_pop && count2(free_in(view3(ground), zi), ri, ri) == count_before)
                    || count2(free_in(view3(ground), zi), ri, ri) < count_before,
                count_before <= count2(free_in(g_start, zi), ri, ri),
                len_after_pop + 1 == len_before,
                qs@ == seq![
                    P { x: (p.x + 1) as i32, y: p.y, z: p.z },
                    P { x: p.x, y: (p.y + 1) as i32, z: p.z },
                    P { x: p.x, y: p.y, z: (p.z + 1) as i32 },
                ],
                px == p.x,
                py == p.y,
                p.z == z,
                px + 1 < ri,
                py + 1 < ri,
                0 <= px,
                0 <= py,
                t[px][py][zi],
                pot(d, px, py, zi) >= 0,
                i <= qs@.len(),
                g_start == view3(old(ground)),
                forall|a: int, b: int, c: int| in_cube(ri, a, b, c) && c != zi ==> #[trigger] view3(ground)[a][b][c] == g_start[a][b][c],
                forall|a: int, b: int| 0 <= a < ri && 0 <= b < ri && #[trigger] g_start[a][b][zi] ==> view3(ground)[a][b][zi],
                g0 == zlayer_of(g_start, zi),
                s0 == stack_set(old(stack)@, zi),
                forall|a: int, b: int| 0 <= a < ri && 0 <= b < ri && #[trigger] view3(ground)[a][b][zi] ==>
                    g0(a, b) || explored_z(t, zi, g0, s0, ri, a, b),
                forall|k: int| 0 <= k < stack@.len() ==> explored_z(t, zi, g0, s0, ri, (#[trigger] stack@[k]).x as int, stack@[k].y as int),
                explored_z(t, zi, g0, s0, ri, px, py),
                forall|a: int, b: int| 0 <= a < ri && 0 <= b < ri && (#[trigger] s0(a, b) || (view3(ground)[a][b][zi] && !g0(a, b))) ==>
                    in_stack_z(stack@, a, b, zi) || closed_z(t, view3(ground), ri, zi, a, b) || (a == px && b == py),
                view3(ground)[px][py][zi],
                i >= 1 ==> (t[px + 1][py][zi] ==> view3(ground)[px + 1][py][zi]),
                i >= 2 ==> (t[px][py + 1][zi] ==> view3(ground)[px][py + 1][zi]),
            decreases qs@.len() - i,
        {
            let q = qs[i];
            proof {
                if i == 0 {
                    assert(q.x == p.x + 1 && q.y == p.y && q.z == p.z);
                    lemma_cube_cell(target2, ri, px + 1, py, zi);
                    lemma_cube_cell(ground, ri, px + 1, py, zi);
                } else if i == 1 {
                    assert(q.x == p.x && q.y == p.y + 1 && q.z == p.z);
                    lemma_cube_cell(target2, ri, px, py + 1, zi);
                    lemma_cube_cell(ground, ri, px, py + 1, zi);
                } else {
                    assert(q.z == p.z + 1);
                }
            }
            if q.z == z as i32 && target2[q.x as usize][q.y as usize][q.z as usize]
                && !ground[q.x as usize][q.y as usize][q.z as usize] {
                let ghost qx = q.x as int;
                let ghost qy = q.y as int;
                let ghost g_before = view3(ground);
                set3(ground, q.x as usize, q.y as usize, q.z as usize, true);
                proof {
                    let g2 = view3(ground);
                    lemma_cell_added(g_before, g2, ri, qx, qy, zi);
                    let d2 = lemma_ground_cell(t0, t, g_before, g2, d, ri, qx, qy, zi, px, py, zi, z0);
                    d = d2;
                    lemma_free_drop(g_before, g2, ri, qx, qy, zi);
                    assert(grows(g_start, g2, ri));
                }
                let ghost s_pre = stack@;
                let ghost s_before = stack@;
                stack.push(q);
                proof {
                    assert forall|kk: int| 0 <= kk < stack@.len() implies {
                        let s = #[trigger] stack@[kk];
                        &&& in_cube(ri, s.x as int, s.y as int, s.z as int)
                        &&& s.z == zi
                        &&& view3(ground)[s.x as int][s.y as int][s.z as int]
                    } by {
                        if kk < stack@.len() - 1 {
                            let s = stack@[kk];
                            assert(s == s_before[kk]);
                            assert(g_before[s.x as int][s.y as int][s.z as int]);
                        }
                    }
                    let g2 = view3(ground);
                    assert(g2 == g_before.update(qx, g_before[qx].update(qy, g_before[qx][qy].update(zi, true))));
                    assert forall|a: int, b: int| 0 <= a < ri && 0 <= b < ri implies #[trigger] g2[a][b][zi] == (g_before[a][b][zi] || (a == qx && b == qy)) by {
                        assert(cell_added(g_before, g2, ri, qx, qy, zi));
                    }
                    assert forall|a: int, b: int, c: int| in_cube(ri, a, b, c) && c != zi implies #[trigger] g2[a][b][c] == g_start[a][b][c] by {
                        assert(cell_added(g_before, g2, ri, qx, qy, zi));
                        assert(g2[a][b][c] == (g_before[a][b][c] || (a == qx && b == qy && c == zi)));
                    }
                    assert(!g0(qx, qy));
                    assert(explored_z(t, zi, g0, s0, ri, qx, qy));
                    assert forall|a: int, b: int| 0 <= a < ri && 0 <= b < ri && #[trigger] g2[a][b][zi] implies
                        g0(a, b) || explored_z(t, zi, g0, s0, ri, a, b) by {
                        if !(a == qx && b == qy) {
                            assert(g_before[a][b][zi]);
                        }
                    }
                    assert forall|k: int| 0 <= k < stack@.len() implies explored_z(t, zi, g0, s0, ri, (#[trigger] stack@[k]).x as int, stack@[k].y as int) by {
                        if k < stack@.len() - 1 {
                            assert(stack@[k] == s_pre[k]);
                        }
                    }
                    assert forall|a: int, b: int| 0 <= a < ri && 0 <= b < ri && (#[trigger] s0(a, b) || (g2[a][b][zi] && !g0(a, b))) implies
                        in_stack_z(stack@, a, b, zi) || closed_z(t, g2, ri, zi, a, b) || (a == px && b == py) by {
                        if a == qx && b == qy {
                            assert(stack@[stack@.len() - 1] == q);
                            assert(q == P { x: a as i32, y: b as i32, z: zi as i32 });
                        } else {
                            assert(g2[a][b][zi] == g_before[a][b][zi]);
                            assert(s0(a, b) || (g_before[a][b][zi] && !g0(a, b)));
                            assert(in_stack_z(s_pre, a, b, zi) || closed_z(t, g_before, ri, zi, a, b) || (a == px && b == py));
                            if closed_z(t, g_before, ri, zi, a, b) {
                                if a + 1 < ri {
                                    assert(g2[a + 1][b][zi] == (g_before[a + 1][b][zi] || (a + 1 == qx && b == qy)));
                                }
                                if b + 1 < ri {
                                    assert(g2[a][b + 1][zi] == (g_before[a][b + 1][zi] || (a == qx && b + 1 == qy)));
                                }
                                assert(closed_z(t, g2, ri, zi, a, b));
                            }
                            if in_stack_z(s_pre, a, b, zi) {
                                let k = choose|k: int| 0 <= k < s_pre.len() && s_pre[k] == (P { x: a as i32, y: b as i32, z: zi as i32 });
                                assert(stack@[k] == s_pre[k]);
                            }
                        }
                    }
                }
            } else {
                proof {
                    if i == 0 {
                        assert(q.z == p.z);
                    } else if i == 1 {
                        assert(q.z == p.z);
                    }
                }
            }
            i += 1;
        }
        proof {
            lemma_count2_mono(free_in(view3(ground), zi), free_in(view3(ground), zi), ri, ri);
            assert(closed_z(t, view3(ground), ri, zi, px, py));
        }
    }
    proof {
        let g = view3(ground);
        assert forall|a: int, b: int| 0 <= a < ri && 0 <= b < ri && #[trigger] s0(a, b) implies g[a][b][zi] by {
            let k = choose|k: int| 0 <= k < old(stack)@.len() && old(stack)@[k] == (P { x: a as i32, y: b as i32, z: zi as i32 });
            assert(g_start[a][b][zi]);
        }
        assert forall|a: int, b: int| 0 <= a < ri && 0 <= b < ri implies
            #[trigger] g[a][b][zi] == flooded_z(t, zi, g0, s0, ri)(a, b) by {
            lemma_explored_grounded(t, g, g0, s0, ri, zi, a, b);
        }
    }
    Ghost(d)
}

/// `q` (in layer `z`) is filled but not grounded, and `md` is the highest row
/// below it whose cell is filled and grounded (`-1` when there is none).
pub open spec fn choice_z(t: Cube, g: Cube, r: int, z: int, md: int, q: P) -> bool {
    &&& in_cube(r, q.x as int, q.y as int, q.z as int)
    &&& q.z == z
    &&& t[q.x as int][q.y as int][z]
    &&& !g[q.x as int][q.y as int][z]
    &&& -1 <= md < q.y
    &&& md >= 0 ==> t[q.x as int][md][z] && g[q.x as int][md][z]
    &&& forall|b: int| md < b < q.y ==> !(#[trigger] t[q.x as int][b][z] && g[q.x as int][b][z])
}

/// Finds a filled but ungrounded cell of layer `z` whose highest filled and
/// grounded cell below is highest (the first such cell in `x`-then-`y` order);
/// returns that height (`-1` when there is none) with the cell, or `-2` when
/// every filled cell of the layer is grounded.
fn pick_z(target2: &V3<bool>, ground: &V3<bool>, r: usize, z: usize) -> (res: (i32, P))
    requires
        r == target2@.len(),
        z < r,
        r <= 0x7fff_fffe,
        is_cube(view3(target2), r as int),
        is_cube(view3(ground), r as int),
    ensures
        res.0 == -2 ==> forall|a: int, b: int|
            0 <= a < r && 0 <= b < r ==> !#[trigger] pending_in(view3(target2), view3(ground), z as int)(a, b),
        res.0 != -2 ==> choice_z(view3(target2), view3(ground), r as int, z as int, res.0 as int, res.1),
        (res.0 as int, res.1.x as int, res.1.y as int) == pick_upto_z(view3(target2), zlayer_of(view3(ground), z as int), z as int, r as int, r as int),
        res.0 != -2 ==> res.1.z == z,
{
    let ghost t = view3(target2);
    let ghost g = view3(ground);
    let ghost ri = r as int;
    let ghost zi = z as int;
    let mut max_d: i32 = -2;
    let mut q = P::new(0, 0, 0);
    let mut x: usize = 0;
    while x < r
        invariant
            r == target2@.len(),
            z < r,
            r <= 0x7fff_fffe,
            t == view3(target2),
            g == view3(ground),
            ri == r,
            zi == z,
            is_cube(t, ri),
            is_cube(g, ri),
            x <= r,
            max_d == -2 ==> forall|a: int, b: int| 0 <= a < x && 0 <= b < r ==> !#[trigger] pending_in(t, g, zi)(a, b),
            max_d != -2 ==> choice_z(t, g, ri, zi, max_d as int, q),
            (max_d as int, q.x as int, q.y as int) == pick_upto_z(t, zlayer_of(g, zi), zi, ri, x as int),
            max_d != -2 ==> q.z == z,
        decreases r - x,
    {
        let mut y: usize = 0;
        while y < r
            invariant
                r == target2@.len(),
                z < r,
                r <= 0x7fff_fffe,
                t == view3(target2),
                g == view3(ground),
                ri == r,
                zi == z,
                is_cube(t, ri),
                is_cube(g, ri),
                x < r,
                y <= r,
                max_d == -2 ==> forall|a: int, b: int|
                    ((0 <= a < x && 0 <= b < r) || (a == x && 0 <= b < y)) ==> !#[trigger] pending_in(t, g, zi)(a, b),
                max_d != -2 ==> choice_z(t, g, ri, zi, max_d as int, q),
                (max_d as int, q.x as int, q.y as int) == pick_row_z(t, zlayer_of(g, zi), zi, pick_upto_z(t, zlayer_of(g, zi), zi, ri, x as int), x as int, y as int),
                max_d != -2 ==> q.z == z,
            decreases r - y,
        {
            proof {
                lemma_cube_cell(target2, ri, x as int, y as int, zi);
                lemma_cube_cell(ground, ri, x as int, y as int, zi);
            }
            if target2[x][y][z] && !ground[x][y][z] {
                proof {
                    lemma_cube_plane(target2, ri, x as int);
                    lemma_cube_plane(ground, ri, x as int);
                }
                let mut k: usize = y;
                while k > 0 && !(target2[x][k - 1][z] && ground[x][k - 1][z])
                    invariant
                        r == target2@.len(),
                        z < r,
                        t == view3(target2),
                        g == view3(ground),
                        is_cube(t, ri),
                        is_cube(g, ri),
                        ri == r,
                        zi == z,
                        x < r,
                        y < r,
                        k <= y,
                        target2@[x as int]@.len() == r,
                        forall|b: int| 0 <= b < r ==> (#[trigger] target2@[x as int]@[b])@.len() == r,
                        ground@[x as int]@.len() == r,
                        forall|b: int| 0 <= b < r ==> (#[trigger] ground@[x as int]@[b])@.len() == r,
                        forall|b: int| k <= b < y ==> !(#[trigger] t[x as int][b][zi] && g[x as int][b][zi]),
                    decreases k,
                {
                    proof {
                        lemma_cube_cell(target2, ri, x as int, k - 1, zi);
                        lemma_cube_cell(ground, ri, x as int, k - 1, zi);
                    }
                    k -= 1;
                }
                proof {
                    if k > 0 {
                        lemma_cube_cell(target2, ri, x as int, k - 1, zi);
                        lemma_cube_cell(ground, ri, x as int, k - 1, zi);
                    }
                }
                let d: i32 = if k > 0 { (k - 1) as i32 } else { -1 };
                proof {
                    lemma_top_below_z_skip(t, zlayer_of(g, zi), x as int, k as int, y as int, zi);
                    assert(d == top_below_z(t, zlayer_of(g, zi), x as int, y as int, zi));
                }
                if max_d.setmax(d) {
                    q = P::new(x as i32, y as i32, z as i32);
                }
            }
            y += 1;
        }
        x += 1;
    }
    (max_d, q)
}

/// The largest potential (at least zero) among the first `n` cells of column `(x, z)`.
pub open spec fn colmax(d: Potential, x: int, z: int, n: int) -> int
    decreases n,
{
    if n <= 0 {
        0
    } else {
        let m = colmax(d, x, z, n - 1);
        if pot(d, x, n - 1, z) > m { pot(d, x, n - 1, z) } else { m }
    }
}

proof fn lemma_colmax(d: Potential, x: int, z: int, n: int)
    ensures
        colmax(d, x, z, n) >= 0,
        forall|b: int| 0 <= b < n ==> #[trigger] pot(d, x, b, z) <= colmax(d, x, z, n),
    decreases n,
{
    if n > 0 {
        lemma_colmax(d, x, z, n - 1);
    }
}

/// The potential after supporting `q` by the column above row `md`: every cell
/// of the column without a potential gets one above all potentials of the column.
pub open spec fn column_pot_z(d: Potential, x: int, y: int, z: int, md: int) -> Potential {
    let m = colmax(d, x, z, y + 1) + 1;
    |a: int, b: int, c: int|
        if a == x && c == z && md < b <= y && d(a, b, c) < 0 {
            if b == 0 { 0 } else { m + b }
        } else {
            d(a, b, c)
        }
}

proof fn lemma_support_z(t0: Cube, t: Cube, t2: Cube, g: Cube, g2: Cube, d: Potential, r: int, z: int, md: int, q: P, z0: int)
    requires
        0 <= z < r,
        tz_common(t0, t, g, d, r, z0),
        choice_z(t, g, r, z, md, q),
        column_added(t, t2, r, q.x as int, z, md, q.y as int),
        cell_added(g, g2, r, q.x as int, q.y as int, z),
    ensures
        tz_common(t0, t2, g2, column_pot_z(d, q.x as int, q.y as int, z, md), r, z0),
        grows(g, g2, r),
        count2(free_in(g2, z), r, r) < count2(free_in(g, z), r, r),
{
    let x = q.x as int;
    let y = q.y as int;
    let d2 = column_pot_z(d, x, y, z, md);
    let m = colmax(d, x, z, y + 1) + 1;
    lemma_colmax(d, x, z, y + 1);
    assert(extends(d, d2)) by {
        assert forall|a: int, b: int, c: int| #[trigger] pot(d, a, b, c) >= 0 implies pot(d2, a, b, c) == pot(d, a, b, c) by {}
    }
    assert(contains_cube(t, t2, r));
    assert(contains_cube(t0, t2, r));
    lemma_assigned_ok_mono(t, t2, r, d, d2);
    if md >= 0 {
        assert(g[x][md][z]);
        assert(pot(d, x, md, z) >= 0);
    }
    assert(assigned_ok(t2, r, d2)) by {
        assert forall|a: int, b: int, c: int|
            in_cube(r, a, b, c) && #[trigger] pot(d2, a, b, c) >= 0 implies t2[a][b][c] && supported(t2, r, d2, a, b, c) by {
            if a == x && c == z && md < b <= y && pot(d, a, b, c) < 0 {
                let k = pot(d2, a, b, c);
                assert(t2[a][b][c]);
                if b == 0 {
                    assert(k == 0);
                } else {
                    assert(k == m + b);
                    assert(t2[a][b - 1][c]);
                    if b - 1 == md {
                        assert(pot(d, a, b - 1, c) <= colmax(d, x, z, y + 1));
                        assert(lower(t2, r, d2, a, b - 1, c, k));
                    } else if pot(d, a, b - 1, c) < 0 {
                        assert(lower(t2, r, d2, a, b - 1, c, k));
                    } else {
                        assert(pot(d, a, b - 1, c) <= colmax(d, x, z, y + 1));
                        assert(lower(t2, r, d2, a, b - 1, c, k));
                    }
                }
            } else {
                assert(pot(d, a, b, c) >= 0);
            }
        }
    }
    lemma_inward_mono(t, t2, r, d, d2, z0);
    assert(assigned_inward(t2, r, d2, z0)) by {
        assert forall|a: int, b: int, c: int|
            in_cube(r, a, b, c) && #[trigger] pot(d2, a, b, c) >= 0 implies supported_inward(t2, r, d2, a, b, c, z0) by {
            if a == x && c == z && md < b <= y && pot(d, a, b, c) < 0 {
                let k = pot(d2, a, b, c);
                if b == 0 {
                    assert(k == 0);
                } else {
                    assert(k == m + b);
                    assert(t2[a][b - 1][c]);
                    if b - 1 == md {
                        assert(pot(d, a, b - 1, c) <= colmax(d, x, z, y + 1));
                        assert(lower(t2, r, d2, a, b - 1, c, k));
                    } else if pot(d, a, b - 1, c) < 0 {
                        assert(lower(t2, r, d2, a, b - 1, c, k));
                    } else {
                        assert(pot(d, a, b - 1, c) <= colmax(d, x, z, y + 1));
                        assert(lower(t2, r, d2, a, b - 1, c, k));
                    }
                }
            } else {
                assert(pot(d, a, b, c) >= 0);
            }
        }
    }
    assert(hanging(t0, t2, r)) by {
        assert forall|a: int, b: int, c: int|
            in_cube(r, a, b, c) && #[trigger] t2[a][b][c] && !t0[a][b][c] implies {
                &&& b + 1 < r
                &&& t2[a][b + 1][c]
                &&& exists|y2: int| b < y2 < r && #[trigger] t0[a][y2][c]
            } by {
            if t[a][b][c] {
                assert(t[a][b + 1][c]);
            } else {
                assert(a == x && c == z && md < b < y);
                if t0[x][y][z] {
                    assert(b < y < r && t0[a][y][c]);
                } else {
                    let y2 = choose|y2: int| y < y2 < r && #[trigger] t0[x][y2][z];
                    assert(b < y2 < r && t0[a][y2][c]);
                }
                if b + 1 < y {
                    assert(t2[a][b + 1][c]);
                } else {
                    assert(t[a][b + 1][c]);
                }
            }
        }
    }
    assert forall|a: int, b: int, c: int| in_cube(r, a, b, c) && #[trigger] g2[a][b][c] implies pot(d2, a, b, c) >= 0 by {
        if !(a == x && b == y && c == z) {
            assert(g[a][b][c]);
            assert(pot(d, a, b, c) >= 0);
        }
    }
    lemma_free_drop(g, g2, r, x, y, z);
}

/// `t2` differs from `t` only in layer `z`.
pub open spec fn same_outside(t: Cube, t2: Cube, r: int, z: int) -> bool {
    forall|a: int, b: int, c: int| in_cube(r, a, b, c) && c != z ==> #[trigger] t2[a][b][c] == t[a][b][c]
}

/// Grounds every filled cell of layer `z` next to a grounded cell of layer `zn`.
fn propagate_z(
    target2: &V3<bool>,
    ground: &mut V3<bool>,
    r: usize,
    z: usize,
    zn: usize,
    Ghost(t0): Ghost<Cube>,
    Ghost(d0): Ghost<Potential>,
    Ghost(z0): Ghost<int>,
) -> (dd: Ghost<Potential>)
    requires
        r == target2@.len(),
        z < r,
        zn < r,
        zn == z + 1 || zn + 1 == z,
        inward(z as int, z0, zn as int),
        r <= 0x7fff_fffe,
        tz_common(t0, view3(target2), view3(old(ground)), d0, r as int, z0),
    ensures
        tz_common(t0, view3(target2), view3(final(ground)), dd@, r as int, z0),
        grows(view3(old(ground)), view3(final(ground)), r as int),
        forall|a: int, b: int, c: int| in_cube(r as int, a, b, c) && c != z ==>
            #[trigger] view3(final(ground))[a][b][c] == view3(old(ground))[a][b][c],
        forall|a: int, b: int| 0 <= a < r && 0 <= b < r ==> #[trigger] view3(final(ground))[a][b][z as int]
            == (view3(old(ground))[a][b][z as int] || (view3(target2)[a][b][z as int] && view3(old(ground))[a][b][zn as int])),
{
    let ghost t = view3(target2);
    let ghost mut d = d0;
    let ghost g_start = view3(ground);
    let ghost ri = r as int;
    let ghost zi = z as int;
    let mut x: usize = 0;
    while x < r
        invariant
            r == target2@.len(),
            z < r,
            zn < r,
            zn == z + 1 || zn + 1 == z,
            inward(z as int, z0, zn as int),
            t == view3(target2),
            ri == r,
            zi == z,
            x <= r,
            tz_common(t0, t, view3(ground), d, ri, z0),
            grows(g_start, view3(ground), ri),
            g_start == view3(old(ground)),
            forall|a: int, b: int, c: int| in_cube(ri, a, b, c) && c != zi ==> #[trigger] view3(ground)[a][b][c] == g_start[a][b][c],
            forall|a: int, b: int| 0 <= a < ri && 0 <= b < ri ==> #[trigger] view3(ground)[a][b][zi]
                == (g_start[a][b][zi] || (a < x && t[a][b][zi] && g_start[a][b][zn as int])),
        decreases r - x,
    {
        let mut y: usize = 0;
        while y < r
            invariant
                r == target2@.len(),
                z < r,
                zn < r,
                zn == z + 1 || zn + 1 == z,
                inward(z as int, z0, zn as int),
                t == view3(target2),
                ri == r,
                zi == z,
                x < r,
                y <= r,
                tz_common(t0, t, view3(ground), d, ri, z0),
                grows(g_start, view3(ground), ri),
                g_start == view3(old(ground)),
                forall|a: int, b: int, c: int| in_cube(ri, a, b, c) && c != zi ==> #[trigger] view3(ground)[a][b][c] == g_start[a][b][c],
                forall|a: int, b: int| 0 <= a < ri && 0 <= b < ri ==> #[trigger] view3(ground)[a][b][zi]
                    == (g_start[a][b][zi] || ((a < x || (a == x && b < y)) && t[a][b][zi] && g_start[a][b][zn as int])),
            decreases r - y,
        {
            proof {
                lemma_cube_cell(target2, ri, x as int, y as int, zi);
                lemma_cube_cell(ground, ri, x as int, y as int, zi);
                lemma_cube_cell(ground, ri, x as int, y as int, zn as int);
            }
            if target2[x][y][z] && ground[x][y][zn] {
                let ghost g_before = view3(ground);
                set3(ground, x, y, z, true);
                proof {
                    let g2 = view3(ground);
                    lemma_cell_added(g_before, g2, ri, x as int, y as int, zi);
                    assert(pot(d, x as int, y as int, zn as int) >= 0);
                    let d2 = lemma_ground_cell(t0, t, g_before, g2, d, ri, x as int, y as int, zi, x as int, y as int, zn as int, z0);
                    d = d2;
                    assert(grows(g_start, g2, ri)) by {
                        assert forall|a: int, b: int, c: int| in_cube(ri, a, b, c) && #[trigger] g_start[a][b][c]
                            implies g2[a][b][c] by {
                            assert(g_before[a][b][c]);
                        }
                    }
                    assert forall|a: int, b: int, c: int| in_cube(ri, a, b, c) && c != zi implies #[trigger] g2[a][b][c] == g_start[a][b][c] by {
                        assert(g2[a][b][c] == (g_before[a][b][c] || (a == x && b == y && c == zi)));
                    }
                    assert forall|a: int, b: int| 0 <= a < ri && 0 <= b < ri implies #[trigger] g2[a][b][zi]
                        == (g_start[a][b][zi] || ((a < x || (a == x && b < y + 1)) && t[a][b][zi] && g_start[a][b][zn as int])) by {
                        assert(g2[a][b][zi] == (g_before[a][b][zi] || (a == x && b == y)));
                        assert(g_before[x as int][y as int][zn as int] == g_start[x as int][y as int][zn as int]);
                    }
                }
            } else {
                proof {
                    let g2 = view3(ground);
                    assert(g2[x as int][y as int][zn as int] == g_start[x as int][y as int][zn as int]);
                }
            }
            y += 1;
        }
        x += 1;
    }
    Ghost(d)
}

/// Stacks every grounded cell of layer `z`.
fn stack_layer(ground: &V3<bool>, r: usize, z: usize) -> (stack: Vec<P>)
    requires
        r == ground@.len(),
        z < r,
        r <= 0x7fff_fffe,
        is_cube(view3(ground), r as int),
    ensures
        stack_in(stack@, view3(ground), r as int, z as int),
        forall|a: int, b: int| 0 <= a < r && 0 <= b < r && #[trigger] view3(ground)[a][b][z as int] ==> in_stack_z(stack@, a, b, z as int),
{
    let ghost g = view3(ground);
    let ghost ri = r as int;
    let mut stack: Vec<P> = Vec::new();
    let mut x: usize = 0;
    while x < r
        invariant
            r == ground@.len(),
            z < r,
            r <= 0x7fff_fffe,
            g == view3(ground),
            ri == r,
            is_cube(g, ri),
            x <= r,
            stack_in(stack@, g, ri, z as int),
            forall|a: int, b: int| 0 <= a < x && 0 <= b < ri && #[trigger] g[a][b][z as int] ==> in_stack_z(stack@, a, b, z as int),
        decreases r - x,
    {
        let mut y: usize = 0;
        while y < r
            invariant
                r == ground@.len(),
                z < r,
                r <= 0x7fff_fffe,
                g == view3(ground),
                ri == r,
                is_cube(g, ri),
                x < r,
                y <= r,
                stack_in(stack@, g, ri, z as int),
                forall|a: int, b: int| ((0 <= a < x && 0 <= b < ri) || (a == x && 0 <= b < y)) && #[trigger] g[a][b][z as int]
                    ==> in_stack_z(stack@, a, b, z as int),
            decreases r - y,
        {
            proof {
                lemma_cube_cell(ground, ri, x as int, y as int, z as int);
            }
            if ground[x][y][z] {
                let ghost s_before = stack@;
                stack.push(P::new(x as i32, y as i32, z as i32));
                assert forall|kk: int| 0 <= kk < stack@.len() implies {
                    let s = #[trigger] stack@[kk];
                    &&& in_cube(ri, s.x as int, s.y as int, s.z as int)
                    &&& s.z == z
                    &&& g[s.x as int][s.y as int][s.z as int]
                } by {
                    if kk < stack@.len() - 1 {
                        assert(stack@[kk] == s_before[kk]);
                    }
                }
                assert forall|a: int, b: int| ((0 <= a < x && 0 <= b < ri) || (a == x && 0 <= b < y + 1)) && #[trigger] g[a][b][z as int]
                    implies in_stack_z(stack@, a, b, z as int) by {
                    if a == x && b == y {
                        assert(stack@[stack@.len() - 1] == P { x: a as i32, y: b as i32, z: z as i32 });
                    } else {
                        let k = choose|k: int| 0 <= k < s_before.len() && s_before[k] == (P { x: a as i32, y: b as i32, z: z as i32 });
                        assert(stack@[k] == s_before[k]);
                    }
                }
            }
            y += 1;
        }
        x += 1;
    }
    stack
}

/// Processes layer `z` walking in direction `dir` away from the middle layer
/// `z0`: grounds the layer from its neighbor on the middle side (except for the
/// two middle layers), spreads within the layer, and adds supports until every
/// filled cell of the layer is grounded.
fn process_z(
    target2: &mut V3<bool>,
    ground: &mut V3<bool>,
    r: usize,
    z: usize,
    z0: usize,
    dir: i32,
    Ghost(t0): Ghost<Cube>,
    Ghost(d0): Ghost<Potential>,
) -> (dd: Ghost<Potential>)
    requires
        r == old(target2)@.len(),
        z < r,
        r <= 0x7fff_fffe,
        (dir == -1 && z0 <= z && (z0 >= 1 || z == z0)) || (dir == 1 && z < z0 && z0 <= r),
        tz_common(t0, view3(old(target2)), view3(old(ground)), d0, r as int, z0 as int),
        forall|a: int, b: int| 0 <= a < r && 0 <= b < r ==>
            #[trigger] view3(old(ground))[a][b][z as int] == (b == 0 && view3(old(target2))[a][0][z as int]),
        !middle(z as int, z0 as int) ==> forall|a: int, b: int| 0 <= a < r && 0 <= b < r ==>
            #[trigger] view3(old(ground))[a][b][z + dir] == view3(old(target2))[a][b][z + dir],
    ensures
        r == final(target2)@.len(),
        tz_common(t0, view3(final(target2)), view3(final(ground)), dd@, r as int, z0 as int),
        grows(view3(old(ground)), view3(final(ground)), r as int),
        same_outside(view3(old(target2)), view3(final(target2)), r as int, z as int),
        forall|a: int, b: int| 0 <= a < r && 0 <= b < r && #[trigger] view3(final(target2))[a][b][z as int]
            ==> view3(final(ground))[a][b][z as int],
        view3(final(target2)) == layer_start_z(view3(old(target2)),
            seeds_z(view3(old(target2)), z as int, z + dir, middle(z as int, z0 as int)), r as int, z as int),
        forall|a: int, b: int, c: int| in_cube(r as int, a, b, c) && c != z ==>
            #[trigger] view3(final(ground))[a][b][c] == view3(old(ground))[a][b][c],
        forall|a: int, b: int| 0 <= a < r && 0 <= b < r ==>
            #[trigger] view3(final(ground))[a][b][z as int] == view3(final(target2))[a][b][z as int],
{
    let ghost ri = r as int;
    let ghost zi = z as int;
    let ghost mut d = d0;
    let ghost t_start = view3(target2);
    let ghost g_start = view3(ground);
    if z != z0 && z != z0 - 1 {
        let zn = (z as i32 + dir) as usize;
        let Ghost(d1) = propagate_z(target2, ground, r, z, zn, Ghost(t0), Ghost(d), Ghost(z0 as int));
        proof {
            d = d1;
        }
    }
    let ghost seeds = seeds_z(t_start, zi, z + dir, middle(zi, z0 as int));
    proof {
        let g = view3(ground);
        assert forall|a: int, b: int| 0 <= a < ri && 0 <= b < ri implies #[trigger] zlayer_of(g, zi)(a, b) == seeds(a, b) by {
            if !middle(zi, z0 as int) {
                assert(g_start[a][b][z + dir] == t_start[a][b][z + dir]);
            }
        }
    }
    let mut stack = stack_layer(ground, r, z);
    let ghost big_l = layer_start_z(t_start, seeds, ri, zi);
    proof {
        let g = view3(ground);
        assert forall|a: int, b: int| 0 <= a < ri && 0 <= b < ri implies #[trigger] stack_set(stack@, zi)(a, b) == seeds(a, b) by {
            assert(zlayer_of(g, zi)(a, b) == seeds(a, b));
            if in_stack_z(stack@, a, b, zi) {
                let k = choose|k: int| 0 <= k < stack@.len() && stack@[k] == (P { x: a as i32, y: b as i32, z: zi as i32 });
                let pk = stack@[k];
                assert(g[pk.x as int][pk.y as int][pk.z as int]);
                assert(g[a][b][zi]);
            }
            if g[a][b][zi] {
                assert(in_stack_z(stack@, a, b, zi));
            }
        }
        lemma_flooded_congr(t_start, zi, seeds, zlayer_of(g, zi), seeds, stack_set(stack@, zi), ri);
        lemma_layer_run_z_congr(t_start, flooded_z(t_start, zi, seeds, seeds, ri),
            flooded_z(t_start, zi, zlayer_of(g, zi), stack_set(stack@, zi), ri), ri, zi);
    }
    loop
        invariant_except_break
            big_l == layer_run_z(view3(target2), flooded_z(view3(target2), zi, zlayer_of(view3(ground), zi), stack_set(stack@, zi), ri), ri, zi),
        invariant
            r == target2@.len(),
            ri == r,
            zi == z,
            z < r,
            r <= 0x7fff_fffe,
            tz_common(t0, view3(target2), view3(ground), d, ri, z0 as int),
            grows(g_start, view3(ground), ri),
            same_outside(t_start, view3(target2), ri, zi),
            stack_in(stack@, view3(ground), ri, zi),
            forall|a: int, b: int, c: int| in_cube(ri, a, b, c) && c != zi ==> #[trigger] view3(ground)[a][b][c] == g_start[a][b][c],
        ensures
            view3(target2) == big_l,
            forall|a: int, b: int, c: int| in_cube(ri, a, b, c) && c != zi ==> #[trigger] view3(ground)[a][b][c] == g_start[a][b][c],
            r == target2@.len(),
            tz_common(t0, view3(target2), view3(ground), d, ri, z0 as int),
            grows(g_start, view3(ground), ri),
            same_outside(t_start, view3(target2), ri, zi),
            forall|a: int, b: int| 0 <= a < ri && 0 <= b < ri ==>
                !#[trigger] pending_in(view3(target2), view3(ground), zi)(a, b),
        decreases count2(free_in(view3(ground), zi), ri, ri),
    {
        let ghost g_pre = view3(ground);
        let ghost s_pre = stack@;
        let ghost t_cur = view3(target2);
        let Ghost(d2) = flood_z(target2, ground, &mut stack, r, z, Ghost(t0), Ghost(d), Ghost(z0 as int));
        proof {
            d = d2;
            let g_fl = view3(ground);
            lemma_layer_run_z_congr(t_cur, flooded_z(t_cur, zi, zlayer_of(g_pre, zi), stack_set(s_pre, zi), ri),
                zlayer_of(g_fl, zi), ri, zi);
        }
        let ghost g_fl = view3(ground);
        let (max_d, q) = pick_z(target2, ground, r, z);
        if max_d == -2 {
            proof {
                assert(layer_run_z(t_cur, zlayer_of(g_fl, zi), ri, zi) == t_cur);
            }
            break;
        }
        proof {
            lemma_pick_upto_z(t_cur, zlayer_of(g_fl, zi), zi, ri, ri);
        }
        let ghost t_before = view3(target2);
        let ghost g_before = view3(ground);
        let qx = q.x as usize;
        let qy = q.y as usize;
        proof {
            lemma_cube_cell(ground, ri, qx as int, qy as int, zi);
        }
        set3(ground, qx, qy, z, true);
        proof {
            lemma_cell_added(g_before, view3(ground), ri, qx as int, qy as int, zi);
        }
        stack.push(q);
        proof {
            lemma_cube_plane(target2, ri, qx as int);
            lemma_cube_plane(ground, ri, qx as int);
        }
        let mut k: usize = qy;
        while k > 0 && !(target2[qx][k - 1][z] && ground[qx][k - 1][z])
            invariant
                r == target2@.len(),
                ri == r,
                zi == z,
                z < r,
                qx < r,
                qy < r,
                choice_z(t_before, g_before, ri, zi, max_d as int, q),
                cell_added(g_before, view3(ground), ri, qx as int, qy as int, zi),
                qx == q.x,
                qy == q.y,
                max_d < k <= qy,
                target2@[qx as int]@.len() == r,
                forall|b: int| 0 <= b < r ==> (#[trigger] target2@[qx as int]@[b])@.len() == r,
                ground@[qx as int]@.len() == r,
                forall|b: int| 0 <= b < r ==> (#[trigger] ground@[qx as int]@[b])@.len() == r,
                column_added(t_before, view3(target2), ri, qx as int, zi, k as int - 1, qy as int),
            decreases k,
        {
            let ghost t_mid = view3(target2);
            proof {
                lemma_cube_cell(target2, ri, qx as int, k - 1, zi);
                lemma_cube_cell(ground, ri, qx as int, k - 1, zi);
                if k - 1 == max_d {
                    assert(t_before[qx as int][k - 1][zi] && g_before[qx as int][k - 1][zi]);
                    assert(t_mid[qx as int][k - 1][zi]);
                    assert(view3(ground)[qx as int][k - 1][zi]);
                }
            }
            set3(target2, qx, k - 1, z, true);
            proof {
                let t2 = view3(target2);
                lemma_cell_added(t_mid, t2, ri, qx as int, k - 1, zi);
                assert(column_added(t_before, t2, ri, qx as int, zi, k as int - 2, qy as int)) by {
                    assert forall|a: int, b: int, c: int| in_cube(ri, a, b, c) implies
                        #[trigger] t2[a][b][c] == (t_before[a][b][c] || (a == qx && c == zi && k - 2 < b < qy)) by {
                        assert(t2[a][b][c] == (t_mid[a][b][c] || (a == qx && b == k - 1 && c == zi)));
                    }
                }
                lemma_cube_plane(target2, ri, qx as int);
            }
            k -= 1;
        }
        proof {
            let t2 = view3(target2);
            let g2 = view3(ground);
            if k > 0 {
                lemma_cube_cell(target2, ri, qx as int, k - 1, zi);
                lemma_cube_cell(ground, ri, qx as int, k - 1, zi);
                assert(t2[qx as int][k - 1][zi] && g2[qx as int][k - 1][zi]);
                if k - 1 > max_d {
                    assert(t2[qx as int][k - 1][zi] == t_before[qx as int][k - 1][zi]);
                    assert(g2[qx as int][k - 1][zi] == g_before[qx as int][k - 1][zi]);
                    assert(!(t_before[qx as int][k - 1][zi] && g_before[qx as int][k - 1][zi]));
                }
            }
            assert(k as int - 1 == max_d);
            lemma_support_z(t0, t_before, t2, g_before, g2, d, ri, zi, max_d as int, q, z0 as int);
            assert(stack_in(stack@, g2, ri, zi)) by {
                assert forall|kk: int| 0 <= kk < stack@.len() implies {
                    let s = #[trigger] stack@[kk];
                    &&& in_cube(ri, s.x as int, s.y as int, s.z as int)
                    &&& s.z == zi
                    &&& g2[s.x as int][s.y as int][s.z as int]
                } by {}
            }
            d = column_pot_z(d, qx as int, qy as int, zi, max_d as int);
            assert(grows(g_start, g2, ri));
            assert(same_outside(t_start, t2, ri, zi));
            lemma_count2_mono(free_in(g2, zi), free_in(g2, zi), ri, ri);
            let gl = zlayer_of(g_fl, zi);
            assert(max_d == top_below_z(t_cur, gl, qx as int, qy as int, zi));
            let wc = with_column_z(t_cur, ri, gl, qx as int, qy as int, zi);
            assert(t2 =~~= wc) by {
                assert forall|a: int| 0 <= a < ri implies #[trigger] t2[a] =~~= wc[a] by {
                    assert forall|b: int| 0 <= b < ri implies #[trigger] t2[a][b] =~~= wc[a][b] by {
                        assert forall|c: int| 0 <= c < ri implies #[trigger] t2[a][b][c] == wc[a][b][c] by {
                            assert(in_cube(ri, a, b, c));
                        }
                    }
                }
            }
            assert(stack@ =~= seq![q]);
            assert forall|a: int, b: int| 0 <= a < ri && 0 <= b < ri implies
                #[trigger] zlayer_of(g2, zi)(a, b) == add_cell(gl, qx as int, qy as int)(a, b) by {
                assert(g2[a][b][zi] == (g_fl[a][b][zi] || (a == qx && b == qy && zi == zi)));
            }
            assert forall|a: int, b: int| 0 <= a < ri && 0 <= b < ri implies
                #[trigger] stack_set(stack@, zi)(a, b) == single(qx as int, qy as int)(a, b) by {
                if in_stack_z(stack@, a, b, zi) {
                    assert(stack@[0] == q);
                }
                if a == qx && b == qy {
                    assert(stack@[0] == (P { x: a as i32, y: b as i32, z: zi as i32 }));
                }
            }
            lemma_flooded_congr(t2, zi, add_cell(gl, qx as int, qy as int), zlayer_of(g2, zi),
                single(qx as int, qy as int), stack_set(stack@, zi), ri);
            lemma_layer_run_z_congr(t2, flooded_z(t2, zi, add_cell(gl, qx as int, qy as int), single(qx as int, qy as int), ri),
                flooded_z(t2, zi, zlayer_of(g2, zi), stack_set(stack@, zi), ri), ri, zi);
            assert forall|a: int, b: int, c: int| in_cube(ri, a, b, c) && c != zi implies #[trigger] g2[a][b][c] == g_start[a][b][c] by {
                assert(g2[a][b][c] == (g_fl[a][b][c] || (a == qx && b == qy && c == zi)));
            }
        }
    }
    proof {
        let t = view3(target2);
        let g = view3(ground);
        assert forall|a: int, b: int| 0 <= a < r && 0 <= b < r && #[trigger] t[a][b][zi] implies g[a][b][zi] by {
            assert(!pending_in(t, g, zi)(a, b));
        }
        assert forall|a: int, b: int| 0 <= a < r && 0 <= b < r implies #[trigger] g[a][b][zi] == t[a][b][zi] by {
            assert(!pending_in(t, g, zi)(a, b));
            if g[a][b][zi] {
                assert(pot(d, a, b, zi) >= 0);
            }
        }
    }
    Ghost(d)
}

/// Every filled cell of the layers `c` with `lo <= c < hi` is grounded.
pub open spec fn layers_done(t: Cube, g: Cube, r: int, lo: int, hi: int) -> bool {
    forall|a: int, b: int, c: int| in_cube(r, a, b, c) && lo <= c < hi && #[trigger] t[a][b][c] ==> g[a][b][c]
}

proof fn lemma_layers_done_kept(t: Cube, g: Cube, t2: Cube, g2: Cube, r: int, lo: int, hi: int, z: int)
    requires
        layers_done(t, g, r, lo, hi),
        grows(g, g2, r),
        same_outside(t, t2, r, z),
        !(lo <= z < hi),
    ensures
        layers_done(t2, g2, r, lo, hi),
{
    assert forall|a: int, b: int, c: int| in_cube(r, a, b, c) && lo <= c < hi && #[trigger] t2[a][b][c] implies g2[a][b][c] by {
        assert(t[a][b][c]);
        assert(g[a][b][c]);
    }
}

/// Adds supports so that the shape can be built outward from the middle layer
/// `z0`: layers `z0, z0 + 1, ...` and then `z0 - 1, z0 - 2, ...`.  In each
/// layer, cells are grounded from the floor and (except in the two middle
/// layers) from the neighbor layer on the middle side, then spread in the
/// positive `x` and `y` directions; a cell that stays ungrounded gets a column
/// filled down to the next filled grounded cell below it (or to the floor).
///
/// The result is exactly the layers from `z0` up (`z_up_from`) and then those
/// below `z0` downwards (`z_down_from`); it contains the shape, every added
/// cell hangs below a cell of the shape, and every filled cell of the result
/// is connected to the floor.  From the middle outward: the layers `z0..=hi`,
/// and the layers `lo..=z0 - 1`, are each connected to the floor through
/// cells of those layers alone.
pub fn target_z(target: &V3<bool>, z0: usize) -> (res: V3<bool>)
    requires
        is_cube(view3(target), target@.len() as int),
        target@.len() <= 0x7fff_fffe,
        clear_of_far_xy(view3(target), target@.len() as int),
        target@.len() == 0 || (z0 <= target@.len() && (z0 >= 1 || target@.len() == 1)),
    ensures
        is_cube(view3(&res), target@.len() as int),
        contains_cube(view3(target), view3(&res), target@.len() as int),
        hanging(view3(target), view3(&res), target@.len() as int),
        grounded(view3(&res), target@.len() as int),
        view3(&res) == z_down_from(z_up_from(view3(target), target@.len() as int, z0 as int, z0 as int),
            target@.len() as int, z0 as int, z0 as int),
        forall|hi: int| #[trigger] grounded(zlayers(view3(&res), target@.len() as int, z0 as int, hi), target@.len() as int),
        forall|lo: int| #[trigger] grounded(zlayers(view3(&res), target@.len() as int, lo, z0 - 1), target@.len() as int),
{
    let r = target.len();
    let ghost t0 = view3(target);
    let ghost ri = r as int;
    let mut target2 = copy3(target);
    let mut ground = filled_grid3(false, r);
    assert(is_cube(view3(&ground), ri)) by {
        assert forall|a: int| 0 <= a < ri implies is_rect(#[trigger] view3(&ground)[a], ri, ri) by {}
    }
    ground_floor(&target2, &mut ground, r);
    let ghost mut d = floor_pot(t0, ri);
    proof {
        let g = view3(&ground);
        let t = view3(&target2);
        assert(contains_cube(t0, t, ri));
        assert(hanging(t0, t, ri));
        assert forall|x: int, y: int, z: int|
            in_cube(ri, x, y, z) && #[trigger] pot(d, x, y, z) >= 0 implies t[x][y][z] && supported(t, ri, d, x, y, z) by {
        }
        assert forall|x: int, y: int, z: int| in_cube(ri, x, y, z) && #[trigger] g[x][y][z] implies pot(d, x, y, z) >= 0 by {
        }
        assert(tz_common(t0, t, g, d, ri, z0 as int));
    }
    let mut z: usize = z0;
    while z < r
        invariant
            r == target@.len(),
            t0 == view3(target),
            ri == r,
            r <= 0x7fff_fffe,
            r == target2@.len(),
            r == 0 || (z0 <= r && (z0 >= 1 || r == 1)),
            z0 <= z,
            r == 0 || z <= r,
            tz_common(t0, view3(&target2), view3(&ground), d, ri, z0 as int),
            layers_done(view3(&target2), view3(&ground), ri, z0 as int, z as int),
            z_up_from(view3(&target2), ri, z0 as int, z as int) == z_up_from(t0, ri, z0 as int, z0 as int),
            forall|a: int, b: int, c: int| in_cube(ri, a, b, c) && (c >= z || c < z0) ==>
                #[trigger] view3(&ground)[a][b][c] == (b == 0 && view3(&target2)[a][0][c]),
            z > z0 ==> forall|a: int, b: int| 0 <= a < ri && 0 <= b < ri ==>
                #[trigger] view3(&ground)[a][b][z - 1] == view3(&target2)[a][b][z - 1],
        decreases r - z,
    {
        let ghost t1 = view3(&target2);
        let ghost g1 = view3(&ground);
        proof {
            assert forall|a: int, b: int| 0 <= a < r && 0 <= b < r implies
                #[trigger] g1[a][b][z as int] == (b == 0 && t1[a][0][z as int]) by {
                assert(in_cube(ri, a, b, z as int));
            }
        }
        let Ghost(d1) = process_z(&mut target2, &mut ground, r, z, z0, -1, Ghost(t0), Ghost(d));
        proof {
            d = d1;
            let t2 = view3(&target2);
            let g2 = view3(&ground);
            assert(z_up_from(t1, ri, z0 as int, z as int) == z_up_from(t2, ri, z0 as int, z + 1));
            assert forall|a: int, b: int, c: int| in_cube(ri, a, b, c) && (c >= z + 1 || c < z0) implies
                #[trigger] g2[a][b][c] == (b == 0 && t2[a][0][c]) by {
                assert(g2[a][b][c] == g1[a][b][c]);
                assert(g1[a][b][c] == (b == 0 && t1[a][0][c]));
                assert(in_cube(ri, a, 0, c));
                assert(t2[a][0][c] == t1[a][0][c]);
            }
            lemma_layers_done_kept(t1, g1, view3(&target2), view3(&ground), ri, z0 as int, z as int, z as int);
            let t2 = view3(&target2);
            let g2 = view3(&ground);
            assert forall|a: int, b: int, c: int| in_cube(ri, a, b, c) && z0 <= c < z + 1 && #[trigger] t2[a][b][c]
                implies g2[a][b][c] by {
                if c == z {
                    assert(t2[a][b][z as int]);
                }
            }
        }
        z += 1;
    }
    let ghost up = view3(&target2);
    proof {
        assert(z_up_from(up, ri, z0 as int, z as int) == up);
    }
    let mut k: usize = z0;
    while k > 0 && k <= r
        invariant
            r == target@.len(),
            t0 == view3(target),
            ri == r,
            r <= 0x7fff_fffe,
            r == target2@.len(),
            r == 0 || (z0 <= r && (z0 >= 1 || r == 1)),
            k <= z0,
            tz_common(t0, view3(&target2), view3(&ground), d, ri, z0 as int),
            r == 0 || layers_done(view3(&target2), view3(&ground), ri, z0 as int, ri),
            layers_done(view3(&target2), view3(&ground), ri, k as int, z0 as int),
            z_down_from(view3(&target2), ri, z0 as int, k as int) == z_down_from(up, ri, z0 as int, z0 as int),
            forall|a: int, b: int, c: int| in_cube(ri, a, b, c) && c < k ==>
                #[trigger] view3(&ground)[a][b][c] == (b == 0 && view3(&target2)[a][0][c]),
            k < z0 ==> forall|a: int, b: int| 0 <= a < ri && 0 <= b < ri ==>
                #[trigger] view3(&ground)[a][b][k as int] == view3(&target2)[a][b][k as int],
        decreases k,
    {
        let z = k - 1;
        let ghost t1 = view3(&target2);
        let ghost g1 = view3(&ground);
        proof {
            assert forall|a: int, b: int| 0 <= a < r && 0 <= b < r implies
                #[trigger] g1[a][b][z as int] == (b == 0 && t1[a][0][z as int]) by {
                assert(in_cube(ri, a, b, z as int));
            }
        }
        let Ghost(d1) = process_z(&mut target2, &mut ground, r, z, z0, 1, Ghost(t0), Ghost(d));
        proof {
            d = d1;
            let t2 = view3(&target2);
            let g2 = view3(&ground);
            assert(z_down_from(t1, ri, z0 as int, k as int) == z_down_from(t2, ri, z0 as int, k - 1));
            assert forall|a: int, b: int, c: int| in_cube(ri, a, b, c) && c < k - 1 implies
                #[trigger] g2[a][b][c] == (b == 0 && t2[a][0][c]) by {
                assert(g2[a][b][c] == g1[a][b][c]);
                assert(g1[a][b][c] == (b == 0 && t1[a][0][c]));
                assert(in_cube(ri, a, 0, c));
                assert(t2[a][0][c] == t1[a][0][c]);
            }
            lemma_layers_done_kept(t1, g1, view3(&target2), view3(&ground), ri, z0 as int, ri, z as int);
            lemma_layers_done_kept(t1, g1, view3(&target2), view3(&ground), ri, k as int, z0 as int, z as int);
            let t2 = view3(&target2);
            let g2 = view3(&ground);
            assert forall|a: int, b: int, c: int| in_cube(ri, a, b, c) && z <= c < z0 && #[trigger] t2[a][b][c]
                implies g2[a][b][c] by {
                if c == z {
                    assert(t2[a][b][z as int]);
                }
            }
        }
        k -= 1;
    }
    proof {
        assert(z_down_from(view3(&target2), ri, z0 as int, k as int) == view3(&target2));
    }
    proof {
        let t = view3(&target2);
        let g = view3(&ground);
        assert forall|x: int, yy: int, zz: int| in_cube(ri, x, yy, zz) && #[trigger] t[x][yy][zz] implies
            pot(d, x, yy, zz) >= 0 && supported(t, ri, d, x, yy, zz) by {
            if zz < z0 {
                assert(g[x][yy][zz]);
            } else {
                assert(g[x][yy][zz]);
            }
        }
        assert(certified(t, ri, d));
        assert forall|hi: int| #[trigger] grounded(zlayers(t, ri, z0 as int, hi), ri) by {
            lemma_grounded_outward(t, ri, d, z0 as int, z0 as int, hi);
        }
        assert forall|lo: int| #[trigger] grounded(zlayers(t, ri, lo, z0 - 1), ri) by {
            lemma_grounded_outward(t, ri, d, z0 as int, lo, z0 - 1);
        }
    }
    target2
}

} // verus!
