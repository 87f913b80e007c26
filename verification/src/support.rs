//! Support structures that make every voxel of a target shape connected to
//! the floor, so that it can be printed layer by layer.
use vstd::prelude::*;
use crate::grid::{V3, view3, is_cube, is_rect, copy3, filled_grid3, set3, lemma_cube_cell, lemma_cube_plane};
use crate::point::P;
use crate::order::SetMax;

verus! {

/// A grid of booleans viewed as a mathematical cube.
pub type Cube = Seq<Seq<Seq<bool>>>;

/// A potential assigned to cells of the grid.
pub type Potential = spec_fn(int, int, int) -> int;

/// `(x, y, z)` lies in `[0, r)^3`.
pub open spec fn in_cube(r: int, x: int, y: int, z: int) -> bool {
    0 <= x < r && 0 <= y < r && 0 <= z < r
}

/// The potential of a cell.
pub open spec fn pot(d: Potential, x: int, y: int, z: int) -> int {
    d(x, y, z)
}

/// `(a, b, c)` is a filled cell whose potential lies in `[0, k)`.
pub open spec fn lower(t: Cube, r: int, d: Potential, a: int, b: int, c: int, k: int) -> bool {
    in_cube(r, a, b, c) && t[a][b][c] && 0 <= pot(d, a, b, c) < k
}

/// Under `d`, the cell `(x, y, z)` rests on the floor (potential zero at `y == 0`)
/// or touches, through a side face or its bottom face, a filled cell of smaller
/// potential: a cell never hangs from the cell above it.
pub open spec fn supported(t: Cube, r: int, d: Potential, x: int, y: int, z: int) -> bool {
    let k = pot(d, x, y, z);
    ||| k == 0 && y == 0
    ||| k > 0 && {
        ||| lower(t, r, d, x - 1, y, z, k)
        ||| lower(t, r, d, x + 1, y, z, k)
        ||| lower(t, r, d, x, y - 1, z, k)
        ||| lower(t, r, d, x, y, z - 1, k)
        ||| lower(t, r, d, x, y, z + 1, k)
    }
}

/// `d` certifies that every filled cell of `t` is connected to the floor: each
/// filled cell has a nonnegative potential and is supported.
pub open spec fn certified(t: Cube, r: int, d: Potential) -> bool {
    forall|x: int, y: int, z: int|
        in_cube(r, x, y, z) && #[trigger] t[x][y][z] ==> pot(d, x, y, z) >= 0 && supported(t, r, d, x, y, z)
}

/// Every filled cell of `t` is connected to the floor `y == 0` by a chain of
/// face-adjacent filled cells that never steps up: some potential strictly
/// decreases along such chains and is zero only on the floor.
pub open spec fn grounded(t: Cube, r: int) -> bool {
    exists|d: Potential| certified(t, r, d)
}

/// The filled cells of `t` in the layers `0..=y0`.
pub open spec fn layers_upto(t: Cube, r: int, y0: int) -> Cube {
    Seq::new(r as nat, |a: int| Seq::new(r as nat, |b: int| Seq::new(r as nat, |c: int| t[a][b][c] && b <= y0)))
}

/// Layer by layer: when `t` is grounded, so is each stack of its bottom
/// layers `0..=y0`, through cells of those layers alone.
pub proof fn lemma_grounded_layers(t: Cube, r: int, y0: int)
    requires
        grounded(t, r),
    ensures
        grounded(layers_upto(t, r, y0), r),
{
    let d = choose|d: Potential| certified(t, r, d);
    let u = layers_upto(t, r, y0);
    assert forall|x: int, y: int, z: int| in_cube(r, x, y, z) && #[trigger] u[x][y][z] implies
        pot(d, x, y, z) >= 0 && supported(u, r, d, x, y, z) by {
        assert(t[x][y][z]);
        let k = pot(d, x, y, z);
        if k > 0 {
            if lower(t, r, d, x - 1, y, z, k) {
                assert(lower(u, r, d, x - 1, y, z, k));
            } else if lower(t, r, d, x + 1, y, z, k) {
                assert(lower(u, r, d, x + 1, y, z, k));
            } else if lower(t, r, d, x, y - 1, z, k) {
                assert(lower(u, r, d, x, y - 1, z, k));
            } else if lower(t, r, d, x, y, z - 1, k) {
                assert(lower(u, r, d, x, y, z - 1, k));
            } else {
                assert(lower(u, r, d, x, y, z + 1, k));
            }
        }
    }
    assert(certified(u, r, d));
}

/// Every cell of `d` with a nonnegative potential is filled and supported.
pub open spec fn assigned_ok(t: Cube, r: int, d: Potential) -> bool {
    forall|x: int, y: int, z: int|
        in_cube(r, x, y, z) && #[trigger] pot(d, x, y, z) >= 0 ==> t[x][y][z] && supported(t, r, d, x, y, z)
}

/// `t2` contains `t1` inside the cube.
pub open spec fn contains_cube(t1: Cube, t2: Cube, r: int) -> bool {
    forall|x: int, y: int, z: int| in_cube(r, x, y, z) && #[trigger] t1[x][y][z] ==> t2[x][y][z]
}

/// `d2` agrees with `d1` wherever `d1` is nonnegative.
pub open spec fn extends(d1: Potential, d2: Potential) -> bool {
    forall|x: int, y: int, z: int| #[trigger] pot(d1, x, y, z) >= 0 ==> pot(d2, x, y, z) == pot(d1, x, y, z)
}

/// `d` with the cell `(x, y, z)` set to `v`.
pub open spec fn assign(d: Potential, x: int, y: int, z: int, v: int) -> Potential {
    |a: int, b: int, c: int| if a == x && b == y && c == z { v } else { d(a, b, c) }
}

proof fn lemma_lower_mono(t1: Cube, t2: Cube, r: int, d1: Potential, d2: Potential, a: int, b: int, c: int, k: int)
    requires
        contains_cube(t1, t2, r),
        extends(d1, d2),
        lower(t1, r, d1, a, b, c, k),
    ensures
        lower(t2, r, d2, a, b, c, k),
{
    assert(pot(d1, a, b, c) >= 0);
    assert(t1[a][b][c]);
}

/// Growing the shape and extending the potential keeps every certified cell supported.
pub proof fn lemma_assigned_ok_mono(t1: Cube, t2: Cube, r: int, d1: Potential, d2: Potential)
    requires
        assigned_ok(t1, r, d1),
        contains_cube(t1, t2, r),
        extends(d1, d2),
    ensures
        forall|x: int, y: int, z: int|
            in_cube(r, x, y, z) && #[trigger] pot(d1, x, y, z) >= 0 ==> t2[x][y][z] && supported(t2, r, d2, x, y, z),
{
    assert forall|x: int, y: int, z: int|
        in_cube(r, x, y, z) && #[trigger] pot(d1, x, y, z) >= 0 implies t2[x][y][z] && supported(t2, r, d2, x, y, z) by {
        assert(t1[x][y][z]);
        assert(supported(t1, r, d1, x, y, z));
        assert(pot(d2, x, y, z) == pot(d1, x, y, z));
        let k = pot(d1, x, y, z);
        if k > 0 {
            if lower(t1, r, d1, x - 1, y, z, k) {
                lemma_lower_mono(t1, t2, r, d1, d2, x - 1, y, z, k);
            } else if lower(t1, r, d1, x + 1, y, z, k) {
                lemma_lower_mono(t1, t2, r, d1, d2, x + 1, y, z, k);
            } else if lower(t1, r, d1, x, y - 1, z, k) {
                lemma_lower_mono(t1, t2, r, d1, d2, x, y - 1, z, k);
            } else if lower(t1, r, d1, x, y, z - 1, k) {
                lemma_lower_mono(t1, t2, r, d1, d2, x, y, z - 1, k);
            } else {
                lemma_lower_mono(t1, t2, r, d1, d2, x, y, z + 1, k);
            }
        }
    }
}

// ---------------------------------------------------------------------------
// Counting cells of a square.

/// Number of `(a, c)` with `a < m`, `c < n` where `f` holds.
pub open spec fn count2(f: spec_fn(int, int) -> bool, m: int, n: int) -> int
    decreases m,
{
    if m <= 0 {
        0
    } else {
        count2(f, m - 1, n) + count_row(f, m - 1, n)
    }
}

/// Number of `c < n` where `f(a, c)` holds.
pub open spec fn count_row(f: spec_fn(int, int) -> bool, a: int, n: int) -> int
    decreases n,
{
    if n <= 0 {
        0
    } else {
        count_row(f, a, n - 1) + if f(a, n - 1) { 1int } else { 0int }
    }
}

proof fn lemma_count_row_mono(f: spec_fn(int, int) -> bool, g: spec_fn(int, int) -> bool, a: int, n: int)
    requires
        forall|c: int| 0 <= c < n && #[trigger] g(a, c) ==> f(a, c),
    ensures
        0 <= count_row(g, a, n) <= count_row(f, a, n),
        (exists|c: int| 0 <= c < n && #[trigger] f(a, c) && !g(a, c)) ==> count_row(g, a, n) < count_row(f, a, n),
    decreases n,
{
    if n > 0 {
        lemma_count_row_mono(f, g, a, n - 1);
        if exists|c: int| 0 <= c < n && #[trigger] f(a, c) && !g(a, c) {
            let c = choose|c: int| 0 <= c < n && #[trigger] f(a, c) && !g(a, c);
            if c < n - 1 {
                assert(exists|c: int| 0 <= c < n - 1 && #[trigger] f(a, c) && !g(a, c));
            }
        }
    }
}

/// Counting is monotone, and strictly so when a cell is lost.
pub proof fn lemma_count2_mono(f: spec_fn(int, int) -> bool, g: spec_fn(int, int) -> bool, m: int, n: int)
    requires
        forall|a: int, c: int| 0 <= a < m && 0 <= c < n && #[trigger] g(a, c) ==> f(a, c),
    ensures
        0 <= count2(g, m, n) <= count2(f, m, n),
        (exists|a: int, c: int| 0 <= a < m && 0 <= c < n && #[trigger] f(a, c) && !g(a, c)) ==> count2(g, m, n) < count2(f, m, n),
    decreases m,
{
    if m > 0 {
        lemma_count2_mono(f, g, m - 1, n);
        lemma_count_row_mono(f, g, m - 1, n);
        if exists|a: int, c: int| 0 <= a < m && 0 <= c < n && #[trigger] f(a, c) && !g(a, c) {
            let (a, c) = choose|a: int, c: int| 0 <= a < m && 0 <= c < n && #[trigger] f(a, c) && !g(a, c);
            if a < m - 1 {
                assert(exists|a: int, c: int| 0 <= a < m - 1 && 0 <= c < n && #[trigger] f(a, c) && !g(a, c));
            } else {
                assert(exists|c: int| 0 <= c < n && #[trigger] f(m - 1, c) && !g(m - 1, c));
            }
        }
    }
}

// ---------------------------------------------------------------------------
// Bottom-up supports.

/// The filled cells of `t` that are not in `t0` hang below cells of the
/// original shape: the cell right above is filled, and some cell of `t0`
/// further up the same column is filled.
pub open spec fn hanging(t0: Cube, t: Cube, r: int) -> bool {
    forall|x: int, y: int, z: int|
        in_cube(r, x, y, z) && #[trigger] t[x][y][z] && !t0[x][y][z] ==> {
            &&& y + 1 < r
            &&& t[x][y + 1][z]
            &&& exists|y2: int| y < y2 < r && #[trigger] t0[x][y2][z]
        }
}

/// Above the floor, the shape stays clear of the far `x` and `z` faces.
pub open spec fn clear_of_far_xz(t0: Cube, r: int) -> bool {
    forall|x: int, y: int, z: int|
        in_cube(r, x, y, z) && y >= 1 && #[trigger] t0[x][y][z] ==> x + 1 < r && z + 1 < r
}

/// Facts kept throughout the bottom-up construction.
pub open spec fn bu_common(t0: Cube, t: Cube, g: Cube, d: Potential, r: int) -> bool {
    &&& is_cube(t0, r)
    &&& is_cube(t, r)
    &&& is_cube(g, r)
    &&& contains_cube(t0, t, r)
    &&& hanging(t0, t, r)
    &&& assigned_ok(t, r, d)
    &&& forall|x: int, y: int, z: int| in_cube(r, x, y, z) && #[trigger] g[x][y][z] ==> pot(d, x, y, z) >= 0
    &&& clear_of_far_xz(t0, r)
}

/// Facts kept while layer `y` is processed.
pub open spec fn bu_layer(t0: Cube, t: Cube, g: Cube, d: Potential, r: int, y: int) -> bool {
    &&& forall|a: int, b: int, c: int| in_cube(r, a, b, c) && b >= y ==> #[trigger] t[a][b][c] == t0[a][b][c]
    &&& forall|a: int, b: int, c: int| in_cube(r, a, b, c) && b < y && #[trigger] t[a][b][c] ==> pot(d, a, b, c) >= 0
    &&& forall|a: int, b: int, c: int| in_cube(r, a, b, c) && b > y ==> #[trigger] pot(d, a, b, c) < 0 && !g[a][b][c]
    &&& forall|a: int, b: int, c: int| in_cube(r, a, b, c) && b == y ==> (#[trigger] pot(d, a, b, c) >= 0 <==> g[a][b][c])
}

/// Cells of layer `y` that are filled but not yet grounded.
pub open spec fn pending(t: Cube, g: Cube, y: int) -> spec_fn(int, int) -> bool {
    |a: int, c: int| t[a][y][c] && !g[a][y][c]
}

/// Assigning a potential to one more filled, supported cell keeps the certificate.
pub(crate) proof fn lemma_assign_one(t: Cube, r: int, d: Potential, x: int, y: int, z: int, v: int)
    requires
        assigned_ok(t, r, d),
        in_cube(r, x, y, z),
        pot(d, x, y, z) < 0,
        v >= 0,
        t[x][y][z],
        supported(t, r, assign(d, x, y, z, v), x, y, z),
    ensures
        assigned_ok(t, r, assign(d, x, y, z, v)),
        extends(d, assign(d, x, y, z, v)),
{
    let d2 = assign(d, x, y, z, v);
    assert forall|a: int, b: int, c: int| #[trigger] pot(d, a, b, c) >= 0 implies pot(d2, a, b, c) == pot(d, a, b, c) by {
    }
    lemma_assigned_ok_mono(t, t, r, d, d2);
    assert forall|a: int, b: int, c: int|
        in_cube(r, a, b, c) && #[trigger] pot(d2, a, b, c) >= 0 implies t[a][b][c] && supported(t, r, d2, a, b, c) by {
        if a == x && b == y && c == z {
        } else {
            assert(pot(d, a, b, c) >= 0);
        }
    }
}

/// The cells of layer `y` that are grounded are exactly what `stack` may hold.
pub open spec fn stack_ok(s: Seq<P>, g: Cube, r: int, y: int) -> bool {
    forall|k: int| 0 <= k < s.len() ==> {
        let p = #[trigger] s[k];
        &&& in_cube(r, p.x as int, p.y as int, p.z as int)
        &&& p.y == y
        &&& g[p.x as int][p.y as int][p.z as int]
    }
}

/// Grounds, in layer `y`, every filled cell reachable from the stacked cells by
/// steps in the positive `x` or `z` direction (the unit steps of `P::adj` that
/// stay in the layer).
fn flood_layer(
    target2: &V3<bool>,
    ground: &mut V3<bool>,
    stack: &mut Vec<P>,
    r: usize,
    y: usize,
    Ghost(t0): Ghost<Cube>,
    Ghost(d0): Ghost<Potential>,
) -> (dd: Ghost<Potential>)
    requires
        r == target2@.len(),
        1 <= y < r,
        r <= 0x7fff_fffe,
        bu_common(t0, view3(target2), view3(old(ground)), d0, r as int),
        bu_layer(t0, view3(target2), view3(old(ground)), d0, r as int, y as int),
        stack_ok(old(stack)@, view3(old(ground)), r as int, y as int),
        forall|a: int, c: int| 0 <= a < r && 0 <= c < r && #[trigger] view3(old(ground))[a][y as int][c] ==>
            in_stack(old(stack)@, a, y as int, c) || closed_at(view3(target2), view3(old(ground)), r as int, y as int, a, c),
    ensures
        bu_common(t0, view3(target2), view3(final(ground)), dd@, r as int),
        bu_layer(t0, view3(target2), view3(final(ground)), dd@, r as int, y as int),
        final(stack)@.len() == 0,
        count2(pending(view3(target2), view3(final(ground)), y as int), r as int, r as int)
            <= count2(pending(view3(target2), view3(old(ground)), y as int), r as int, r as int),
        forall|a: int, b: int, c: int| in_cube(r as int, a, b, c) && b != y ==>
            #[trigger] view3(final(ground))[a][b][c] == view3(old(ground))[a][b][c],
        forall|a: int, c: int| 0 <= a < r && 0 <= c < r ==>
            #[trigger] view3(final(ground))[a][y as int][c] == reach(view3(target2), y as int, layer_of(view3(old(ground)), y as int), r as int, a, c),
        forall|a: int, c: int| 0 <= a < r && 0 <= c < r && #[trigger] view3(final(ground))[a][y as int][c] ==>
            closed_at(view3(target2), view3(final(ground)), r as int, y as int, a, c),
{
    let ghost t = view3(target2);
    let ghost mut d = d0;
    let ghost g_start = view3(ground);
    let ghost ri = r as int;
    let ghost yi = y as int;
    while stack.len() > 0
        invariant
            r == target2@.len(),
            1 <= y < r,
            r <= 0x7fff_fffe,
            t == view3(target2),
            ri == r,
            yi == y,
            bu_common(t0, t, view3(ground), d, ri),
            bu_layer(t0, t, view3(ground), d, ri, yi),
            stack_ok(stack@, view3(ground), ri, yi),
            count2(pending(t, view3(ground), yi), ri, ri) <= count2(pending(t, g_start, yi), ri, ri),
            g_start == view3(old(ground)),
            forall|a: int, b: int, c: int| in_cube(ri, a, b, c) && b != yi ==> #[trigger] view3(ground)[a][b][c] == g_start[a][b][c],
            forall|a: int, c: int| 0 <= a < ri && 0 <= c < ri && #[trigger] g_start[a][yi][c] ==> view3(ground)[a][yi][c],
            forall|a: int, c: int| 0 <= a < ri && 0 <= c < ri && #[trigger] view3(ground)[a][yi][c] ==>
                reach(t, yi, layer_of(g_start, yi), ri, a, c),
            forall|a: int, c: int| 0 <= a < ri && 0 <= c < ri && #[trigger] view3(ground)[a][yi][c] ==>
                in_stack(stack@, a, yi, c) || closed_at(t, view3(ground), ri, yi, a, c),
        decreases count2(pending(t, view3(ground), yi), ri, ri), stack@.len(),
    {
        let ghost count_before = count2(pending(t, view3(ground), yi), ri, ri);
        let ghost len_before = stack@.len();
        let ghost stack_before = stack@;
        let p = stack.pop().unwrap();
        assert(stack@ == stack_before.drop_last());
        assert(p == stack_before[stack_before.len() - 1]);
        let ghost len_after_pop = stack@.len();
        assert(stack_ok(stack@, view3(ground), ri, yi)) by {
            assert forall|k: int| 0 <= k < stack@.len() implies #[trigger] stack@[k] == stack_before[k] by {}
        }
        let ghost px = p.x as int;
        let ghost pz = p.z as int;
        assert(in_cube(ri, px, yi, pz));
        assert(view3(ground)[px][yi][pz]);
        assert(pot(d, px, yi, pz) >= 0);
        assert(t[px][yi][pz] == t0[px][yi][pz]);
        assert(t[px][yi][pz]);
        assert(px + 1 < ri && pz + 1 < ri);
        proof {
            assert forall|a: int, c: int| 0 <= a < ri && 0 <= c < ri && #[trigger] view3(ground)[a][yi][c] implies
                in_stack(stack@, a, yi, c) || closed_at(t, view3(ground), ri, yi, a, c) || (a == px && c == pz) by {
                if in_stack(stack_before, a, yi, c) && !(a == px && c == pz) {
                    let k = choose|k: int| 0 <= k < stack_before.len() && stack_before[k] == (P { x: a as i32, y: yi as i32, z: c as i32 });
                    if k == stack_before.len() - 1 {
                        assert(stack_before[k] == p);
                    } else {
                        assert(stack@[k] == stack_before[k]);
                    }
                }
            }
            assert(reach(t, yi, layer_of(g_start, yi), ri, px, pz));
        }
        let qs = p.adj(r);
        assert(qs@.len() == 3);
        let mut i: usize = 0;
        while i < qs.len()
            invariant
                r == target2@.len(),
                1 <= y < r,
                r <= 0x7fff_fffe,
                t == view3(target2),
                ri == r,
                yi == y,
                bu_common(t0, t, view3(ground), d, ri),
                bu_layer(t0, t, view3(ground), d, ri, yi),
                stack_ok(stack@, view3(ground), ri, yi),
                count2(pending(t, view3(ground), yi), ri, ri) <= count_before,
                (stack@.len() == len_after_pop && count2(pending(t, view3(ground), yi), ri, ri) == count_before)
                    || count2(pending(t, view3(ground), yi), ri, ri) < count_before,
                count_before <= count2(pending(t, g_start, yi), ri, ri),
                len_after_pop + 1 == len_before,
                qs@ == seq![
                    P { x: (p.x + 1) as i32, y: p.y, z: p.z },
                    P { x: p.x, y: (p.y + 1) as i32, z: p.z },
                    P { x: p.x, y: p.y, z: (p.z + 1) as i32 },
                ],
                px == p.x,
                pz == p.z,
                p.y == y,
                px + 1 < ri,
                pz + 1 < ri,
                0 <= px,
                0 <= pz,
                t[px][yi][pz],
                pot(d, px, yi, pz) >= 0,
                i <= qs@.len(),
                g_start == view3(old(ground)),
                forall|a: int, b: int, c: int| in_cube(ri, a, b, c) && b != yi ==> #[trigger] view3(ground)[a][b][c] == g_start[a][b][c],
                forall|a: int, c: int| 0 <= a < ri && 0 <= c < ri && #[trigger] g_start[a][yi][c] ==> view3(ground)[a][yi][c],
                forall|a: int, c: int| 0 <= a < ri && 0 <= c < ri && #[trigger] view3(ground)[a][yi][c] ==>
                    reach(t, yi, layer_of(g_start, yi), ri, a, c),
                forall|a: int, c: int| 0 <= a < ri && 0 <= c < ri && #[trigger] view3(ground)[a][yi][c] ==>
                    in_stack(stack@, a, yi, c) || closed_at(t, view3(ground), ri, yi, a, c) || (a == px && c == pz),
                view3(ground)[px][yi][pz],
                i >= 1 ==> (t[px + 1][yi][pz] ==> view3(ground)[px + 1][yi][pz]),
                i >= 3 ==> (t[px][yi][pz + 1] ==> view3(ground)[px][yi][pz + 1]),
            decreases qs@.len() - i,
        {
            let q = qs[i];
            proof {
                if i == 0 {
                    assert(q.x == p.x + 1 && q.y == p.y && q.z == p.z);
                    lemma_cube_cell(target2, ri, px + 1, yi, pz);
                    lemma_cube_cell(ground, ri, px + 1, yi, pz);
                } else if i == 2 {
                    assert(q.x == p.x && q.y == p.y && q.z == p.z + 1);
                    lemma_cube_cell(target2, ri, px, yi, pz + 1);
                    lemma_cube_cell(ground, ri, px, yi, pz + 1);
                } else {
                    assert(q.y == p.y + 1);
                }
            }
            if q.y == y as i32 && target2[q.x as usize][q.y as usize][q.z as usize]
                && !ground[q.x as usize][q.y as usize][q.z as usize] {
                let ghost qx = q.x as int;
                let ghost qz = q.z as int;
                let ghost g_before = view3(ground);
                let ghost k = pot(d, px, yi, pz);
                assert(pot(d, qx, yi, qz) < 0);
                let ghost d2 = assign(d, qx, yi, qz, k + 1);
                let ghost d_old = d;
                proof {
                    assert(lower(t, ri, d2, px, yi, pz, k + 1));
                    if i == 0 {
                        assert(qx - 1 == px && qz == pz);
                    } else {
                        assert(qz - 1 == pz && qx == px);
                    }
                    assert(supported(t, ri, d2, qx, yi, qz));
                    lemma_assign_one(t, ri, d, qx, yi, qz, k + 1);
                }
                set3(ground, q.x as usize, q.y as usize, q.z as usize, true);
                proof {
                    let g2 = view3(ground);
                    assert(is_cube(g2, ri)) by {
                        assert forall|a: int| 0 <= a < ri implies is_rect(#[trigger] g2[a], ri, ri) by {
                            if a == qx {
                                assert forall|b: int| 0 <= b < ri implies #[trigger] g2[a][b].len() == ri by {
                                    if b == yi {
                                    } else {
                                        assert(g2[a][b] == g_before[a][b]);
                                    }
                                }
                            } else {
                                assert(g2[a] == g_before[a]);
                            }
                        }
                    }
                    assert forall|a: int, b: int, c: int| in_cube(ri, a, b, c) implies
                        #[trigger] g2[a][b][c] == (g_before[a][b][c] || (a == qx && b == yi && c == qz)) by {
                        if a == qx && b == yi {
                        } else if a == qx {
                            assert(g2[a][b] == g_before[a][b]);
                        } else {
                            assert(g2[a] == g_before[a]);
                        }
                    }
                    d = d2;
                    assert(bu_layer(t0, t, g2, d, ri, yi)) by {
                        assert forall|a: int, b: int, c: int| in_cube(ri, a, b, c) && b > yi implies
                            #[trigger] pot(d, a, b, c) < 0 && !g2[a][b][c] by {
                            assert(pot(d_old, a, b, c) < 0);
                            assert(pot(d, a, b, c) == pot(d_old, a, b, c));
                            assert(g2[a][b][c] == g_before[a][b][c]);
                        }
                        assert forall|a: int, b: int, c: int| in_cube(ri, a, b, c) && b == yi implies
                            (#[trigger] pot(d, a, b, c) >= 0 <==> g2[a][b][c]) by {
                            assert(g2[a][b][c] == (g_before[a][b][c] || (a == qx && b == yi && c == qz)));
                            if !(a == qx && c == qz) {
                                assert(pot(d, a, b, c) == pot(d_old, a, b, c));
                                assert(pot(d_old, a, b, c) >= 0 <==> g_before[a][b][c]);
                            }
                        }
                        assert forall|a: int, b: int, c: int| in_cube(ri, a, b, c) && b < yi && #[trigger] t[a][b][c]
                            implies pot(d, a, b, c) >= 0 by {
                        }
                    }
                    assert(count2(pending(t, g2, yi), ri, ri) < count2(pending(t, g_before, yi), ri, ri)) by {
                        assert(pending(t, g_before, yi)(qx, qz));
                        assert(!pending(t, g2, yi)(qx, qz));
                        lemma_count2_mono(pending(t, g_before, yi), pending(t, g2, yi), ri, ri);
                    }
                }
                let ghost s_pre = stack@;
                stack.push(q);
                proof {
                    assert forall|kk: int| 0 <= kk < stack@.len() implies {
                        let s = #[trigger] stack@[kk];
                        &&& in_cube(ri, s.x as int, s.y as int, s.z as int)
                        &&& s.y == yi
                        &&& view3(ground)[s.x as int][s.y as int][s.z as int]
                    } by {
                        if kk < stack@.len() - 1 {
                            let s = stack@[kk];
                            assert(g_before[s.x as int][s.y as int][s.z as int]);
                        }
                    }
                    let g2 = view3(ground);
                    assert forall|a: int, c: int| 0 <= a < ri && 0 <= c < ri && #[trigger] g2[a][yi][c] implies
                        reach(t, yi, layer_of(g_start, yi), ri, a, c) by {
                        if a == qx && c == qz {
                            assert(reach(t, yi, layer_of(g_start, yi), ri, px, pz));
                            assert(g_before[px][yi][pz]);
                        } else {
                            assert(g_before[a][yi][c]);
                        }
                    }
                    assert forall|a: int, c: int| 0 <= a < ri && 0 <= c < ri && #[trigger] g2[a][yi][c] implies
                        in_stack(stack@, a, yi, c) || closed_at(t, g2, ri, yi, a, c) || (a == px && c == pz) by {
                        if a == qx && c == qz {
                            assert(stack@[stack@.len() - 1] == q);
                            assert(q == P { x: a as i32, y: yi as i32, z: c as i32 });
                        } else {
                            assert(g_before[a][yi][c]);
                            if in_stack(s_pre, a, yi, c) {
                                let k = choose|k: int| 0 <= k < s_pre.len() && s_pre[k] == (P { x: a as i32, y: yi as i32, z: c as i32 });
                                assert(stack@[k] == s_pre[k]);
                            }
                        }
                    }
                }
            } else {
                proof {
                    if i == 0 {
                        assert(q.y == p.y);
                    } else if i == 2 {
                        assert(q.y == p.y);
                    }
                }
            }
            i += 1;
        }
        proof {
            lemma_count2_mono(pending(t, view3(ground), yi), pending(t, view3(ground), yi), ri, ri);
            assert(closed_at(t, view3(ground), ri, yi, px, pz));
        }
    }
    proof {
        let g = view3(ground);
        assert forall|a: int, c: int| 0 <= a < ri && 0 <= c < ri implies
            #[trigger] g[a][yi][c] == reach(t, yi, layer_of(g_start, yi), ri, a, c) by {
            lemma_closed_reach(t, g, layer_of(g_start, yi), ri, yi, a, c);
        }
    }
    Ghost(d)
}

/// `q` (in layer `y`) is filled but not grounded, and `md` is the highest
/// layer below `y` whose cell under `q` is filled (`-1` when there is none).
pub open spec fn support_choice(t: Cube, g: Cube, r: int, y: int, md: int, q: P) -> bool {
    &&& in_cube(r, q.x as int, q.y as int, q.z as int)
    &&& q.y == y
    &&& t[q.x as int][y][q.z as int]
    &&& !g[q.x as int][y][q.z as int]
    &&& -1 <= md < y
    &&& md >= 0 ==> t[q.x as int][md][q.z as int]
    &&& forall|b: int| md < b < y ==> !#[trigger] t[q.x as int][b][q.z as int]
}

/// Finds a filled but ungrounded cell of layer `y` whose highest filled cell
/// below is highest (the first such cell in `x`-then-`z` order); returns that
/// height (`-1` when the column below is empty) with the cell, or `-2` when
/// every filled cell of the layer is grounded.
fn pick_support(target2: &V3<bool>, ground: &V3<bool>, r: usize, y: usize) -> (res: (i32, P))
    requires
        r == target2@.len(),
        1 <= y < r,
        r <= 0x7fff_fffe,
        is_cube(view3(target2), r as int),
        is_cube(view3(ground), r as int),
    ensures
        res.0 == -2 ==> forall|a: int, c: int|
            0 <= a < r && 0 <= c < r ==> !#[trigger] pending(view3(target2), view3(ground), y as int)(a, c),
        res.0 != -2 ==> support_choice(view3(target2), view3(ground), r as int, y as int, res.0 as int, res.1),
        (res.0 as int, res.1.x as int, res.1.z as int) == pick_upto(view3(target2), layer_of(view3(ground), y as int), y as int, r as int, r as int),
        res.0 != -2 ==> res.1.y == y,
{
    let ghost t = view3(target2);
    let ghost g = view3(ground);
    let ghost ri = r as int;
    let ghost yi = y as int;
    let mut max_d: i32 = -2;
    let mut q = P::new(0, 0, 0);
    let mut x: usize = 0;
    while x < r
        invariant
            r == target2@.len(),
            1 <= y < r,
            r <= 0x7fff_fffe,
            t == view3(target2),
            g == view3(ground),
            ri == r,
            yi == y,
            is_cube(t, ri),
            is_cube(g, ri),
            x <= r,
            max_d == -2 ==> forall|a: int, c: int| 0 <= a < x && 0 <= c < r ==> !#[trigger] pending(t, g, yi)(a, c),
            max_d != -2 ==> support_choice(t, g, ri, yi, max_d as int, q),
            (max_d as int, q.x as int, q.z as int) == pick_upto(t, layer_of(g, yi), yi, ri, x as int),
            max_d != -2 ==> q.y == y,
        decreases r - x,
    {
        let mut z: usize = 0;
        while z < r
            invariant
                r == target2@.len(),
                1 <= y < r,
                r <= 0x7fff_fffe,
                t == view3(target2),
                g == view3(ground),
                ri == r,
                yi == y,
                is_cube(t, ri),
                is_cube(g, ri),
                x < r,
                z <= r,
                max_d == -2 ==> forall|a: int, c: int|
                    ((0 <= a < x && 0 <= c < r) || (a == x && 0 <= c < z)) ==> !#[trigger] pending(t, g, yi)(a, c),
                max_d != -2 ==> support_choice(t, g, ri, yi, max_d as int, q),
                (max_d as int, q.x as int, q.z as int) == pick_row(t, layer_of(g, yi), yi, pick_upto(t, layer_of(g, yi), yi, ri, x as int), x as int, z as int),
                max_d != -2 ==> q.y == y,
            decreases r - z,
        {
            proof {
                lemma_cube_cell(target2, ri, x as int, yi, z as int);
                lemma_cube_cell(ground, ri, x as int, yi, z as int);
            }
            if target2[x][y][z] && !ground[x][y][z] {
                proof {
                    lemma_cube_plane(target2, ri, x as int);
                }
                let mut k: usize = y;
                while k > 0 && !target2[x][k - 1][z]
                    invariant
                        r == target2@.len(),
                        1 <= y < r,
                        t == view3(target2),
                        is_cube(t, ri),
                        ri == r,
                        yi == y,
                        x < r,
                        z < r,
                        k <= y,
                        target2@[x as int]@.len() == r,
                        forall|b: int| 0 <= b < r ==> (#[trigger] target2@[x as int]@[b])@.len() == r,
                        forall|b: int| k <= b < y ==> !#[trigger] t[x as int][b][z as int],
                    decreases k,
                {
                    proof {
                        lemma_cube_cell(target2, ri, x as int, k - 1, z as int);
                    }
                    k -= 1;
                }
                proof {
                    if k > 0 {
                        lemma_cube_cell(target2, ri, x as int, k - 1, z as int);
                    }
                }
                let d: i32 = if k > 0 { (k - 1) as i32 } else { -1 };
                proof {
                    lemma_top_below_skip(t, x as int, k as int, yi, z as int);
                    assert(d == top_below(t, x as int, yi, z as int));
                }
                if max_d.setmax(d) {
                    q = P::new(x as i32, y as i32, z as i32);
                }
            }
            z += 1;
        }
        x += 1;
    }
    (max_d, q)
}

/// The cube `t2` is `t` with the column at `(x, z)` filled strictly between layers `lo` and `hi`.
pub open spec fn column_added(t: Cube, t2: Cube, r: int, x: int, z: int, lo: int, hi: int) -> bool {
    &&& is_cube(t2, r)
    &&& forall|a: int, b: int, c: int| in_cube(r, a, b, c) ==>
        #[trigger] t2[a][b][c] == (t[a][b][c] || (a == x && c == z && lo < b < hi))
}

/// `g2` is `g` with the one cell `(x, y, z)` set.
pub open spec fn cell_added(g: Cube, g2: Cube, r: int, x: int, y: int, z: int) -> bool {
    &&& is_cube(g2, r)
    &&& forall|a: int, b: int, c: int| in_cube(r, a, b, c) ==>
        #[trigger] g2[a][b][c] == (g[a][b][c] || (a == x && b == y && c == z))
}

/// The potential after supporting `(x, y, z)` by the column down to layer `md`:
/// the column cells and the cell count up from the potential at `md` (or from
/// `-1` below the floor).
pub open spec fn column_pot(d: Potential, x: int, y: int, z: int, md: int) -> Potential {
    let base = if md >= 0 { pot(d, x, md, z) } else { -1 };
    |a: int, b: int, c: int| if a == x && c == z && md < b <= y { base + b - md } else { d(a, b, c) }
}

proof fn lemma_support_step(
    t0: Cube, t: Cube, t2: Cube, g: Cube, g2: Cube, d: Potential, r: int, y: int, md: int, q: P,
)
    requires
        1 <= y < r,
        bu_common(t0, t, g, d, r),
        bu_layer(t0, t, g, d, r, y),
        support_choice(t, g, r, y, md, q),
        column_added(t, t2, r, q.x as int, q.z as int, md, y),
        cell_added(g, g2, r, q.x as int, y, q.z as int),
    ensures
        bu_common(t0, t2, g2, column_pot(d, q.x as int, y, q.z as int, md), r),
        bu_layer(t0, t2, g2, column_pot(d, q.x as int, y, q.z as int, md), r, y),
        count2(pending(t2, g2, y), r, r) < count2(pending(t, g, y), r, r),
{
    let x = q.x as int;
    let z = q.z as int;
    let d2 = column_pot(d, x, y, z, md);
    let base = if md >= 0 { pot(d, x, md, z) } else { -1 };
    assert(pot(d, x, y, z) < 0);
    assert(t[x][y][z] == t0[x][y][z]);
    if md >= 0 {
        assert(t[x][md][z]);
        assert(pot(d, x, md, z) >= 0);
    }
    assert forall|b: int| md < b < y implies pot(d, x, b, z) < 0 by {
        assert(!t[x][b][z]);
        if pot(d, x, b, z) >= 0 {
            assert(t[x][b][z]);
        }
    }
    assert(extends(d, d2)) by {
        assert forall|a: int, b: int, c: int| #[trigger] pot(d, a, b, c) >= 0 implies pot(d2, a, b, c) == pot(d, a, b, c) by {
            if a == x && c == z && md < b <= y {
                if b < y {
                    assert(pot(d, x, b, z) < 0);
                }
            }
        }
    }
    assert(contains_cube(t, t2, r));
    assert(contains_cube(t0, t2, r));
    lemma_assigned_ok_mono(t, t2, r, d, d2);
    assert(assigned_ok(t2, r, d2)) by {
        assert forall|a: int, b: int, c: int|
            in_cube(r, a, b, c) && #[trigger] pot(d2, a, b, c) >= 0 implies t2[a][b][c] && supported(t2, r, d2, a, b, c) by {
            if a == x && c == z && md < b <= y {
                let k = base + b - md;
                assert(pot(d2, a, b, c) == k);
                assert(t2[a][b][c]);
                if b == 0 {
                    assert(md == -1 && k == 0);
                } else if b - 1 == md {
                    assert(lower(t2, r, d2, a, b - 1, c, k));
                } else {
                    assert(pot(d2, a, b - 1, c) == k - 1);
                    assert(t2[a][b - 1][c]);
                    assert(lower(t2, r, d2, a, b - 1, c, k));
                }
            } else {
                assert(pot(d, a, b, c) >= 0);
            }
        }
    }
    assert(hanging(t0, t2, r)) by {
        assert forall|a: int, b: int, c: int|
            in_cube(r, a, b, c) && #[trigger] t2[a][b][c] && !t0[a][b][c] implies {
                &&& b + 1 < r
                &&& t2[a][b + 1][c]
                &&& exists|y2: int| b < y2 < r && #[trigger] t0[a][y2][c]
            } by {
            if t[a][b][c] {
                assert(t[a][b + 1][c]);
            } else {
                assert(a == x && c == z && md < b < y);
                assert(t0[a][y][c]);
                if b + 1 < y {
                    assert(t2[a][b + 1][c]);
                } else {
                    assert(t[a][b + 1][c]);
                }
            }
        }
    }
    assert forall|a: int, b: int, c: int| in_cube(r, a, b, c) && #[trigger] g2[a][b][c] implies pot(d2, a, b, c) >= 0 by {
        if !(a == x && b == y && c == z) {
            assert(g[a][b][c]);
            assert(pot(d, a, b, c) >= 0);
        }
    }
    assert(bu_layer(t0, t2, g2, d2, r, y)) by {
        assert forall|a: int, b: int, c: int| in_cube(r, a, b, c) && b >= y implies #[trigger] t2[a][b][c] == t0[a][b][c] by {
            assert(t[a][b][c] == t0[a][b][c]);
        }
        assert forall|a: int, b: int, c: int| in_cube(r, a, b, c) && b < y && #[trigger] t2[a][b][c]
            implies pot(d2, a, b, c) >= 0 by {
            if !(a == x && c == z && md < b <= y) {
                assert(t[a][b][c]);
                assert(pot(d, a, b, c) >= 0);
            }
        }
        assert forall|a: int, b: int, c: int| in_cube(r, a, b, c) && b > y implies
            #[trigger] pot(d2, a, b, c) < 0 && !g2[a][b][c] by {
            assert(pot(d, a, b, c) < 0 && !g[a][b][c]);
        }
        assert forall|a: int, b: int, c: int| in_cube(r, a, b, c) && b == y implies
            (#[trigger] pot(d2, a, b, c) >= 0 <==> g2[a][b][c]) by {
            if !(a == x && c == z) {
                assert(pot(d, a, b, c) >= 0 <==> g[a][b][c]);
            }
        }
    }
    assert(count2(pending(t2, g2, y), r, r) < count2(pending(t, g, y), r, r)) by {
        assert forall|a: int, c: int| 0 <= a < r && 0 <= c < r && #[trigger] pending(t2, g2, y)(a, c)
            implies pending(t, g, y)(a, c) by {
            assert(t2[a][y][c] == t[a][y][c]);
        }
        assert(pending(t, g, y)(x, z));
        assert(!pending(t2, g2, y)(x, z));
        lemma_count2_mono(pending(t, g, y), pending(t2, g2, y), r, r);
    }
}

/// Every cell from layer `y` up has no potential and is not grounded.
pub open spec fn fresh_from(g: Cube, d: Potential, r: int, y: int) -> bool {
    forall|a: int, b: int, c: int| in_cube(r, a, b, c) && b >= y ==> #[trigger] pot(d, a, b, c) < 0 && !g[a][b][c]
}

/// The potential that puts every filled floor cell at zero.
pub open spec fn floor_pot(t0: Cube, r: int) -> Potential {
    |a: int, b: int, c: int| if in_cube(r, a, b, c) && b == 0 && t0[a][0][c] { 0 } else { -1 }
}

/// Marks the filled floor cells as grounded.
pub(crate) fn ground_floor(target2: &V3<bool>, ground: &mut V3<bool>, r: usize)
    requires
        r == target2@.len(),
        is_cube(view3(target2), r as int),
        is_cube(view3(old(ground)), r as int),
        forall|a: int, b: int, c: int| in_cube(r as int, a, b, c) ==> !#[trigger] view3(old(ground))[a][b][c],
    ensures
        is_cube(view3(final(ground)), r as int),
        forall|a: int, b: int, c: int| in_cube(r as int, a, b, c) ==>
            (#[trigger] view3(final(ground))[a][b][c] <==> (b == 0 && view3(target2)[a][0][c])),
{
    let ghost t = view3(target2);
    let ghost ri = r as int;
    let mut x: usize = 0;
    while x < r
        invariant
            r == target2@.len(),
            t == view3(target2),
            ri == r,
            is_cube(t, ri),
            is_cube(view3(ground), ri),
            x <= r,
            forall|a: int, b: int, c: int| in_cube(ri, a, b, c) ==>
                (#[trigger] view3(ground)[a][b][c] <==> (b == 0 && a < x && t[a][0][c])),
        decreases r - x,
    {
        let mut z: usize = 0;
        while z < r
            invariant
                r == target2@.len(),
                t == view3(target2),
                ri == r,
                is_cube(t, ri),
                is_cube(view3(ground), ri),
                x < r,
                z <= r,
                forall|a: int, b: int, c: int| in_cube(ri, a, b, c) ==>
                    (#[trigger] view3(ground)[a][b][c] <==> (b == 0 && (a < x || (a == x && c < z)) && t[a][0][c])),
            decreases r - z,
        {
            proof {
                lemma_cube_cell(target2, ri, x as int, 0, z as int);
                lemma_cube_cell(ground, ri, x as int, 0, z as int);
            }
            if target2[x][0][z] {
                let ghost g_before = view3(ground);
                set3(ground, x, 0, z, true);
                proof {
                    let g2 = view3(ground);
                    assert(is_cube(g2, ri)) by {
                        assert forall|a: int| 0 <= a < ri implies is_rect(#[trigger] g2[a], ri, ri) by {
                            if a == x {
                                assert forall|b: int| 0 <= b < ri implies #[trigger] g2[a][b].len() == ri by {
                                    if b != 0 {
                                        assert(g2[a][b] == g_before[a][b]);
                                    }
                                }
                            } else {
                                assert(g2[a] == g_before[a]);
                            }
                        }
                    }
                    assert forall|a: int, b: int, c: int| in_cube(ri, a, b, c) implies
                        (#[trigger] g2[a][b][c] <==> (b == 0 && (a < x || (a == x && c < z + 1)) && t[a][0][c])) by {
                        if a == x && b == 0 {
                        } else if a == x {
                            assert(g2[a][b] == g_before[a][b]);
                        } else {
                            assert(g2[a] == g_before[a]);
                        }
                    }
                }
            }
            z += 1;
        }
        x += 1;
    }
}

pub(crate) proof fn lemma_cell_added(g: Cube, g2: Cube, r: int, x: int, y: int, z: int)
    requires
        is_cube(g, r),
        in_cube(r, x, y, z),
        g2 == g.update(x, g[x].update(y, g[x][y].update(z, true))),
    ensures
        cell_added(g, g2, r, x, y, z),
{
    assert forall|a: int| 0 <= a < r implies is_rect(#[trigger] g2[a], r, r) by {
        if a == x {
            assert forall|b: int| 0 <= b < r implies #[trigger] g2[a][b].len() == r by {
                if b != y {
                    assert(g2[a][b] == g[a][b]);
                }
            }
        } else {
            assert(g2[a] == g[a]);
        }
    }
    assert forall|a: int, b: int, c: int| in_cube(r, a, b, c) implies
        #[trigger] g2[a][b][c] == (g[a][b][c] || (a == x && b == y && c == z)) by {
        if a == x && b == y {
        } else if a == x {
            assert(g2[a][b] == g[a][b]);
        } else {
            assert(g2[a] == g[a]);
        }
    }
}

// ---------------------------------------------------------------------------
// The supports chosen, stated exactly.

/// The cells after `(a, y, c)` in the positive `x` and `z` directions are
/// grounded in `g` when filled in `t`.
pub open spec fn closed_at(t: Cube, g: Cube, r: int, y: int, a: int, c: int) -> bool {
    &&& (a + 1 < r && t[a + 1][y][c]) ==> g[a + 1][y][c]
    &&& (c + 1 < r && t[a][y][c + 1]) ==> g[a][y][c + 1]
}

/// A layer whose grounded cells include the seeds and are all closed holds
/// every cell reached from the seeds.
pub proof fn lemma_closed_reach(t: Cube, g: Cube, g0: spec_fn(int, int) -> bool, r: int, y: int, x: int, z: int)
    requires
        x >= 0,
        z >= 0,
        forall|a: int, c: int| 0 <= a < r && 0 <= c < r && #[trigger] g0(a, c) ==> g[a][y][c],
        forall|a: int, c: int| 0 <= a < r && 0 <= c < r && #[trigger] g[a][y][c] ==> closed_at(t, g, r, y, a, c),
    ensures
        reach(t, y, g0, r, x, z) ==> g[x][y][z],
    decreases x + z,
{
    if reach(t, y, g0, r, x, z) && !g0(x, z) {
        if x > 0 && reach(t, y, g0, r, x - 1, z) {
            lemma_closed_reach(t, g, g0, r, y, x - 1, z);
            assert(closed_at(t, g, r, y, x - 1, z));
        } else {
            lemma_closed_reach(t, g, g0, r, y, x, z - 1);
            assert(closed_at(t, g, r, y, x, z - 1));
        }
    }
}

/// The point `(a, y, c)` is on the stack.
pub open spec fn in_stack(s: Seq<P>, a: int, y: int, c: int) -> bool {
    s.contains(P { x: a as i32, y: y as i32, z: c as i32 })
}

/// The cells of layer `y` of `g`.
pub open spec fn layer_of(g: Cube, y: int) -> spec_fn(int, int) -> bool {
    |a: int, c: int| g[a][y][c]
}

/// Cell `(x, z)` of layer `y` is reached from the cells `g` by steps in the
/// positive `x` or `z` direction through filled cells of the layer.
pub open spec fn reach(t: Cube, y: int, g: spec_fn(int, int) -> bool, r: int, x: int, z: int) -> bool
    decreases x + z,
    when x >= 0 && z >= 0
{
    &&& 0 <= x < r
    &&& 0 <= z < r
    &&& t[x][y][z]
    &&& {
        ||| g(x, z)
        ||| (x > 0 && reach(t, y, g, r, x - 1, z))
        ||| (z > 0 && reach(t, y, g, r, x, z - 1))
    }
}

/// The cells of layer `y` reached from `g` (see `reach`).
pub open spec fn closure(t: Cube, y: int, g: spec_fn(int, int) -> bool, r: int) -> spec_fn(int, int) -> bool {
    |a: int, c: int| a >= 0 && c >= 0 && reach(t, y, g, r, a, c)
}

/// The highest layer below `y` whose cell in column `(x, z)` is filled, or `-1`.
pub open spec fn top_below(t: Cube, x: int, y: int, z: int) -> int
    decreases y,
{
    if y <= 0 {
        -1
    } else if t[x][y - 1][z] {
        y - 1
    } else {
        top_below(t, x, y - 1, z)
    }
}

/// The running choice after considering cell `(a, c)`: the cell replaces the
/// current choice `cur` (height, `x`, `z`; height `-2` for none) when it is
/// filled, not in `g`, and its `top_below` is strictly higher.
pub open spec fn consider(t: Cube, g: spec_fn(int, int) -> bool, y: int, cur: (int, int, int), a: int, c: int) -> (int, int, int) {
    if t[a][y][c] && !g(a, c) && top_below(t, a, y, c) > cur.0 {
        (top_below(t, a, y, c), a, c)
    } else {
        cur
    }
}

/// The choice after the cells `(a, 0)` to `(a, n - 1)`.
pub open spec fn pick_row(t: Cube, g: spec_fn(int, int) -> bool, y: int, cur: (int, int, int), a: int, n: int) -> (int, int, int)
    decreases n,
{
    if n <= 0 {
        cur
    } else {
        consider(t, g, y, pick_row(t, g, y, cur, a, n - 1), a, n - 1)
    }
}

/// The choice after the rows `0` to `m - 1` of an `r`-wide layer: the filled
/// cell outside `g` with the highest `top_below`, the first such in `x`-then-`z`
/// order; height `-2` when there is none.
pub open spec fn pick_upto(t: Cube, g: spec_fn(int, int) -> bool, y: int, r: int, m: int) -> (int, int, int)
    decreases m,
{
    if m <= 0 {
        (-2, 0, 0)
    } else {
        pick_row(t, g, y, pick_upto(t, g, y, r, m - 1), m - 1, r)
    }
}

/// `t` with the column `(x, z)` filled from just above its `top_below` up to
/// just below `y`.
pub open spec fn with_column(t: Cube, r: int, x: int, y: int, z: int) -> Cube {
    Seq::new(r as nat, |a: int| Seq::new(r as nat, |b: int| Seq::new(r as nat, |c: int|
        t[a][b][c] || (a == x && c == z && top_below(t, x, y, z) < b < y))))
}

/// The filled cells of layer `y` outside `g`.
pub open spec fn outside(t: Cube, y: int, g: spec_fn(int, int) -> bool) -> spec_fn(int, int) -> bool {
    |a: int, c: int| t[a][y][c] && !g(a, c)
}

/// Reaching only depends on layer `y`.
pub proof fn lemma_reach_layer(t: Cube, t2: Cube, y: int, g: spec_fn(int, int) -> bool, r: int, x: int, z: int)
    requires
        x >= 0,
        z >= 0,
        forall|a: int, c: int| 0 <= a < r && 0 <= c < r ==> #[trigger] t2[a][y][c] == t[a][y][c],
    ensures
        reach(t2, y, g, r, x, z) == reach(t, y, g, r, x, z),
    decreases x + z,
{
    if x > 0 {
        lemma_reach_layer(t, t2, y, g, r, x - 1, z);
    }
    if z > 0 {
        lemma_reach_layer(t, t2, y, g, r, x, z - 1);
    }
}

/// Reaching from more cells reaches more.
pub proof fn lemma_reach_mono(t: Cube, y: int, g: spec_fn(int, int) -> bool, g2: spec_fn(int, int) -> bool, r: int, x: int, z: int)
    requires
        x >= 0,
        z >= 0,
        forall|a: int, c: int| 0 <= a < r && 0 <= c < r && #[trigger] g(a, c) ==> g2(a, c),
    ensures
        reach(t, y, g, r, x, z) ==> reach(t, y, g2, r, x, z),
    decreases x + z,
{
    if x > 0 {
        lemma_reach_mono(t, y, g, g2, r, x - 1, z);
    }
    if z > 0 {
        lemma_reach_mono(t, y, g, g2, r, x, z - 1);
    }
}

/// The running choice is a filled cell outside `g` whenever one was found.
proof fn lemma_pick_row(t: Cube, g: spec_fn(int, int) -> bool, y: int, cur: (int, int, int), a: int, n: int)
    requires
        cur.0 >= -2,
    ensures
        pick_row(t, g, y, cur, a, n).0 >= cur.0,
        pick_row(t, g, y, cur, a, n) != cur ==> {
            let p = pick_row(t, g, y, cur, a, n);
            &&& p.1 == a
            &&& 0 <= p.2 < n
            &&& t[a][y][p.2]
            &&& !g(a, p.2)
            &&& p.0 == top_below(t, a, y, p.2)
        },
        (exists|c: int| 0 <= c < n && #[trigger] t[a][y][c] && !g(a, c) && top_below(t, a, y, c) > cur.0)
            ==> pick_row(t, g, y, cur, a, n) != cur,
    decreases n,
{
    if n > 0 {
        lemma_pick_row(t, g, y, cur, a, n - 1);
        let prev = pick_row(t, g, y, cur, a, n - 1);
        if exists|c: int| 0 <= c < n && #[trigger] t[a][y][c] && !g(a, c) && top_below(t, a, y, c) > cur.0 {
            let c = choose|c: int| 0 <= c < n && #[trigger] t[a][y][c] && !g(a, c) && top_below(t, a, y, c) > cur.0;
            if c < n - 1 {
                assert(exists|c: int| 0 <= c < n - 1 && #[trigger] t[a][y][c] && !g(a, c) && top_below(t, a, y, c) > cur.0);
            }
        }
    }
}

/// The choice over `m` rows is a filled cell outside `g` when some exists,
/// and `-2` exactly when none does.
pub proof fn lemma_pick_upto(t: Cube, g: spec_fn(int, int) -> bool, y: int, r: int, m: int)
    requires
        y >= 0,
        0 <= m,
        r >= 0,
    ensures
        pick_upto(t, g, y, r, m).0 != -2 ==> {
            let p = pick_upto(t, g, y, r, m);
            &&& 0 <= p.1 < m
            &&& 0 <= p.2 < r
            &&& t[p.1][y][p.2]
            &&& !g(p.1, p.2)
            &&& p.0 == top_below(t, p.1, y, p.2)
        },
        pick_upto(t, g, y, r, m).0 >= -2,
        pick_upto(t, g, y, r, m).0 == -2 <==> !(exists|a: int, c: int| 0 <= a < m && 0 <= c < r && #[trigger] outside(t, y, g)(a, c)),
    decreases m,
{
    if m > 0 {
        lemma_pick_upto(t, g, y, r, m - 1);
        let prev = pick_upto(t, g, y, r, m - 1);
        if prev.0 != -2 {
            lemma_top_below_range(t, prev.1, y, prev.2);
        }
        lemma_pick_row(t, g, y, prev, m - 1, r);
        let cur = pick_upto(t, g, y, r, m);
        assert(cur == pick_row(t, g, y, prev, m - 1, r));
        if cur != prev {
            lemma_top_below_range(t, m - 1, y, cur.2);
            assert(outside(t, y, g)(m - 1, cur.2));
        }
        if exists|a: int, c: int| 0 <= a < m && 0 <= c < r && #[trigger] outside(t, y, g)(a, c) {
            let (a, c) = choose|a: int, c: int| 0 <= a < m && 0 <= c < r && #[trigger] outside(t, y, g)(a, c);
            lemma_top_below_range(t, a, y, c);
            if a < m - 1 {
                assert(prev.0 != -2);
            } else if prev.0 == -2 {
                assert(t[m - 1][y][c] && !g(m - 1, c) && top_below(t, m - 1, y, c) > prev.0);
                assert(cur != prev);
            }
        } else {
            if prev.0 != -2 {
                assert(outside(t, y, g)(prev.1, prev.2));
            }
            if cur != prev {
                assert(outside(t, y, g)(m - 1, cur.2));
            }
        }
    }
}

/// Skipping empty cells: `top_below` from `y` is `top_below` from `k` when
/// the cells `k..y` of the column are empty.
pub proof fn lemma_top_below_skip(t: Cube, x: int, k: int, y: int, z: int)
    requires
        0 <= k <= y,
        forall|b: int| k <= b < y ==> !#[trigger] t[x][b][z],
        k == 0 || t[x][k - 1][z],
    ensures
        top_below(t, x, y, z) == k - 1,
    decreases y - k,
{
    if y > k {
        lemma_top_below_skip(t, x, k, y - 1, z);
    }
}

/// `top_below` lies in `[-1, y)`.
pub proof fn lemma_top_below_range(t: Cube, x: int, y: int, z: int)
    ensures
        -1 <= top_below(t, x, y, z) < if y > 0 { y } else { 0 },
        top_below(t, x, y, z) >= 0 ==> t[x][top_below(t, x, y, z)][z],
        forall|b: int| top_below(t, x, y, z) < b < y ==> !#[trigger] t[x][b][z],
    decreases y,
{
    if y > 0 && !t[x][y - 1][z] {
        lemma_top_below_range(t, x, y - 1, z);
    }
}

/// `g` with the cell `(x, z)` added.
pub open spec fn add_cell(g: spec_fn(int, int) -> bool, x: int, z: int) -> spec_fn(int, int) -> bool {
    |a: int, b: int| g(a, b) || (a == x && b == z)
}

/// Layer `y` after its supports: the cells reached from `g` are grounded;
/// while a filled cell of the layer is not, the one chosen by `pick_upto` gets
/// a column (see `with_column`) and is grounded too.
pub open spec fn layer_run(t: Cube, g: spec_fn(int, int) -> bool, r: int, y: int) -> Cube
    decreases count2(outside(t, y, closure(t, y, g, r)), r, r),
    when r >= 0 && 0 <= y < r
{
    let c = closure(t, y, g, r);
    let q = pick_upto(t, c, y, r, r);
    if q.0 == -2 {
        t
    } else {
        proof {
            lemma_layer_run_step(t, g, r, y);
        }
        layer_run(with_column(t, r, q.1, y, q.2), add_cell(c, q.1, q.2), r, y)
    }
}

/// One step of `layer_run` grounds one more filled cell of the layer.
pub proof fn lemma_layer_run_step(t: Cube, g: spec_fn(int, int) -> bool, r: int, y: int)
    requires
        r >= 0,
        0 <= y < r,
        pick_upto(t, closure(t, y, g, r), y, r, r).0 != -2,
    ensures
        ({
            let c = closure(t, y, g, r);
            let q = pick_upto(t, c, y, r, r);
            let t2 = with_column(t, r, q.1, y, q.2);
            let g2 = add_cell(c, q.1, q.2);
            0 <= count2(outside(t2, y, closure(t2, y, g2, r)), r, r) < count2(outside(t, y, c), r, r)
        }),
{
    let c = closure(t, y, g, r);
    let q = pick_upto(t, c, y, r, r);
    lemma_pick_upto(t, c, y, r, r);
    let t2 = with_column(t, r, q.1, y, q.2);
    let g2 = add_cell(c, q.1, q.2);
    let c2 = closure(t2, y, g2, r);
    lemma_top_below_range(t, q.1, y, q.2);
    assert forall|a: int, b: int| 0 <= a < r && 0 <= b < r && #[trigger] outside(t2, y, c2)(a, b) implies outside(t, y, c)(a, b) by {
        assert(t2[a][y][b] == t[a][y][b]);
        if c(a, b) {
            lemma_reach_mono(t, y, c, g2, r, a, b);
            assert(reach(t, y, c, r, a, b));
            lemma_reach_layer(t, t2, y, g2, r, a, b);
        }
    }
    assert(outside(t, y, c)(q.1, q.2));
    assert(!outside(t2, y, c2)(q.1, q.2)) by {
        assert(t2[q.1][y][q.2] == t[q.1][y][q.2]);
        lemma_reach_layer(t, t2, y, g2, r, q.1, q.2);
    }
    lemma_count2_mono(outside(t, y, c), outside(t2, y, c2), r, r);
}

/// The filled cells of layer `y` right above a filled cell.
pub open spec fn seeds_of(t: Cube, y: int) -> spec_fn(int, int) -> bool {
    |a: int, c: int| t[a][y][c] && t[a][y - 1][c]
}

/// The shape after the supports of layers `y` and up: each layer starts from
/// its filled cells right above a filled cell (`seeds_of`), and runs
/// `layer_run`.
pub open spec fn bottom_up_from(t: Cube, r: int, y: int) -> Cube
    decreases r - y,
{
    if y >= r || y < 1 || r < 0 {
        t
    } else {
        bottom_up_from(layer_run(t, seeds_of(t, y), r, y), r, y + 1)
    }
}

/// Reaching only looks at the seeds inside the layer.
pub proof fn lemma_reach_congr(t: Cube, y: int, g1: spec_fn(int, int) -> bool, g2: spec_fn(int, int) -> bool, r: int, x: int, z: int)
    requires
        x >= 0,
        z >= 0,
        forall|a: int, c: int| 0 <= a < r && 0 <= c < r ==> #[trigger] g1(a, c) == g2(a, c),
    ensures
        reach(t, y, g1, r, x, z) == reach(t, y, g2, r, x, z),
    decreases x + z,
{
    if x > 0 {
        lemma_reach_congr(t, y, g1, g2, r, x - 1, z);
    }
    if z > 0 {
        lemma_reach_congr(t, y, g1, g2, r, x, z - 1);
    }
}

proof fn lemma_pick_row_congr(t: Cube, g1: spec_fn(int, int) -> bool, g2: spec_fn(int, int) -> bool, y: int, r: int, cur: (int, int, int), a: int, n: int)
    requires
        0 <= a < r,
        n <= r,
        forall|x: int, c: int| 0 <= x < r && 0 <= c < r ==> #[trigger] g1(x, c) == g2(x, c),
    ensures
        pick_row(t, g1, y, cur, a, n) == pick_row(t, g2, y, cur, a, n),
    decreases n,
{
    if n > 0 {
        lemma_pick_row_congr(t, g1, g2, y, r, cur, a, n - 1);
        assert(g1(a, n - 1) == g2(a, n - 1));
    }
}

/// The choice only looks at the grounded cells inside the layer.
pub proof fn lemma_pick_congr(t: Cube, g1: spec_fn(int, int) -> bool, g2: spec_fn(int, int) -> bool, y: int, r: int, m: int)
    requires
        m <= r,
        forall|x: int, c: int| 0 <= x < r && 0 <= c < r ==> #[trigger] g1(x, c) == g2(x, c),
    ensures
        pick_upto(t, g1, y, r, m) == pick_upto(t, g2, y, r, m),
    decreases m,
{
    if m > 0 {
        lemma_pick_congr(t, g1, g2, y, r, m - 1);
        lemma_pick_row_congr(t, g1, g2, y, r, pick_upto(t, g1, y, r, m - 1), m - 1, r);
    }
}

/// The layer's supports only depend on the seeds inside the layer.
pub proof fn lemma_layer_run_congr(t: Cube, g1: spec_fn(int, int) -> bool, g2: spec_fn(int, int) -> bool, r: int, y: int)
    requires
        0 <= y < r,
        forall|a: int, c: int| 0 <= a < r && 0 <= c < r ==> #[trigger] g1(a, c) == g2(a, c),
    ensures
        layer_run(t, g1, r, y) == layer_run(t, g2, r, y),
{
    assert forall|a: int, c: int| #[trigger] closure(t, y, g1, r)(a, c) == closure(t, y, g2, r)(a, c) by {
        if a >= 0 && c >= 0 {
            lemma_reach_congr(t, y, g1, g2, r, a, c);
        }
    }
    assert(closure(t, y, g1, r) =~= closure(t, y, g2, r));
}

/// Grounds, at the start of layer `y`, every filled cell above a grounded cell.
fn seed_layer(
    target2: &V3<bool>,
    ground: &mut V3<bool>,
    stack: &mut Vec<P>,
    r: usize,
    y: usize,
    Ghost(t0): Ghost<Cube>,
    Ghost(d0): Ghost<Potential>,
) -> (dd: Ghost<Potential>)
    requires
        r == target2@.len(),
        1 <= y < r,
        r <= 0x7fff_fffe,
        bu_common(t0, view3(target2), view3(old(ground)), d0, r as int),
        bu_layer(t0, view3(target2), view3(old(ground)), d0, r as int, y as int),
        fresh_from(view3(old(ground)), d0, r as int, y as int),
        old(stack)@.len() == 0,
    ensures
        bu_common(t0, view3(target2), view3(final(ground)), dd@, r as int),
        bu_layer(t0, view3(target2), view3(final(ground)), dd@, r as int, y as int),
        stack_ok(final(stack)@, view3(final(ground)), r as int, y as int),
        forall|a: int, b: int, c: int| in_cube(r as int, a, b, c) && b != y ==>
            #[trigger] view3(final(ground))[a][b][c] == view3(old(ground))[a][b][c],
        forall|a: int, c: int| 0 <= a < r && 0 <= c < r ==>
            #[trigger] view3(final(ground))[a][y as int][c] == (view3(target2)[a][y as int][c] && view3(old(ground))[a][y - 1][c]),
        forall|a: int, c: int| 0 <= a < r && 0 <= c < r && #[trigger] view3(final(ground))[a][y as int][c] ==>
            in_stack(final(stack)@, a, y as int, c),
{
    let ghost g_start = view3(ground);
    let ghost t = view3(target2);
    let ghost mut d = d0;
    let ghost ri = r as int;
    let ghost yi = y as int;
    let mut x: usize = 0;
    while x < r
        invariant
            r == target2@.len(),
            1 <= y < r,
            r <= 0x7fff_fffe,
            t == view3(target2),
            ri == r,
            yi == y,
            x <= r,
            bu_common(t0, t, view3(ground), d, ri),
            bu_layer(t0, t, view3(ground), d, ri, yi),
            stack_ok(stack@, view3(ground), ri, yi),
            forall|a: int, c: int| x <= a < ri && 0 <= c < ri ==> !#[trigger] view3(ground)[a][yi][c],
            g_start == view3(old(ground)),
            forall|a: int, b: int, c: int| in_cube(ri, a, b, c) && b != yi ==> #[trigger] view3(ground)[a][b][c] == g_start[a][b][c],
            forall|a: int, c: int| 0 <= a < x && 0 <= c < ri ==>
                #[trigger] view3(ground)[a][yi][c] == (t[a][yi][c] && g_start[a][yi - 1][c]),
            forall|a: int, c: int| 0 <= a < ri && 0 <= c < ri && #[trigger] view3(ground)[a][yi][c] ==> in_stack(stack@, a, yi, c),
        decreases r - x,
    {
        let mut z: usize = 0;
        while z < r
            invariant
                r == target2@.len(),
                1 <= y < r,
                r <= 0x7fff_fffe,
                t == view3(target2),
                ri == r,
                yi == y,
                x < r,
                z <= r,
                bu_common(t0, t, view3(ground), d, ri),
                bu_layer(t0, t, view3(ground), d, ri, yi),
                stack_ok(stack@, view3(ground), ri, yi),
                forall|a: int, c: int| (x < a < ri && 0 <= c < ri) || (a == x && z <= c < ri) ==>
                    !#[trigger] view3(ground)[a][yi][c],
                forall|a: int, b: int, c: int| in_cube(ri, a, b, c) && b != yi ==> #[trigger] view3(ground)[a][b][c] == g_start[a][b][c],
                forall|a: int, c: int| ((0 <= a < x && 0 <= c < ri) || (a == x && 0 <= c < z)) ==>
                    #[trigger] view3(ground)[a][yi][c] == (t[a][yi][c] && g_start[a][yi - 1][c]),
                forall|a: int, c: int| 0 <= a < ri && 0 <= c < ri && #[trigger] view3(ground)[a][yi][c] ==> in_stack(stack@, a, yi, c),
            decreases r - z,
        {
            proof {
                lemma_cube_cell(target2, ri, x as int, yi, z as int);
                lemma_cube_cell(ground, ri, x as int, yi, z as int);
                lemma_cube_cell(ground, ri, x as int, yi - 1, z as int);
            }
            if target2[x][y][z] && ground[x][y - 1][z] {
                let ghost g_before = view3(ground);
                let ghost xi = x as int;
                let ghost zi = z as int;
                let ghost k = pot(d, xi, yi - 1, zi);
                let ghost d_old = d;
                let ghost d2 = assign(d, xi, yi, zi, k + 1);
                proof {
                    assert(k >= 0);
                    assert(t[xi][yi - 1][zi]);
                    assert(pot(d, xi, yi, zi) < 0);
                    assert(lower(t, ri, d2, xi, yi - 1, zi, k + 1));
                    lemma_assign_one(t, ri, d, xi, yi, zi, k + 1);
                }
                set3(ground, x, y, z, true);
                proof {
                    lemma_cell_added(g_before, view3(ground), ri, xi, yi, zi);
                    let g2 = view3(ground);
                    d = d2;
                    assert forall|a: int, b: int, c: int| in_cube(ri, a, b, c) && #[trigger] g2[a][b][c]
                        implies pot(d, a, b, c) >= 0 by {
                        if !(a == xi && b == yi && c == zi) {
                            assert(g_before[a][b][c]);
                            assert(pot(d_old, a, b, c) >= 0);
                        }
                    }
                    assert(bu_layer(t0, t, g2, d, ri, yi)) by {
                        assert forall|a: int, b: int, c: int| in_cube(ri, a, b, c) && b > yi implies
                            #[trigger] pot(d, a, b, c) < 0 && !g2[a][b][c] by {
                            assert(pot(d_old, a, b, c) < 0);
                        }
                        assert forall|a: int, b: int, c: int| in_cube(ri, a, b, c) && b == yi implies
                            (#[trigger] pot(d, a, b, c) >= 0 <==> g2[a][b][c]) by {
                            if !(a == xi && c == zi) {
                                assert(pot(d_old, a, b, c) >= 0 <==> g_before[a][b][c]);
                            }
                        }
                        assert forall|a: int, b: int, c: int| in_cube(ri, a, b, c) && b < yi && #[trigger] t[a][b][c]
                            implies pot(d, a, b, c) >= 0 by {
                            assert(pot(d_old, a, b, c) >= 0);
                        }
                    }
                }
                let ghost s_before = stack@;
                stack.push(P::new(x as i32, y as i32, z as i32));
                proof {
                    assert forall|kk: int| 0 <= kk < stack@.len() implies {
                        let s = #[trigger] stack@[kk];
                        &&& in_cube(ri, s.x as int, s.y as int, s.z as int)
                        &&& s.y == yi
                        &&& view3(ground)[s.x as int][s.y as int][s.z as int]
                    } by {
                        if kk < stack@.len() - 1 {
                            let s = stack@[kk];
                            assert(s == s_before[kk]);
                            assert(g_before[s.x as int][s.y as int][s.z as int]);
                        }
                    }
                    let g2 = view3(ground);
                    assert forall|a: int, c: int| 0 <= a < ri && 0 <= c < ri && #[trigger] g2[a][yi][c] implies
                        in_stack(stack@, a, yi, c) by {
                        if a == xi && c == zi {
                            assert(stack@[stack@.len() - 1] == P { x: a as i32, y: yi as i32, z: c as i32 });
                        } else {
                            assert(g_before[a][yi][c]);
                            assert(in_stack(s_before, a, yi, c));
                            let k = choose|k: int| 0 <= k < s_before.len() && s_before[k] == (P { x: a as i32, y: yi as i32, z: c as i32 });
                            assert(stack@[k] == s_before[k]);
                        }
                    }
                    assert forall|a: int, b: int, c: int| in_cube(ri, a, b, c) && b != yi implies #[trigger] g2[a][b][c] == g_start[a][b][c] by {
                        assert(g2[a][b][c] == (g_before[a][b][c] || (a == xi && b == yi && c == zi)));
                    }
                    assert forall|a: int, c: int| ((0 <= a < x && 0 <= c < ri) || (a == x && 0 <= c < z + 1)) implies
                        #[trigger] g2[a][yi][c] == (t[a][yi][c] && g_start[a][yi - 1][c]) by {
                        assert(g2[a][yi][c] == (g_before[a][yi][c] || (a == xi && c == zi)));
                        assert(g_start[a][yi - 1][c] == g_before[a][yi - 1][c]);
                        if a == xi && c == zi {
                            assert(g_before[xi][yi - 1][zi]);
                        }
                    }
                }
            } else {
                proof {
                    let g2 = view3(ground);
                    assert(g_start[x as int][yi - 1][z as int] == g2[x as int][yi - 1][z as int]);
                    assert(!g2[x as int][yi][z as int]);
                }
            }
            z += 1;
        }
        x += 1;
    }
    Ghost(d)
}

/// Adds vertical supports so that the shape can be built bottom-up: layer by
/// layer, every filled cell of a layer is connected to the floor through
/// filled cells of that layer and the layers below.  Within a layer, cells are
/// grounded from the cells right below them and then spread in the positive
/// `x` and `z` directions; a cell that stays ungrounded gets a column filled
/// down to the next filled cell below it (or to the floor).
///
/// The result is exactly `bottom_up_from` of the shape from layer 1; it
/// contains the shape, every added cell hangs below a cell of the shape, and
/// every filled cell of the result is connected to the floor.  Layer by
/// layer: the layers `0..=y0` of the result are connected to the floor
/// through cells of those layers alone, for every `y0`.
pub fn target_bottom_up(target: &V3<bool>) -> (res: V3<bool>)
    requires
        is_cube(view3(target), target@.len() as int),
        target@.len() <= 0x7fff_fffe,
        clear_of_far_xz(view3(target), target@.len() as int),
    ensures
        is_cube(view3(&res), target@.len() as int),
        contains_cube(view3(target), view3(&res), target@.len() as int),
        hanging(view3(target), view3(&res), target@.len() as int),
        grounded(view3(&res), target@.len() as int),
        forall|y0: int| #[trigger] grounded(layers_upto(view3(&res), target@.len() as int, y0), target@.len() as int),
        view3(&res) == bottom_up_from(view3(target), target@.len() as int, 1),
{
    let r = target.len();
    let ghost t0 = view3(target);
    let ghost ri = r as int;
    let mut target2 = copy3(target);
    let mut ground = filled_grid3(false, r);
    assert(is_cube(view3(&ground), ri)) by {
        assert forall|a: int| 0 <= a < ri implies is_rect(#[trigger] view3(&ground)[a], ri, ri) by {}
    }
    ground_floor(&target2, &mut ground, r);
    let ghost mut d = floor_pot(t0, ri);
    proof {
        let g = view3(&ground);
        let t = view3(&target2);
        assert(contains_cube(t0, t, ri));
        assert(hanging(t0, t, ri));
        assert forall|x: int, y: int, z: int|
            in_cube(ri, x, y, z) && #[trigger] pot(d, x, y, z) >= 0 implies t[x][y][z] && supported(t, ri, d, x, y, z) by {
        }
        assert forall|x: int, y: int, z: int| in_cube(ri, x, y, z) && #[trigger] g[x][y][z] implies pot(d, x, y, z) >= 0 by {
        }
        assert(bu_common(t0, t, g, d, ri));
        assert forall|a: int, b: int, c: int| in_cube(ri, a, b, c) && b >= 1 implies
            #[trigger] pot(d, a, b, c) < 0 && !g[a][b][c] by {
        }
        assert forall|a: int, b: int, c: int| in_cube(ri, a, b, c) && b < 1 && #[trigger] t[a][b][c]
            implies pot(d, a, b, c) >= 0 by {
        }
        assert(bu_layer(t0, t, g, d, ri, 1));
    }
    let mut y: usize = 1;
    while y < r
        invariant
            r == target@.len(),
            t0 == view3(target),
            ri == r,
            r <= 0x7fff_fffe,
            r == target2@.len(),
            1 <= y,
            r == 0 || y <= r,
            bu_common(t0, view3(&target2), view3(&ground), d, ri),
            bu_layer(t0, view3(&target2), view3(&ground), d, ri, y as int),
            fresh_from(view3(&ground), d, ri, y as int),
            bottom_up_from(view3(&target2), ri, y as int) == bottom_up_from(t0, ri, 1),
            y < r ==> forall|a: int, c: int| 0 <= a < ri && 0 <= c < ri ==>
                #[trigger] view3(&ground)[a][y - 1][c] == view3(&target2)[a][y - 1][c],
        decreases r - y,
    {
        let ghost yi = y as int;
        let ghost t_s = view3(&target2);
        let ghost big_l = layer_run(t_s, seeds_of(t_s, yi), ri, yi);
        let mut stack: Vec<P> = Vec::new();
        let Ghost(d1) = seed_layer(&target2, &mut ground, &mut stack, r, y, Ghost(t0), Ghost(d));
        proof {
            d = d1;
            lemma_layer_run_congr(t_s, layer_of(view3(&ground), yi), seeds_of(t_s, yi), ri, yi);
        }
        loop
            invariant_except_break
                layer_run(view3(&target2), layer_of(view3(&ground), yi), ri, yi) == big_l,
                forall|a: int, c: int| 0 <= a < ri && 0 <= c < ri && #[trigger] view3(&ground)[a][yi][c] ==>
                    in_stack(stack@, a, yi, c) || closed_at(view3(&target2), view3(&ground), ri, yi, a, c),
            invariant
                r == target@.len(),
                t0 == view3(target),
                ri == r,
                yi == y,
                1 <= y < r,
                r <= 0x7fff_fffe,
                r == target2@.len(),
                bu_common(t0, view3(&target2), view3(&ground), d, ri),
                bu_layer(t0, view3(&target2), view3(&ground), d, ri, yi),
                stack_ok(stack@, view3(&ground), ri, yi),
            ensures
                r == target2@.len(),
                bu_common(t0, view3(&target2), view3(&ground), d, ri),
                bu_layer(t0, view3(&target2), view3(&ground), d, ri, yi),
                forall|a: int, c: int| 0 <= a < ri && 0 <= c < ri ==>
                    !#[trigger] pending(view3(&target2), view3(&ground), yi)(a, c),
                view3(&target2) == big_l,
            decreases count2(pending(view3(&target2), view3(&ground), yi), ri, ri),
        {
            let ghost count0 = count2(pending(view3(&target2), view3(&ground), yi), ri, ri);
            let ghost g_pre = view3(&ground);
            let ghost t_cur = view3(&target2);
            let Ghost(d2) = flood_layer(&target2, &mut ground, &mut stack, r, y, Ghost(t0), Ghost(d));
            proof {
                d = d2;
            }
            let ghost g_fl = view3(&ground);
            let ghost cl = closure(t_cur, yi, layer_of(g_pre, yi), ri);
            proof {
                assert forall|a: int, c: int| 0 <= a < ri && 0 <= c < ri implies #[trigger] layer_of(g_fl, yi)(a, c) == cl(a, c) by {
                    assert(g_fl[a][yi][c] == reach(t_cur, yi, layer_of(g_pre, yi), ri, a, c));
                }
                lemma_pick_congr(t_cur, layer_of(g_fl, yi), cl, yi, ri, ri);
            }
            let (max_d, q) = pick_support(&target2, &ground, r, y);
            if max_d == -2 {
                proof {
                    assert(layer_run(t_cur, layer_of(g_pre, yi), ri, yi) == t_cur);
                }
                break;
            }
            proof {
                lemma_pick_upto(t_cur, cl, yi, ri, ri);
            }
            let ghost t_before = view3(&target2);
            let ghost g_before = view3(&ground);
            let qx = q.x as usize;
            let qz = q.z as usize;
            proof {
                lemma_cube_cell(&ground, ri, qx as int, yi, qz as int);
            }
            set3(&mut ground, qx, y, qz, true);
            proof {
                lemma_cell_added(g_before, view3(&ground), ri, qx as int, yi, qz as int);
            }
            stack.push(q);
            proof {
                lemma_cube_plane(&target2, ri, qx as int);
            }
            let mut k: usize = y;
            while k > 0 && !target2[qx][k - 1][qz]
                invariant
                    r == target2@.len(),
                    ri == r,
                    yi == y,
                    1 <= y < r,
                    qx < r,
                    qz < r,
                    support_choice(t_before, g_before, ri, yi, max_d as int, q),
                    qx == q.x,
                    qz == q.z,
                    max_d < k <= y,
                    target2@[qx as int]@.len() == r,
                    forall|b: int| 0 <= b < r ==> (#[trigger] target2@[qx as int]@[b])@.len() == r,
                    column_added(t_before, view3(&target2), ri, qx as int, qz as int, k as int - 1, yi),
                decreases k,
            {
                let ghost t_mid = view3(&target2);
                proof {
                    lemma_cube_cell(&target2, ri, qx as int, k - 1, qz as int);
                }
                set3(&mut target2, qx, k - 1, qz, true);
                proof {
                    let t2 = view3(&target2);
                    lemma_cell_added(t_mid, t2, ri, qx as int, k - 1, qz as int);
                    assert(column_added(t_before, t2, ri, qx as int, qz as int, k as int - 2, yi)) by {
                        assert forall|a: int, b: int, c: int| in_cube(ri, a, b, c) implies
                            #[trigger] t2[a][b][c] == (t_before[a][b][c] || (a == qx && c == qz && k - 2 < b < yi)) by {
                            assert(t2[a][b][c] == (t_mid[a][b][c] || (a == qx && b == k - 1 && c == qz)));
                        }
                    }
                    lemma_cube_plane(&target2, ri, qx as int);
                }
                k -= 1;
            }
            proof {
                let t2 = view3(&target2);
                if k > 0 {
                    lemma_cube_cell(&target2, ri, qx as int, k - 1, qz as int);
                    assert(t2[qx as int][k - 1][qz as int]);
                    if k - 1 > max_d {
                        assert(!t_before[qx as int][k - 1][qz as int]);
                    }
                }
                assert(k as int - 1 == max_d);
                lemma_support_step(t0, t_before, t2, g_before, view3(&ground), d, ri, yi, max_d as int, q);
                assert(stack_ok(stack@, view3(&ground), ri, yi)) by {
                    assert forall|kk: int| 0 <= kk < stack@.len() implies {
                        let s = #[trigger] stack@[kk];
                        &&& in_cube(ri, s.x as int, s.y as int, s.z as int)
                        &&& s.y == yi
                        &&& view3(&ground)[s.x as int][s.y as int][s.z as int]
                    } by {}
                }
                d = column_pot(d, qx as int, yi, qz as int, max_d as int);
                lemma_count2_mono(pending(t2, view3(&ground), yi), pending(t2, view3(&ground), yi), ri, ri);
                let g3 = view3(&ground);
                assert(max_d == top_below(t_cur, qx as int, yi, qz as int));
                let wc = with_column(t_cur, ri, qx as int, yi, qz as int);
                assert(t2 =~~= wc) by {
                    assert forall|a: int| 0 <= a < ri implies #[trigger] t2[a] =~~= wc[a] by {
                        assert forall|b: int| 0 <= b < ri implies #[trigger] t2[a][b] =~~= wc[a][b] by {
                            assert forall|c: int| 0 <= c < ri implies #[trigger] t2[a][b][c] == wc[a][b][c] by {
                                assert(in_cube(ri, a, b, c));
                            }
                        }
                    }
                }
                assert forall|a: int, c: int| 0 <= a < ri && 0 <= c < ri implies
                    #[trigger] layer_of(g3, yi)(a, c) == add_cell(cl, qx as int, qz as int)(a, c) by {
                    assert(g3[a][yi][c] == (g_fl[a][yi][c] || (a == qx && c == qz)));
                    assert(g_fl[a][yi][c] == reach(t_cur, yi, layer_of(g_pre, yi), ri, a, c));
                }
                lemma_layer_run_congr(wc, layer_of(g3, yi), add_cell(cl, qx as int, qz as int), ri, yi);
                assert(layer_run(t_cur, layer_of(g_pre, yi), ri, yi) == layer_run(wc, add_cell(cl, qx as int, qz as int), ri, yi));
                assert forall|a: int, c: int| 0 <= a < ri && 0 <= c < ri && #[trigger] g3[a][yi][c] implies
                    in_stack(stack@, a, yi, c) || closed_at(t2, g3, ri, yi, a, c) by {
                    if a == qx && c == qz {
                        assert(stack@[stack@.len() - 1] == q);
                    } else {
                        assert(g_fl[a][yi][c]);
                        assert(closed_at(t_cur, g_fl, ri, yi, a, c));
                        if a + 1 < ri {
                            assert(t2[a + 1][yi][c] == t_cur[a + 1][yi][c]);
                            assert(g3[a + 1][yi][c] == (g_fl[a + 1][yi][c] || (a + 1 == qx && c == qz)));
                        }
                        if c + 1 < ri {
                            assert(t2[a][yi][c + 1] == t_cur[a][yi][c + 1]);
                            assert(g3[a][yi][c + 1] == (g_fl[a][yi][c + 1] || (a == qx && c + 1 == qz)));
                        }
                    }
                }
            }
        }
        proof {
            let t = view3(&target2);
            let g = view3(&ground);
            assert forall|a: int, b: int, c: int| in_cube(ri, a, b, c) && b < yi + 1 && #[trigger] t[a][b][c]
                implies pot(d, a, b, c) >= 0 by {
                if b == yi {
                    assert(!pending(t, g, yi)(a, c));
                }
            }
            assert forall|a: int, b: int, c: int| in_cube(ri, a, b, c) && b >= yi + 1 implies
                #[trigger] pot(d, a, b, c) < 0 && !g[a][b][c] by {}
            assert forall|a: int, b: int, c: int| in_cube(ri, a, b, c) && b >= yi + 1 implies
                #[trigger] t[a][b][c] == t0[a][b][c] by {}
            assert forall|a: int, c: int| 0 <= a < ri && 0 <= c < ri implies #[trigger] g[a][yi][c] == t[a][yi][c] by {
                assert(!pending(t, g, yi)(a, c));
                if g[a][yi][c] {
                    assert(pot(d, a, yi, c) >= 0);
                }
            }
            assert(bottom_up_from(t_s, ri, yi) == bottom_up_from(big_l, ri, yi + 1));
        }
        y += 1;
    }
    proof {
        let t = view3(&target2);
        assert forall|x: int, yy: int, z: int| in_cube(ri, x, yy, z) && #[trigger] t[x][yy][z] implies
            pot(d, x, yy, z) >= 0 && supported(t, ri, d, x, yy, z) by {
            assert(pot(d, x, yy, z) >= 0);
        }
        assert(certified(t, ri, d));
        assert forall|y0: int| #[trigger] grounded(layers_upto(t, ri, y0), ri) by {
            lemma_grounded_layers(t, ri, y0);
        }
    }
    target2
}

} // verus!
