//! Where the construction bots start, and how far the layers to build reach.
use vstd::prelude::*;
use crate::grid::{V3, view3, is_cube, lemma_cube_cell};
use crate::order::SetMax;
use crate::point::P;

verus! {

/// The cells `at(a, b)` with `pick(a, b)` for `b < blim`, in order of `b`.
pub open spec fn row_cells(pick: spec_fn(int, int) -> bool, at: spec_fn(int, int) -> P, a: int, blim: int) -> Seq<P>
    decreases blim,
{
    if blim <= 0 {
        Seq::empty()
    } else {
        row_cells(pick, at, a, blim - 1) + if pick(a, blim - 1) {
            seq![at(a, blim - 1)]
        } else {
            Seq::empty()
        }
    }
}

/// The cells `at(a, b)` with `pick(a, b)` for `a < alim` and `b < r`, in
/// order of `a`, then `b`.
pub open spec fn grid_cells(pick: spec_fn(int, int) -> bool, at: spec_fn(int, int) -> P, r: int, alim: int) -> Seq<P>
    decreases alim,
{
    if alim <= 0 {
        Seq::empty()
    } else {
        grid_cells(pick, at, r, alim - 1) + row_cells(pick, at, alim - 1, r)
    }
}

/// `n` starting points out of the candidates `c`: evenly spaced ones (the
/// `i * |c| / n`-th) when there are enough, otherwise all of them followed by
/// as many of the fallbacks `e` as needed (or available).
pub open spec fn spread(c: Seq<P>, e: Seq<P>, n: int) -> Seq<P> {
    if c.len() >= n {
        Seq::new(n as nat, |i: int| c[i * c.len() / n])
    } else {
        let k = n - c.len();
        c + e.take(if k < e.len() { k } else { e.len() as int })
    }
}

proof fn lemma_spread_index(i: int, len: int, n: int)
    requires
        0 <= i < n,
        n <= len,
    ensures
        0 <= i * len / n < len,
{
    assert(0 <= i * len / n < len) by (nonlinear_arith)
        requires 0 <= i < n, n <= len;
}

/// Picks `n` starting points as `spread` says.
pub fn spread_starts(cands: &Vec<P>, extra: &Vec<P>, n: usize) -> (starts: Vec<P>)
    ensures
        starts@ == spread(cands@, extra@, n as int),
{
    let len = cands.len();
    let mut starts: Vec<P> = Vec::new();
    if len >= n {
        let mut i: usize = 0;
        while i < n
            invariant
                len == cands@.len(),
                len >= n,
                i <= n,
                starts@ == Seq::new(i as nat, |k: int| cands@[k * len / (n as int)]),
            decreases n - i,
        {
            proof {
                let a = i as int;
                let b = len as int;
                assert(a <= 0xffff_ffff_ffff_ffff && b <= 0xffff_ffff_ffff_ffff);
                assert(a * b <= 0xffff_ffff_ffff_ffff * 0xffff_ffff_ffff_ffff) by (nonlinear_arith)
                    requires 0 <= a <= 0xffff_ffff_ffff_ffff, 0 <= b <= 0xffff_ffff_ffff_ffff;
            }
            let j128: u128 = (i as u128) * (len as u128) / (n as u128);
            proof {
                lemma_spread_index(i as int, len as int, n as int);
            }
            let j = j128 as usize;
            starts.push(cands[j]);
            i += 1;
            assert(starts@ =~= Seq::new(i as nat, |k: int| cands@[k * len / (n as int)]));
        }
    } else {
        let mut i: usize = 0;
        while i < len
            invariant
                len == cands@.len(),
                i <= len,
                starts@ == cands@.subrange(0, i as int),
            decreases len - i,
        {
            starts.push(cands[i]);
            i += 1;
            assert(starts@ =~= cands@.subrange(0, i as int));
        }
        assert(cands@.subrange(0, i as int) =~= cands@);
        let mut k: usize = 0;
        while k < extra.len() && starts.len() < n
            invariant
                len == cands@.len(),
                len < n,
                k <= extra@.len(),
                starts@.len() == len + k,
                starts@ == cands@ + extra@.take(k as int),
                len + k <= n,
            decreases extra@.len() - k,
        {
            starts.push(extra[k]);
            k += 1;
            assert(starts@ =~= cands@ + extra@.take(k as int));
        }
    }
    starts
}

/// Floor cells `(x, 0, z)` that are (or are not) part of the shape, taken as
/// the points one above them.
pub open spec fn floor_pick(t: Seq<Seq<Seq<bool>>>, want: bool) -> spec_fn(int, int) -> bool {
    |a: int, b: int| t[a][0][b] == want
}

/// The point above floor cell `(a, 0, b)`.
pub open spec fn above_floor() -> spec_fn(int, int) -> P {
    |a: int, b: int| P { x: a as i32, y: 1, z: b as i32 }
}

/// The points above the floor cells of the shape (`want`) or outside it.
pub fn floor_cells(target: &V3<bool>, want: bool) -> (cells: Vec<P>)
    requires
        target@.len() <= i32::MAX,
        is_cube(view3(target), target@.len() as int),
    ensures
        cells@ == grid_cells(floor_pick(view3(target), want), above_floor(), target@.len() as int, target@.len() as int),
{
    let r = target.len();
    let ghost t = view3(target);
    let ghost pick = floor_pick(t, want);
    let ghost at = above_floor();
    let mut cells: Vec<P> = Vec::new();
    let mut x: usize = 0;
    while x < r
        invariant
            r == target@.len(),
            r <= i32::MAX,
            t == view3(target),
            is_cube(t, r as int),
            pick == floor_pick(t, want),
            at == above_floor(),
            x <= r,
            cells@ == grid_cells(pick, at, r as int, x as int),
        decreases r - x,
    {
        let mut z: usize = 0;
        while z < r
            invariant
                r == target@.len(),
                r <= i32::MAX,
                t == view3(target),
                is_cube(t, r as int),
                pick == floor_pick(t, want),
                at == above_floor(),
                x < r,
                z <= r,
                cells@ == grid_cells(pick, at, r as int, x as int) + row_cells(pick, at, x as int, z as int),
            decreases r - z,
        {
            proof {
                lemma_cube_cell(target, r as int, x as int, 0, z as int);
            }
            if target[x][0][z] == want {
                cells.push(P::new(x as i32, 1, z as i32));
            }
            z += 1;
            assert(cells@ =~= grid_cells(pick, at, r as int, x as int) + row_cells(pick, at, x as int, z as int));
        }
        x += 1;
    }
    cells
}

/// The starting points of a bottom-up build with `nbots` bots: spread over
/// the points above the shape's floor cells, topped up with the points above
/// the other floor cells.
pub fn bottom_starts(target: &V3<bool>, nbots: usize) -> (starts: Vec<P>)
    requires
        target@.len() <= i32::MAX,
        is_cube(view3(target), target@.len() as int),
    ensures
        starts@ == spread(
            grid_cells(floor_pick(view3(target), true), above_floor(), target@.len() as int, target@.len() as int),
            grid_cells(floor_pick(view3(target), false), above_floor(), target@.len() as int, target@.len() as int),
            nbots as int,
        ),
{
    let inside = floor_cells(target, true);
    let outside = floor_cells(target, false);
    spread_starts(&inside, &outside, nbots)
}

/// Cells `(a, b, z)` that are (or are not) part of the shape.
pub open spec fn side_pick(t: Seq<Seq<Seq<bool>>>, z: int, want: bool) -> spec_fn(int, int) -> bool {
    |a: int, b: int| t[a][b][z] == want
}

/// The point `(a, b, w)`.
pub open spec fn at_depth(w: int) -> spec_fn(int, int) -> P {
    |a: int, b: int| P { x: a as i32, y: b as i32, z: w as i32 }
}

/// The layer a side build starts from: `z0` going up (`dir < 0`), `z0 - 1`
/// going down.
pub open spec fn start_layer(z0: int, dir: int) -> int {
    if dir < 0 {
        z0
    } else {
        z0 - 1
    }
}

/// The points beside the cells of layer `z` (on the side `z - dir`) that are
/// (or are not) part of the shape.
pub fn side_cells(target: &V3<bool>, z: usize, dir: i32, want: bool) -> (cells: Vec<P>)
    requires
        target@.len() <= i32::MAX,
        is_cube(view3(target), target@.len() as int),
        z < target@.len(),
        dir == -1 || dir == 1,
    ensures
        cells@ == grid_cells(side_pick(view3(target), z as int, want), at_depth(z - dir), target@.len() as int, target@.len() as int),
{
    let r = target.len();
    let ghost t = view3(target);
    let ghost pick = side_pick(t, z as int, want);
    let ghost at = at_depth(z - dir);
    let w: i32 = z as i32 - dir;
    let mut cells: Vec<P> = Vec::new();
    let mut x: usize = 0;
    while x < r
        invariant
            r == target@.len(),
            r <= i32::MAX,
            z < r,
            w == z - dir,
            t == view3(target),
            is_cube(t, r as int),
            pick == side_pick(t, z as int, want),
            at == at_depth(z - dir),
            x <= r,
            cells@ == grid_cells(pick, at, r as int, x as int),
        decreases r - x,
    {
        let mut y: usize = 0;
        while y < r
            invariant
                r == target@.len(),
                r <= i32::MAX,
                z < r,
                w == z - dir,
                t == view3(target),
                is_cube(t, r as int),
                pick == side_pick(t, z as int, want),
                at == at_depth(z - dir),
                x < r,
                y <= r,
                cells@ == grid_cells(pick, at, r as int, x as int) + row_cells(pick, at, x as int, y as int),
            decreases r - y,
        {
            proof {
                lemma_cube_cell(target, r as int, x as int, y as int, z as int);
            }
            if target[x][y][z] == want {
                cells.push(P::new(x as i32, y as i32, w));
            }
            y += 1;
            assert(cells@ =~= grid_cells(pick, at, r as int, x as int) + row_cells(pick, at, x as int, y as int));
        }
        x += 1;
    }
    cells
}

/// The starting points of the `nbots` bots of one side of a build outward
/// from the middle layer `z0`: spread over the points beside the shape's
/// cells of the first layer of that side, topped up with the points beside
/// its other cells.
pub fn side_starts(target: &V3<bool>, z0: usize, dir: i32, nbots: usize) -> (starts: Vec<P>)
    requires
        target@.len() <= i32::MAX,
        is_cube(view3(target), target@.len() as int),
        dir == -1 || dir == 1,
        0 <= start_layer(z0 as int, dir as int) < target@.len(),
    ensures
        starts@ == spread(
            grid_cells(side_pick(view3(target), start_layer(z0 as int, dir as int), true),
                at_depth(start_layer(z0 as int, dir as int) - dir), target@.len() as int, target@.len() as int),
            grid_cells(side_pick(view3(target), start_layer(z0 as int, dir as int), false),
                at_depth(start_layer(z0 as int, dir as int) - dir), target@.len() as int, target@.len() as int),
            nbots as int,
        ),
{
    let z = if dir < 0 { z0 } else { z0 - 1 };
    let inside = side_cells(target, z, dir, true);
    let outside = side_cells(target, z, dir, false);
    spread_starts(&inside, &outside, nbots)
}

/// Layer `y` of `t` holds some cell of the shape.
pub open spec fn y_layer_used(t: Seq<Seq<Seq<bool>>>, r: int, y: int) -> bool {
    exists|x: int, z: int| 0 <= x < r && 0 <= z < r && #[trigger] t[x][y][z]
}

/// The highest layer holding a cell of the shape (0 when there is none).
pub fn top_layer(target: &V3<bool>) -> (max_r: usize)
    requires
        is_cube(view3(target), target@.len() as int),
    ensures
        max_r == 0 || (max_r < target@.len() && y_layer_used(view3(target), target@.len() as int, max_r as int)),
        forall|y: int| max_r < y < target@.len() ==> !y_layer_used(view3(target), target@.len() as int, y),
{
    let r = target.len();
    let ghost t = view3(target);
    let mut max_r: usize = 0;
    let mut x: usize = 0;
    while x < r
        invariant
            r == target@.len(),
            t == view3(target),
            is_cube(t, r as int),
            x <= r,
            max_r == 0 || (max_r < r && y_layer_used(t, r as int, max_r as int)),
            forall|a: int, y: int, z: int| 0 <= a < x && max_r < y < r && 0 <= z < r ==> !#[trigger] t[a][y][z],
        decreases r - x,
    {
        let mut y: usize = 0;
        while y < r
            invariant
                r == target@.len(),
                t == view3(target),
                is_cube(t, r as int),
                x < r,
                y <= r,
                max_r == 0 || (max_r < r && y_layer_used(t, r as int, max_r as int)),
                forall|a: int, b: int, z: int| 0 <= a < x && max_r < b < r && 0 <= z < r ==> !#[trigger] t[a][b][z],
                forall|b: int, z: int| 0 <= b < y && max_r < b && 0 <= z < r ==> !#[trigger] t[x as int][b][z],
            decreases r - y,
        {
            let mut z: usize = 0;
            while z < r
                invariant
                    r == target@.len(),
                    t == view3(target),
                    is_cube(t, r as int),
                    x < r,
                    y < r,
                    z <= r,
                    max_r == 0 || (max_r < r && y_layer_used(t, r as int, max_r as int)),
                    forall|a: int, b: int, c: int| 0 <= a < x && max_r < b < r && 0 <= c < r ==> !#[trigger] t[a][b][c],
                    forall|b: int, c: int| 0 <= b < y && max_r < b && 0 <= c < r ==> !#[trigger] t[x as int][b][c],
                    forall|c: int| 0 <= c < z && max_r < y ==> !#[trigger] t[x as int][y as int][c],
                decreases r - z,
            {
                proof {
                    lemma_cube_cell(target, r as int, x as int, y as int, z as int);
                }
                if target[x][y][z] {
                    let ghost old_max = max_r;
                    max_r.setmax(y);
                    proof {
                        assert(t[x as int][y as int][z as int]);
                        if max_r == y {
                            assert(y_layer_used(t, r as int, y as int));
                        } else {
                            assert(max_r == old_max);
                        }
                    }
                }
                z += 1;
            }
            y += 1;
        }
        x += 1;
    }
    max_r
}

/// Layer `z` of `t` holds some cell of the shape.
pub open spec fn z_layer_used(t: Seq<Seq<Seq<bool>>>, r: int, z: int) -> bool {
    exists|x: int, y: int| 0 <= x < r && 0 <= y < r && #[trigger] t[x][y][z]
}

/// The `d`-th layer of one side of a build outward from `z0`: `z0 + d` going
/// up (`dir < 0`), `z0 - 1 - d` going down.
pub open spec fn side_layer(z0: int, dir: int, d: int) -> int {
    if dir < 0 {
        z0 + d
    } else {
        z0 - 1 - d
    }
}

/// How many layers one side of a build outward from `z0` has: the number of
/// consecutive layers from the start of that side that lie in the grid and
/// hold some cell of the shape.
pub fn layer_span(target: &V3<bool>, z0: usize, dir: i32) -> (max_d: usize)
    requires
        target@.len() <= i32::MAX,
        z0 <= target@.len(),
        is_cube(view3(target), target@.len() as int),
        dir == -1 || dir == 1,
    ensures
        forall|d: int| 0 <= d < max_d ==> 0 <= #[trigger] side_layer(z0 as int, dir as int, d) < target@.len()
            && z_layer_used(view3(target), target@.len() as int, side_layer(z0 as int, dir as int, d)),
        !(0 <= side_layer(z0 as int, dir as int, max_d as int) < target@.len())
            || !z_layer_used(view3(target), target@.len() as int, side_layer(z0 as int, dir as int, max_d as int)),
{
    let r = target.len();
    let ghost t = view3(target);
    let mut d: usize = 0;
    loop
        invariant
            r == target@.len(),
            r <= i32::MAX,
            z0 <= r,
            t == view3(target),
            is_cube(t, r as int),
            dir == -1 || dir == 1,
            d <= r + 1,
            forall|e: int| 0 <= e < d ==> 0 <= #[trigger] side_layer(z0 as int, dir as int, e) < r
                && z_layer_used(t, r as int, side_layer(z0 as int, dir as int, e)),
        ensures
            forall|e: int| 0 <= e < d ==> 0 <= #[trigger] side_layer(z0 as int, dir as int, e) < r
                && z_layer_used(t, r as int, side_layer(z0 as int, dir as int, e)),
            !(0 <= side_layer(z0 as int, dir as int, d as int) < r)
                || !z_layer_used(t, r as int, side_layer(z0 as int, dir as int, d as int)),
        decreases r + 1 - d,
    {
        let z: i64 = if dir < 0 { z0 as i64 + d as i64 } else { z0 as i64 - 1 - d as i64 };
        assert(z == side_layer(z0 as int, dir as int, d as int));
        if z < 0 || z >= r as i64 {
            break;
        }
        let zu = z as usize;
        let mut used = false;
        let mut x: usize = 0;
        while x < r
            invariant
                r == target@.len(),
                zu < r,
                t == view3(target),
                is_cube(t, r as int),
                x <= r,
                used == exists|a: int, b: int| 0 <= a < x && 0 <= b < r && #[trigger] t[a][b][zu as int],
            decreases r - x,
        {
            let mut y: usize = 0;
            while y < r
                invariant
                    r == target@.len(),
                    zu < r,
                    t == view3(target),
                    is_cube(t, r as int),
                    x < r,
                    y <= r,
                    used == ((exists|a: int, b: int| 0 <= a < x && 0 <= b < r && #[trigger] t[a][b][zu as int])
                        || (exists|b: int| 0 <= b < y && #[trigger] t[x as int][b][zu as int])),
                decreases r - y,
            {
                proof {
                    lemma_cube_cell(target, r as int, x as int, y as int, zu as int);
                }
                if target[x][y][zu] {
                    used = true;
                }
                y += 1;
            }
            x += 1;
            proof {
                assert(used == exists|a: int, b: int| 0 <= a < x && 0 <= b < r && #[trigger] t[a][b][zu as int]) by {
                    if used {
                        if exists|b: int| 0 <= b < r && #[trigger] t[x - 1][b][zu as int] {
                            let b = choose|b: int| 0 <= b < r && #[trigger] t[x - 1][b][zu as int];
                            assert(0 <= x - 1 < x && t[x - 1][b][zu as int]);
                        }
                    }
                }
            }
        }
        assert(used == z_layer_used(t, r as int, zu as int));
        if !used {
            break;
        }
        proof {
            if d >= r {
                assert(0 <= side_layer(z0 as int, dir as int, 0) < r);
                assert(0 <= side_layer(z0 as int, dir as int, d as int) < r);
            }
        }
        d += 1;
    }
    d
}

} // verus!
