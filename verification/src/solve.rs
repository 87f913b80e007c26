//! Planning helpers of the construction solver: choosing the middle layer and
//! enumerating single-step moves inside a layer.
use vstd::prelude::*;
use crate::grid::{V3, view3, is_cube, lemma_cube_cell};
use crate::support::{Cube, in_cube};
use crate::command::Command;
use crate::point::P;

verus! {

/// The filled cells of `t` in layers `z < n`.
pub open spec fn filled_below(t: Cube, r: int, n: int) -> Set<(int, int, int)> {
    Set::new(|p: (int, int, int)| in_cube(r, p.0, p.1, p.2) && p.2 < n && t[p.0][p.1][p.2])
}

/// The filled cells of `t` visited so far when scanning in `x`, `y`, `z` order
/// up to (not including) `(x, y, z)`.
pub open spec fn filled_scanned(t: Cube, r: int, x: int, y: int, z: int) -> Set<(int, int, int)> {
    Set::new(|p: (int, int, int)| in_cube(r, p.0, p.1, p.2) && t[p.0][p.1][p.2]
        && (p.0 < x || (p.0 == x && (p.1 < y || (p.1 == y && p.2 < z)))))
}

/// The filled cells of layers below `z`, plus those of layer `z` before `(x, y)`.
pub open spec fn filled_layer_scanned(t: Cube, r: int, z: int, x: int, y: int) -> Set<(int, int, int)> {
    Set::new(|p: (int, int, int)| in_cube(r, p.0, p.1, p.2) && t[p.0][p.1][p.2]
        && (p.2 < z || (p.2 == z && (p.0 < x || (p.0 == x && p.1 < y)))))
}

spec fn row_prefix(x: int, y: int, k: int) -> Set<(int, int, int)> {
    Set::new(|p: (int, int, int)| p.0 == x && p.1 == y && 0 <= p.2 < k)
}

spec fn plane_prefix(r: int, x: int, k: int) -> Set<(int, int, int)> {
    Set::new(|p: (int, int, int)| p.0 == x && 0 <= p.1 < k && 0 <= p.2 < r)
}

spec fn cube_prefix(r: int, k: int) -> Set<(int, int, int)> {
    Set::new(|p: (int, int, int)| 0 <= p.0 < k && 0 <= p.1 < r && 0 <= p.2 < r)
}

proof fn lemma_row_finite(x: int, y: int, k: int)
    ensures
        row_prefix(x, y, k).finite(),
    decreases k,
{
    if k <= 0 {
        assert(row_prefix(x, y, k) =~= Set::empty());
    } else {
        lemma_row_finite(x, y, k - 1);
        assert(row_prefix(x, y, k) =~= row_prefix(x, y, k - 1).insert((x, y, k - 1)));
    }
}

proof fn lemma_plane_finite(r: int, x: int, k: int)
    ensures
        plane_prefix(r, x, k).finite(),
    decreases k,
{
    if k <= 0 {
        assert(plane_prefix(r, x, k) =~= Set::empty());
    } else {
        lemma_plane_finite(r, x, k - 1);
        lemma_row_finite(x, k - 1, r);
        assert(plane_prefix(r, x, k) =~= plane_prefix(r, x, k - 1).union(row_prefix(x, k - 1, r)));
    }
}

proof fn lemma_cube_finite(r: int, k: int)
    ensures
        cube_prefix(r, k).finite(),
    decreases k,
{
    if k <= 0 {
        assert(cube_prefix(r, k) =~= Set::empty());
    } else {
        lemma_cube_finite(r, k - 1);
        lemma_plane_finite(r, k - 1, r);
        assert(cube_prefix(r, k) =~= cube_prefix(r, k - 1).union(plane_prefix(r, k - 1, r)));
    }
}

/// The filled cells below a layer form a finite set.
pub proof fn lemma_filled_below_finite(t: Cube, r: int, n: int)
    ensures
        filled_below(t, r, n).finite(),
{
    lemma_cube_finite(r, r);
    assert(filled_below(t, r, n).subset_of(cube_prefix(r, r)));
    vstd::set_lib::lemma_set_subset_finite(cube_prefix(r, r), filled_below(t, r, n));
}

/// The first layer `z` such that the layers up to `z` hold more than half of the
/// filled cells; the last layer when there is none.
pub fn choose_z0(target: &V3<bool>) -> (z0: usize)
    requires
        target@.len() >= 1,
        is_cube(view3(target), target@.len() as int),
        filled_below(view3(target), target@.len() as int, target@.len() as int).len() <= 0x3fff_ffff,
    ensures
        z0 < target@.len(),
        forall|z: int| 0 <= z < z0 ==>
            2 * #[trigger] filled_below(view3(target), target@.len() as int, z + 1).len()
                <= filled_below(view3(target), target@.len() as int, target@.len() as int).len(),
        2 * filled_below(view3(target), target@.len() as int, z0 + 1).len()
            > filled_below(view3(target), target@.len() as int, target@.len() as int).len()
            || z0 == target@.len() - 1,
{
    let r = target.len();
    let ghost t = view3(target);
    let ghost ri = r as int;
    let ghost mut seen: Set<(int, int, int)> = Set::empty();
    proof {
        lemma_filled_below_finite(t, ri, ri);
    }
    let mut total: i32 = 0;
    let mut x: usize = 0;
    while x < r
        invariant
            r == target@.len(),
            t == view3(target),
            ri == r,
            is_cube(t, ri),
            filled_below(t, ri, ri).len() <= 0x3fff_ffff,
            filled_below(t, ri, ri).finite(),
            x <= r,
            seen.finite(),
            seen == filled_scanned(t, ri, x as int, 0, 0),
            total == seen.len(),
        decreases r - x,
    {
        let mut y: usize = 0;
        while y < r
            invariant
                r == target@.len(),
                t == view3(target),
                ri == r,
                is_cube(t, ri),
                filled_below(t, ri, ri).len() <= 0x3fff_ffff,
                filled_below(t, ri, ri).finite(),
                x < r,
                y <= r,
                seen.finite(),
                seen == filled_scanned(t, ri, x as int, y as int, 0),
                total == seen.len(),
            decreases r - y,
        {
            let mut z: usize = 0;
            while z < r
                invariant
                    r == target@.len(),
                    t == view3(target),
                    ri == r,
                    is_cube(t, ri),
                    filled_below(t, ri, ri).len() <= 0x3fff_ffff,
                    filled_below(t, ri, ri).finite(),
                    x < r,
                    y < r,
                    z <= r,
                    seen.finite(),
                    seen == filled_scanned(t, ri, x as int, y as int, z as int),
                    total == seen.len(),
                decreases r - z,
            {
                proof {
                    lemma_cube_cell(target, ri, x as int, y as int, z as int);
                    assert(seen.subset_of(filled_below(t, ri, ri)));
                    vstd::set_lib::lemma_len_subset(seen, filled_below(t, ri, ri));
                }
                if target[x][y][z] {
                    proof {
                        assert(seen.insert((x as int, y as int, z as int)).subset_of(filled_below(t, ri, ri)));
                        vstd::set_lib::lemma_len_subset(seen.insert((x as int, y as int, z as int)), filled_below(t, ri, ri));
                        assert(!seen.contains((x as int, y as int, z as int)));
                    }
                    total += 1;
                    proof {
                        seen = seen.insert((x as int, y as int, z as int));
                    }
                }
                z += 1;
                proof {
                    assert(seen =~= filled_scanned(t, ri, x as int, y as int, z as int));
                }
            }
            y += 1;
            proof {
                assert(seen =~= filled_scanned(t, ri, x as int, y as int, 0));
            }
        }
        x += 1;
        proof {
            assert(seen =~= filled_scanned(t, ri, x as int, 0, 0));
        }
    }
    proof {
        assert(seen =~= filled_below(t, ri, ri));
    }
    let ghost all = seen;
    let ghost mut part: Set<(int, int, int)> = Set::empty();
    let mut sub: i32 = 0;
    let mut z: usize = 0;
    while z < r
        invariant
            r == target@.len(),
            t == view3(target),
            ri == r,
            is_cube(t, ri),
            all == filled_below(t, ri, ri),
            all.finite(),
            total == all.len(),
            total <= 0x3fff_ffff,
            z <= r,
            part.finite(),
            part == filled_below(t, ri, z as int),
            sub == part.len(),
            forall|zz: int| 0 <= zz < z ==> 2 * #[trigger] filled_below(t, ri, zz + 1).len() <= total,
        decreases r - z,
    {
        let mut x: usize = 0;
        while x < r
            invariant
                r == target@.len(),
                t == view3(target),
                ri == r,
                is_cube(t, ri),
                all == filled_below(t, ri, ri),
                all.finite(),
                total == all.len(),
                total <= 0x3fff_ffff,
                z < r,
                x <= r,
                part.finite(),
                part == filled_layer_scanned(t, ri, z as int, x as int, 0),
                sub == part.len(),
            decreases r - x,
        {
            let mut y: usize = 0;
            while y < r
                invariant
                    r == target@.len(),
                    t == view3(target),
                    ri == r,
                    is_cube(t, ri),
                    all == filled_below(t, ri, ri),
                    all.finite(),
                    total == all.len(),
                    total <= 0x3fff_ffff,
                    z < r,
                    x < r,
                    y <= r,
                    part.finite(),
                    part == filled_layer_scanned(t, ri, z as int, x as int, y as int),
                    sub == part.len(),
                decreases r - y,
            {
                proof {
                    lemma_cube_cell(target, ri, x as int, y as int, z as int);
                    assert(part.subset_of(all));
                    vstd::set_lib::lemma_len_subset(part, all);
                }
                if target[x][y][z] {
                    proof {
                        assert(part.insert((x as int, y as int, z as int)).subset_of(all));
                        vstd::set_lib::lemma_len_subset(part.insert((x as int, y as int, z as int)), all);
                        assert(!part.contains((x as int, y as int, z as int)));
                    }
                    sub += 1;
                    proof {
                        part = part.insert((x as int, y as int, z as int));
                    }
                }
                y += 1;
                proof {
                    assert(part =~= filled_layer_scanned(t, ri, z as int, x as int, y as int));
                }
            }
            x += 1;
            proof {
                assert(part =~= filled_layer_scanned(t, ri, z as int, x as int, 0));
            }
        }
        proof {
            assert(part =~= filled_below(t, ri, z + 1));
            assert(part.subset_of(all));
            vstd::set_lib::lemma_len_subset(part, all);
        }
        if sub * 2 > total {
            return z;
        }
        z += 1;
    }
    proof {
        assert(filled_below(t, ri, ri) =~= filled_below(t, ri, (r - 1) + 1));
    }
    r - 1
}

// ---------------------------------------------------------------------------
// Single-step moves inside a layer.

/// `f(0) + f(1) + ... + f(n - 1)`.
pub open spec fn concat_seqs<A>(n: int, f: spec_fn(int) -> Seq<A>) -> Seq<A>
    decreases n,
{
    if n <= 0 { Seq::empty() } else { concat_seqs(n - 1, f) + f(n - 1) }
}

/// The number of free steps `1, 2, ...` (at most `lim`) before the first step
/// `j >= start` that is not free, counting from `start`: the largest `k <= lim`
/// with steps `start..=k` all free (or `start - 1`).
pub open spec fn run_from(free: spec_fn(int) -> bool, start: int, lim: int) -> int
    decreases lim + 1 - start,
{
    if start > lim { lim } else if !free(start) { start - 1 } else { run_from(free, start + 1, lim) }
}

/// `g` says which cells `blocked` blocks: whenever `blocked` returns on a cell
/// of `[0, r)^2` (with `r` read as an `i32`), it returns `g` of that cell.  A
/// closure whose `ensures` fixes its answer as `g` of its arguments meets this.
pub open spec fn decides<F: Fn(i32, i32) -> bool>(blocked: F, r: usize, g: spec_fn(i32, i32) -> bool) -> bool {
    forall|p: i32, q: i32, b: bool|
        0 <= p < (r as i32) && 0 <= q < (r as i32) && #[trigger] blocked.ensures((p, q), b) ==> b == g(p, q)
}

/// The cell `(a, b)` of the layer can be stepped on: it lies in `[0, r)^2`
/// (with `r` read as an `i32`) and `g` does not block it.
pub open spec fn open_cell(g: spec_fn(i32, i32) -> bool, r: usize, a: int, b: int) -> bool {
    &&& 0 <= a < (r as i32)
    &&& 0 <= b < (r as i32)
    &&& !g(a as i32, b as i32)
}

/// Step `j` from `(x, z)` in direction `(dx, dz)` lands on an open cell.
pub open spec fn open_step(g: spec_fn(i32, i32) -> bool, r: usize, x: int, z: int, dx: int, dz: int, j: int) -> bool {
    open_cell(g, r, x + dx * j, z + dz * j)
}

/// Steps from `(x, z)` in direction `(dx, dz)` stay on open cells.
pub open spec fn steps_open(g: spec_fn(i32, i32) -> bool, r: usize, x: int, z: int, dx: int, dz: int) -> spec_fn(int) -> bool {
    |j: int| open_step(g, r, x, z, dx, dz, j)
}

/// The moves that first go `d` steps in direction `(dx, dz)` from `(x, z)` and
/// then up to five steps in direction `(ex, ez)`, as long as the cells are open.
pub open spec fn turn_moves(
    g: spec_fn(i32, i32) -> bool, r: usize, x: int, z: int, dx: int, dz: int, d: int, ex: int, ez: int,
) -> Seq<(i32, i32, Command)> {
    let x2 = x + dx * d;
    let z2 = z + dz * d;
    Seq::new(
        run_from(steps_open(g, r, x2, z2, ex, ez), 1, 5) as nat,
        |i: int| (
            (dx * d + ex * (i + 1)) as i32,
            (dz * d + ez * (i + 1)) as i32,
            Command::LMove(
                P { x: (dx * d) as i32, y: 0, z: (dz * d) as i32 },
                P { x: (ex * (i + 1)) as i32, y: 0, z: (ez * (i + 1)) as i32 },
            ),
        ),
    )
}

/// The moves that go `d` steps in direction `(dx, dz)`, followed (for `d <= 5`)
/// by the turning moves to the left and to the right.
pub open spec fn straight_moves(
    g: spec_fn(i32, i32) -> bool, r: usize, x: int, z: int, dx: int, dz: int, d: int,
) -> Seq<(i32, i32, Command)> {
    seq![((dx * d) as i32, (dz * d) as i32, Command::SMove(P { x: (dx * d) as i32, y: 0, z: (dz * d) as i32 }))]
        + if d <= 5 {
            turn_moves(g, r, x, z, dx, dz, d, -dz, dx) + turn_moves(g, r, x, z, dx, dz, d, dz, -dx)
        } else {
            Seq::empty()
        }
}

/// The straight moves of `1, 2, ...` steps, indexed from zero.
pub open spec fn straight_from(
    g: spec_fn(i32, i32) -> bool, r: usize, x: int, z: int, dx: int, dz: int,
) -> spec_fn(int) -> Seq<(i32, i32, Command)> {
    |i: int| straight_moves(g, r, x, z, dx, dz, i + 1)
}

/// All moves starting in direction `(dx, dz)`: up to fifteen straight steps over open cells.
pub open spec fn direction_moves(
    g: spec_fn(i32, i32) -> bool, r: usize, x: int, z: int, dx: int, dz: int,
) -> Seq<(i32, i32, Command)> {
    concat_seqs(run_from(steps_open(g, r, x, z, dx, dz), 1, 15), straight_from(g, r, x, z, dx, dz))
}

/// The four directions, in the order they are tried.
pub open spec fn step_dirs() -> Seq<(int, int)> {
    seq![(-1int, 0int), (0int, -1int), (0int, 1int), (1int, 0int)]
}

/// The moves in each direction, indexed by the direction's place in `step_dirs`.
pub open spec fn moves_by_dir(g: spec_fn(i32, i32) -> bool, r: usize, x: int, z: int) -> spec_fn(int) -> Seq<(i32, i32, Command)> {
    |k: int| direction_moves(g, r, x, z, step_dirs()[k].0, step_dirs()[k].1)
}

/// All moves of `one_step` when `g` says which cells are blocked, direction by direction.
pub open spec fn one_step_moves(g: spec_fn(i32, i32) -> bool, r: usize, x: int, z: int) -> Seq<(i32, i32, Command)> {
    concat_seqs(4, moves_by_dir(g, r, x, z))
}

proof fn lemma_run_from_skip(free: spec_fn(int) -> bool, j: int, lim: int)
    requires
        1 <= j,
        forall|i: int| 1 <= i < j ==> #[trigger] free(i),
        j <= lim + 1,
    ensures
        run_from(free, 1, lim) == run_from(free, j, lim),
    decreases j,
{
    if j > 1 {
        lemma_run_from_skip(free, j - 1, lim);
        assert(free(j - 1));
    }
}

proof fn lemma_run_from_bounds(free: spec_fn(int) -> bool, j: int, lim: int)
    requires
        j <= lim + 1,
    ensures
        j - 1 <= run_from(free, j, lim) <= lim,
    decreases lim + 1 - j,
{
    if j <= lim && free(j) {
        lemma_run_from_bounds(free, j + 1, lim);
    }
}

/// Checks whether a cell of the layer is open, calling `blocked` only inside the grid.
fn cell_open<F: Fn(i32, i32) -> bool>(blocked: &F, r: usize, a: i32, b: i32) -> (open: bool)
    requires
        forall|p: i32, q: i32| 0 <= p < (r as i32) && 0 <= q < (r as i32) ==> blocked.requires((p, q)),
    ensures
        open ==> 0 <= a < (r as i32) && 0 <= b < (r as i32),
        forall|g: spec_fn(i32, i32) -> bool| #[trigger] decides(*blocked, r, g) ==> open == open_cell(g, r, a as int, b as int),
{
    if a < 0 || a >= r as i32 || b < 0 || b >= r as i32 {
        false
    } else {
        let f = blocked(a, b);
        proof {
            assert forall|g: spec_fn(i32, i32) -> bool| #[trigger] decides(*blocked, r, g) implies
                !f == open_cell(g, r, a as int, b as int) by {
                assert(blocked.ensures((a, b), f));
            }
        }
        !f
    }
}

/// The turning moves after `d` steps in direction `(dx, dz)`, which land on a
/// cell of the grid.
fn push_turns<F: Fn(i32, i32) -> bool>(
    ps: &mut Vec<(i32, i32, Command)>, x: i32, z: i32, r: usize, blocked: &F, dx: i32, dz: i32, d: i32, ex: i32, ez: i32,
)
    requires
        -1 <= dx <= 1,
        -1 <= dz <= 1,
        -1 <= ex <= 1,
        -1 <= ez <= 1,
        1 <= d <= 5,
        0 <= x + dx * d < (r as i32),
        0 <= z + dz * d < (r as i32),
        forall|p: i32, q: i32| 0 <= p < (r as i32) && 0 <= q < (r as i32) ==> blocked.requires((p, q)),
    ensures
        forall|g: spec_fn(i32, i32) -> bool| #[trigger] decides(*blocked, r, g) ==>
            final(ps)@ == old(ps)@ + turn_moves(g, r, x as int, z as int, dx as int, dz as int, d as int, ex as int, ez as int),
{
    assert(-5 <= dx * d <= 5) by (nonlinear_arith)
        requires -1 <= dx <= 1, 1 <= d <= 5;
    assert(-5 <= dz * d <= 5) by (nonlinear_arith)
        requires -1 <= dz <= 1, 1 <= d <= 5;
    let x2 = x + dx * d;
    let z2 = z + dz * d;
    let ghost start = ps@;
    let mut d2: i32 = 1;
    let mut go = true;
    while go && d2 < 6
        invariant
            -1 <= dx <= 1,
            -1 <= dz <= 1,
            -1 <= ex <= 1,
            -1 <= ez <= 1,
            1 <= d <= 5,
            -5 <= dx * d <= 5,
            -5 <= dz * d <= 5,
            x2 == x + dx * d,
            z2 == z + dz * d,
            0 <= x2 < (r as i32),
            0 <= z2 < (r as i32),
            forall|p: i32, q: i32| 0 <= p < (r as i32) && 0 <= q < (r as i32) ==> blocked.requires((p, q)),
            1 <= d2 <= 6,
            go && d2 > 1 ==> 0 <= x2 + ex * (d2 - 1) < (r as i32) && 0 <= z2 + ez * (d2 - 1) < (r as i32),
            forall|g: spec_fn(i32, i32) -> bool| #[trigger] decides(*blocked, r, g) ==> {
                &&& forall|i: int| 1 <= i < d2 ==> #[trigger] open_step(g, r, x2 as int, z2 as int, ex as int, ez as int, i)
                &&& (go ==> ps@ == start + turn_moves(g, r, x as int, z as int, dx as int, dz as int, d as int, ex as int, ez as int).subrange(0, d2 - 1))
                &&& (go ==> d2 - 1 <= turn_moves(g, r, x as int, z as int, dx as int, dz as int, d as int, ex as int, ez as int).len())
                &&& (!go ==> ps@ == start + turn_moves(g, r, x as int, z as int, dx as int, dz as int, d as int, ex as int, ez as int))
            },
        decreases 6 - d2 + if go { 1int } else { 0int },
    {
        assert(-5 <= ex * d2 <= 5) by (nonlinear_arith)
            requires -1 <= ex <= 1, 1 <= d2 <= 5;
        assert(-5 <= ez * d2 <= 5) by (nonlinear_arith)
            requires -1 <= ez <= 1, 1 <= d2 <= 5;
        assert(ex * d2 == ex * (d2 - 1) + ex) by (nonlinear_arith);
        assert(ez * d2 == ez * (d2 - 1) + ez) by (nonlinear_arith);
        let x3 = x2 + ex * d2;
        let z3 = z2 + ez * d2;
        let open = cell_open(blocked, r, x3, z3);
        if !open {
            go = false;
            proof {
                assert forall|g: spec_fn(i32, i32) -> bool| #[trigger] decides(*blocked, r, g) implies {
                    &&& forall|i: int| 1 <= i < d2 ==> #[trigger] open_step(g, r, x2 as int, z2 as int, ex as int, ez as int, i)
                    &&& (!go ==> ps@ == start + turn_moves(g, r, x as int, z as int, dx as int, dz as int, d as int, ex as int, ez as int))
                } by {
                    let free = steps_open(g, r, x2 as int, z2 as int, ex as int, ez as int);
                    let want = turn_moves(g, r, x as int, z as int, dx as int, dz as int, d as int, ex as int, ez as int);
                    assert forall|i: int| 1 <= i < d2 implies #[trigger] free(i) by {
                        assert(open_step(g, r, x2 as int, z2 as int, ex as int, ez as int, i));
                    }
                    lemma_run_from_skip(free, d2 as int, 5);
                    assert(!free(d2 as int));
                    assert(run_from(free, d2 as int, 5) == d2 - 1);
                    assert(want.len() == d2 - 1);
                    assert(want.subrange(0, d2 - 1) =~= want);
                }
            }
        } else {
            let ghost before = ps@;
            ps.push((x3 - x, z3 - z, Command::LMove(P::new(dx * d, 0, dz * d), P::new(ex * d2, 0, ez * d2))));
            let ghost k = d2;
            d2 += 1;
            proof {
                assert forall|g: spec_fn(i32, i32) -> bool| #[trigger] decides(*blocked, r, g) implies {
                    &&& forall|i: int| 1 <= i < d2 ==> #[trigger] open_step(g, r, x2 as int, z2 as int, ex as int, ez as int, i)
                    &&& (go ==> ps@ == start + turn_moves(g, r, x as int, z as int, dx as int, dz as int, d as int, ex as int, ez as int).subrange(0, d2 - 1))
                    &&& (go ==> d2 - 1 <= turn_moves(g, r, x as int, z as int, dx as int, dz as int, d as int, ex as int, ez as int).len())
                } by {
                    let free = steps_open(g, r, x2 as int, z2 as int, ex as int, ez as int);
                    let want = turn_moves(g, r, x as int, z as int, dx as int, dz as int, d as int, ex as int, ez as int);
                    assert(open_step(g, r, x2 as int, z2 as int, ex as int, ez as int, k as int));
                    assert forall|i: int| 1 <= i <= k implies #[trigger] free(i) by {
                        assert(open_step(g, r, x2 as int, z2 as int, ex as int, ez as int, i));
                    }
                    lemma_run_from_skip(free, k as int, 5);
                    lemma_run_from_bounds(free, k + 1, 5);
                    assert(run_from(free, k as int, 5) >= k);
                    assert(want[k - 1] == (
                        (x3 - x) as i32, (z3 - z) as i32,
                        Command::LMove(P { x: (dx * d) as i32, y: 0, z: (dz * d) as i32 }, P { x: (ex * k) as i32, y: 0, z: (ez * k) as i32 })));
                    assert(ps@ =~= start + want.subrange(0, k as int));
                }
            }
        }
    }
    proof {
        assert forall|g: spec_fn(i32, i32) -> bool| #[trigger] decides(*blocked, r, g) implies
            ps@ == start + turn_moves(g, r, x as int, z as int, dx as int, dz as int, d as int, ex as int, ez as int) by {
            if go {
                let free = steps_open(g, r, x2 as int, z2 as int, ex as int, ez as int);
                let want = turn_moves(g, r, x as int, z as int, dx as int, dz as int, d as int, ex as int, ez as int);
                assert forall|i: int| 1 <= i < 6 implies #[trigger] free(i) by {
                    assert(open_step(g, r, x2 as int, z2 as int, ex as int, ez as int, i));
                }
                lemma_run_from_skip(free, 6, 5);
                assert(want.len() == 5);
                assert(want.subrange(0, 5) =~= want);
            }
        }
    }
}

/// The straight moves in direction `(dx, dz)`, each followed by its turning moves.
fn push_direction<F: Fn(i32, i32) -> bool>(
    ps: &mut Vec<(i32, i32, Command)>, x: i32, z: i32, r: usize, blocked: &F, dx: i32, dz: i32,
)
    requires
        i32::MIN < x < i32::MAX,
        i32::MIN < z < i32::MAX,
        -1 <= dx <= 1,
        -1 <= dz <= 1,
        forall|p: i32, q: i32| 0 <= p < (r as i32) && 0 <= q < (r as i32) ==> blocked.requires((p, q)),
    ensures
        forall|g: spec_fn(i32, i32) -> bool| #[trigger] decides(*blocked, r, g) ==>
            final(ps)@ == old(ps)@ + direction_moves(g, r, x as int, z as int, dx as int, dz as int),
{
    let ghost start = ps@;
    let mut d: i32 = 1;
    let mut go = true;
    while go && d < 16
        invariant
            i32::MIN < x < i32::MAX,
            i32::MIN < z < i32::MAX,
            -1 <= dx <= 1,
            -1 <= dz <= 1,
            forall|p: i32, q: i32| 0 <= p < (r as i32) && 0 <= q < (r as i32) ==> blocked.requires((p, q)),
            1 <= d <= 16,
            go && d > 1 ==> 0 <= x + dx * (d - 1) < (r as i32) && 0 <= z + dz * (d - 1) < (r as i32),
            forall|g: spec_fn(i32, i32) -> bool| #[trigger] decides(*blocked, r, g) ==> {
                &&& forall|i: int| 1 <= i < d ==> #[trigger] open_step(g, r, x as int, z as int, dx as int, dz as int, i)
                &&& (go ==> ps@ == start + concat_seqs(d - 1, straight_from(g, r, x as int, z as int, dx as int, dz as int)))
                &&& (!go ==> ps@ == start + direction_moves(g, r, x as int, z as int, dx as int, dz as int))
            },
        decreases 16 - d + if go { 1int } else { 0int },
    {
        assert(-15 <= dx * d <= 15) by (nonlinear_arith)
            requires -1 <= dx <= 1, 1 <= d <= 15;
        assert(-15 <= dz * d <= 15) by (nonlinear_arith)
            requires -1 <= dz <= 1, 1 <= d <= 15;
        assert(dx * d == dx * (d - 1) + dx) by (nonlinear_arith);
        assert(dz * d == dz * (d - 1) + dz) by (nonlinear_arith);
        let x2 = x + dx * d;
        let z2 = z + dz * d;
        let open = cell_open(blocked, r, x2, z2);
        if !open {
            go = false;
            proof {
                assert forall|g: spec_fn(i32, i32) -> bool| #[trigger] decides(*blocked, r, g) implies {
                    &&& forall|i: int| 1 <= i < d ==> #[trigger] open_step(g, r, x as int, z as int, dx as int, dz as int, i)
                    &&& (!go ==> ps@ == start + direction_moves(g, r, x as int, z as int, dx as int, dz as int))
                } by {
                    let free = steps_open(g, r, x as int, z as int, dx as int, dz as int);
                    assert forall|i: int| 1 <= i < d implies #[trigger] free(i) by {
                        assert(open_step(g, r, x as int, z as int, dx as int, dz as int, i));
                    }
                    lemma_run_from_skip(free, d as int, 15);
                    assert(!free(d as int));
                    assert(run_from(free, d as int, 15) == d - 1);
                }
            }
        } else {
            let ghost before = ps@;
            ps.push((x2 - x, z2 - z, Command::SMove(P::new(dx * d, 0, dz * d))));
            let ghost mid = ps@;
            if d <= 5 {
                push_turns(ps, x, z, r, blocked, dx, dz, d, -dz, dx);
                let ghost mid2 = ps@;
                push_turns(ps, x, z, r, blocked, dx, dz, d, dz, -dx);
                proof {
                    assert forall|g: spec_fn(i32, i32) -> bool| #[trigger] decides(*blocked, r, g) implies
                        ps@ == before + straight_moves(g, r, x as int, z as int, dx as int, dz as int, d as int) by {
                        assert(mid2 == mid + turn_moves(g, r, x as int, z as int, dx as int, dz as int, d as int, -dz as int, dx as int));
                        assert(ps@ =~= before + straight_moves(g, r, x as int, z as int, dx as int, dz as int, d as int));
                    }
                }
            } else {
                proof {
                    assert forall|g: spec_fn(i32, i32) -> bool| #[trigger] decides(*blocked, r, g) implies
                        ps@ == before + straight_moves(g, r, x as int, z as int, dx as int, dz as int, d as int) by {
                        assert(ps@ =~= before + straight_moves(g, r, x as int, z as int, dx as int, dz as int, d as int));
                    }
                }
            }
            let ghost k = d;
            d += 1;
            proof {
                assert forall|g: spec_fn(i32, i32) -> bool| #[trigger] decides(*blocked, r, g) implies {
                    &&& forall|i: int| 1 <= i < d ==> #[trigger] open_step(g, r, x as int, z as int, dx as int, dz as int, i)
                    &&& (go ==> ps@ == start + concat_seqs(d - 1, straight_from(g, r, x as int, z as int, dx as int, dz as int)))
                } by {
                    assert(open_step(g, r, x as int, z as int, dx as int, dz as int, k as int));
                    let f = straight_from(g, r, x as int, z as int, dx as int, dz as int);
                    assert(f(k - 1) == straight_moves(g, r, x as int, z as int, dx as int, dz as int, k as int));
                    assert(concat_seqs(k as int, f) == concat_seqs(k - 1, f) + f(k - 1));
                    assert(ps@ =~= start + concat_seqs(k as int, f));
                }
            }
        }
    }
    proof {
        assert forall|g: spec_fn(i32, i32) -> bool| #[trigger] decides(*blocked, r, g) implies
            ps@ == start + direction_moves(g, r, x as int, z as int, dx as int, dz as int) by {
            if go {
                let free = steps_open(g, r, x as int, z as int, dx as int, dz as int);
                assert forall|i: int| 1 <= i < 16 implies #[trigger] free(i) by {
                    assert(open_step(g, r, x as int, z as int, dx as int, dz as int, i));
                }
                lemma_run_from_skip(free, 16, 15);
                assert(run_from(free, 1, 15) == 15);
            }
        }
    }
}

fn step_dir(k: usize) -> (dir: (i32, i32))
    requires
        k < 4,
    ensures
        dir.0 as int == step_dirs()[k as int].0,
        dir.1 as int == step_dirs()[k as int].1,
{
    if k == 0 { (-1, 0) } else if k == 1 { (0, -1) } else if k == 2 { (0, 1) } else { (1, 0) }
}

/// All single-step moves of a bot at `(x, z)` within its layer: for each of the
/// directions `-x`, `-z`, `+z`, `+x`, the straight moves of `1..=15` steps over
/// open cells, each of length at most five followed by the moves that turn left
/// and right for `1..=5` more steps over open cells.  Each entry holds the
/// displacement along `x` and `z` and the command.  A cell is open when it lies
/// in `[0, r)^2` and `blocked` says no; `blocked` is only asked about cells in
/// the grid.  For every `g` that gives the answers of `blocked` (`decides`),
/// the result is `one_step_moves(g, r, x, z)`.
pub fn one_step<F: Fn(i32, i32) -> bool>(x: i32, z: i32, r: usize, blocked: F) -> (ps: Vec<(i32, i32, Command)>)
    requires
        i32::MIN < x < i32::MAX,
        i32::MIN < z < i32::MAX,
        forall|p: i32, q: i32| 0 <= p < (r as i32) && 0 <= q < (r as i32) ==> blocked.requires((p, q)),
    ensures
        forall|g: spec_fn(i32, i32) -> bool| #[trigger] decides(blocked, r, g) ==>
            ps@ == one_step_moves(g, r, x as int, z as int),
{
    let mut ps: Vec<(i32, i32, Command)> = Vec::new();
    let mut k: usize = 0;
    while k < 4
        invariant
            i32::MIN < x < i32::MAX,
            i32::MIN < z < i32::MAX,
            forall|p: i32, q: i32| 0 <= p < (r as i32) && 0 <= q < (r as i32) ==> blocked.requires((p, q)),
            k <= 4,
            forall|g: spec_fn(i32, i32) -> bool| #[trigger] decides(blocked, r, g) ==>
                ps@ == concat_seqs(k as int, moves_by_dir(g, r, x as int, z as int)),
        decreases 4 - k,
    {
        let (dx, dz) = step_dir(k);
        let ghost before = ps@;
        push_direction(&mut ps, x, z, r, &blocked, dx, dz);
        proof {
            assert forall|g: spec_fn(i32, i32) -> bool| #[trigger] decides(blocked, r, g) implies
                ps@ == concat_seqs(k + 1, moves_by_dir(g, r, x as int, z as int)) by {
                let f = moves_by_dir(g, r, x as int, z as int);
                assert(f(k as int) == direction_moves(g, r, x as int, z as int, dx as int, dz as int));
            }
        }
        k += 1;
    }
    ps
}

} // verus!
