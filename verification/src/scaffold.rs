//! The temporary supports that a build leaves behind: vertical runs of filled
//! voxels outside the target, cut into pieces short enough to be voided at
//! once.
use vstd::prelude::*;
use crate::grid::{V3, view3, is_cube, lemma_cube_cell};
use crate::point::P;

verus! {

/// The column `(x, z)` of a cube, bottom to top.
pub open spec fn column(g: Seq<Seq<Seq<bool>>>, x: int, z: int) -> Seq<bool> {
    Seq::new(g.len(), |y: int| g[x][y][z])
}

/// The first height `>= y` holding a target voxel, or the column's length if
/// there is none (or `y` itself, above the column).
pub open spec fn next_target(tc: Seq<bool>, y: int) -> int
    decreases tc.len() - y,
{
    if y >= tc.len() {
        y
    } else if tc[y] {
        y
    } else {
        next_target(tc, y + 1)
    }
}

/// The heights `s..=t`, cut from the bottom into pieces of at most 31.
pub open spec fn chunks(s: int, t: int) -> Seq<(int, int)>
    decreases t - s,
{
    if t - s > 30 {
        seq![(s, s + 30)] + chunks(s + 31, t)
    } else {
        seq![(s, t)]
    }
}

/// Every piece of a cut run lies inside the run, is at most 31 voxels long,
/// and the pieces cover the run from the bottom without gaps.
pub proof fn lemma_chunks_cover(s: int, t: int)
    requires
        s <= t,
    ensures
        chunks(s, t).len() >= 1,
        chunks(s, t)[0].0 == s,
        chunks(s, t).last().1 == t,
        forall|i: int| 0 <= i < chunks(s, t).len() ==> s <= (#[trigger] chunks(s, t)[i]).0 <= chunks(s, t)[i].1 <= t
            && chunks(s, t)[i].1 - chunks(s, t)[i].0 <= 30,
        forall|i: int| 0 <= i < chunks(s, t).len() - 1 ==> (#[trigger] chunks(s, t)[i]).1 + 1 == chunks(s, t)[i + 1].0,
    decreases t - s,
{
    if t - s > 30 {
        lemma_chunks_cover(s + 31, t);
        let rest = chunks(s + 31, t);
        let c = chunks(s, t);
        assert(c == seq![(s, s + 30)] + rest);
        assert forall|i: int| 0 <= i < c.len() implies s <= (#[trigger] c[i]).0 <= c[i].1 <= t && c[i].1 - c[i].0 <= 30 by {
            if i > 0 {
                assert(c[i] == rest[i - 1]);
            }
        }
        assert forall|i: int| 0 <= i < c.len() - 1 implies (#[trigger] c[i]).1 + 1 == c[i + 1].0 by {
            assert(c[i + 1] == rest[i]);
            if i > 0 {
                assert(c[i] == rest[i - 1]);
            }
        }
    }
}

/// `next_target` never lies below its start, nor above the column.
pub proof fn lemma_next_target_above(tc: Seq<bool>, y: int)
    ensures
        next_target(tc, y) >= y,
        y <= tc.len() ==> next_target(tc, y) <= tc.len(),
    decreases tc.len() - y,
{
    if y < tc.len() && !tc[y] {
        lemma_next_target_above(tc, y + 1);
    }
}

/// `next_target` finds every target voxel at or above its start.
pub proof fn lemma_next_target_before(tc: Seq<bool>, y: int, e: int)
    requires
        0 <= y <= e < tc.len(),
        tc[e],
    ensures
        y <= next_target(tc, y) <= e,
        tc[next_target(tc, y)],
    decreases e - y,
{
    if !tc[y] {
        lemma_next_target_before(tc, y + 1, e);
    }
}

/// The support pieces of one column from height `y` up: each run of
/// non-target voxels that starts at a filled voxel reaches up to the next
/// target voxel and is cut by `chunks`.
pub open spec fn column_segments(tc: Seq<bool>, fc: Seq<bool>, y: int) -> Seq<(int, int)>
    decreases tc.len() + 1 - y,
{
    if y < 0 || y >= tc.len() {
        Seq::empty()
    } else if !tc[y] && fc[y] {
        let e = next_target(tc, y);
        proof {
            lemma_next_target_above(tc, y);
        }
        chunks(y, e - 1) + column_segments(tc, fc, e + 1)
    } else {
        column_segments(tc, fc, y + 1)
    }
}

/// The pieces of column `(x, z)` as pairs of end points.
pub open spec fn to_points(x: int, z: int, s: Seq<(int, int)>) -> Seq<[P; 2]> {
    s.map_values(|st: (int, int)| [
        P { x: x as i32, y: st.0 as i32, z: z as i32 },
        P { x: x as i32, y: st.1 as i32, z: z as i32 },
    ])
}

/// The pieces of the columns `(x, 0)` to `(x, zlim - 1)`.
pub open spec fn plane_segments(t: Seq<Seq<Seq<bool>>>, f: Seq<Seq<Seq<bool>>>, x: int, zlim: int) -> Seq<[P; 2]>
    decreases zlim,
{
    if zlim <= 0 {
        Seq::empty()
    } else {
        plane_segments(t, f, x, zlim - 1) + to_points(x, zlim - 1, column_segments(column(t, x, zlim - 1), column(f, x, zlim - 1), 0))
    }
}

/// The pieces of all columns with `x < xlim`, in order of `x`, then `z`.
pub open spec fn grid_segments(t: Seq<Seq<Seq<bool>>>, f: Seq<Seq<Seq<bool>>>, xlim: int) -> Seq<[P; 2]>
    decreases xlim,
{
    if xlim <= 0 {
        Seq::empty()
    } else {
        grid_segments(t, f, xlim - 1) + plane_segments(t, f, xlim - 1, t.len() as int)
    }
}

/// Every filled voxel outside the target has a target voxel above it in its
/// column.
pub open spec fn supports_capped(t: Seq<Seq<Seq<bool>>>, f: Seq<Seq<Seq<bool>>>) -> bool {
    forall|x: int, y: int, z: int|
        0 <= x < t.len() && 0 <= y < t.len() && 0 <= z < t.len() && !#[trigger] t[x][y][z] && f[x][y][z]
            ==> exists|e: int| y < e < t.len() && #[trigger] t[x][e][z]
}

/// The piece runs up column `(x, z)` and holds height `y`.
pub open spec fn seg_holds(seg: [P; 2], x: int, y: int, z: int) -> bool {
    &&& seg[0].x == x
    &&& seg[1].x == x
    &&& seg[0].z == z
    &&& seg[1].z == z
    &&& seg[0].y <= y <= seg[1].y
}

/// The two pieces share no voxel: they lie in different columns, or one ends
/// below the other's start.
pub open spec fn apart(a: [P; 2], b: [P; 2]) -> bool {
    a[0].x != b[0].x || a[0].z != b[0].z || a[1].y < b[0].y || b[1].y < a[0].y
}

/// How piece `i` of `segs` is cut: it starts at a filled voxel of `f` or
/// right above the piece before it in the list (same column); it ends right
/// below a voxel of `t`, or it holds 31 voxels and the next piece in the list
/// starts right above it in the same column.
pub open spec fn seg_cut_ok(t: Seq<Seq<Seq<bool>>>, f: Seq<Seq<Seq<bool>>>, segs: Seq<[P; 2]>, i: int) -> bool {
    let s = segs[i];
    let x = s[0].x as int;
    let z = s[0].z as int;
    &&& f[x][s[0].y as int][z]
        || (i > 0 && segs[i - 1][0].x == s[0].x && segs[i - 1][0].z == s[0].z && segs[i - 1][1].y + 1 == s[0].y)
    &&& (s[1].y + 1 < t.len() && t[x][s[1].y + 1][z])
        || (i + 1 < segs.len() && segs[i + 1][0].x == s[0].x && segs[i + 1][0].z == s[0].z
            && segs[i + 1][0].y == s[1].y + 1 && s[1].y - s[0].y == 30)
}

/// Some piece of `segs` holds the voxel `(x, y, z)`.
pub open spec fn covered(segs: Seq<[P; 2]>, x: int, y: int, z: int) -> bool {
    exists|i: int| 0 <= i < segs.len() && seg_holds(#[trigger] segs[i], x, y, z)
}

/// A piece that can be voided at once: a run of at most 31 voxels up one
/// column of the grid of `t`, bottom end first, holding no voxel of `t`.
pub open spec fn seg_ok(t: Seq<Seq<Seq<bool>>>, seg: [P; 2]) -> bool {
    let r = t.len();
    &&& 0 <= seg[0].x < r
    &&& 0 <= seg[0].z < r
    &&& seg[1].x == seg[0].x
    &&& seg[1].z == seg[0].z
    &&& 0 <= seg[0].y <= seg[1].y < r
    &&& seg[1].y - seg[0].y <= 30
    &&& forall|y: int| seg[0].y <= y <= seg[1].y ==> !#[trigger] t[seg[0].x as int][y][seg[0].z as int]
}

proof fn lemma_next_target_clear(tc: Seq<bool>, y: int, k: int)
    requires
        0 <= y <= k < next_target(tc, y),
    ensures
        !tc[k],
    decreases tc.len() - y,
{
    if y < tc.len() && !tc[y] && y < k {
        lemma_next_target_clear(tc, y + 1, k);
    }
}

proof fn lemma_chunks_hold(s: int, t: int, y: int)
    requires
        s <= y <= t,
    ensures
        exists|i: int| 0 <= i < chunks(s, t).len() && (#[trigger] chunks(s, t)[i]).0 <= y <= chunks(s, t)[i].1,
    decreases t - s,
{
    let c = chunks(s, t);
    if t - s > 30 {
        if y <= s + 30 {
            assert(c[0] == (s, s + 30));
        } else {
            lemma_chunks_hold(s + 31, t, y);
            let rest = chunks(s + 31, t);
            let i = choose|i: int| 0 <= i < rest.len() && (#[trigger] rest[i]).0 <= y <= rest[i].1;
            assert(c[i + 1] == rest[i]);
        }
    } else {
        assert(c[0] == (s, t));
    }
}

/// The pieces of a column lie in the column above `y0`, hold at most 31
/// voxels and no target voxel.
proof fn lemma_col_sound(tc: Seq<bool>, fc: Seq<bool>, y0: int)
    requires
        y0 >= 0,
    ensures
        forall|i: int| 0 <= i < column_segments(tc, fc, y0).len() ==> {
            let st = #[trigger] column_segments(tc, fc, y0)[i];
            &&& y0 <= st.0 <= st.1 < tc.len()
            &&& st.1 - st.0 <= 30
            &&& forall|k: int| st.0 <= k <= st.1 ==> !#[trigger] tc[k]
        },
    decreases tc.len() + 1 - y0,
{
    let cs = column_segments(tc, fc, y0);
    if y0 < tc.len() {
        if !tc[y0] && fc[y0] {
            let e = next_target(tc, y0);
            lemma_next_target_above(tc, y0 + 1);
            assert(e == next_target(tc, y0 + 1));
            lemma_next_target_above(tc, y0);
            lemma_chunks_cover(y0, e - 1);
            lemma_col_sound(tc, fc, e + 1);
            let ch = chunks(y0, e - 1);
            let rest = column_segments(tc, fc, e + 1);
            assert(cs == ch + rest);
            assert forall|i: int| 0 <= i < cs.len() implies {
                let st = #[trigger] cs[i];
                &&& y0 <= st.0 <= st.1 < tc.len()
                &&& st.1 - st.0 <= 30
                &&& forall|k: int| st.0 <= k <= st.1 ==> !#[trigger] tc[k]
            } by {
                if i < ch.len() {
                    assert(cs[i] == ch[i]);
                    assert(y0 <= ch[i].0 <= ch[i].1 <= e - 1);
                    assert forall|k: int| ch[i].0 <= k <= ch[i].1 implies !#[trigger] tc[k] by {
                        lemma_next_target_clear(tc, y0, k);
                    }
                } else {
                    let j = i - ch.len();
                    assert(cs[i] == rest[j]);
                    let st = rest[j];
                    assert(e + 1 <= st.0 <= st.1 < tc.len());
                    assert(forall|k: int| st.0 <= k <= st.1 ==> !#[trigger] tc[k]);
                }
            }
        } else {
            lemma_col_sound(tc, fc, y0 + 1);
            assert(cs == column_segments(tc, fc, y0 + 1));
        }
    }
}

/// The pieces of a column come from the bottom up, apart from each other.
proof fn lemma_col_sorted(tc: Seq<bool>, fc: Seq<bool>, y0: int)
    requires
        y0 >= 0,
    ensures
        forall|i: int, j: int| 0 <= i < j < column_segments(tc, fc, y0).len() ==>
            (#[trigger] column_segments(tc, fc, y0)[i]).1 < (#[trigger] column_segments(tc, fc, y0)[j]).0,
    decreases tc.len() + 1 - y0,
{
    let cs = column_segments(tc, fc, y0);
    if y0 < tc.len() {
        if !tc[y0] && fc[y0] {
            let e = next_target(tc, y0);
            lemma_next_target_above(tc, y0 + 1);
            lemma_next_target_above(tc, y0);
            lemma_chunks_cover(y0, e - 1);
            lemma_col_sound(tc, fc, e + 1);
            lemma_col_sorted(tc, fc, e + 1);
            let ch = chunks(y0, e - 1);
            let rest = column_segments(tc, fc, e + 1);
            assert(cs == ch + rest);
            assert forall|i: int, j: int| 0 <= i < j < cs.len() implies (#[trigger] cs[i]).1 < (#[trigger] cs[j]).0 by {
                if j < ch.len() {
                    assert(cs[i] == ch[i] && cs[j] == ch[j]);
                    lemma_chunks_step(y0, e - 1, i, j);
                } else if i < ch.len() {
                    assert(cs[i] == ch[i]);
                    assert(cs[j] == rest[j - ch.len()]);
                } else {
                    assert(cs[i] == rest[i - ch.len()]);
                    assert(cs[j] == rest[j - ch.len()]);
                }
            }
        } else {
            lemma_col_sorted(tc, fc, y0 + 1);
            assert(cs == column_segments(tc, fc, y0 + 1));
        }
    }
}

proof fn lemma_chunks_step(s: int, t: int, i: int, j: int)
    requires
        s <= t,
        0 <= i < j < chunks(s, t).len(),
    ensures
        chunks(s, t)[i].1 < chunks(s, t)[j].0,
    decreases j - i,
{
    lemma_chunks_cover(s, t);
    let c = chunks(s, t);
    if j > i + 1 {
        lemma_chunks_step(s, t, i, j - 1);
        assert(c[j - 1].1 + 1 == c[j].0);
    } else {
        assert(c[i].1 + 1 == c[i + 1].0);
    }
}

proof fn lemma_chunks_full(s: int, t: int)
    requires
        s <= t,
    ensures
        forall|i: int| 0 <= i < chunks(s, t).len() - 1 ==> (#[trigger] chunks(s, t)[i]).1 - chunks(s, t)[i].0 == 30,
    decreases t - s,
{
    if t - s > 30 {
        lemma_chunks_full(s + 31, t);
        let c = chunks(s, t);
        let rest = chunks(s + 31, t);
        assert(c == seq![(s, s + 30)] + rest);
        assert forall|i: int| 0 <= i < c.len() - 1 implies (#[trigger] c[i]).1 - c[i].0 == 30 by {
            if i > 0 {
                assert(c[i] == rest[i - 1]);
            }
        }
    }
}

/// Every filled voxel of the column outside the target, from `y0` up, has a
/// target voxel above it.
pub open spec fn column_capped(tc: Seq<bool>, fc: Seq<bool>, y0: int) -> bool {
    forall|y: int| y0 <= y < tc.len() && !tc[y] && #[trigger] fc[y] ==> exists|w: int| y < w < tc.len() && #[trigger] tc[w]
}

/// Piece `i` of a column's pieces `cs` starts at a filled voxel or right
/// above the piece before it, and ends right below a target voxel or holds 31
/// voxels with the next piece starting right above it.
pub open spec fn cut_ok(tc: Seq<bool>, fc: Seq<bool>, cs: Seq<(int, int)>, i: int) -> bool {
    &&& fc[cs[i].0] || (i > 0 && cs[i - 1].1 + 1 == cs[i].0)
    &&& (cs[i].1 + 1 < tc.len() && tc[cs[i].1 + 1])
        || (i + 1 < cs.len() && cs[i + 1].0 == cs[i].1 + 1 && cs[i].1 - cs[i].0 == 30)
}

/// How a column is cut: a piece starts at a filled voxel or right above the
/// piece before it; it ends right below a target voxel, or it holds 31 voxels
/// and the next piece starts right above it.
proof fn lemma_col_cuts(tc: Seq<bool>, fc: Seq<bool>, y0: int)
    requires
        y0 >= 0,
        fc.len() == tc.len(),
        column_capped(tc, fc, y0),
    ensures
        forall|i: int| 0 <= i < column_segments(tc, fc, y0).len() ==> #[trigger] cut_ok(tc, fc, column_segments(tc, fc, y0), i),
    decreases tc.len() + 1 - y0,
{
    let cs = column_segments(tc, fc, y0);
    if y0 < tc.len() {
        if !tc[y0] && fc[y0] {
            let e = next_target(tc, y0);
            lemma_next_target_above(tc, y0 + 1);
            lemma_next_target_above(tc, y0);
            let w = choose|w: int| y0 < w < tc.len() && #[trigger] tc[w];
            lemma_next_target_before(tc, y0, w);
            lemma_chunks_cover(y0, e - 1);
            lemma_chunks_full(y0, e - 1);
            assert(column_capped(tc, fc, e + 1));
            lemma_col_cuts(tc, fc, e + 1);
            let ch = chunks(y0, e - 1);
            let rest = column_segments(tc, fc, e + 1);
            assert(cs == ch + rest);
            assert forall|i: int| 0 <= i < cs.len() implies #[trigger] cut_ok(tc, fc, cs, i) by {
                if i < ch.len() {
                    assert(cs[i] == ch[i]);
                    if i > 0 {
                        assert(cs[i - 1] == ch[i - 1]);
                    }
                    if i + 1 < ch.len() {
                        assert(cs[i + 1] == ch[i + 1]);
                    } else {
                        assert(ch[i] == ch.last());
                    }
                    assert(ch[0].0 == y0);
                    assert(tc[e]);
                } else {
                    let j = i - ch.len();
                    assert(cs[i] == rest[j]);
                    assert(cut_ok(tc, fc, rest, j));
                    if j > 0 {
                        assert(cs[i - 1] == rest[j - 1]);
                    }
                    if j + 1 < rest.len() {
                        assert(cs[i + 1] == rest[j + 1]);
                    }
                }
            }
        } else {
            assert(column_capped(tc, fc, y0 + 1));
            lemma_col_cuts(tc, fc, y0 + 1);
            assert(cs == column_segments(tc, fc, y0 + 1));
        }
    }
}

/// Every filled voxel of a column outside the target, at or above `y0` and
/// with a target voxel above it, lies in a piece of the column.
proof fn lemma_col_cover(tc: Seq<bool>, fc: Seq<bool>, y0: int, y: int, w: int)
    requires
        0 <= y0 <= y < w < tc.len(),
        !tc[y],
        fc[y],
        tc[w],
    ensures
        exists|i: int| 0 <= i < column_segments(tc, fc, y0).len()
            && (#[trigger] column_segments(tc, fc, y0)[i]).0 <= y <= column_segments(tc, fc, y0)[i].1,
    decreases tc.len() + 1 - y0,
{
    let cs = column_segments(tc, fc, y0);
    if !tc[y0] && fc[y0] {
        let e = next_target(tc, y0);
        lemma_next_target_above(tc, y0);
        lemma_next_target_before(tc, y0, w);
        let ch = chunks(y0, e - 1);
        let rest = column_segments(tc, fc, e + 1);
        assert(cs == ch + rest);
        if y < e {
            lemma_chunks_hold(y0, e - 1, y);
            let i = choose|i: int| 0 <= i < ch.len() && (#[trigger] ch[i]).0 <= y <= ch[i].1;
            assert(cs[i] == ch[i]);
        } else {
            assert(y != e);
            lemma_col_cover(tc, fc, e + 1, y, w);
            let i = choose|i: int| 0 <= i < rest.len() && (#[trigger] rest[i]).0 <= y <= rest[i].1;
            assert(cs[i + ch.len()] == rest[i]);
        }
    } else {
        assert(y0 != y);
        lemma_col_cover(tc, fc, y0 + 1, y, w);
    }
}

proof fn lemma_plane(t: Seq<Seq<Seq<bool>>>, f: Seq<Seq<Seq<bool>>>, x: int, zlim: int)
    requires
        t.len() <= i32::MAX,
        is_cube(t, t.len() as int),
        is_cube(f, t.len() as int),
        supports_capped(t, f),
        0 <= x < t.len(),
        0 <= zlim <= t.len(),
    ensures
        forall|i: int| 0 <= i < plane_segments(t, f, x, zlim).len() ==>
            seg_ok(t, #[trigger] plane_segments(t, f, x, zlim)[i]) && plane_segments(t, f, x, zlim)[i][0].x == x
                && plane_segments(t, f, x, zlim)[i][0].z < zlim,
        forall|y: int, z: int| 0 <= y < t.len() && 0 <= z < zlim && !t[x][y][z] && f[x][y][z] ==>
            #[trigger] covered(plane_segments(t, f, x, zlim), x, y, z),
        forall|i: int, j: int| 0 <= i < j < plane_segments(t, f, x, zlim).len() ==>
            apart(#[trigger] plane_segments(t, f, x, zlim)[i], #[trigger] plane_segments(t, f, x, zlim)[j]),
        forall|i: int| 0 <= i < plane_segments(t, f, x, zlim).len() ==> #[trigger] seg_cut_ok(t, f, plane_segments(t, f, x, zlim), i),
    decreases zlim,
{
    if zlim > 0 {
        let r = t.len() as int;
        let zc = zlim - 1;
        lemma_plane(t, f, x, zc);
        let prev = plane_segments(t, f, x, zc);
        let tc = column(t, x, zc);
        let fc = column(f, x, zc);
        let cs = column_segments(tc, fc, 0);
        let pts = to_points(x, zc, cs);
        let pl = plane_segments(t, f, x, zlim);
        assert(pl == prev + pts);
        lemma_col_sound(tc, fc, 0);
        lemma_col_sorted(tc, fc, 0);
        assert(column_capped(tc, fc, 0)) by {
            assert forall|y: int| 0 <= y < tc.len() && !tc[y] && #[trigger] fc[y] implies exists|w: int| y < w < tc.len() && #[trigger] tc[w] by {
                assert(!t[x][y][zc] && f[x][y][zc]);
                let w = choose|w: int| y < w < t.len() && #[trigger] t[x][w][zc];
                assert(tc[w]);
            }
        }
        lemma_col_cuts(tc, fc, 0);
        assert forall|i: int| 0 <= i < pl.len() implies #[trigger] seg_cut_ok(t, f, pl, i) by {
            if i < prev.len() {
                assert(seg_cut_ok(t, f, prev, i));
                assert(pl[i] == prev[i]);
                if i > 0 {
                    assert(pl[i - 1] == prev[i - 1]);
                }
                if i + 1 < prev.len() {
                    assert(pl[i + 1] == prev[i + 1]);
                }
            } else {
                let j = i - prev.len();
                assert(cut_ok(tc, fc, cs, j));
                assert(pl[i] == pts[j]);
                assert(0 <= cs[j].0 <= cs[j].1 < tc.len());
                if j > 0 {
                    assert(pl[i - 1] == pts[j - 1]);
                    assert(0 <= cs[j - 1].0 <= cs[j - 1].1 < tc.len());
                }
                if j + 1 < cs.len() {
                    assert(pl[i + 1] == pts[j + 1]);
                    assert(0 <= cs[j + 1].0 <= cs[j + 1].1 < tc.len());
                }
            }
        }
        assert forall|i: int, j: int| 0 <= i < j < pl.len() implies apart(#[trigger] pl[i], #[trigger] pl[j]) by {
            if j < prev.len() {
                assert(pl[i] == prev[i] && pl[j] == prev[j]);
            } else if i < prev.len() {
                assert(pl[i] == prev[i]);
                assert(pl[j] == pts[j - prev.len()]);
                assert(prev[i][0].z < zc);
            } else {
                let a = i - prev.len();
                let b = j - prev.len();
                assert(pl[i] == pts[a] && pl[j] == pts[b]);
                assert(cs[a].1 < cs[b].0);
                assert(0 <= cs[a].0 <= cs[a].1 < tc.len() && 0 <= cs[b].0 <= cs[b].1 < tc.len());
            }
        }
        assert forall|i: int| 0 <= i < pl.len() implies
            seg_ok(t, #[trigger] pl[i]) && pl[i][0].x == x && pl[i][0].z < zlim by {
            if i < prev.len() {
                assert(pl[i] == prev[i]);
            } else {
                let j = i - prev.len();
                assert(pl[i] == pts[j]);
                let st = cs[j];
                assert(pts[j] == [P { x: x as i32, y: st.0 as i32, z: zc as i32 }, P { x: x as i32, y: st.1 as i32, z: zc as i32 }]);
                assert forall|y: int| pl[i][0].y <= y <= pl[i][1].y implies !#[trigger] t[pl[i][0].x as int][y][pl[i][0].z as int] by {
                    assert(!tc[y]);
                }
            }
        }
        assert forall|y: int, z: int| 0 <= y < r && 0 <= z < zlim && !t[x][y][z] && f[x][y][z] implies
            #[trigger] covered(pl, x, y, z) by {
            if z < zc {
                assert(covered(prev, x, y, z));
                let i = choose|i: int| 0 <= i < prev.len() && seg_holds(#[trigger] prev[i], x, y, z);
                assert(pl[i] == prev[i]);
            } else {
                let w = choose|w: int| y < w < r && #[trigger] t[x][w][z];
                assert(tc[w] && tc.len() == r);
                lemma_col_cover(tc, fc, 0, y, w);
                let j = choose|j: int| 0 <= j < cs.len() && (#[trigger] cs[j]).0 <= y <= cs[j].1;
                assert(pl[prev.len() + j] == pts[j]);
                assert(seg_holds(pl[prev.len() + j], x, y, z));
            }
        }
    }
}

proof fn lemma_grid(t: Seq<Seq<Seq<bool>>>, f: Seq<Seq<Seq<bool>>>, xlim: int)
    requires
        t.len() <= i32::MAX,
        is_cube(t, t.len() as int),
        is_cube(f, t.len() as int),
        supports_capped(t, f),
        0 <= xlim <= t.len(),
    ensures
        forall|i: int| 0 <= i < grid_segments(t, f, xlim).len() ==>
            seg_ok(t, #[trigger] grid_segments(t, f, xlim)[i]) && grid_segments(t, f, xlim)[i][0].x < xlim,
        forall|x: int, y: int, z: int| 0 <= x < xlim && 0 <= y < t.len() && 0 <= z < t.len() && !t[x][y][z] && f[x][y][z] ==>
            #[trigger] covered(grid_segments(t, f, xlim), x, y, z),
        forall|i: int, j: int| 0 <= i < j < grid_segments(t, f, xlim).len() ==>
            apart(#[trigger] grid_segments(t, f, xlim)[i], #[trigger] grid_segments(t, f, xlim)[j]),
        forall|i: int| 0 <= i < grid_segments(t, f, xlim).len() ==> #[trigger] seg_cut_ok(t, f, grid_segments(t, f, xlim), i),
    decreases xlim,
{
    if xlim > 0 {
        let r = t.len() as int;
        let xc = xlim - 1;
        lemma_grid(t, f, xc);
        lemma_plane(t, f, xc, r);
        let prev = grid_segments(t, f, xc);
        let pl = plane_segments(t, f, xc, r);
        let g = grid_segments(t, f, xlim);
        assert(g == prev + pl);
        assert forall|i: int| 0 <= i < g.len() implies #[trigger] seg_cut_ok(t, f, g, i) by {
            if i < prev.len() {
                assert(seg_cut_ok(t, f, prev, i));
                assert(g[i] == prev[i]);
                if i > 0 {
                    assert(g[i - 1] == prev[i - 1]);
                }
                if i + 1 < prev.len() {
                    assert(g[i + 1] == prev[i + 1]);
                }
            } else {
                let j = i - prev.len();
                assert(seg_cut_ok(t, f, pl, j));
                assert(g[i] == pl[j]);
                if j > 0 {
                    assert(g[i - 1] == pl[j - 1]);
                }
                if j + 1 < pl.len() {
                    assert(g[i + 1] == pl[j + 1]);
                }
            }
        }
        assert forall|i: int, j: int| 0 <= i < j < g.len() implies apart(#[trigger] g[i], #[trigger] g[j]) by {
            if j < prev.len() {
                assert(g[i] == prev[i] && g[j] == prev[j]);
            } else if i < prev.len() {
                assert(g[i] == prev[i]);
                assert(g[j] == pl[j - prev.len()]);
                assert(prev[i][0].x < xc);
            } else {
                assert(g[i] == pl[i - prev.len()] && g[j] == pl[j - prev.len()]);
            }
        }
        assert forall|i: int| 0 <= i < g.len() implies seg_ok(t, #[trigger] g[i]) && g[i][0].x < xlim by {
            if i < prev.len() {
                assert(g[i] == prev[i]);
            } else {
                assert(g[i] == pl[i - prev.len()]);
            }
        }
        assert forall|x: int, y: int, z: int| 0 <= x < xlim && 0 <= y < r && 0 <= z < r && !t[x][y][z] && f[x][y][z] implies
            #[trigger] covered(g, x, y, z) by {
            if x < xc {
                assert(covered(prev, x, y, z));
                let i = choose|i: int| 0 <= i < prev.len() && seg_holds(#[trigger] prev[i], x, y, z);
                assert(g[i] == prev[i]);
            } else {
                assert(covered(pl, x, y, z));
                let i = choose|i: int| 0 <= i < pl.len() && seg_holds(#[trigger] pl[i], x, y, z);
                assert(g[prev.len() + i] == pl[i]);
            }
        }
    }
}

/// What the support list is for: every support voxel, a filled voxel outside
/// the target, lies in some listed piece, and every piece is a vertical run
/// of at most 31 voxels of one column of the grid that holds no target
/// voxel, so voiding the pieces clears all supports and keeps the target;
/// no two pieces share a voxel, so nothing is voided twice; and each run is
/// cut from its bottom (a filled voxel) up to the target voxel that caps it,
/// in full pieces of 31 but the last (`seg_cut_ok`).
pub proof fn lemma_segments_cover(t: Seq<Seq<Seq<bool>>>, f: Seq<Seq<Seq<bool>>>)
    requires
        t.len() <= i32::MAX,
        is_cube(t, t.len() as int),
        is_cube(f, t.len() as int),
        supports_capped(t, f),
    ensures
        forall|i: int| 0 <= i < grid_segments(t, f, t.len() as int).len() ==>
            seg_ok(t, #[trigger] grid_segments(t, f, t.len() as int)[i]),
        forall|x: int, y: int, z: int| 0 <= x < t.len() && 0 <= y < t.len() && 0 <= z < t.len() && !t[x][y][z] && f[x][y][z] ==>
            #[trigger] covered(grid_segments(t, f, t.len() as int), x, y, z),
        forall|i: int, j: int| 0 <= i < j < grid_segments(t, f, t.len() as int).len() ==>
            apart(#[trigger] grid_segments(t, f, t.len() as int)[i], #[trigger] grid_segments(t, f, t.len() as int)[j]),
        forall|i: int| 0 <= i < grid_segments(t, f, t.len() as int).len() ==>
            #[trigger] seg_cut_ok(t, f, grid_segments(t, f, t.len() as int), i),
{
    lemma_grid(t, f, t.len() as int);
}

/// The supports to remove: for each column (in order of `x`, then `z`), each
/// run of non-target voxels that starts at a filled voxel, up to the next
/// target voxel, cut into pieces of at most 31 voxels; each piece is given
/// by its lower and upper end.
pub fn support_segments(target: &V3<bool>, filled: &V3<bool>) -> (supports: Vec<[P; 2]>)
    requires
        target@.len() <= i32::MAX,
        is_cube(view3(target), target@.len() as int),
        is_cube(view3(filled), target@.len() as int),
        supports_capped(view3(target), view3(filled)),
    ensures
        supports@ == grid_segments(view3(target), view3(filled), target@.len() as int),
        forall|i: int| 0 <= i < supports@.len() ==> seg_ok(view3(target), #[trigger] supports@[i]),
        forall|x: int, y: int, z: int|
            0 <= x < target@.len() && 0 <= y < target@.len() && 0 <= z < target@.len()
                && !view3(target)[x][y][z] && view3(filled)[x][y][z]
                ==> #[trigger] covered(supports@, x, y, z),
        forall|i: int, j: int| 0 <= i < j < supports@.len() ==> apart(#[trigger] supports@[i], #[trigger] supports@[j]),
        forall|i: int| 0 <= i < supports@.len() ==> #[trigger] seg_cut_ok(view3(target), view3(filled), supports@, i),
{
    proof {
        lemma_segments_cover(view3(target), view3(filled));
    }
    let r = target.len();
    let ghost t = view3(target);
    let ghost f = view3(filled);
    let mut supports: Vec<[P; 2]> = Vec::new();
    let mut x: usize = 0;
    while x < r
        invariant
            r == target@.len(),
            r <= i32::MAX,
            t == view3(target),
            f == view3(filled),
            is_cube(t, r as int),
            is_cube(f, r as int),
            supports_capped(t, f),
            x <= r,
            supports@ == grid_segments(t, f, x as int),
        decreases r - x,
    {
        let mut z: usize = 0;
        while z < r
            invariant
                r == target@.len(),
                r <= i32::MAX,
                t == view3(target),
                f == view3(filled),
                is_cube(t, r as int),
                is_cube(f, r as int),
                supports_capped(t, f),
                x < r,
                z <= r,
                supports@ == grid_segments(t, f, x as int) + plane_segments(t, f, x as int, z as int),
            decreases r - z,
        {
            let ghost tc = column(t, x as int, z as int);
            let ghost fc = column(f, x as int, z as int);
            let ghost goal = supports@ + to_points(x as int, z as int, column_segments(tc, fc, 0));
            let ghost mut rest: Seq<(int, int)> = column_segments(tc, fc, 0);
            let mut y: usize = 0;
            while y < r
                invariant
                    r == target@.len(),
                    r <= i32::MAX,
                    t == view3(target),
                    f == view3(filled),
                    is_cube(t, r as int),
                    is_cube(f, r as int),
                    supports_capped(t, f),
                    x < r,
                    z < r,
                    y <= r,
                    tc == column(t, x as int, z as int),
                    fc == column(f, x as int, z as int),
                    rest == column_segments(tc, fc, y as int),
                    goal == supports@ + to_points(x as int, z as int, rest),
                decreases r - y,
            {
                proof {
                    lemma_cube_cell(target, r as int, x as int, y as int, z as int);
                    lemma_cube_cell(filled, r as int, x as int, y as int, z as int);
                }
                if !target[x][y][z] && filled[x][y][z] {
                    let ghost y0 = y as int;
                    let ghost e = next_target(tc, y0);
                    proof {
                        assert(!t[x as int][y0][z as int] && f[x as int][y0][z as int]);
                        let w = choose|w: int| y0 < w < r && #[trigger] t[x as int][w][z as int];
                        assert(tc[w]);
                        lemma_next_target_before(tc, y0, w);
                        assert(e < r);
                        assert(rest == chunks(y0, e - 1) + column_segments(tc, fc, e + 1));
                    }
                    let mut s: usize = y;
                    while !target[x][y][z]
                        invariant
                            r == target@.len(),
                            is_cube(t, r as int),
                            t == view3(target),
                            x < r,
                            z < r,
                            y0 <= y <= e < r,
                            tc == column(t, x as int, z as int),
                            e == next_target(tc, y as int),
                        decreases e - y,
                    {
                        proof {
                            lemma_cube_cell(target, r as int, x as int, y as int, z as int);
                            assert(!tc[y as int]);
                            lemma_next_target_above(tc, y as int + 1);
                        }
                        y += 1;
                    }
                    proof {
                        lemma_cube_cell(target, r as int, x as int, y as int, z as int);
                        assert(y as int == e);
                    }
                    let tt: usize = y - 1;
                    let xi = x as i32;
                    let zi = z as i32;
                    let ghost tail = column_segments(tc, fc, e + 1);
                    proof {
                        rest = chunks(s as int, tt as int) + tail;
                    }
                    while tt - s > 30
                        invariant
                            r <= i32::MAX,
                            s <= tt < r,
                            xi == x,
                            zi == z,
                            rest == chunks(s as int, tt as int) + tail,
                            goal == supports@ + to_points(x as int, z as int, rest),
                        decreases tt - s,
                    {
                        let piece = [P::new(xi, s as i32, zi), P::new(xi, (s + 30) as i32, zi)];
                        proof {
                            let tail_c = chunks(s as int + 31, tt as int);
                            assert(chunks(s as int, tt as int) == seq![(s as int, s as int + 30)] + tail_c);
                            assert(to_points(x as int, z as int, rest) =~= seq![piece] + to_points(x as int, z as int, tail_c + tail));
                            rest = tail_c + tail;
                        }
                        supports.push(piece);
                        s += 31;
                        assert(goal =~= supports@ + to_points(x as int, z as int, rest));
                    }
                    let piece = [P::new(xi, s as i32, zi), P::new(xi, tt as i32, zi)];
                    proof {
                        assert(chunks(s as int, tt as int) == seq![(s as int, tt as int)]);
                        assert(to_points(x as int, z as int, rest) =~= seq![piece] + to_points(x as int, z as int, tail));
                        rest = tail;
                    }
                    supports.push(piece);
                    assert(goal =~= supports@ + to_points(x as int, z as int, rest));
                } else {
                    assert(rest == column_segments(tc, fc, y as int + 1));
                }
                y += 1;
            }
            assert(rest == Seq::<(int, int)>::empty());
            assert(to_points(x as int, z as int, rest) =~= Seq::<[P; 2]>::empty());
            z += 1;
            assert(supports@ =~= grid_segments(t, f, x as int) + plane_segments(t, f, x as int, z as int));
        }
        x += 1;
        assert(supports@ =~= grid_segments(t, f, x as int));
    }
    supports
}

} // verus!
