//! The construction solver's bots, and a character picture of one layer of
//! the build for inspection.
use vstd::prelude::*;
use crate::command::Command;
use crate::grid::{V2, V3, view2, view3, is_cube, is_rect, filled_row, lemma_cube_cell};
use crate::point::P;

verus! {

/// A bot of the construction solver: its id, where it stands, and the
/// commands planned for it so far.
pub struct Bot {
    pub bid: usize,
    pub p: P,
    pub commands: Vec<Command>,
}

/// The picture of one cell without bots: `f` filled, `g` grounded, `t` still
/// to be built, `.` otherwise (the first that applies).
pub open spec fn cell_char(filled: bool, ground: bool, target: bool) -> char {
    if filled {
        'f'
    } else if ground {
        'g'
    } else if target {
        't'
    } else {
        '.'
    }
}

/// The picture of a cell that holds a bot: `B` on an empty cell, otherwise the
/// letter in upper case.
pub open spec fn with_bot(c: char) -> char {
    if c == '.' {
        'B'
    } else if c == 'f' {
        'F'
    } else if c == 'g' {
        'G'
    } else if c == 't' {
        'T'
    } else {
        c
    }
}

/// Some bot of `bots` stands in column `(x, z)`.
pub open spec fn bot_at(bots: Seq<Bot>, x: int, z: int) -> bool {
    exists|i: int| 0 <= i < bots.len() && bots[i].p.x == x && #[trigger] bots[i].p.z == z
}

/// The picture of cell `(x, z)` of layer `y0`.
pub open spec fn picture_cell(t: Seq<Seq<Seq<bool>>>, f: Seq<Seq<Seq<bool>>>, g: Seq<Seq<bool>>, bots: Seq<Bot>, y0: int, x: int, z: int) -> char {
    let c = cell_char(f[x][y0][z], g[x][z], t[x][y0][z]);
    if bot_at(bots, x, z) {
        with_bot(c)
    } else {
        c
    }
}

fn upper(c: char) -> (u: char)
    ensures
        u == with_bot(c),
{
    if c == '.' {
        'B'
    } else if c == 'f' {
        'F'
    } else if c == 'g' {
        'G'
    } else if c == 't' {
        'T'
    } else {
        c
    }
}

/// The picture of layer `y0` as an `r` by `r` grid of characters indexed
/// `[x][z]` (`r` the size of `target`): each cell as `cell_char` gives it,
/// turned by `with_bot` where a bot stands in that column.
pub fn layer_picture(target: &V3<bool>, filled: &V3<bool>, ground: &V2<bool>, bots: &Vec<Bot>, y0: i32) -> (out: V2<char>)
    requires
        is_cube(view3(target), target@.len() as int),
        is_cube(view3(filled), target@.len() as int),
        is_rect(view2(ground), target@.len() as int, target@.len() as int),
        0 <= y0 < target@.len(),
        forall|i: int| 0 <= i < bots@.len() ==> 0 <= #[trigger] bots@[i].p.x < target@.len() && 0 <= bots@[i].p.z < target@.len(),
    ensures
        is_rect(view2(&out), target@.len() as int, target@.len() as int),
        forall|x: int, z: int| 0 <= x < target@.len() && 0 <= z < target@.len() ==>
            #[trigger] view2(&out)[x][z] == picture_cell(view3(target), view3(filled), view2(ground), bots@, y0 as int, x, z),
{
    let r = target.len();
    let ghost t = view3(target);
    let ghost f = view3(filled);
    let ghost g = view2(ground);
    let yy = y0 as usize;
    let mut out: V2<char> = Vec::new();
    let mut x: usize = 0;
    while x < r
        invariant
            r == target@.len(),
            yy == y0,
            0 <= yy < r,
            t == view3(target),
            f == view3(filled),
            g == view2(ground),
            is_cube(t, r as int),
            is_cube(f, r as int),
            is_rect(g, r as int, r as int),
            x <= r,
            out@.len() == x,
            forall|a: int| 0 <= a < x ==> (#[trigger] out@[a])@.len() == r,
            forall|a: int, z: int| 0 <= a < x && 0 <= z < r ==>
                #[trigger] view2(&out)[a][z] == cell_char(f[a][yy as int][z], g[a][z], t[a][yy as int][z]),
        decreases r - x,
    {
        let mut row: Vec<char> = filled_row('.', r);
        let mut z: usize = 0;
        while z < r
            invariant
                r == target@.len(),
                0 <= yy < r,
                t == view3(target),
                f == view3(filled),
                g == view2(ground),
                is_cube(t, r as int),
                is_cube(f, r as int),
                is_rect(g, r as int, r as int),
                x < r,
                z <= r,
                row@.len() == r,
                forall|c: int| 0 <= c < z ==>
                    #[trigger] row@[c] == cell_char(f[x as int][yy as int][c], g[x as int][c], t[x as int][yy as int][c]),
            decreases r - z,
        {
            proof {
                lemma_cube_cell(target, r as int, x as int, yy as int, z as int);
                lemma_cube_cell(filled, r as int, x as int, yy as int, z as int);
                assert(g[x as int] == ground@[x as int]@);
            }
            let c = if filled[x][yy][z] {
                'f'
            } else if ground[x][z] {
                'g'
            } else if target[x][yy][z] {
                't'
            } else {
                '.'
            };
            row.set(z, c);
            z += 1;
        }
        let ghost before = out@;
        let ghost before_v = view2(&out);
        out.push(row);
        x += 1;
        proof {
            assert forall|a: int, z: int| 0 <= a < x && 0 <= z < r implies
                #[trigger] view2(&out)[a][z] == cell_char(f[a][yy as int][z], g[a][z], t[a][yy as int][z]) by {
                assert(view2(&out)[a] == out@[a]@);
                if a < x - 1 {
                    assert(out@[a] == before[a]);
                    assert(before_v[a] == before[a]@);
                    assert(before_v[a][z] == cell_char(f[a][yy as int][z], g[a][z], t[a][yy as int][z]));
                } else {
                    assert(out@[a] == row);
                }
            }
        }
    }
    let mut i: usize = 0;
    while i < bots.len()
        invariant
            r == target@.len(),
            0 <= yy < r,
            yy == y0,
            forall|j: int| 0 <= j < bots@.len() ==> 0 <= #[trigger] bots@[j].p.x < r && 0 <= bots@[j].p.z < r,
            out@.len() == r,
            i <= bots@.len(),
            forall|a: int| 0 <= a < r ==> (#[trigger] out@[a])@.len() == r,
            forall|a: int, z: int| 0 <= a < r && 0 <= z < r ==>
                #[trigger] view2(&out)[a][z] == (if bot_at(bots@.subrange(0, i as int), a, z) {
                    with_bot(cell_char(f[a][yy as int][z], g[a][z], t[a][yy as int][z]))
                } else {
                    cell_char(f[a][yy as int][z], g[a][z], t[a][yy as int][z])
                }),
        decreases bots@.len() - i,
    {
        let bx = bots[i].p.x as usize;
        let bz = bots[i].p.z as usize;
        let ghost before = view2(&out);
        let mut row: Vec<char> = Vec::new();
        std::mem::swap(&mut row, &mut out[bx]);
        let c = row[bz];
        let nc = if c == '.' { 'B' } else { upper(c) };
        row.set(bz, nc);
        std::mem::swap(&mut row, &mut out[bx]);
        assert(view2(&out)[bx as int] == before[bx as int].update(bz as int, nc));
        assert(forall|a: int| 0 <= a < r && a != bx ==> view2(&out)[a] == before[a]);
        i += 1;
        proof {
            let prev = bots@.subrange(0, i - 1);
            let cur = bots@.subrange(0, i as int);
            assert forall|a: int, z: int| 0 <= a < r && 0 <= z < r implies
                #[trigger] view2(&out)[a][z] == (if bot_at(cur, a, z) {
                    with_bot(cell_char(f[a][yy as int][z], g[a][z], t[a][yy as int][z]))
                } else {
                    cell_char(f[a][yy as int][z], g[a][z], t[a][yy as int][z])
                }) by {
                let base = cell_char(f[a][yy as int][z], g[a][z], t[a][yy as int][z]);
                if a == bx && z == bz {
                    assert(cur[i - 1].p.x == a && cur[i - 1].p.z == z);
                    assert(bot_at(cur, a, z));
                } else {
                    assert(view2(&out)[a][z] == before[a][z]);
                    if bot_at(cur, a, z) {
                        let k = choose|k: int| 0 <= k < cur.len() && cur[k].p.x == a && #[trigger] cur[k].p.z == z;
                        assert(k < i - 1);
                        assert(prev[k] == cur[k]);
                        assert(bot_at(prev, a, z));
                    } else {
                        if bot_at(prev, a, z) {
                            let k = choose|k: int| 0 <= k < prev.len() && prev[k].p.x == a && #[trigger] prev[k].p.z == z;
                            assert(cur[k] == prev[k]);
                        }
                    }
                }
            }
        }
    }
    assert(bots@.subrange(0, i as int) =~= bots@);
    out
}

} // verus!
