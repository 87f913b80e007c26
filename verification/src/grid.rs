//! Nested-vector grids and their mathematical views.
use vstd::prelude::*;

verus! {

/// A two-dimensional grid, indexed `[a][b]`.
pub type V2<T> = Vec<Vec<T>>;

/// A three-dimensional grid, indexed `[x][y][z]`.
pub type V3<T> = Vec<Vec<Vec<T>>>;

/// The contents of a two-dimensional grid.
pub open spec fn view2<T>(g: &V2<T>) -> Seq<Seq<T>> {
    g@.map_values(|row: Vec<T>| row@)
}

/// The contents of a three-dimensional grid.
pub open spec fn view3<T>(g: &V3<T>) -> Seq<Seq<Seq<T>>> {
    g@.map_values(|plane: Vec<Vec<T>>| plane@.map_values(|row: Vec<T>| row@))
}

/// `s` is an `n` by `m` rectangle.
pub open spec fn is_rect<T>(s: Seq<Seq<T>>, n: int, m: int) -> bool {
    &&& s.len() == n
    &&& forall|i: int| 0 <= i < n ==> #[trigger] s[i].len() == m
}

/// `s` is an `n` by `n` by `n` cube.
pub open spec fn is_cube<T>(s: Seq<Seq<Seq<T>>>, n: int) -> bool {
    &&& s.len() == n
    &&& forall|i: int| 0 <= i < n ==> is_rect(#[trigger] s[i], n, n)
}

/// A row of `n` copies of `v`.
pub fn filled_row<T: Copy>(v: T, n: usize) -> (row: Vec<T>)
    ensures
        row@ == Seq::new(n as nat, |i: int| v),
{
    let mut row: Vec<T> = Vec::new();
    let mut i: usize = 0;
    while i < n
        invariant
            i <= n,
            row@ == Seq::new(i as nat, |k: int| v),
        decreases n - i,
    {
        row.push(v);
        i += 1;
        assert(row@ =~= Seq::new(i as nat, |k: int| v));
    }
    row
}

/// An `n` by `m` grid holding `v` everywhere.
pub fn filled_grid2<T: Copy>(v: T, n: usize, m: usize) -> (g: V2<T>)
    ensures
        view2(&g) == Seq::new(n as nat, |i: int| Seq::new(m as nat, |j: int| v)),
{
    let mut g: V2<T> = Vec::new();
    let mut i: usize = 0;
    while i < n
        invariant
            i <= n,
            g@.len() == i,
            view2(&g) == Seq::new(i as nat, |k: int| Seq::new(m as nat, |j: int| v)),
        decreases n - i,
    {
        let row = filled_row(v, m);
        let ghost before = g@;
        let ghost old_view = view2(&g);
        g.push(row);
        i += 1;
        assert(g@ == before.push(row));
        assert forall|k: int| 0 <= k < i - 1 implies view2(&g)[k] == old_view[k] by {
            assert(g@[k] == before[k]);
        }
        assert(view2(&g)[i - 1] == row@);
        assert(view2(&g).len() == i);
        assert forall|k: int| 0 <= k < i implies view2(&g)[k] =~= Seq::new(m as nat, |j: int| v) by {
            if k < i - 1 {
                assert(old_view[k] == Seq::new(m as nat, |j: int| v));
            }
        }
        assert(view2(&g) =~= Seq::new(i as nat, |k: int| Seq::new(m as nat, |j: int| v)));
    }
    g
}

/// An `n` by `n` by `n` grid holding `v` everywhere.
pub fn filled_grid3<T: Copy>(v: T, n: usize) -> (g: V3<T>)
    ensures
        view3(&g) == Seq::new(n as nat, |i: int| Seq::new(n as nat, |j: int| Seq::new(n as nat, |k: int| v))),
{
    let mut g: V3<T> = Vec::new();
    let mut i: usize = 0;
    while i < n
        invariant
            i <= n,
            g@.len() == i,
            view3(&g) == Seq::new(i as nat, |a: int| Seq::new(n as nat, |j: int| Seq::new(n as nat, |k: int| v))),
        decreases n - i,
    {
        let plane = filled_grid2(v, n, n);
        let ghost before = g@;
        let ghost old_view = view3(&g);
        g.push(plane);
        i += 1;
        assert(g@ == before.push(plane));
        assert forall|k: int| 0 <= k < i - 1 implies view3(&g)[k] == old_view[k] by {
            assert(g@[k] == before[k]);
        }
        assert(view3(&g)[i - 1] == view2(&plane));
        assert(view3(&g).len() == i);
        assert forall|a: int| 0 <= a < i implies view3(&g)[a] =~= Seq::new(n as nat, |j: int| Seq::new(n as nat, |k: int| v)) by {
            if a < i - 1 {
                assert(old_view[a] == Seq::new(n as nat, |j: int| Seq::new(n as nat, |k: int| v)));
            }
        }
        assert(view3(&g) =~= Seq::new(i as nat, |a: int| Seq::new(n as nat, |j: int| Seq::new(n as nat, |k: int| v))));
    }
    g
}

/// Writes one cell of a three-dimensional grid.
pub fn set3<T>(g: &mut V3<T>, x: usize, y: usize, z: usize, v: T)
    requires
        x < old(g)@.len(),
        y < old(g)@[x as int]@.len(),
        z < old(g)@[x as int]@[y as int]@.len(),
    ensures
        view3(final(g)) == view3(old(g)).update(
            x as int,
            view3(old(g))[x as int].update(y as int, view3(old(g))[x as int][y as int].update(z as int, v)),
        ),
{
    g[x][y][z] = v;
    assert(view3(g) =~~= view3(old(g)).update(
        x as int,
        view3(old(g))[x as int].update(y as int, view3(old(g))[x as int][y as int].update(z as int, v)),
    ));
}

/// A copy of a three-dimensional grid.
pub fn copy3<T: Copy>(g: &V3<T>) -> (c: V3<T>)
    ensures
        view3(&c) == view3(g),
{
    let mut c: V3<T> = Vec::new();
    let mut x: usize = 0;
    while x < g.len()
        invariant
            x <= g@.len(),
            c@.len() == x,
            forall|a: int| 0 <= a < x ==> view3(&c)[a] == view3(g)[a],
        decreases g@.len() - x,
    {
        let mut plane: V2<T> = Vec::new();
        let mut y: usize = 0;
        while y < g[x].len()
            invariant
                x < g@.len(),
                y <= g@[x as int]@.len(),
                plane@.len() == y,
                forall|b: int| 0 <= b < y ==> plane@[b]@ == g@[x as int]@[b]@,
            decreases g@[x as int]@.len() - y,
        {
            let mut row: Vec<T> = Vec::new();
            let mut z: usize = 0;
            while z < g[x][y].len()
                invariant
                    x < g@.len(),
                    y < g@[x as int]@.len(),
                    z <= g@[x as int]@[y as int]@.len(),
                    row@ == g@[x as int]@[y as int]@.subrange(0, z as int),
                decreases g@[x as int]@[y as int]@.len() - z,
            {
                row.push(g[x][y][z]);
                z += 1;
                assert(row@ =~= g@[x as int]@[y as int]@.subrange(0, z as int));
            }
            assert(row@ =~= g@[x as int]@[y as int]@);
            plane.push(row);
            y += 1;
        }
        assert(view2(&plane) =~= view3(g)[x as int]);
        let ghost before = c@;
        c.push(plane);
        x += 1;
        assert forall|a: int| 0 <= a < x implies view3(&c)[a] == view3(g)[a] by {
            if a < x - 1 {
                assert(c@[a] == before[a]);
            }
        }
    }
    assert(view3(&c) =~= view3(g));
    c
}

/// Reading a cube through its vectors.
pub proof fn lemma_cube_cell<T>(v: &V3<T>, r: int, a: int, b: int, c: int)
    requires
        is_cube(view3(v), r),
        0 <= a < r,
        0 <= b < r,
        0 <= c < r,
    ensures
        v@.len() == r,
        v@[a]@.len() == r,
        v@[a]@[b]@.len() == r,
        v@[a]@[b]@[c] == view3(v)[a][b][c],
{
    assert(view3(v)[a] == v@[a]@.map_values(|row: Vec<T>| row@));
    assert(view3(v)[a].len() == r);
    assert(view3(v)[a][b] == v@[a]@[b]@);
}

/// The vectors of a cube have the cube's length.
pub proof fn lemma_cube_plane<T>(v: &V3<T>, r: int, a: int)
    requires
        is_cube(view3(v), r),
        0 <= a < r,
    ensures
        v@.len() == r,
        v@[a]@.len() == r,
        forall|b: int| 0 <= b < r ==> (#[trigger] v@[a]@[b])@.len() == r,
{
    assert forall|b: int| 0 <= b < r implies (#[trigger] v@[a]@[b])@.len() == r by {
        lemma_cube_cell(v, r, a, b, 0);
    }
    lemma_cube_cell(v, r, a, 0, 0);
}

} // verus!
