//! Solving along the `x` axis by swapping the `x` and `z` axes of the shape,
//! and of the commands planned for the swapped shape.
use vstd::prelude::*;
use crate::command::Command;
use crate::grid::{V2, V3, view3, is_cube, lemma_cube_cell};
use crate::point::P;

verus! {

/// The point with its `x` and `z` coordinates exchanged.
pub open spec fn swap_xz(p: P) -> P {
    P { x: p.z, y: p.y, z: p.x }
}

/// The command with every offset in it passed through `swap_xz`.
pub open spec fn swap_command(c: Command) -> Command {
    match c {
        Command::SMove(p) => Command::SMove(swap_xz(p)),
        Command::LMove(p1, p2) => Command::LMove(swap_xz(p1), swap_xz(p2)),
        Command::FusionP(p) => Command::FusionP(swap_xz(p)),
        Command::FusionS(p) => Command::FusionS(swap_xz(p)),
        Command::Fission(p, m) => Command::Fission(swap_xz(p), m),
        Command::Fill(p) => Command::Fill(swap_xz(p)),
        other => other,
    }
}

/// The cell one offset away from `b`, in integer coordinates.
pub open spec fn cell_at(b: P, d: P) -> (int, int, int) {
    (b.x + d.x, b.y + d.y, b.z + d.z)
}

/// The cells a bot standing at `b` reaches with `c`: where a straight move
/// ends; the corner and the end of an L move; the bot a fusion names; where a
/// fission puts the child; the voxel a fill fills.  None for the others.
pub open spec fn cells_of(b: P, c: Command) -> Seq<(int, int, int)> {
    match c {
        Command::SMove(d) => seq![cell_at(b, d)],
        Command::LMove(d1, d2) => seq![cell_at(b, d1), (b.x + d1.x + d2.x, b.y + d1.y + d2.y, b.z + d1.z + d2.z)],
        Command::FusionP(d) => seq![cell_at(b, d)],
        Command::FusionS(d) => seq![cell_at(b, d)],
        Command::Fission(d, m) => seq![cell_at(b, d)],
        Command::Fill(d) => seq![cell_at(b, d)],
        _ => Seq::empty(),
    }
}

/// A cell seen in the mirror that exchanges `x` and `z`.
pub open spec fn mirror_cell(q: (int, int, int)) -> (int, int, int) {
    (q.2, q.1, q.0)
}

/// The two commands are of the same kind, and a fission hands over the same
/// number of seeds.
pub open spec fn same_kind(c: Command, e: Command) -> bool {
    &&& (c is Halt) == (e is Halt)
    &&& (c is Wait) == (e is Wait)
    &&& (c is SMove) == (e is SMove)
    &&& (c is LMove) == (e is LMove)
    &&& (c is FusionP) == (e is FusionP)
    &&& (c is FusionS) == (e is FusionS)
    &&& (c is Fission) == (e is Fission)
    &&& (c is Fill) == (e is Fill)
    &&& (c matches Command::Fission(_, m) ==> e matches Command::Fission(_, m2) && m2 == m)
}

/// Mirroring a command for the mirrored shape: given to a bot standing at
/// the mirror image of `b`, the mirrored command reaches exactly the mirror
/// images of the cells that the command reaches from `b`, and it is a command
/// of the same kind.
pub proof fn lemma_swap_command_mirrors(b: P, c: Command)
    ensures
        cells_of(P { x: b.z, y: b.y, z: b.x }, swap_command(c)) == cells_of(b, c).map_values(|q: (int, int, int)| mirror_cell(q)),
        same_kind(c, swap_command(c)),
{
    assert(cells_of(P { x: b.z, y: b.y, z: b.x }, swap_command(c)) =~= cells_of(b, c).map_values(|q: (int, int, int)| mirror_cell(q)));
}

/// The cube with its `x` and `z` axes exchanged.
pub open spec fn transposed(t: Seq<Seq<Seq<bool>>>) -> Seq<Seq<Seq<bool>>> {
    let r = t.len();
    Seq::new(r, |x: int| Seq::new(r, |y: int| Seq::new(r, |z: int| t[z][y][x])))
}

/// Exchanging the axes of a command twice gives the command back.
pub proof fn lemma_swap_command_involution(c: Command)
    ensures
        swap_command(swap_command(c)) == c,
{
}

/// Exchanging the axes of a cube twice gives the cube back.
pub proof fn lemma_transposed_involution(t: Seq<Seq<Seq<bool>>>, r: int)
    requires
        is_cube(t, r),
    ensures
        transposed(transposed(t)) == t,
{
    let tt = transposed(transposed(t));
    assert forall|x: int| 0 <= x < r implies tt[x] == t[x] by {
        assert forall|y: int| 0 <= y < r implies tt[x][y] == t[x][y] by {
            assert(tt[x][y] =~= t[x][y]);
        }
        assert(tt[x] =~= t[x]);
    }
    assert(tt =~= t);
}

fn swap_point(p: P) -> (q: P)
    ensures
        q == swap_xz(p),
{
    P::new(p.z, p.y, p.x)
}

/// The shape seen with its `x` and `z` axes exchanged.
pub fn transpose_xz(target: &V3<bool>) -> (t2: V3<bool>)
    requires
        is_cube(view3(target), target@.len() as int),
    ensures
        view3(&t2) == transposed(view3(target)),
        is_cube(view3(&t2), target@.len() as int),
{
    let r = target.len();
    let ghost t = view3(target);
    let mut t2: V3<bool> = Vec::new();
    let mut x: usize = 0;
    while x < r
        invariant
            r == target@.len(),
            t == view3(target),
            is_cube(t, r as int),
            x <= r,
            t2@.len() == x,
            forall|a: int| 0 <= a < x ==> #[trigger] view3(&t2)[a] == transposed(t)[a],
        decreases r - x,
    {
        let mut plane: V2<bool> = Vec::new();
        let mut y: usize = 0;
        while y < r
            invariant
                r == target@.len(),
                t == view3(target),
                is_cube(t, r as int),
                x < r,
                y <= r,
                plane@.len() == y,
                forall|b: int| 0 <= b < y ==> (#[trigger] plane@[b])@ == transposed(t)[x as int][b],
            decreases r - y,
        {
            let mut row: Vec<bool> = Vec::new();
            let mut z: usize = 0;
            while z < r
                invariant
                    r == target@.len(),
                    t == view3(target),
                    is_cube(t, r as int),
                    x < r,
                    y < r,
                    z <= r,
                    row@ == transposed(t)[x as int][y as int].subrange(0, z as int),
                decreases r - z,
            {
                proof {
                    lemma_cube_cell(target, r as int, z as int, y as int, x as int);
                }
                row.push(target[z][y][x]);
                z += 1;
                assert(row@ =~= transposed(t)[x as int][y as int].subrange(0, z as int));
            }
            assert(row@ =~= transposed(t)[x as int][y as int]);
            plane.push(row);
            y += 1;
        }
        let ghost before = view3(&t2);
        t2.push(plane);
        x += 1;
        proof {
            assert forall|a: int| 0 <= a < x implies #[trigger] view3(&t2)[a] == transposed(t)[a] by {
                if a < x - 1 {
                    assert(view3(&t2)[a] == before[a]);
                } else {
                    assert(view3(&t2)[a] =~= transposed(t)[a]);
                }
            }
        }
    }
    assert(view3(&t2) =~= transposed(t));
    t2
}

/// Passes every command through `swap_command`, in place.
pub fn swap_commands_xz(commands: &mut Vec<Command>)
    ensures
        final(commands)@ == old(commands)@.map_values(|c: Command| swap_command(c)),
        final(commands)@.len() == old(commands)@.len(),
        forall|i: int, b: P| 0 <= i < old(commands)@.len() ==>
            #[trigger] cells_of(P { x: b.z, y: b.y, z: b.x }, final(commands)@[i])
                == cells_of(b, old(commands)@[i]).map_values(|q: (int, int, int)| mirror_cell(q)),
        forall|i: int| 0 <= i < old(commands)@.len() ==> same_kind(old(commands)@[i], #[trigger] final(commands)@[i]),
{
    let mut i: usize = 0;
    while i < commands.len()
        invariant
            i <= commands@.len(),
            commands@.len() == old(commands)@.len(),
            forall|j: int| 0 <= j < i ==> #[trigger] commands@[j] == swap_command(old(commands)@[j]),
            forall|j: int| i <= j < commands@.len() ==> #[trigger] commands@[j] == old(commands)@[j],
        decreases commands@.len() - i,
    {
        let c = commands[i];
        let d = match c {
            Command::SMove(p) => Command::SMove(swap_point(p)),
            Command::LMove(p1, p2) => Command::LMove(swap_point(p1), swap_point(p2)),
            Command::FusionP(p) => Command::FusionP(swap_point(p)),
            Command::FusionS(p) => Command::FusionS(swap_point(p)),
            Command::Fission(p, m) => Command::Fission(swap_point(p), m),
            Command::Fill(p) => Command::Fill(swap_point(p)),
            other => other,
        };
        commands.set(i, d);
        i += 1;
    }
    assert(commands@ =~= old(commands)@.map_values(|c: Command| swap_command(c)));
    assert forall|i: int, b: P| 0 <= i < old(commands)@.len() implies
        #[trigger] cells_of(P { x: b.z, y: b.y, z: b.x }, commands@[i])
            == cells_of(b, old(commands)@[i]).map_values(|q: (int, int, int)| mirror_cell(q)) by {
        lemma_swap_command_mirrors(b, old(commands)@[i]);
    }
    assert forall|i: int| 0 <= i < old(commands)@.len() implies same_kind(old(commands)@[i], #[trigger] commands@[i]) by {
        lemma_swap_command_mirrors(P { x: 0, y: 0, z: 0 }, old(commands)@[i]);
    }
}

} // verus!
