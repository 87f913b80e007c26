//! Bookkeeping of the large-model destruction plan: a fleet of bots that
//! moves in lock step, the per-step command sets, and the trace they form.
use vstd::prelude::*;
use crate::command::Command;
use crate::grid::{V3, view3, copy3};
use crate::model::Model;
use crate::point::{P, abs, add_fits, padd};

verus! {

/// A bot of the destruction fleet.
#[derive(Clone, Copy, Debug, PartialEq, Eq, Structural)]
pub struct Bot {
    pub bid: usize,
    pub p: P,
}

/// The commands of all bots for one time step, indexed by bot id.
pub struct CommandSet {
    pub commands: Vec<Command>,
}

/// `n` copies of `c`.
pub open spec fn uniform(n: nat, c: Command) -> Seq<Command> {
    Seq::new(n, |i: int| c)
}

impl CommandSet {
    /// The step in which each of `n` bots performs `c`.
    pub fn new_uniform(n: usize, c: Command) -> (cs: CommandSet)
        ensures
            cs.commands@ == uniform(n as nat, c),
    {
        let mut commands: Vec<Command> = Vec::new();
        let mut i: usize = 0;
        while i < n
            invariant
                i <= n,
                commands@ == uniform(i as nat, c),
            decreases n - i,
        {
            commands.push(c);
            i += 1;
            assert(commands@ =~= uniform(i as nat, c));
        }
        CommandSet { commands }
    }
}

/// The commands of a sequence of steps.
pub open spec fn sets_view(s: Seq<CommandSet>) -> Seq<Seq<Command>> {
    s.map_values(|cs: CommandSet| cs.commands@)
}

/// All steps one after the other.
pub open spec fn flatten(s: Seq<Seq<Command>>) -> Seq<Command>
    decreases s.len(),
{
    if s.len() == 0 {
        Seq::empty()
    } else {
        flatten(s.drop_last()) + s.last()
    }
}

/// `v` clamped to `[-lim, lim]`.
pub open spec fn clamp(v: int, lim: int) -> int {
    if v > lim {
        lim
    } else if v < -lim {
        -lim
    } else {
        v
    }
}

/// The next move of the whole fleet towards a remaining offset `(x, y, z)`
/// with `y >= 0`, and the offset it covers: vertical moves first (a long one
/// while more than 5 remain, otherwise combined with a horizontal leg), then
/// the horizontal axes.
pub open spec fn next_step(x: int, y: int, z: int) -> (Command, int, int, int) {
    if y > 5 || (x == 0 && z == 0) {
        let my = if y < 15 { y } else { 15 };
        (Command::SMove(P { x: 0, y: my as i32, z: 0 }), 0, my, 0)
    } else if y > 0 {
        if x != 0 {
            let mx = clamp(x, 5);
            (Command::LMove(P { x: 0, y: y as i32, z: 0 }, P { x: mx as i32, y: 0, z: 0 }), mx, y, 0)
        } else {
            let mz = clamp(z, 5);
            (Command::LMove(P { x: 0, y: y as i32, z: 0 }, P { x: 0, y: 0, z: mz as i32 }), 0, y, mz)
        }
    } else if x > 5 || x < -5 || z == 0 {
        let mx = clamp(x, 15);
        (Command::SMove(P { x: mx as i32, y: 0, z: 0 }), mx, 0, 0)
    } else if z > 5 || z < -5 || x == 0 {
        let mz = clamp(z, 15);
        (Command::SMove(P { x: 0, y: 0, z: mz as i32 }), 0, 0, mz)
    } else {
        (Command::LMove(P { x: x as i32, y: 0, z: 0 }, P { x: 0, y: 0, z: z as i32 }), x, 0, z)
    }
}

/// A climb of `y` cells (long straight moves of 15 while more than 15 remain,
/// then one move for the rest) ends with an L move: the last `1..=5` cells
/// are climbed together with a horizontal leg.
pub open spec fn climb_ends_in_l(y: int) -> bool
    decreases y,
{
    if y > 15 { climb_ends_in_l(y - 15) } else { 1 <= y <= 5 }
}

/// `m` lies between zero and `d`.
pub open spec fn toward(m: int, d: int) -> bool {
    (0 <= m <= d) || (d <= m <= 0)
}

/// Each move heads towards zero on every axis without overshooting, and
/// covers some distance.
pub proof fn lemma_next_step(x: int, y: int, z: int)
    requires
        y >= 0,
        !(x == 0 && y == 0 && z == 0),
    ensures
        toward(next_step(x, y, z).1, x),
        toward(next_step(x, y, z).2, y),
        toward(next_step(x, y, z).3, z),
        !(next_step(x, y, z).1 == 0 && next_step(x, y, z).2 == 0 && next_step(x, y, z).3 == 0),
{
}

/// The moves that carry the fleet over the offset `(x, y, z)`, `y >= 0`.
pub open spec fn session_moves(x: int, y: int, z: int) -> Seq<Command>
    decreases y + abs(x) + abs(z),
    when y >= 0
{
    if x == 0 && y == 0 && z == 0 {
        Seq::empty()
    } else {
        let s = next_step(x, y, z);
        proof {
            lemma_next_step(x, y, z);
        }
        seq![s.0] + session_moves(x - s.1, y - s.2, z - s.3)
    }
}

/// The offset a command moves its bot by.
pub open spec fn disp(c: Command) -> (int, int, int) {
    match c {
        Command::SMove(d) => (d.x as int, d.y as int, d.z as int),
        Command::LMove(a, b) => (a.x + b.x, a.y + b.y, a.z + b.z),
        _ => (0, 0, 0),
    }
}

/// The offset a sequence of commands moves its bot by.
pub open spec fn total_disp(s: Seq<Command>) -> (int, int, int)
    decreases s.len(),
{
    if s.len() == 0 {
        (0, 0, 0)
    } else {
        let a = disp(s[0]);
        let b = total_disp(s.drop_first());
        (a.0 + b.0, a.1 + b.1, a.2 + b.2)
    }
}

/// A single axis-aligned offset of length 1 to `lim`.
pub open spec fn straight(d: P, lim: int) -> bool {
    let nonzero = (if d.x != 0 { 1int } else { 0 }) + (if d.y != 0 { 1int } else { 0 }) + (if d.z != 0 { 1int } else { 0 });
    &&& nonzero == 1
    &&& abs(d.x as int) + abs(d.y as int) + abs(d.z as int) <= lim
}

/// A legal straight move (at most 15 along one axis) or a legal L move (two
/// legs of at most 5 along two axes).
pub open spec fn legal_move(c: Command) -> bool {
    match c {
        Command::SMove(d) => straight(d, 15),
        Command::LMove(a, b) => straight(a, 5) && straight(b, 5),
        _ => false,
    }
}

/// Moving to the next session: the moves add up to the requested offset, and
/// each of them is a legal straight or L move.
pub proof fn lemma_session_moves(x: int, y: int, z: int)
    requires
        y >= 0,
    ensures
        total_disp(session_moves(x, y, z)) == (x, y, z),
        forall|i: int| 0 <= i < session_moves(x, y, z).len() ==> legal_move(#[trigger] session_moves(x, y, z)[i]),
    decreases y + abs(x) + abs(z),
{
    let s = session_moves(x, y, z);
    if x == 0 && y == 0 && z == 0 {
    } else {
        let n = next_step(x, y, z);
        lemma_next_step(x, y, z);
        lemma_session_moves(x - n.1, y - n.2, z - n.3);
        let rest = session_moves(x - n.1, y - n.2, z - n.3);
        assert(s == seq![n.0] + rest);
        assert(s.drop_first() =~= rest);
        assert(disp(n.0) == (n.1, n.2, n.3));
        assert(legal_move(n.0));
        assert forall|i: int| 0 <= i < s.len() implies legal_move(#[trigger] s[i]) by {
            if i > 0 {
                assert(s[i] == rest[i - 1]);
            }
        }
    }
}

/// The command moves its bot along `x` or `z`.
pub open spec fn moves_sideways(c: Command) -> bool {
    disp(c).0 != 0 || disp(c).2 != 0
}

/// How far a command climbs before it takes its first horizontal step: the
/// vertical part of the first leg of an L move, nothing otherwise.
pub open spec fn climb_first(c: Command) -> int {
    match c {
        Command::LMove(a, b) => a.y as int,
        _ => 0,
    }
}

/// The height gained by the first `i` commands of `s`.
pub open spec fn climbed(s: Seq<Command>, i: int) -> int
    decreases i,
{
    if i <= 0 { 0 } else { climbed(s, i - 1) + disp(s[i - 1]).1 }
}

proof fn lemma_climbed_cons(c: Command, rest: Seq<Command>, i: int)
    requires
        1 <= i <= rest.len() + 1,
    ensures
        climbed(seq![c] + rest, i) == disp(c).1 + climbed(rest, i - 1),
    decreases i,
{
    let s = seq![c] + rest;
    if i > 1 {
        lemma_climbed_cons(c, rest, i - 1);
        assert(s[i - 1] == rest[i - 2]);
        assert(climbed(s, i) == climbed(s, i - 1) + disp(s[i - 1]).1);
        assert(climbed(rest, i - 1) == climbed(rest, i - 2) + disp(rest[i - 2]).1);
    } else {
        assert(s[0] == c);
        assert(climbed(s, 0) == 0);
        assert(climbed(rest, 0) == 0);
        assert(climbed(s, 1) == climbed(s, 0) + disp(s[0]).1);
    }
}

/// The fleet climbs before it travels: on the way to an offset `(x, y, z)`
/// with `y >= 0`, every horizontal step is taken at the final height `y`
/// (the height climbed by the earlier moves, plus the climbing leg of an L
/// move, is `y`), and no L move climbs on its second leg.
pub proof fn lemma_climb_then_travel(x: int, y: int, z: int)
    requires
        y >= 0,
    ensures
        forall|i: int| 0 <= i < session_moves(x, y, z).len() && moves_sideways(#[trigger] session_moves(x, y, z)[i])
            ==> climbed(session_moves(x, y, z), i) + climb_first(session_moves(x, y, z)[i]) == y,
        forall|i: int| 0 <= i < session_moves(x, y, z).len() ==>
            (#[trigger] session_moves(x, y, z)[i] matches Command::LMove(a, b) ==> b.y == 0),
    decreases y + abs(x) + abs(z),
{
    let s = session_moves(x, y, z);
    if !(x == 0 && y == 0 && z == 0) {
        let n = next_step(x, y, z);
        lemma_next_step(x, y, z);
        lemma_climb_then_travel(x - n.1, y - n.2, z - n.3);
        let rest = session_moves(x - n.1, y - n.2, z - n.3);
        assert(s == seq![n.0] + rest);
        assert(disp(n.0) == (n.1, n.2, n.3));
        assert forall|i: int| 0 <= i < s.len() && moves_sideways(#[trigger] s[i])
            implies climbed(s, i) + climb_first(s[i]) == y by {
            if i == 0 {
                assert(s[0] == n.0);
            } else {
                assert(s[i] == rest[i - 1]);
                lemma_climbed_cons(n.0, rest, i);
            }
        }
        assert forall|i: int| 0 <= i < s.len() implies
            (#[trigger] s[i] matches Command::LMove(a, b) ==> b.y == 0) by {
            if i > 0 {
                assert(s[i] == rest[i - 1]);
            }
        }
    }
}

/// The offset covered by the first `i` commands of `s`.
pub open spec fn covered_by(s: Seq<Command>, i: int) -> (int, int, int)
    decreases i,
{
    if i <= 0 {
        (0, 0, 0)
    } else {
        let p = covered_by(s, i - 1);
        let d = disp(s[i - 1]);
        (p.0 + d.0, p.1 + d.1, p.2 + d.2)
    }
}

proof fn lemma_covered_by_cons(c: Command, rest: Seq<Command>, i: int)
    requires
        1 <= i <= rest.len() + 1,
    ensures
        covered_by(seq![c] + rest, i) == ({
            let d = disp(c);
            let p = covered_by(rest, i - 1);
            (d.0 + p.0, d.1 + p.1, d.2 + p.2)
        }),
    decreases i,
{
    let s = seq![c] + rest;
    if i > 1 {
        lemma_covered_by_cons(c, rest, i - 1);
        assert(s[i - 1] == rest[i - 2]);
        assert(covered_by(s, i) == ({
            let p = covered_by(s, i - 1);
            let d = disp(s[i - 1]);
            (p.0 + d.0, p.1 + d.1, p.2 + d.2)
        }));
        assert(covered_by(rest, i - 1) == ({
            let p = covered_by(rest, i - 2);
            let d = disp(rest[i - 2]);
            (p.0 + d.0, p.1 + d.1, p.2 + d.2)
        }));
    } else {
        assert(s[0] == c);
        assert(covered_by(s, 0) == (0int, 0int, 0int));
        assert(covered_by(rest, 0) == (0int, 0int, 0int));
        assert(covered_by(s, 1) == ({
            let p = covered_by(s, 0);
            let d = disp(s[0]);
            (p.0 + d.0, p.1 + d.1, p.2 + d.2)
        }));
    }
}

/// As far as `lim` allows towards `v`: `v` itself, or `lim` cells its way.
pub open spec fn as_far_as(v: int, lim: int) -> int {
    if v > lim { lim } else if v < -lim { -lim } else { v }
}

/// A leg that goes along its axis as far as `lim` allows towards what is
/// left of the offset (`left`) on that axis.
pub open spec fn full_leg(d: P, left: (int, int, int), lim: int) -> bool {
    &&& d.x != 0 ==> d.x == as_far_as(left.0, lim)
    &&& d.y != 0 ==> d.y == as_far_as(left.1, lim)
    &&& d.z != 0 ==> d.z == as_far_as(left.2, lim)
}

/// No move falls short: on the way to `(x, y, z)`, each straight move goes as
/// far as it may (15 cells, or what is left on its axis), and each leg of an
/// L move as far as it may (5 cells, or what is left on its axis).
pub proof fn lemma_moves_go_far(x: int, y: int, z: int)
    requires
        y >= 0,
    ensures
        forall|i: int| 0 <= i < session_moves(x, y, z).len() ==> {
            let left = (x - covered_by(session_moves(x, y, z), i).0, y - covered_by(session_moves(x, y, z), i).1,
                z - covered_by(session_moves(x, y, z), i).2);
            match #[trigger] session_moves(x, y, z)[i] {
                Command::SMove(d) => full_leg(d, left, 15),
                Command::LMove(a, b) => full_leg(a, left, 5) && full_leg(b, left, 5),
                _ => true,
            }
        },
    decreases y + abs(x) + abs(z),
{
    let s = session_moves(x, y, z);
    if !(x == 0 && y == 0 && z == 0) {
        let n = next_step(x, y, z);
        lemma_next_step(x, y, z);
        lemma_moves_go_far(x - n.1, y - n.2, z - n.3);
        let rest = session_moves(x - n.1, y - n.2, z - n.3);
        assert(s == seq![n.0] + rest);
        assert(disp(n.0) == (n.1, n.2, n.3));
        assert forall|i: int| 0 <= i < s.len() implies {
            let left = (x - covered_by(s, i).0, y - covered_by(s, i).1, z - covered_by(s, i).2);
            match #[trigger] s[i] {
                Command::SMove(d) => full_leg(d, left, 15),
                Command::LMove(a, b) => full_leg(a, left, 5) && full_leg(b, left, 5),
                _ => true,
            }
        } by {
            if i == 0 {
                assert(s[0] == n.0);
                assert(covered_by(s, 0) == (0int, 0int, 0int));
            } else {
                assert(s[i] == rest[i - 1]);
                lemma_covered_by_cons(n.0, rest, i);
            }
        }
    }
}

/// `v` clamped to `[-lim, lim]`.
fn minmax(v: i32, lim: i32) -> (m: i32)
    requires
        lim >= 0,
    ensures
        m == clamp(v as int, lim as int),
{
    if v > lim {
        lim
    } else if v < -lim {
        -lim
    } else {
        v
    }
}

/// Distance between neighbouring bots of the fleet along x and along z.
pub const CELL_LENGTH: i32 = 30;

/// The smaller of two integers.
pub open spec fn min_of(a: int, b: int) -> int {
    if a <= b { a } else { b }
}

/// Where bot `i` of a fleet with `nz` bots per row starts: on the top layer of
/// an `r`-grid, rows `CELL_LENGTH` apart along x and bots `CELL_LENGTH` apart
/// along z, clamped to the far wall.
pub open spec fn fleet_position(r: int, nz: int, i: int) -> P {
    P {
        x: min_of(CELL_LENGTH * (i / nz), r - 1) as i32,
        y: (r - 1) as i32,
        z: min_of(CELL_LENGTH * (i % nz), r - 1) as i32,
    }
}

/// The starting places of an `nx` by `nz` fleet on an `r`-grid, row by row.
pub fn fleet_positions(r: usize, n_bots_x: usize, n_bots_z: usize) -> (ps: Vec<P>)
    requires
        r <= i32::MAX,
        n_bots_x * n_bots_z <= usize::MAX,
        CELL_LENGTH * (n_bots_x - 1) <= i32::MAX,
        CELL_LENGTH * (n_bots_z - 1) <= i32::MAX,
    ensures
        ps@.len() == n_bots_x * n_bots_z,
        forall|i: int| 0 <= i < ps@.len() ==> #[trigger] ps@[i] == fleet_position(r as int, n_bots_z as int, i),
{
    let ri = r as i32;
    let mut ps: Vec<P> = Vec::new();
    let mut ix: usize = 0;
    while ix < n_bots_x
        invariant
            ri == r,
            r <= i32::MAX,
            ix <= n_bots_x,
            n_bots_x * n_bots_z <= usize::MAX,
            CELL_LENGTH * (n_bots_x - 1) <= i32::MAX,
            CELL_LENGTH * (n_bots_z - 1) <= i32::MAX,
            ps@.len() == ix * n_bots_z,
            forall|i: int| 0 <= i < ps@.len() ==> #[trigger] ps@[i] == fleet_position(r as int, n_bots_z as int, i),
        decreases n_bots_x - ix,
    {
        assert(CELL_LENGTH * ix <= i32::MAX) by (nonlinear_arith)
            requires CELL_LENGTH * (n_bots_x - 1) <= i32::MAX, ix < n_bots_x;
        let cx: i32 = CELL_LENGTH * (ix as i32);
        let x = if cx < ri - 1 { cx } else { ri - 1 };
        let mut iz: usize = 0;
        while iz < n_bots_z
            invariant
                ri == r,
                r <= i32::MAX,
                ix < n_bots_x,
                iz <= n_bots_z,
                n_bots_x * n_bots_z <= usize::MAX,
                CELL_LENGTH * (n_bots_z - 1) <= i32::MAX,
                cx == CELL_LENGTH * ix,
                x == min_of(cx as int, r - 1),
                ps@.len() == ix * n_bots_z + iz,
                forall|i: int| 0 <= i < ps@.len() ==> #[trigger] ps@[i] == fleet_position(r as int, n_bots_z as int, i),
            decreases n_bots_z - iz,
        {
            assert(CELL_LENGTH * iz <= i32::MAX) by (nonlinear_arith)
                requires CELL_LENGTH * (n_bots_z - 1) <= i32::MAX, iz < n_bots_z;
            assert(ix * n_bots_z + iz < n_bots_x * n_bots_z) by (nonlinear_arith)
                requires ix < n_bots_x, iz < n_bots_z;
            let cz: i32 = CELL_LENGTH * (iz as i32);
            let z = if cz < ri - 1 { cz } else { ri - 1 };
            let ghost k: int = ix * n_bots_z + iz;
            proof {
                vstd::arithmetic::div_mod::lemma_fundamental_div_mod_converse(k, n_bots_z as int, ix as int, iz as int);
            }
            ps.push(P::new(x, ri - 1, z));
            iz += 1;
        }
        assert((ix + 1) * n_bots_z == ix * n_bots_z + n_bots_z) by (nonlinear_arith);
        ix += 1;
    }
    ps
}

/// The bot positions after the first `k` entries of `ord` have been applied:
/// every bot starts at `(-1, -1, -1)`, and entry `i` puts bot `ord[i] - 1` at
/// `ps[i]`.
pub open spec fn placed(ord: Seq<usize>, ps: Seq<P>, k: nat, n: nat) -> Seq<P>
    decreases k,
{
    if k == 0 {
        Seq::new(n, |b: int| P { x: -1i32, y: -1i32, z: -1i32 })
    } else {
        placed(ord, ps, (k - 1) as nat, n).update(ord[k - 1] - 1, ps[k - 1])
    }
}

/// Some entry of `ord` names bot `b`.
pub open spec fn named(ord: Seq<usize>, b: int) -> bool {
    exists|i: int| 0 <= i < ord.len() && ord[i] - 1 == b
}

/// Each of the first `k` entries of `ord` names a bot: a number from 1 to `n`.
pub open spec fn names_bots(ord: Seq<usize>, k: nat, n: nat) -> bool {
    forall|i: int| 0 <= i < k ==> 1 <= #[trigger] ord[i] <= n
}

proof fn lemma_placed_len(ord: Seq<usize>, ps: Seq<P>, k: nat, n: nat)
    requires
        k <= ord.len(),
        names_bots(ord, k, n),
    ensures
        placed(ord, ps, k, n).len() == n,
    decreases k,
{
    if k > 0 {
        lemma_placed_len(ord, ps, (k - 1) as nat, n);
    }
}

/// When the fission order names every bot once, each bot stands at the
/// position that the order assigned to it, and no bot is left unplaced.
pub proof fn lemma_placed_permutation(ord: Seq<usize>, ps: Seq<P>, n: nat)
    requires
        ord.len() == n,
        ps.len() == n,
        names_bots(ord, ord.len(), n),
        forall|i: int, j: int| 0 <= i < j < n ==> ord[i] != ord[j],
    ensures
        forall|i: int| 0 <= i < n ==> #[trigger] placed(ord, ps, n, n)[ord[i] - 1] == ps[i],
        forall|b: int| 0 <= b < n ==> #[trigger] named(ord, b),
{
    lemma_placed_prefix(ord, ps, n, n);
    assert forall|b: int| 0 <= b < n implies #[trigger] named(ord, b) by {
        lemma_ord_onto(ord, n, b);
    }
}

proof fn lemma_placed_prefix(ord: Seq<usize>, ps: Seq<P>, k: nat, n: nat)
    requires
        k <= ord.len(),
        k <= ps.len(),
        names_bots(ord, ord.len(), n),
        forall|i: int, j: int| 0 <= i < j < ord.len() ==> ord[i] != ord[j],
    ensures
        forall|i: int| 0 <= i < k ==> #[trigger] placed(ord, ps, k, n)[ord[i] - 1] == ps[i],
    decreases k,
{
    if k > 0 {
        lemma_placed_prefix(ord, ps, (k - 1) as nat, n);
        lemma_placed_len(ord, ps, (k - 1) as nat, n);
        assert forall|i: int| 0 <= i < k implies #[trigger] placed(ord, ps, k, n)[ord[i] - 1] == ps[i] by {
            if i < k - 1 {
                assert(ord[i] != ord[k - 1]);
            }
        }
    }
}

/// `n` distinct names from 1 to `n` name every bot.
proof fn lemma_ord_onto(ord: Seq<usize>, n: nat, b: int)
    requires
        ord.len() == n,
        names_bots(ord, ord.len(), n),
        forall|i: int, j: int| 0 <= i < j < n ==> ord[i] != ord[j],
        0 <= b < n,
    ensures
        named(ord, b),
{
    let names = Set::new(|v: int| 1 <= v <= n);
    let taken = Set::new(|v: int| exists|i: int| 0 <= i < n && ord[i] == v);
    if !named(ord, b) {
        assert(taken.subset_of(names.remove(b + 1)));
        vstd::set_lib::lemma_int_range(1, n as int + 1);
        assert(names =~= vstd::set_lib::set_int_range(1, n as int + 1));
        assert(names.remove(b + 1).finite());
        vstd::set_lib::lemma_len_subset(taken, names.remove(b + 1));
        lemma_distinct_image(ord, n);
        assert(false);
    }
}

/// The values of `n` distinct entries form a set of `n` elements.
proof fn lemma_distinct_image(ord: Seq<usize>, n: nat)
    requires
        ord.len() == n,
        forall|i: int, j: int| 0 <= i < j < n ==> ord[i] != ord[j],
    ensures
        Set::new(|v: int| exists|i: int| 0 <= i < n && ord[i] == v).finite(),
        Set::new(|v: int| exists|i: int| 0 <= i < n && ord[i] == v).len() == n,
    decreases n,
{
    let taken = Set::new(|v: int| exists|i: int| 0 <= i < n && ord[i] == v);
    if n == 0 {
        assert(taken =~= Set::empty());
    } else {
        let front = ord.drop_last();
        lemma_distinct_image(front, (n - 1) as nat);
        let prev = Set::new(|v: int| exists|i: int| 0 <= i < n - 1 && front[i] == v);
        assert(taken =~= prev.insert(ord[n - 1] as int)) by {
            assert forall|v: int| taken.contains(v) implies prev.insert(ord[n - 1] as int).contains(v) by {
                let i = choose|i: int| 0 <= i < n && ord[i] == v;
                if i < n - 1 {
                    assert(front[i] == v);
                }
            }
            assert forall|v: int| prev.insert(ord[n - 1] as int).contains(v) implies taken.contains(v) by {
                if v != ord[n - 1] {
                    let i = choose|i: int| 0 <= i < n - 1 && front[i] == v;
                    assert(ord[i] == v);
                }
            }
        }
        assert(!prev.contains(ord[n - 1] as int)) by {
            if prev.contains(ord[n - 1] as int) {
                let i = choose|i: int| 0 <= i < n - 1 && front[i] == ord[n - 1];
                assert(ord[i] == ord[n - 1]);
            }
        }
    }
}

/// Bots along each side of the fleet for an `r`-grid: enough to span the
/// grid `CELL_LENGTH` apart, and at most 6.
pub fn fleet_side(r: usize) -> (n: usize)
    requires
        r >= 1,
    ensures
        n == min_of(6, (r - 1) / (CELL_LENGTH as int) + 2),
{
    let k = (r - 1) / (CELL_LENGTH as usize) + 2;
    if k < 6 { k } else { 6 }
}

/// The width of the square of columns that a fleet with `n` bots per side
/// clears in one session on an `r`-grid.
pub fn session_side(r: i32, n: usize) -> (s: i32)
    requires
        n >= 1,
        CELL_LENGTH * (n - 1) + 1 <= i32::MAX,
    ensures
        s == min_of(r as int, CELL_LENGTH * (n - 1) + 1),
{
    let w = ((n - 1) as i32) * CELL_LENGTH + 1;
    if r < w { r } else { w }
}

/// The offsets along one axis of the sessions that clear an `r`-grid in
/// strips of width `s`, from `start` on: a strip at every multiple of `s`
/// below `r`, the last one pushed back so that it ends at the far wall.
pub open spec fn axis_offsets(r: int, s: int, start: int) -> Seq<int>
    decreases r + s - start,
    when s >= 1
{
    if start >= r {
        Seq::empty()
    } else {
        seq![min_of(start, r - s)] + axis_offsets(r, s, start + s)
    }
}

/// Every pair of an offset of `a` and an offset of `b`, those with the first
/// offset of `a` first.
pub open spec fn grid_pairs(a: Seq<int>, b: Seq<int>) -> Seq<(int, int)>
    decreases a.len(),
{
    if a.len() == 0 {
        Seq::empty()
    } else {
        grid_pairs(a.drop_last(), b) + b.map_values(|z: int| (a.last(), z))
    }
}

/// The session offsets as integers.
pub open spec fn offsets_view(v: Seq<(i32, i32)>) -> Seq<(int, int)> {
    v.map_values(|o: (i32, i32)| (o.0 as int, o.1 as int))
}

/// One axis of the session schedule, as machine integers.
fn axis_offsets_exec(r: i32, s: i32) -> (v: Vec<i32>)
    requires
        1 <= s <= r,
        r + s - 1 <= i32::MAX,
    ensures
        v@.map_values(|o: i32| o as int) == axis_offsets(r as int, s as int, 0),
{
    let mut v: Vec<i32> = Vec::new();
    let mut start: i32 = 0;
    while start < r
        invariant
            1 <= s <= r,
            r + s - 1 <= i32::MAX,
            0 <= start <= r + s - 1,
            v@.map_values(|o: i32| o as int) + axis_offsets(r as int, s as int, start as int)
                == axis_offsets(r as int, s as int, 0),
        decreases r + s - start,
    {
        let o = if start < r - s { start } else { r - s };
        let ghost before = v@;
        v.push(o);
        proof {
            let rest = axis_offsets(r as int, s as int, start + s);
            assert(axis_offsets(r as int, s as int, start as int) == seq![o as int] + rest);
            assert(v@.map_values(|o: i32| o as int) =~= before.map_values(|o: i32| o as int).push(o as int));
            assert(before.map_values(|o: i32| o as int) + (seq![o as int] + rest)
                =~= before.map_values(|o: i32| o as int).push(o as int) + rest);
        }
        start = start + s;
    }
    assert(axis_offsets(r as int, s as int, start as int) == Seq::<int>::empty());
    assert(v@.map_values(|o: i32| o as int) + Seq::<int>::empty() =~= v@.map_values(|o: i32| o as int));
    v
}

/// The order in which the large-model planner visits its sessions: the
/// `(x, z)` offset of the square of `sx` by `sz` columns each session
/// clears, rows along x outside, columns along z inside.
pub fn session_offsets(r: i32, sx: i32, sz: i32) -> (v: Vec<(i32, i32)>)
    requires
        1 <= sx <= r,
        1 <= sz <= r,
        r + sx - 1 <= i32::MAX,
        r + sz - 1 <= i32::MAX,
    ensures
        offsets_view(v@) == grid_pairs(axis_offsets(r as int, sx as int, 0), axis_offsets(r as int, sz as int, 0)),
{
    let xs = axis_offsets_exec(r, sx);
    let zs = axis_offsets_exec(r, sz);
    let ghost a = axis_offsets(r as int, sx as int, 0);
    let ghost b = axis_offsets(r as int, sz as int, 0);
    let mut v: Vec<(i32, i32)> = Vec::new();
    let mut i: usize = 0;
    while i < xs.len()
        invariant
            i <= xs@.len(),
            xs@.map_values(|o: i32| o as int) == a,
            zs@.map_values(|o: i32| o as int) == b,
            offsets_view(v@) == grid_pairs(a.subrange(0, i as int), b),
        decreases xs@.len() - i,
    {
        let ghost start = offsets_view(v@);
        let mut j: usize = 0;
        while j < zs.len()
            invariant
                i < xs@.len(),
                j <= zs@.len(),
                zs@.map_values(|o: i32| o as int) == b,
                offsets_view(v@) == start + b.subrange(0, j as int).map_values(|z: int| (xs@[i as int] as int, z)),
            decreases zs@.len() - j,
        {
            let ghost before = v@;
            v.push((xs[i], zs[j]));
            proof {
                assert(offsets_view(v@) =~= offsets_view(before).push((xs@[i as int] as int, zs@[j as int] as int)));
                assert(b[j as int] == zs@[j as int] as int);
                assert(b.subrange(0, j + 1).map_values(|z: int| (xs@[i as int] as int, z))
                    =~= b.subrange(0, j as int).map_values(|z: int| (xs@[i as int] as int, z)).push((xs@[i as int] as int, b[j as int])));
            }
            j += 1;
        }
        proof {
            assert(b.subrange(0, j as int) =~= b);
            let pre = a.subrange(0, i + 1);
            assert(pre.drop_last() =~= a.subrange(0, i as int));
            assert(pre.last() == xs@[i as int] as int);
        }
        i += 1;
    }
    assert(a.subrange(0, i as int) =~= a);
    v
}

proof fn lemma_axis_cover(r: int, s: int, start: int, x: int)
    requires
        1 <= s <= r,
        0 <= start,
        start <= x < r,
    ensures
        exists|k: int| 0 <= k < axis_offsets(r, s, start).len()
            && #[trigger] axis_offsets(r, s, start)[k] <= x < axis_offsets(r, s, start)[k] + s,
    decreases r - start,
{
    let a = axis_offsets(r, s, start);
    if x < start + s {
        assert(a[0] <= x < a[0] + s);
    } else {
        lemma_axis_cover(r, s, start + s, x);
        let rest = axis_offsets(r, s, start + s);
        let k = choose|k: int| 0 <= k < rest.len() && #[trigger] rest[k] <= x < rest[k] + s;
        assert(a[k + 1] == rest[k]);
    }
}

proof fn lemma_axis_inside(r: int, s: int, start: int)
    requires
        1 <= s <= r,
        0 <= start,
    ensures
        forall|k: int| 0 <= k < axis_offsets(r, s, start).len() ==> 0 <= #[trigger] axis_offsets(r, s, start)[k] <= r - s,
    decreases r + s - start,
{
    if start < r {
        lemma_axis_inside(r, s, start + s);
        let a = axis_offsets(r, s, start);
        let rest = axis_offsets(r, s, start + s);
        assert forall|k: int| 0 <= k < a.len() implies 0 <= #[trigger] a[k] <= r - s by {
            if k > 0 {
                assert(a[k] == rest[k - 1]);
            }
        }
    }
}

proof fn lemma_grid_pairs(a: Seq<int>, b: Seq<int>)
    ensures
        grid_pairs(a, b).len() == a.len() * b.len(),
        forall|i: int, j: int| 0 <= i < a.len() && 0 <= j < b.len() ==>
            #[trigger] grid_pairs(a, b)[i * b.len() + j] == (a[i], b[j]),
    decreases a.len(),
{
    if a.len() > 0 {
        let front = a.drop_last();
        lemma_grid_pairs(front, b);
        let g = grid_pairs(a, b);
        let n: int = b.len() as int;
        assert(a.len() * n == front.len() * n + n) by (nonlinear_arith)
            requires a.len() == front.len() + 1;
        assert forall|i: int, j: int| 0 <= i < a.len() && 0 <= j < n implies #[trigger] g[i * n + j] == (a[i], b[j]) by {
            if i < front.len() {
                assert(i * n + j < front.len() * n) by (nonlinear_arith)
                    requires 0 <= i < front.len(), 0 <= j < n;
                assert(front[i] == a[i]);
            } else {
                assert(i * n == front.len() * n);
            }
        }
    }
}

/// Some session's square of `sx` by `sz` columns holds column `(x, z)`.
pub open spec fn covered(sessions: Seq<(int, int)>, sx: int, sz: int, x: int, z: int) -> bool {
    exists|k: int| 0 <= k < sessions.len() && {
        let o = #[trigger] sessions[k];
        o.0 <= x < o.0 + sx && o.1 <= z < o.1 + sz
    }
}

/// The sessions clear every column of the grid, and each session's square
/// lies inside the grid.
pub proof fn lemma_sessions_cover(r: int, sx: int, sz: int)
    requires
        1 <= sx <= r,
        1 <= sz <= r,
    ensures
        forall|k: int| 0 <= k < grid_pairs(axis_offsets(r, sx, 0), axis_offsets(r, sz, 0)).len() ==> {
            let o = #[trigger] grid_pairs(axis_offsets(r, sx, 0), axis_offsets(r, sz, 0))[k];
            0 <= o.0 <= r - sx && 0 <= o.1 <= r - sz
        },
        forall|x: int, z: int| 0 <= x < r && 0 <= z < r ==>
            #[trigger] covered(grid_pairs(axis_offsets(r, sx, 0), axis_offsets(r, sz, 0)), sx, sz, x, z),
{
    let a = axis_offsets(r, sx, 0);
    let b = axis_offsets(r, sz, 0);
    let g = grid_pairs(a, b);
    lemma_grid_pairs(a, b);
    lemma_axis_inside(r, sx, 0);
    lemma_axis_inside(r, sz, 0);
    assert forall|k: int| 0 <= k < g.len() implies {
        let o = #[trigger] g[k];
        0 <= o.0 <= r - sx && 0 <= o.1 <= r - sz
    } by {
        let n: int = b.len() as int;
        let i = k / n;
        let j = k % n;
        assert(n > 0) by (nonlinear_arith)
            requires k < a.len() * n, k >= 0;
        vstd::arithmetic::div_mod::lemma_fundamental_div_mod(k, n);
        assert(0 <= i < a.len()) by (nonlinear_arith)
            requires k < a.len() * n, k >= 0, n > 0, i == k / n;
        assert(0 <= j < n) by (nonlinear_arith)
            requires n > 0, j == k % n;
        assert(k == i * n + j) by (nonlinear_arith)
            requires k == n * (k / n) + k % n, i == k / n, j == k % n;
        assert(g[i * n + j] == (a[i], b[j]));
    }
    assert forall|x: int, z: int| 0 <= x < r && 0 <= z < r implies #[trigger] covered(g, sx, sz, x, z) by {
        lemma_axis_cover(r, sx, 0, x);
        lemma_axis_cover(r, sz, 0, z);
        let i = choose|i: int| 0 <= i < a.len() && #[trigger] a[i] <= x < a[i] + sx;
        let j = choose|j: int| 0 <= j < b.len() && #[trigger] b[j] <= z < b[j] + sz;
        let n: int = b.len() as int;
        assert(0 <= i * n + j < a.len() * n) by (nonlinear_arith)
            requires 0 <= i < a.len(), 0 <= j < n;
        assert(g[i * n + j] == (a[i], b[j]));
    }
}

/// The destruction planner: the model, the fleet, and the steps planned so far.
pub struct App {
    pub model: Model,
    pub bots: Vec<Bot>,
    pub fission_commands: Vec<Command>,
    pub fusion_commands: Vec<Command>,
    pub command_sets: Vec<CommandSet>,
}

impl App {
    /// A planner for `model` with one bot at the origin and nothing planned.
    pub fn new(model: &Model) -> (app: App)
        ensures
            app.model.r == model.r,
            view3(&app.model.filled) == view3(&model.filled),
            app.bots@ == seq![Bot { bid: 0, p: P { x: 0, y: 0, z: 0 } }],
            app.fission_commands@.len() == 0,
            app.fusion_commands@.len() == 0,
            app.command_sets@.len() == 0,
    {
        let filled: V3<bool> = copy3(&model.filled);
        let mut bots: Vec<Bot> = Vec::new();
        bots.push(Bot { bid: 0, p: P::new(0, 0, 0) });
        App {
            model: Model { r: model.r, filled },
            bots,
            fission_commands: Vec::new(),
            fusion_commands: Vec::new(),
            command_sets: Vec::new(),
        }
    }

    /// Moves the whole fleet one cell down in one step.
    pub fn move_down(&mut self)
        requires
            forall|i: int| 0 <= i < old(self).bots@.len() ==> old(self).bots@[i].p.y > i32::MIN,
        ensures
            final(self).model == old(self).model,
            final(self).fission_commands == old(self).fission_commands,
            final(self).fusion_commands == old(self).fusion_commands,
            sets_view(final(self).command_sets@) == sets_view(old(self).command_sets@).push(
                uniform(old(self).bots@.len(), Command::SMove(P { x: 0, y: -1i32, z: 0 })),
            ),
            final(self).bots@.len() == old(self).bots@.len(),
            forall|i: int| 0 <= i < old(self).bots@.len() ==> #[trigger] final(self).bots@[i] == (Bot {
                bid: old(self).bots@[i].bid,
                p: P { x: old(self).bots@[i].p.x, y: (old(self).bots@[i].p.y - 1) as i32, z: old(self).bots@[i].p.z },
            }),
    {
        let dif = P::new(0, -1, 0);
        let cs = CommandSet::new_uniform(self.bots.len(), Command::SMove(dif));
        self.command_sets.push(cs);
        assert(sets_view(self.command_sets@) =~= sets_view(old(self).command_sets@).push(
            uniform(old(self).bots@.len(), Command::SMove(P { x: 0, y: -1i32, z: 0 })),
        ));
        let ghost before = self.bots@;
        let ghost sets = self.command_sets;
        let mut i: usize = 0;
        while i < self.bots.len()
            invariant
                i <= self.bots@.len(),
                self.bots@.len() == before.len(),
                self.model == old(self).model,
                self.fission_commands == old(self).fission_commands,
                self.fusion_commands == old(self).fusion_commands,
                self.command_sets == sets,
                forall|j: int| 0 <= j < before.len() ==> before[j].p.y > i32::MIN,
                forall|j: int| 0 <= j < i ==> #[trigger] self.bots@[j] == (Bot {
                    bid: before[j].bid,
                    p: P { x: before[j].p.x, y: (before[j].p.y - 1) as i32, z: before[j].p.z },
                }),
                forall|j: int| i <= j < before.len() ==> #[trigger] self.bots@[j] == before[j],
            decreases before.len() - i,
        {
            let b = self.bots[i];
            self.bots.set(i, Bot { bid: b.bid, p: P::new(b.p.x, b.p.y - 1, b.p.z) });
            i += 1;
        }
    }
    /// Moves the whole fleet by `p_diff` (never downwards), one command set per
    /// step, all bots doing the same move.  An offset of `i32::MIN` along x (or
    /// along z when there is no x offset) is only accepted when the climb ends
    /// in an L move, which shortens it before its length is measured: its
    /// length does not fit an `i32`.
    pub fn move_to_next_session(&mut self, p_diff: P)
        requires
            p_diff.y >= 0,
            p_diff.x == i32::MIN ==> climb_ends_in_l(p_diff.y as int),
            p_diff.z == i32::MIN ==> climb_ends_in_l(p_diff.y as int) && p_diff.x == 0,
            forall|i: int| 0 <= i < old(self).bots@.len() ==> add_fits(#[trigger] old(self).bots@[i].p, p_diff),
        ensures
            final(self).model == old(self).model,
            final(self).fission_commands == old(self).fission_commands,
            final(self).fusion_commands == old(self).fusion_commands,
            sets_view(final(self).command_sets@) == sets_view(old(self).command_sets@) + session_moves(
                p_diff.x as int,
                p_diff.y as int,
                p_diff.z as int,
            ).map_values(|c: Command| uniform(old(self).bots@.len(), c)),
            final(self).bots@.len() == old(self).bots@.len(),
            forall|i: int| 0 <= i < old(self).bots@.len() ==> #[trigger] final(self).bots@[i] == (Bot {
                bid: old(self).bots@[i].bid,
                p: padd(old(self).bots@[i].p, p_diff),
            }),
    {
        let ghost n = old(self).bots@.len();
        let ghost before = old(self).bots@;
        let ghost dx = p_diff.x as int;
        let ghost dy = p_diff.y as int;
        let ghost dz = p_diff.z as int;
        let ghost all = session_moves(dx, dy, dz);
        let ghost mut added: Seq<Command> = Seq::empty();
        let mut rem = p_diff;
        assert(all == added + session_moves(rem.x as int, rem.y as int, rem.z as int));
        assert(sets_view(self.command_sets@) =~= sets_view(old(self).command_sets@) + added.map_values(
            |c: Command| uniform(n, c),
        ));
        while !(rem.x == 0 && rem.y == 0 && rem.z == 0)
            invariant
                n == before.len(),
                n == self.bots@.len(),
                rem.y >= 0,
                toward(rem.x as int, dx),
                toward(rem.y as int, dy),
                toward(rem.z as int, dz),
                dx == p_diff.x,
                dy == p_diff.y,
                dz == p_diff.z,
                rem.x == i32::MIN ==> climb_ends_in_l(rem.y as int),
                rem.z == i32::MIN ==> climb_ends_in_l(rem.y as int) && rem.x == 0,
                all == session_moves(dx, dy, dz),
                all == added + session_moves(rem.x as int, rem.y as int, rem.z as int),
                sets_view(self.command_sets@) == sets_view(old(self).command_sets@) + added.map_values(
                    |c: Command| uniform(n, c),
                ),
                self.model == old(self).model,
                self.fission_commands == old(self).fission_commands,
                self.fusion_commands == old(self).fusion_commands,
                forall|j: int| 0 <= j < n ==> add_fits(#[trigger] before[j].p, p_diff),
                forall|j: int| 0 <= j < n ==> #[trigger] self.bots@[j] == (Bot {
                    bid: before[j].bid,
                    p: P {
                        x: (before[j].p.x + (dx - rem.x)) as i32,
                        y: (before[j].p.y + (dy - rem.y)) as i32,
                        z: (before[j].p.z + (dz - rem.z)) as i32,
                    },
                }),
            decreases rem.y + abs(rem.x as int) + abs(rem.z as int),
        {
            let ghost step = next_step(rem.x as int, rem.y as int, rem.z as int);
            proof {
                lemma_next_step(rem.x as int, rem.y as int, rem.z as int);
            }
            let cmd: Command;
            let mv: P;
            if rem.y > 5 || (rem.x == 0 && rem.z == 0) {
                mv = P::new(0, if rem.y < 15 { rem.y } else { 15 }, 0);
                cmd = Command::SMove(mv);
            } else if rem.y > 0 {
                let m1 = P::new(0, rem.y, 0);
                let m2 = if rem.x != 0 {
                    P::new(minmax(rem.x, 5), 0, 0)
                } else {
                    P::new(0, 0, minmax(rem.z, 5))
                };
                mv = P::new(m2.x, m1.y, m2.z);
                cmd = Command::LMove(m1, m2);
            } else {
                if rem.x > 5 || rem.x < -5 || rem.z == 0 {
                    mv = P::new(minmax(rem.x, 15), 0, 0);
                    cmd = Command::SMove(mv);
                } else if rem.z > 5 || rem.z < -5 || rem.x == 0 {
                    mv = P::new(0, 0, minmax(rem.z, 15));
                    cmd = Command::SMove(mv);
                } else {
                    let m1 = P::new(rem.x, 0, 0);
                    let m2 = P::new(0, 0, rem.z);
                    mv = P::new(rem.x, 0, rem.z);
                    cmd = Command::LMove(m1, m2);
                }
            }
            assert(cmd == step.0);
            assert(mv.x == step.1 && mv.y == step.2 && mv.z == step.3);
            let ghost old_rem = rem;
            rem = P::new(rem.x - mv.x, rem.y - mv.y, rem.z - mv.z);
            proof {
                let tail = session_moves(rem.x as int, rem.y as int, rem.z as int);
                assert(session_moves(old_rem.x as int, old_rem.y as int, old_rem.z as int) == seq![cmd] + tail);
                assert(added + (seq![cmd] + tail) =~= added.push(cmd) + tail);
                added = added.push(cmd);
            }
            let ghost sets_now = self.command_sets;
            let mut j: usize = 0;
            while j < self.bots.len()
                invariant
                    n == before.len(),
                    n == self.bots@.len(),
                    j <= n,
                    toward(rem.x as int, dx),
                    toward(rem.y as int, dy),
                    toward(rem.z as int, dz),
                    toward(old_rem.x as int, dx),
                    toward(old_rem.y as int, dy),
                    toward(old_rem.z as int, dz),
                    dx == p_diff.x,
                    dy == p_diff.y,
                    dz == p_diff.z,
                    mv.x == old_rem.x - rem.x,
                    mv.y == old_rem.y - rem.y,
                    mv.z == old_rem.z - rem.z,
                    self.model == old(self).model,
                    self.fission_commands == old(self).fission_commands,
                    self.fusion_commands == old(self).fusion_commands,
                    self.command_sets == sets_now,
                    forall|k: int| 0 <= k < n ==> add_fits(#[trigger] before[k].p, p_diff),
                    forall|k: int| 0 <= k < j ==> #[trigger] self.bots@[k] == (Bot {
                        bid: before[k].bid,
                        p: P {
                            x: (before[k].p.x + (dx - rem.x)) as i32,
                            y: (before[k].p.y + (dy - rem.y)) as i32,
                            z: (before[k].p.z + (dz - rem.z)) as i32,
                        },
                    }),
                    forall|k: int| j <= k < n ==> #[trigger] self.bots@[k] == (Bot {
                        bid: before[k].bid,
                        p: P {
                            x: (before[k].p.x + (dx - old_rem.x)) as i32,
                            y: (before[k].p.y + (dy - old_rem.y)) as i32,
                            z: (before[k].p.z + (dz - old_rem.z)) as i32,
                        },
                    }),
                decreases n - j,
            {
                let b = self.bots[j];
                proof {
                    assert(add_fits(before[j as int].p, p_diff));
                }
                self.bots.set(j, Bot { bid: b.bid, p: P::new(b.p.x + mv.x, b.p.y + mv.y, b.p.z + mv.z) });
                j += 1;
            }
            let cs = CommandSet::new_uniform(self.bots.len(), cmd);
            let ghost sets_before = self.command_sets@;
            self.command_sets.push(cs);
            assert(sets_view(self.command_sets@) =~= sets_view(old(self).command_sets@) + added.map_values(
                |c: Command| uniform(n, c),
            )) by {
                assert(sets_view(self.command_sets@) =~= sets_view(sets_before).push(uniform(n, cmd)));
            }
        }
        assert(session_moves(0, 0, 0) == Seq::<Command>::empty());
        assert(added =~= all);
        assert forall|i: int| 0 <= i < n implies #[trigger] self.bots@[i] == (Bot {
            bid: before[i].bid,
            p: padd(before[i].p, p_diff),
        }) by {
            assert(self.bots@[i].p == padd(before[i].p, p_diff));
        }
    }

    /// Spreads a freshly split fleet of `n_bots_x` rows of `n_bots_z` bots
    /// over the top layer (see `fleet_position`). The split itself is planned
    /// elsewhere: `fission_commands` are its steps, and `ord[i]` is the
    /// 1-based id of the bot that ends at the `i`-th position. Returns the
    /// bot ids laid out as rows and columns of the fleet.
    pub fn fission(
        &mut self,
        n_bots_x: usize,
        n_bots_z: usize,
        ord: &Vec<usize>,
        fission_commands: Vec<Command>,
    ) -> (grid: Vec<Vec<usize>>)
        requires
            old(self).model.r <= i32::MAX,
            n_bots_x * n_bots_z <= usize::MAX,
            CELL_LENGTH * (n_bots_x - 1) <= i32::MAX,
            CELL_LENGTH * (n_bots_z - 1) <= i32::MAX,
            ord@.len() >= n_bots_x * n_bots_z,
            names_bots(ord@, (n_bots_x * n_bots_z) as nat, (n_bots_x * n_bots_z) as nat),
        ensures
            final(self).model == old(self).model,
            final(self).fusion_commands == old(self).fusion_commands,
            final(self).command_sets == old(self).command_sets,
            final(self).fission_commands == fission_commands,
            final(self).bots@.len() == n_bots_x * n_bots_z,
            forall|b: int| 0 <= b < n_bots_x * n_bots_z ==> #[trigger] final(self).bots@[b] == (Bot {
                bid: b as usize,
                p: placed(
                    ord@,
                    Seq::new((n_bots_x * n_bots_z) as nat, |i: int| fleet_position(old(self).model.r as int, n_bots_z as int, i)),
                    (n_bots_x * n_bots_z) as nat,
                    (n_bots_x * n_bots_z) as nat,
                )[b],
            }),
            grid@.len() == n_bots_x,
            forall|ix: int| 0 <= ix < n_bots_x ==> (#[trigger] grid@[ix])@.len() == n_bots_z,
            forall|ix: int, iz: int| 0 <= ix < n_bots_x && 0 <= iz < n_bots_z ==>
                #[trigger] grid@[ix]@[iz] == ord@[ix * n_bots_z + iz] - 1,
    {
        let n = n_bots_x * n_bots_z;
        let ps = fleet_positions(self.model.r, n_bots_x, n_bots_z);
        let ghost pss = Seq::new(n as nat, |i: int| fleet_position(old(self).model.r as int, n_bots_z as int, i));
        assert(ps@ =~= pss);
        self.fission_commands = fission_commands;
        let mut bots: Vec<Bot> = Vec::new();
        let mut bid: usize = 0;
        while bid < n
            invariant
                bid <= n,
                bots@.len() == bid,
                forall|b: int| 0 <= b < bid ==> #[trigger] bots@[b] == (Bot { bid: b as usize, p: P { x: -1i32, y: -1i32, z: -1i32 } }),
            decreases n - bid,
        {
            bots.push(Bot { bid, p: P::new(-1, -1, -1) });
            bid += 1;
        }
        let mut i: usize = 0;
        while i < n
            invariant
                i <= n,
                n == n_bots_x * n_bots_z,
                ord@.len() >= n,
                ps@ == pss,
                pss.len() == n,
                names_bots(ord@, n as nat, n as nat),
                bots@.len() == n,
                forall|b: int| 0 <= b < n ==> #[trigger] bots@[b] == (Bot { bid: b as usize, p: placed(ord@, pss, i as nat, n as nat)[b] }),
            decreases n - i,
        {
            proof {
                lemma_placed_len(ord@, pss, i as nat, n as nat);
            }
            let b = ord[i] - 1;
            bots.set(b, Bot { bid: b, p: ps[i] });
            i += 1;
        }
        self.bots = bots;
        let mut grid: Vec<Vec<usize>> = Vec::new();
        let mut ix: usize = 0;
        while ix < n_bots_x
            invariant
                ix <= n_bots_x,
                n == n_bots_x * n_bots_z,
                ord@.len() >= n,
                names_bots(ord@, n as nat, n as nat),
                grid@.len() == ix,
                forall|jx: int| 0 <= jx < ix ==> (#[trigger] grid@[jx])@.len() == n_bots_z,
                forall|jx: int, iz: int| 0 <= jx < ix && 0 <= iz < n_bots_z ==>
                    #[trigger] grid@[jx]@[iz] == ord@[jx * n_bots_z + iz] - 1,
            decreases n_bots_x - ix,
        {
            let mut row: Vec<usize> = Vec::new();
            let mut iz: usize = 0;
            while iz < n_bots_z
                invariant
                    ix < n_bots_x,
                    iz <= n_bots_z,
                    n == n_bots_x * n_bots_z,
                    ord@.len() >= n,
                    names_bots(ord@, n as nat, n as nat),
                    row@.len() == iz,
                    forall|jz: int| 0 <= jz < iz ==> #[trigger] row@[jz] == ord@[ix * n_bots_z + jz] - 1,
                decreases n_bots_z - iz,
            {
                assert(ix * n_bots_z + iz < n_bots_x * n_bots_z) by (nonlinear_arith)
                    requires ix < n_bots_x, iz < n_bots_z;
                let k = ix * n_bots_z + iz;
                row.push(ord[k] - 1);
                iz += 1;
            }
            grid.push(row);
            ix += 1;
        }
        grid
    }

    /// The whole trace: the fission steps, every planned step in order, then
    /// the fusion steps.
    pub fn get_trace(&self) -> (all: Vec<Command>)
        ensures
            all@ == self.fission_commands@ + flatten(sets_view(self.command_sets@)) + self.fusion_commands@,
    {
        let mut all: Vec<Command> = Vec::new();
        let mut i: usize = 0;
        while i < self.fission_commands.len()
            invariant
                i <= self.fission_commands@.len(),
                all@ == self.fission_commands@.subrange(0, i as int),
            decreases self.fission_commands@.len() - i,
        {
            all.push(self.fission_commands[i]);
            i += 1;
            assert(all@ =~= self.fission_commands@.subrange(0, i as int));
        }
        assert(self.fission_commands@.subrange(0, i as int) =~= self.fission_commands@);
        let mut k: usize = 0;
        while k < self.command_sets.len()
            invariant
                k <= self.command_sets@.len(),
                all@ == self.fission_commands@ + flatten(sets_view(self.command_sets@).subrange(0, k as int)),
            decreases self.command_sets@.len() - k,
        {
            let cs = &self.command_sets[k];
            let ghost start = all@;
            let mut j: usize = 0;
            while j < cs.commands.len()
                invariant
                    j <= cs.commands@.len(),
                    all@ == start + cs.commands@.subrange(0, j as int),
                decreases cs.commands@.len() - j,
            {
                all.push(cs.commands[j]);
                j += 1;
                assert(all@ =~= start + cs.commands@.subrange(0, j as int));
            }
            assert(cs.commands@.subrange(0, j as int) =~= cs.commands@);
            let ghost sv = sets_view(self.command_sets@);
            assert(sv.subrange(0, k + 1) .drop_last() =~= sv.subrange(0, k as int));
            assert(sv.subrange(0, k + 1).last() == cs.commands@);
            k += 1;
            assert(all@ =~= self.fission_commands@ + flatten(sv.subrange(0, k as int)));
        }
        assert(sets_view(self.command_sets@).subrange(0, k as int) =~= sets_view(self.command_sets@));
        let ghost mid = all@;
        let mut f: usize = 0;
        while f < self.fusion_commands.len()
            invariant
                f <= self.fusion_commands@.len(),
                all@ == mid + self.fusion_commands@.subrange(0, f as int),
            decreases self.fusion_commands@.len() - f,
        {
            all.push(self.fusion_commands[f]);
            f += 1;
            assert(all@ =~= mid + self.fusion_commands@.subrange(0, f as int));
        }
        assert(self.fusion_commands@.subrange(0, f as int) =~= self.fusion_commands@);
        all
    }
}

} // verus!
