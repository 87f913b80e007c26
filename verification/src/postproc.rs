//! Helpers of the fusion post-processing: walking a move cell by cell,
//! rebuilding moves from unit steps, and pairing nearby bots.
use vstd::prelude::*;
use crate::command::Command;
use crate::point::{P, padd, psub, pdiv, mlen_of, mlen_fits, add_fits, abs, tdiv, interior, near_spec, valid_in, are_near, lemma_near_contains};

verus! {

/// `v` scaled to `k` keeping only its sign: `k`, `-k` or `0`.
pub open spec fn signed(v: int, k: int) -> int {
    if v > 0 { k } else if v < 0 { -k } else { 0 }
}

/// The point with the given integer coordinates.
pub open spec fn pt(x: int, y: int, z: int) -> P {
    P { x: x as i32, y: y as i32, z: z as i32 }
}

/// The offset of length `k` in the direction of `d` (componentwise sign times `k`).
pub open spec fn along(d: P, k: int) -> P {
    pt(signed(d.x as int, k), signed(d.y as int, k), signed(d.z as int, k))
}

/// `d` is a nonzero offset along a single axis (and no component is `i32::MIN`).
pub open spec fn linear(d: P) -> bool {
    &&& d.x != i32::MIN && d.y != i32::MIN && d.z != i32::MIN
    &&& {
        ||| d.x != 0 && d.y == 0 && d.z == 0
        ||| d.x == 0 && d.y != 0 && d.z == 0
        ||| d.x == 0 && d.y == 0 && d.z != 0
    }
}

/// Scaling an axis-aligned offset: the length of each multiple, and how unit
/// steps add up to it.
pub proof fn lemma_along(d: P, a: int)
    requires
        linear(d),
        0 <= a <= i32::MAX,
    ensures
        mlen_of(along(d, a)) == a,
        mlen_fits(along(d, a)),
        along(d, mlen_of(d)) == d,
        mlen_of(d) >= 1,
        a >= 1 ==> pdiv(along(d, a), a as i32) == along(d, 1),
        a >= 1 ==> psub(along(d, a), along(d, 1)) == along(d, a - 1),
        a >= 1 ==> padd(along(d, a - 1), along(d, 1)) == along(d, a),
        a >= 1 ==> linear(along(d, a)),
        a >= 1 ==> along(along(d, a), 1) == along(d, 1),
{
    if a >= 1 {
        assert(tdiv(a, a) == 1) by {
            vstd::arithmetic::div_mod::lemma_div_basics(a);
        }
        assert(tdiv(-a, a) == -1) by {
            vstd::arithmetic::div_mod::lemma_div_basics(a);
        }
        assert(tdiv(0, a) == 0) by {
            vstd::arithmetic::div_mod::lemma_div_basics(a);
        }
    }
}

/// The command after appending a unit step `d` to `cmd`: a wait becomes a
/// short move; a short move grows when `d` goes its way and otherwise turns
/// into a long move; a long move grows its second leg.
pub open spec fn pushed(cmd: Command, d: P) -> Command {
    match cmd {
        Command::Wait => Command::SMove(d),
        Command::SMove(d1) => if d == pdiv(d1, mlen_of(d1) as i32) {
            Command::SMove(padd(d1, d))
        } else {
            Command::LMove(d1, d)
        },
        Command::LMove(d1, d2) => Command::LMove(d1, padd(d2, d)),
        _ => cmd,
    }
}

/// `cmd_push` can append `d` to `cmd`.
pub open spec fn push_ok(cmd: Command, d: P) -> bool {
    match cmd {
        Command::Wait => true,
        Command::SMove(d1) => mlen_fits(d1) && mlen_of(d1) > 0 && add_fits(d1, d),
        Command::LMove(d1, d2) => add_fits(d2, d),
        _ => false,
    }
}

/// Appends the unit step `d` to a wait or move command.
pub fn cmd_push(cmd: Command, d: P) -> (c: Command)
    requires
        push_ok(cmd, d),
    ensures
        c == pushed(cmd, d),
{
    match cmd {
        Command::Wait => Command::SMove(d),
        Command::SMove(d1) => {
            if d == d1 / d1.mlen() {
                Command::SMove(d1 + d)
            } else {
                Command::LMove(d1, d)
            }
        },
        Command::LMove(d1, d2) => Command::LMove(d1, d2 + d),
        _ => cmd,
    }
}

/// The walk of `path` for the command: `SMove` and `LMove` commands with
/// axis-aligned legs, whose lengths add up to an `i32`, starting at `p`, with
/// every visited position fitting in `i32`.
pub open spec fn walkable(p: P, cmd: Command) -> bool {
    match cmd {
        Command::SMove(d) => linear(d) && add_fits(p, d),
        Command::LMove(d1, d2) => linear(d1) && linear(d2) && mlen_of(d1) + mlen_of(d2) <= i32::MAX
            && add_fits(p, d1) && add_fits(padd(p, d1), d2),
        _ => true,
    }
}

/// The number of unit steps of a move (zero for other commands).
pub open spec fn walk_len(cmd: Command) -> int {
    match cmd {
        Command::SMove(d) => mlen_of(d),
        Command::LMove(d1, d2) => mlen_of(d1) + mlen_of(d2),
        _ => 0,
    }
}

/// The `k`-th unit step (from 1) of walking `cmd` from `p`: the position
/// reached, the command made of the steps already taken, and the command that
/// remains before this step.
pub open spec fn walk_step(p: P, cmd: Command, k: int) -> (P, Command, Command) {
    match cmd {
        Command::SMove(d) => (
            padd(p, along(d, k)),
            if k == 1 { Command::Wait } else { Command::SMove(along(d, k - 1)) },
            Command::SMove(along(d, mlen_of(d) - k + 1)),
        ),
        Command::LMove(d1, d2) => {
            let n1 = mlen_of(d1);
            let n2 = mlen_of(d2);
            if k <= n1 {
                (
                    padd(p, along(d1, k)),
                    if k == 1 { Command::Wait } else { Command::SMove(along(d1, k - 1)) },
                    Command::LMove(along(d1, n1 - k + 1), d2),
                )
            } else {
                let j = k - n1;
                (
                    padd(padd(p, d1), along(d2, j)),
                    if j == 1 {
                        Command::SMove(d1)
                    } else if along(d2, 1) == along(d1, 1) {
                        Command::SMove(along(d1, n1 + j - 1))
                    } else {
                        Command::LMove(d1, along(d2, j - 1))
                    },
                    Command::SMove(along(d2, n2 - j + 1)),
                )
            }
        },
        _ => (p, Command::Wait, Command::Wait),
    }
}

/// Walking a move cell by cell ends where the move ends.
pub proof fn lemma_walk_ends(p: P, cmd: Command)
    requires
        walkable(p, cmd),
        cmd is SMove || cmd is LMove,
    ensures
        walk_len(cmd) >= 1,
        walk_step(p, cmd, walk_len(cmd)).0 == match cmd {
            Command::SMove(d) => padd(p, d),
            Command::LMove(d1, d2) => padd(padd(p, d1), d2),
            _ => p,
        },
{
    match cmd {
        Command::SMove(d) => {
            lemma_along(d, mlen_of(d));
        },
        Command::LMove(d1, d2) => {
            lemma_along(d1, mlen_of(d1));
            lemma_along(d2, mlen_of(d2));
        },
        _ => {},
    }
}

fn is_lmove(c: Command) -> (b: bool)
    ensures
        b == c is LMove,
{
    match c {
        Command::LMove(_, _) => true,
        _ => false,
    }
}

fn is_smove(c: Command) -> (b: bool)
    ensures
        b == c is SMove,
{
    match c {
        Command::SMove(_) => true,
        _ => false,
    }
}

proof fn lemma_fits_between(p: P, d: P, k: int)
    requires
        linear(d),
        add_fits(p, d),
        0 <= k <= mlen_of(d),
    ensures
        add_fits(p, along(d, k)),
{
    lemma_along(d, mlen_of(d));
}

/// Walks the move `cmd` from `p` one unit step at a time, listing for each
/// step the position reached, the command covering the steps already taken,
/// and the command that remained before the step.  Other commands give an
/// empty walk.
#[verifier::rlimit(80)]
pub fn path(p: P, cmd: Command) -> (ret: Vec<(P, Command, Command)>)
    requires
        walkable(p, cmd),
    ensures
        ret@ == Seq::new(walk_len(cmd) as nat, |i: int| walk_step(p, cmd, i + 1)),
{
    let ghost p0 = p;
    let ghost c0 = cmd;
    let mut p = p;
    let mut cmd = cmd;
    let mut ret: Vec<(P, Command, Command)> = Vec::new();
    let mut cmd_done = Command::Wait;
    let ghost mut k: int = 0;
    let ghost n1: int = match c0 { Command::LMove(d1, _) => mlen_of(d1), _ => 0 };
    proof {
        match c0 {
            Command::LMove(d1, d2) => {
                lemma_along(d1, 0);
                lemma_along(d2, 0);
            },
            Command::SMove(d) => {
                lemma_along(d, 0);
            },
            _ => {},
        }
    }
    while is_lmove(cmd)
        invariant
            walkable(p0, c0),
            c0 is LMove ==> {
                &&& 0 <= k <= n1
                &&& n1 == mlen_of(c0->LMove_0)
                &&& p == padd(p0, along(c0->LMove_0, k))
                &&& cmd == if k < n1 { Command::LMove(along(c0->LMove_0, n1 - k), c0->LMove_1) } else { Command::SMove(c0->LMove_1) }
                &&& cmd_done == if k == 0 { Command::Wait } else { Command::SMove(along(c0->LMove_0, k)) }
            },
            !(c0 is LMove) ==> k == 0 && cmd == c0 && p == p0 && cmd_done == Command::Wait,
            ret@ == Seq::new(k as nat, |i: int| walk_step(p0, c0, i + 1)),
        decreases n1 - k,
    {
        if let Command::LMove(d1, d2) = cmd {
            let ghost e1 = c0->LMove_0;
            proof {
                lemma_along(e1, n1 - k);
                lemma_along(e1, k);
                lemma_along(e1, k + 1);
                lemma_along(e1, 1);
                lemma_fits_between(p0, e1, k + 1);
                lemma_along(c0->LMove_1, 0);
            }
            let v = d1 / d1.mlen();
            assert(v == along(e1, 1));
            p = p + v;
            assert(p == padd(p0, along(e1, k + 1)));
            ret.push((p, cmd_done, cmd));
            let d1 = d1 - v;
            cmd = if d1.mlen() == 0 { Command::SMove(d2) } else { Command::LMove(d1, d2) };
            cmd_done = cmd_push(cmd_done, v);
            proof {
                assert(ret@ =~= Seq::new((k + 1) as nat, |i: int| walk_step(p0, c0, i + 1)));
                k = k + 1;
            }
        }
    }
    let ghost m: int = match c0 {
        Command::LMove(_, d2) => mlen_of(d2),
        Command::SMove(d) => mlen_of(d),
        _ => 0,
    };
    let ghost e: P = match c0 {
        Command::LMove(_, d2) => d2,
        Command::SMove(d) => d,
        _ => P { x: 0, y: 0, z: 0 },
    };
    let ghost start: P = match c0 {
        Command::LMove(d1, _) => padd(p0, d1),
        _ => p0,
    };
    let ghost mut j: int = 0;
    proof {
        match c0 {
            Command::LMove(d1, d2) => {
                lemma_along(d1, n1);
                lemma_along(d2, 0);
            },
            _ => {},
        }
    }
    while is_smove(cmd)
        invariant
            walkable(p0, c0),
            c0 is LMove ==> n1 == mlen_of(c0->LMove_0),
            !(c0 is LMove) ==> n1 == 0,
            (c0 is LMove || c0 is SMove) ==> {
                &&& 0 <= j <= m
                &&& linear(e)
                &&& m == mlen_of(e)
                &&& add_fits(start, e)
                &&& p == padd(start, along(e, j))
                &&& cmd == if j < m { Command::SMove(along(e, m - j)) } else { Command::Wait }
            },
            c0 is LMove ==> {
                &&& e == c0->LMove_1
                &&& start == padd(p0, c0->LMove_0)
                &&& cmd_done == if j == 0 {
                    Command::SMove(c0->LMove_0)
                } else if along(e, 1) == along(c0->LMove_0, 1) {
                    Command::SMove(along(c0->LMove_0, n1 + j))
                } else {
                    Command::LMove(c0->LMove_0, along(e, j))
                }
            },
            c0 is SMove ==> {
                &&& e == c0->SMove_0
                &&& start == p0
                &&& cmd_done == if j == 0 { Command::Wait } else { Command::SMove(along(e, j)) }
            },
            !(c0 is LMove || c0 is SMove) ==> j == 0 && cmd == c0,
            ret@ == Seq::new((n1 + j) as nat, |i: int| walk_step(p0, c0, i + 1)),
        decreases m - j,
    {
        if let Command::SMove(d1) = cmd {
            proof {
                lemma_along(e, m - j);
                lemma_along(e, j);
                lemma_along(e, j + 1);
                lemma_along(e, 1);
                lemma_fits_between(start, e, j + 1);
                if c0 is LMove {
                    let f1 = c0->LMove_0;
                    lemma_along(f1, n1);
                    lemma_along(f1, 1);
                    lemma_along(f1, n1 + j);
                    lemma_along(f1, n1 + j + 1);
                }
            }
            let v = d1 / d1.mlen();
            assert(v == along(e, 1));
            p = p + v;
            ret.push((p, cmd_done, cmd));
            let d1 = d1 - v;
            cmd = if d1.mlen() == 0 { Command::Wait } else { Command::SMove(d1) };
            cmd_done = cmd_push(cmd_done, v);
            proof {
                assert(ret@ =~= Seq::new((n1 + j + 1) as nat, |i: int| walk_step(p0, c0, i + 1)));
                j = j + 1;
            }
        }
    }
    ret
}

// ---------------------------------------------------------------------------
// Sets of positions, kept as lists in increasing lexicographic order.

/// `a` comes before `b` in lexicographic `(x, y, z)` order.
pub open spec fn p_lt(a: P, b: P) -> bool {
    a.x < b.x || (a.x == b.x && (a.y < b.y || (a.y == b.y && a.z < b.z)))
}

/// The positions are listed in strictly increasing lexicographic order.
pub open spec fn sorted_points(s: Seq<P>) -> bool {
    forall|i: int, j: int| 0 <= i < j < s.len() ==> p_lt(s[i], s[j])
}

/// The first element of `ns` that belongs to `s`.
pub open spec fn first_hit(ns: Seq<P>, s: Seq<P>) -> Option<P>
    decreases ns.len(),
{
    if ns.len() == 0 {
        None
    } else if s.contains(ns[0]) {
        Some(ns[0])
    } else {
        first_hit(ns.drop_first(), s)
    }
}

/// The first position of `s` from index `i` on with a near position (inside
/// the grid of size 9999) in `s`, paired with the first such near position.
pub open spec fn near_pair_from(s: Seq<P>, i: int) -> Option<(P, P)>
    decreases s.len() - i,
{
    if i >= s.len() || i < 0 {
        None
    } else {
        match first_hit(near_spec(s[i], 9999), s) {
            Some(b) => Some((s[i], b)),
            None => near_pair_from(s, i + 1),
        }
    }
}

/// Whether `q` is one of the positions.
pub fn contains_point(v: &Vec<P>, q: P) -> (b: bool)
    ensures
        b == v@.contains(q),
{
    let mut i: usize = 0;
    while i < v.len()
        invariant
            i <= v@.len(),
            forall|k: int| 0 <= k < i ==> v@[k] != q,
        decreases v@.len() - i,
    {
        if v[i] == q {
            assert(v@[i as int] == q);
            return true;
        }
        i += 1;
    }
    false
}

proof fn lemma_first_hit(ns: Seq<P>, s: Seq<P>, i: int)
    requires
        0 <= i <= ns.len(),
        forall|k: int| 0 <= k < i ==> !s.contains(#[trigger] ns[k]),
    ensures
        first_hit(ns, s) == first_hit(ns.subrange(i, ns.len() as int), s),
    decreases i,
{
    if i > 0 {
        lemma_first_hit(ns.drop_first(), s, i - 1);
        assert(ns.drop_first().subrange(i - 1, ns.drop_first().len() as int) =~= ns.subrange(i, ns.len() as int));
        assert(!s.contains(ns[0]));
    } else {
        assert(ns.subrange(0, ns.len() as int) =~= ns);
    }
}

/// The first element of the near list of `p` that belongs to the set.
fn find_hit(ns: &Vec<P>, v: &Vec<P>) -> (h: Option<P>)
    ensures
        h == first_hit(ns@, v@),
{
    let mut i: usize = 0;
    while i < ns.len()
        invariant
            i <= ns@.len(),
            forall|k: int| 0 <= k < i ==> !v@.contains(#[trigger] ns@[k]),
        decreases ns@.len() - i,
    {
        if contains_point(v, ns[i]) {
            proof {
                lemma_first_hit(ns@, v@, i as int);
                assert(ns@.subrange(i as int, ns@.len() as int)[0] == ns@[i as int]);
            }
            return Some(ns[i]);
        }
        i += 1;
    }
    proof {
        lemma_first_hit(ns@, v@, i as int);
        assert(ns@.subrange(i as int, ns@.len() as int).len() == 0);
    }
    None
}

/// What `first_hit` finds lies in both lists.
pub proof fn lemma_first_hit_some(ns: Seq<P>, s: Seq<P>)
    ensures
        first_hit(ns, s) matches Some(b) ==> ns.contains(b) && s.contains(b),
    decreases ns.len(),
{
    if ns.len() > 0 && !s.contains(ns[0]) {
        lemma_first_hit_some(ns.drop_first(), s);
        if first_hit(ns, s) is Some {
            let b = first_hit(ns, s)->0;
            let k = choose|k: int| 0 <= k < ns.drop_first().len() && ns.drop_first()[k] == b;
            assert(ns[k + 1] == b);
        }
    } else if ns.len() > 0 {
        assert(ns[0] == ns[0]);
    }
}

/// A pair found in the set: both positions belong to it and are near each other.
pub proof fn lemma_pair_facts(s: Seq<P>, i: int)
    requires
        forall|k: int| 0 <= k < s.len() ==> interior(#[trigger] s[k]),
    ensures
        near_pair_from(s, i) matches Some((a, b)) ==> {
            &&& s.contains(a)
            &&& s.contains(b)
            &&& valid_in(b, 9999)
            &&& are_near(a, b)
            &&& mlen_fits(a)
            &&& mlen_fits(b)
            &&& a != b
        },
    decreases s.len() - i,
{
    if 0 <= i < s.len() {
        let ns = near_spec(s[i], 9999);
        lemma_first_hit_some(ns, s);
        match first_hit(ns, s) {
            Some(b) => {
                let a = s[i];
                assert(interior(a));
                lemma_near_contains(a, 9999, b);
                assert(s.contains(a));
            },
            None => {
                lemma_pair_facts(s, i + 1);
            },
        }
    }
}

/// Finds the first position (in order) that has a near position in the set
/// (within the grid of size 9999), paired with the first such near position.
pub fn get_near_pair(poss: &Vec<P>) -> (res: Option<(P, P)>)
    requires
        forall|k: int| 0 <= k < poss@.len() ==> interior(#[trigger] poss@[k]),
    ensures
        res == near_pair_from(poss@, 0),
{
    let mut i: usize = 0;
    while i < poss.len()
        invariant
            forall|k: int| 0 <= k < poss@.len() ==> interior(#[trigger] poss@[k]),
            i <= poss@.len(),
            near_pair_from(poss@, 0) == near_pair_from(poss@, i as int),
        decreases poss@.len() - i,
    {
        let p1 = poss[i];
        let ns = p1.near(9999);
        match find_hit(&ns, poss) {
            Some(p2) => {
                return Some((p1, p2));
            },
            None => {},
        }
        i += 1;
    }
    None
}

/// Removes `q` from a lexicographically ordered list of positions.
fn remove_point(v: &mut Vec<P>, q: P)
    requires
        sorted_points(old(v)@),
    ensures
        sorted_points(final(v)@),
        final(v)@.to_set() == old(v)@.to_set().remove(q),
{
    let ghost before = v@;
    let mut i: usize = 0;
    while i < v.len() && v[i] != q
        invariant
            v@ == before,
            i <= v@.len(),
            forall|k: int| 0 <= k < i ==> v@[k] != q,
        decreases v@.len() - i,
    {
        i += 1;
    }
    if i < v.len() {
        v.remove(i);
        assert forall|a: int, b: int| 0 <= a < b < v@.len() implies p_lt(v@[a], v@[b]) by {
            let a0 = if a < i { a } else { a + 1 };
            let b0 = if b < i { b } else { b + 1 };
            assert(v@[a] == before[a0]);
            assert(v@[b] == before[b0]);
        }
        assert forall|w: P| v@.to_set().contains(w) <==> before.to_set().remove(q).contains(w) by {
            if v@.contains(w) {
                let k = choose|k: int| 0 <= k < v@.len() && v@[k] == w;
                let k0 = if k < i { k } else { k + 1 };
                assert(before[k0] == w);
                if w == q {
                    assert(p_lt(before[i as int], before[k0]) || p_lt(before[k0], before[i as int]));
                }
            }
            if before.contains(w) && w != q {
                let k = choose|k: int| 0 <= k < before.len() && before[k] == w;
                if k < i {
                    assert(v@[k] == w);
                } else {
                    assert(k != i);
                    assert(v@[k - 1] == w);
                }
            }
        }
        assert(v@.to_set() =~= before.to_set().remove(q));
    } else {
        assert(v@.to_set() =~= before.to_set().remove(q));
    }
}

/// Like `get_near_pair`, but also removes both positions from the set, and
/// returns the one with the smaller Manhattan length first.
pub fn pop_near_pair(poss: &mut Vec<P>) -> (res: Option<(P, P)>)
    requires
        sorted_points(old(poss)@),
        forall|k: int| 0 <= k < old(poss)@.len() ==> interior(#[trigger] old(poss)@[k]),
    ensures
        sorted_points(final(poss)@),
        match near_pair_from(old(poss)@, 0) {
            Some((a, b)) => {
                &&& res == Some(if mlen_of(a) <= mlen_of(b) { (a, b) } else { (b, a) })
                &&& final(poss)@.to_set() == old(poss)@.to_set().remove(a).remove(b)
            },
            None => res is None && final(poss)@ == old(poss)@,
        },
{
    match get_near_pair(poss) {
        Some((p1, p2)) => {
            proof {
                lemma_pair_facts(old(poss)@, 0);
            }
            remove_point(poss, p1);
            remove_point(poss, p2);
            if p1.mlen() <= p2.mlen() {
                Some((p1, p2))
            } else {
                Some((p2, p1))
            }
        },
        None => None,
    }
}

} // verus!
