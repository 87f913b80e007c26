//! Bringing the bots together at the end of a build: each bot follows its
//! planned moves in lock step without entering an occupied cell, and waiting
//! bots that stand near each other fuse.
use vstd::prelude::*;
use crate::command::Command;
use crate::point::{P, interior, psub, are_near, mlen_of, add_fits, padd};
use crate::postproc::{
    walk_len, walk_step, walkable, path, contains_point, p_lt, sorted_points, near_pair_from,
    pop_near_pair, lemma_pair_facts, lemma_along, lemma_first_hit_some, linear, first_hit,
};
use crate::point::near_spec;

verus! {

/// The next planned command of a bot (a wait when nothing is planned).
pub open spec fn front(q: Seq<Command>) -> Command {
    if q.len() > 0 {
        q[0]
    } else {
        Command::Wait
    }
}

/// The plan after its next command is taken.
pub open spec fn rest(q: Seq<Command>) -> Seq<Command> {
    if q.len() > 0 {
        q.drop_first()
    } else {
        q
    }
}

/// The plan with an interrupted move put back in front.
pub open spec fn requeue(back: Option<Command>, q: Seq<Command>) -> Seq<Command> {
    match back {
        Some(c) => seq![c] + q,
        None => q,
    }
}

/// Walking `cmd` from `p` past its first `k` unit steps, standing at `cur`,
/// with the cells `o` occupied: the bot stops before the first occupied cell.
/// Gives where the bot ends, the command it carried out this step, the part of
/// the move left to do (if it stopped early), and the cells occupied after.
pub open spec fn walk_from(o: Set<P>, p: P, cmd: Command, k: int, cur: P) -> (P, Command, Option<Command>, Set<P>)
    decreases walk_len(cmd) - k,
{
    if k < 0 || k >= walk_len(cmd) {
        (cur, cmd, None, o)
    } else {
        let s = walk_step(p, cmd, k + 1);
        if o.contains(s.0) {
            (cur, s.1, Some(s.2), o)
        } else {
            walk_from(o.insert(s.0), p, cmd, k + 1, s.0)
        }
    }
}

/// The bots `0..i` have taken their next planned command, in order, starting
/// with the cells `o` occupied: their positions and plans, the commands
/// carried out, and the cells occupied after.
pub open spec fn moves_upto(o: Set<P>, ps: Seq<P>, qs: Seq<Seq<Command>>, i: int) -> (Seq<P>, Seq<Seq<Command>>, Seq<Command>, Set<P>)
    decreases i,
{
    if i <= 0 {
        (ps, qs, Seq::empty(), o)
    } else {
        let prev = moves_upto(o, ps, qs, i - 1);
        let j = i - 1;
        let q = prev.1[j];
        let w = walk_from(prev.3, prev.0[j], front(q), 0, prev.0[j]);
        (prev.0.update(j, w.0), prev.1.update(j, requeue(w.2, rest(q))), prev.2.push(w.1), w.3)
    }
}

/// Taking the next commands keeps the number of bots, and gives one command
/// per bot taken.
pub proof fn lemma_moves_len(o: Set<P>, ps: Seq<P>, qs: Seq<Seq<Command>>, i: int)
    requires
        0 <= i <= ps.len(),
        qs.len() == ps.len(),
    ensures
        moves_upto(o, ps, qs, i).0.len() == ps.len(),
        moves_upto(o, ps, qs, i).1.len() == ps.len(),
        moves_upto(o, ps, qs, i).2.len() == i,
    decreases i,
{
    if i > 0 {
        lemma_moves_len(o, ps, qs, i - 1);
    }
}

proof fn lemma_walk_from_pos(o: Set<P>, p: P, cmd: Command, k: int, cur: P)
    requires
        o.contains(cur),
    ensures
        o.subset_of(walk_from(o, p, cmd, k, cur).3),
        walk_from(o, p, cmd, k, cur).3.contains(walk_from(o, p, cmd, k, cur).0),
        walk_from(o, p, cmd, k, cur).0 == cur || !o.contains(walk_from(o, p, cmd, k, cur).0),
    decreases walk_len(cmd) - k,
{
    if 0 <= k < walk_len(cmd) {
        let s = walk_step(p, cmd, k + 1);
        if !o.contains(s.0) {
            lemma_walk_from_pos(o.insert(s.0), p, cmd, k + 1, s.0);
        }
    }
}

proof fn lemma_moves_apart(ps: Seq<P>, qs: Seq<Seq<Command>>, i: int)
    requires
        qs.len() == ps.len(),
        0 <= i <= ps.len(),
        ps.no_duplicates(),
    ensures
        moves_upto(ps.to_set(), ps, qs, i).0.no_duplicates(),
        forall|j: int| 0 <= j < ps.len() ==> moves_upto(ps.to_set(), ps, qs, i).3.contains(#[trigger] moves_upto(ps.to_set(), ps, qs, i).0[j]),
    decreases i,
{
    let o = ps.to_set();
    lemma_moves_len(o, ps, qs, i);
    if i == 0 {
        assert forall|j: int| 0 <= j < ps.len() implies o.contains(#[trigger] ps[j]) by {
            assert(ps.contains(ps[j]));
        }
    } else {
        lemma_moves_apart(ps, qs, i - 1);
        lemma_moves_len(o, ps, qs, i - 1);
        let prev = moves_upto(o, ps, qs, i - 1);
        let j0 = i - 1;
        let w = walk_from(prev.3, prev.0[j0], front(prev.1[j0]), 0, prev.0[j0]);
        lemma_walk_from_pos(prev.3, prev.0[j0], front(prev.1[j0]), 0, prev.0[j0]);
        let cur = moves_upto(o, ps, qs, i);
        assert(cur.0 == prev.0.update(j0, w.0));
        assert forall|a: int, b: int| 0 <= a < cur.0.len() && 0 <= b < cur.0.len() && a != b implies cur.0[a] != cur.0[b] by {
            if a == j0 {
                if w.0 != prev.0[j0] {
                    assert(prev.3.contains(prev.0[b]));
                }
            } else if b == j0 {
                if w.0 != prev.0[j0] {
                    assert(prev.3.contains(prev.0[a]));
                }
            }
        }
        assert forall|j: int| 0 <= j < ps.len() implies cur.3.contains(#[trigger] cur.0[j]) by {
            if j != j0 {
                assert(prev.3.contains(prev.0[j]));
            }
        }
    }
}

/// Bots never share a cell: when the bots stand in distinct cells, they still
/// do after each has taken its next command.
pub proof fn lemma_moves_keep_apart(ps: Seq<P>, qs: Seq<Seq<Command>>)
    requires
        qs.len() == ps.len(),
        ps.no_duplicates(),
    ensures
        moves_upto(ps.to_set(), ps, qs, ps.len() as int).0.no_duplicates(),
{
    lemma_moves_apart(ps, qs, ps.len() as int);
}

/// The next planned command of the bot at `p` can be walked, and every cell
/// on the way stays away from the edges of the `i32` range.
pub open spec fn plan_ok(p: P, q: Seq<Command>) -> bool {
    &&& walkable(p, front(q))
    &&& interior(p)
    &&& forall|k: int| 1 <= k <= walk_len(front(q)) ==> interior(#[trigger] walk_step(p, front(q), k).0)
}

/// The plans of all bots.
pub open spec fn plans_view(qs: Seq<Vec<Command>>) -> Seq<Seq<Command>> {
    qs.map_values(|q: Vec<Command>| q@)
}

proof fn lemma_walk_from_ends(o: Set<P>, p: P, cmd: Command, k: int, cur: P)
    requires
        0 <= k <= walk_len(cmd),
        interior(cur),
        forall|j: int| 1 <= j <= walk_len(cmd) ==> interior(#[trigger] walk_step(p, cmd, j).0),
    ensures
        interior(walk_from(o, p, cmd, k, cur).0),
    decreases walk_len(cmd) - k,
{
    if k < walk_len(cmd) {
        let s = walk_step(p, cmd, k + 1);
        if !o.contains(s.0) {
            lemma_walk_from_ends(o.insert(s.0), p, cmd, k + 1, s.0);
        }
    }
}

/// Every bot in turn takes its next planned command: a move is walked one
/// cell at a time and stops before the first occupied cell (the cells the
/// bots stand on, and those already walked this step, are occupied), and the
/// part of an interrupted move goes back in front of the plan.  Returns the
/// commands carried out, one per bot.
pub fn move_phase(positions: &mut Vec<P>, plans: &mut Vec<Vec<Command>>) -> (steps: Vec<Command>)
    requires
        old(plans)@.len() == old(positions)@.len(),
        forall|i: int| 0 <= i < old(positions)@.len() ==> plan_ok(#[trigger] old(positions)@[i], old(plans)@[i]@),
    ensures
        ({
            let m = moves_upto(old(positions)@.to_set(), old(positions)@, plans_view(old(plans)@), old(positions)@.len() as int);
            &&& final(positions)@ == m.0
            &&& plans_view(final(plans)@) == m.1
            &&& steps@ == m.2
        }),
        forall|i: int| 0 <= i < final(positions)@.len() ==> interior(#[trigger] final(positions)@[i]),
        final(positions)@.len() == old(positions)@.len(),
        final(plans)@.len() == old(positions)@.len(),
        steps@.len() == old(positions)@.len(),
{
    let n = positions.len();
    let ghost ps0 = positions@;
    let ghost qs0 = plans_view(plans@);
    let ghost o0 = ps0.to_set();
    let mut occupied: Vec<P> = Vec::new();
    let mut c: usize = 0;
    while c < n
        invariant
            n == positions@.len(),
            positions@ == ps0,
            c <= n,
            occupied@ == ps0.subrange(0, c as int),
        decreases n - c,
    {
        occupied.push(positions[c]);
        c += 1;
        assert(occupied@ =~= ps0.subrange(0, c as int));
    }
    assert(ps0.subrange(0, n as int) =~= ps0);
    let mut steps: Vec<Command> = Vec::new();
    let mut i: usize = 0;
    while i < n
        invariant
            n == ps0.len(),
            n == positions@.len(),
            n == plans@.len(),
            qs0.len() == n,
            o0 == ps0.to_set(),
            forall|j: int| 0 <= j < n ==> plan_ok(#[trigger] ps0[j], qs0[j]),
            i <= n,
            ({
                let m = moves_upto(o0, ps0, qs0, i as int);
                &&& positions@ == m.0
                &&& plans_view(plans@) == m.1
                &&& steps@ == m.2
                &&& occupied@.to_set() == m.3
            }),
            forall|j: int| 0 <= j < i ==> interior(#[trigger] positions@[j]),
            forall|j: int| i <= j < n ==> #[trigger] positions@[j] == ps0[j],
            forall|j: int| i <= j < n ==> #[trigger] plans_view(plans@)[j] == qs0[j],
        decreases n - i,
    {
        let ghost m = moves_upto(o0, ps0, qs0, i as int);
        let ghost plans_before = plans@;
        assert(plans_view(plans_before)[i as int] == qs0[i as int]);
        let mut q: Vec<Command> = Vec::new();
        std::mem::swap(&mut q, &mut plans[i]);
        let ghost q0 = q@;
        assert(q0 == qs0[i as int]);
        let cmd = if q.len() > 0 { q.remove(0) } else { Command::Wait };
        assert(cmd == front(q0));
        assert(q@ =~= rest(q0));
        let p0 = positions[i];
        assert(p0 == ps0[i as int]);
        let walk = path(p0, cmd);
        let ghost o_start = occupied@.to_set();
        let ghost target = walk_from(o_start, p0, cmd, 0, p0);
        let mut pos = p0;
        let mut orz = false;
        let mut k: usize = 0;
        while k < walk.len()
            invariant_except_break
                walk@ == Seq::new(walk_len(cmd) as nat, |j: int| walk_step(p0, cmd, j + 1)),
                k <= walk@.len(),
                !orz,
                walk_from(occupied@.to_set(), p0, cmd, k as int, pos) == target,
                q@ == rest(q0),
                steps@ == m.2,
            ensures
                orz ==> {
                    &&& q@ == requeue(target.2, rest(q0))
                    &&& steps@ == m.2.push(target.1)
                    &&& pos == target.0
                    &&& occupied@.to_set() == target.3
                },
                !orz ==> {
                    &&& q@ == rest(q0)
                    &&& steps@ == m.2
                    &&& walk_from(occupied@.to_set(), p0, cmd, k as int, pos) == target
                    &&& k == walk@.len()
                },
            decreases walk@.len() - k,
        {
            let (p, d, rem) = walk[k];
            if contains_point(&occupied, p) {
                assert(occupied@.to_set().contains(p));
                q.insert(0, rem);
                steps.push(d);
                orz = true;
                assert(q@ =~= requeue(target.2, rest(q0)));
                break;
            }
            assert(!occupied@.to_set().contains(p));
            let ghost before = occupied@;
            occupied.push(p);
            proof {
                before.lemma_push_to_set_commute(p);
            }
            assert(occupied@.to_set() == before.to_set().insert(p));
            pos = p;
            k += 1;
        }
        if !orz {
            steps.push(cmd);
            assert(walk_len(cmd) == walk@.len());
        }
        proof {
            lemma_walk_from_ends(o_start, p0, cmd, 0, p0);
        }
        positions.set(i, pos);
        std::mem::swap(&mut q, &mut plans[i]);
        i += 1;
        proof {
            let m2 = moves_upto(o0, ps0, qs0, i as int);
            assert(m.0[i - 1] == ps0[i - 1]);
            assert(m.1[i - 1] == qs0[i - 1]);
            assert(positions@ =~= m2.0);
            assert(plans_view(plans@) =~= m2.1);
        }
    }
    proof {
        lemma_moves_len(o0, ps0, qs0, n as int);
    }
    steps
}

// ---------------------------------------------------------------------------
// Fusing the waiting bots.

/// The positions of the bots that wait this step.
pub open spec fn waiting_set(ps: Seq<P>, steps: Seq<Command>) -> Set<P> {
    Set::new(|p: P| exists|i: int| 0 <= i < ps.len() && 0 <= i < steps.len() && ps[i] == p && steps[i] == Command::Wait)
}

/// The positions of a set listed in increasing lexicographic order.
pub open spec fn sorted_of(s: Set<P>) -> Seq<P> {
    choose|w: Seq<P>| sorted_points(w) && w.to_set() == s
}

/// The pair with the shorter Manhattan length first.
pub open spec fn ordered(a: P, b: P) -> (P, P) {
    if mlen_of(a) <= mlen_of(b) {
        (a, b)
    } else {
        (b, a)
    }
}


/// The pairs of waiting bots that fuse, in the order they are found: the
/// first position (in lexicographic order) with a near waiting position,
/// paired with the first such near position, shorter Manhattan length first;
/// then the same on the positions left.
pub open spec fn fusion_pairs(s: Set<P>) -> Seq<(P, P)>
    decreases s.len(),
    when s.finite()
{
    match near_pair_from(sorted_of(s), 0) {
        Some((a, b)) => {
            if s.contains(a) {
                seq![ordered(a, b)] + fusion_pairs(s.remove(a).remove(b))
            } else {
                Seq::empty()
            }
        },
        None => Seq::empty(),
    }
}

/// The first index at which `q` stands in `ps`.
pub open spec fn first_index(ps: Seq<P>, q: P) -> int {
    choose|i: int| 0 <= i < ps.len() && ps[i] == q && forall|j: int| 0 <= j < i ==> ps[j] != q
}

/// The commands of the step with the fusions of `pairs` written in: the
/// first bot of a pair becomes primary, the second secondary, each pointing
/// at the other.
pub open spec fn fuse_steps(steps: Seq<Command>, ps: Seq<P>, pairs: Seq<(P, P)>) -> Seq<Command>
    decreases pairs.len(),
{
    if pairs.len() == 0 {
        steps
    } else {
        let prev = fuse_steps(steps, ps, pairs.drop_last());
        let (a, b) = pairs.last();
        prev.update(first_index(ps, a), Command::FusionP(psub(b, a))).update(first_index(ps, b), Command::FusionS(psub(a, b)))
    }
}

/// The bots absorbed by the fusions of `pairs` (the second bot of each pair).
pub open spec fn absorbed(ps: Seq<P>, pairs: Seq<(P, P)>) -> Seq<usize> {
    pairs.map_values(|pr: (P, P)| first_index(ps, pr.1) as usize)
}

/// Two lexicographically ordered lists of the same positions are equal.
pub proof fn lemma_sorted_unique(s1: Seq<P>, s2: Seq<P>)
    requires
        sorted_points(s1),
        sorted_points(s2),
        s1.to_set() == s2.to_set(),
    ensures
        s1 == s2,
    decreases s1.len(),
{
    if s1.len() == 0 {
        if s2.len() > 0 {
            assert(s2.to_set().contains(s2[0]));
        }
        assert(s1 =~= s2);
    } else if s2.len() == 0 {
        assert(s1.to_set().contains(s1[0]));
    } else {
        let a = s1[0];
        let b = s2[0];
        assert(s2.to_set().contains(a));
        assert(s1.to_set().contains(b));
        let k = choose|k: int| 0 <= k < s2.len() && s2[k] == a;
        let j = choose|j: int| 0 <= j < s1.len() && s1[j] == b;
        if a != b {
            assert(k > 0 && j > 0);
            assert(p_lt(b, a));
            assert(p_lt(a, b));
        }
        let t1 = s1.drop_first();
        let t2 = s2.drop_first();
        assert forall|x: P| t1.to_set().contains(x) <==> t2.to_set().contains(x) by {
            if t1.contains(x) {
                let i = choose|i: int| 0 <= i < t1.len() && t1[i] == x;
                assert(s1[i + 1] == x);
                assert(p_lt(a, x));
                assert(s2.to_set().contains(x));
                let i2 = choose|i2: int| 0 <= i2 < s2.len() && s2[i2] == x;
                assert(i2 != 0);
                assert(t2[i2 - 1] == x);
            }
            if t2.contains(x) {
                let i = choose|i: int| 0 <= i < t2.len() && t2[i] == x;
                assert(s2[i + 1] == x);
                assert(p_lt(b, x));
                assert(s1.to_set().contains(x));
                let i1 = choose|i1: int| 0 <= i1 < s1.len() && s1[i1] == x;
                assert(i1 != 0);
                assert(t1[i1 - 1] == x);
            }
        }
        assert(t1.to_set() =~= t2.to_set());
        lemma_sorted_unique(t1, t2);
        assert(s1 =~= s2) by {
            assert(s1 == seq![a] + t1);
            assert(s2 == seq![b] + t2);
        }
    }
}

/// One round of pairing: the pair found in the ordered list comes first,
/// then the pairs of the positions left.
proof fn lemma_fusion_pairs_step(w0: Seq<P>)
    requires
        sorted_points(w0),
        forall|k: int| 0 <= k < w0.len() ==> interior(#[trigger] w0[k]),
    ensures
        near_pair_from(w0, 0) matches Some((a, b)) ==> {
            &&& w0.contains(a)
            &&& w0.contains(b)
            &&& a != b
            &&& are_near(a, b)
            &&& fusion_pairs(w0.to_set()) == seq![ordered(a, b)] + fusion_pairs(w0.to_set().remove(a).remove(b))
        },
        near_pair_from(w0, 0) is None ==> fusion_pairs(w0.to_set()) == Seq::<(P, P)>::empty(),
{
    lemma_pair_facts(w0, 0);
    lemma_sorted_unique(sorted_of(w0.to_set()), w0);
    vstd::seq_lib::seq_to_set_is_finite(w0);
    if let Some((a, b)) = near_pair_from(w0, 0) {
        assert(w0.to_set().contains(a));
    }
}

fn p_less(a: P, b: P) -> (r: bool)
    ensures
        r == p_lt(a, b),
{
    a.x < b.x || (a.x == b.x && (a.y < b.y || (a.y == b.y && a.z < b.z)))
}

/// Adds `q` to a lexicographically ordered list of positions.
fn insert_point(v: &mut Vec<P>, q: P)
    requires
        sorted_points(old(v)@),
    ensures
        sorted_points(final(v)@),
        final(v)@.to_set() == old(v)@.to_set().insert(q),
{
    let ghost before = v@;
    let mut i: usize = 0;
    while i < v.len() && p_less(v[i], q)
        invariant
            v@ == before,
            sorted_points(before),
            i <= v@.len(),
            forall|k: int| 0 <= k < i ==> p_lt(v@[k], q),
        decreases v@.len() - i,
    {
        i += 1;
    }
    if i < v.len() && v[i] == q {
        assert(before.to_set().contains(q));
        assert(before.to_set().insert(q) =~= before.to_set());
        return;
    }
    v.insert(i, q);
    assert forall|a: int, b: int| 0 <= a < b < v@.len() implies p_lt(v@[a], v@[b]) by {
        if a < i && b == i {
        } else if a == i && b > i {
            assert(v@[b] == before[b - 1]);
            if b - 1 > i {
                assert(p_lt(before[i as int], before[b - 1]));
            }
        } else if a < i && b > i {
            assert(v@[b] == before[b - 1]);
        } else if a > i {
            assert(v@[a] == before[a - 1]);
            assert(v@[b] == before[b - 1]);
        }
    }
    assert forall|w: P| v@.to_set().contains(w) <==> before.to_set().insert(q).contains(w) by {
        if v@.contains(w) {
            let k = choose|k: int| 0 <= k < v@.len() && v@[k] == w;
            if k < i {
                assert(before[k] == w);
            } else if k > i {
                assert(before[k - 1] == w);
            }
        }
        if before.contains(w) {
            let k = choose|k: int| 0 <= k < before.len() && before[k] == w;
            if k < i {
                assert(v@[k] == w);
            } else {
                assert(v@[k + 1] == w);
            }
        }
        if w == q {
            assert(v@[i as int] == q);
        }
    }
    assert(v@.to_set() =~= before.to_set().insert(q));
}

/// The first index at which `q` stands.
fn find_index(ps: &Vec<P>, q: P) -> (i: usize)
    requires
        ps@.contains(q),
    ensures
        i == first_index(ps@, q),
        i < ps@.len(),
{
    let mut i: usize = 0;
    while i < ps.len()
        invariant
            ps@.contains(q),
            i <= ps@.len(),
            forall|j: int| 0 <= j < i ==> ps@[j] != q,
        decreases ps@.len() - i,
    {
        if ps[i] == q {
            let ghost fi = first_index(ps@, q);
            assert(0 <= fi < ps@.len() && ps@[fi] == q && forall|j: int| 0 <= j < fi ==> ps@[j] != q);
            return i;
        }
        i += 1;
    }
    proof {
        let k = choose|k: int| 0 <= k < ps@.len() && ps@[k] == q;
        assert(ps@[k] != q);
    }
    0
}

/// Writes the fusions of the waiting bots into the commands of the step (see
/// `fusion_pairs` and `fuse_steps`) and returns the bots absorbed.
#[verifier::rlimit(60)]
pub fn fuse_phase(positions: &Vec<P>, steps: &mut Vec<Command>) -> (removed: Vec<usize>)
    requires
        old(steps)@.len() == positions@.len(),
        forall|i: int| 0 <= i < positions@.len() ==> interior(#[trigger] positions@[i]),
    ensures
        final(steps)@ == fuse_steps(old(steps)@, positions@, fusion_pairs(waiting_set(positions@, old(steps)@))),
        removed@ == absorbed(positions@, fusion_pairs(waiting_set(positions@, old(steps)@))),
{
    let n = positions.len();
    let ghost ps = positions@;
    let ghost st0 = steps@;
    let mut w: Vec<P> = Vec::new();
    let mut i: usize = 0;
    while i < n
        invariant
            n == positions@.len(),
            ps == positions@,
            steps@ == st0,
            st0.len() == n,
            i <= n,
            sorted_points(w@),
            w@.to_set() == Set::new(|p: P| exists|k: int| 0 <= k < i && ps[k] == p && st0[k] == Command::Wait),
        decreases n - i,
    {
        if steps[i] == Command::Wait {
            let ghost before = w@.to_set();
            insert_point(&mut w, positions[i]);
            assert(w@.to_set() =~= Set::new(|p: P| exists|k: int| 0 <= k < i + 1 && ps[k] == p && st0[k] == Command::Wait)) by {
                assert forall|p: P| #[trigger] w@.to_set().contains(p) implies
                    (exists|k: int| 0 <= k < i + 1 && ps[k] == p && st0[k] == Command::Wait) by {
                    if p != ps[i as int] {
                        assert(before.contains(p));
                    }
                }
            }
        } else {
            assert(w@.to_set() =~= Set::new(|p: P| exists|k: int| 0 <= k < i + 1 && ps[k] == p && st0[k] == Command::Wait)) by {
                assert forall|p: P| (exists|k: int| 0 <= k < i + 1 && ps[k] == p && st0[k] == Command::Wait)
                    implies #[trigger] w@.to_set().contains(p) by {
                    let k = choose|k: int| 0 <= k < i + 1 && ps[k] == p && st0[k] == Command::Wait;
                    assert(k != i);
                }
            }
        }
        i += 1;
    }
    let ghost all_w = waiting_set(ps, st0);
    assert(w@.to_set() =~= all_w);
    let ghost total = fusion_pairs(all_w);
    let ghost mut done: Seq<(P, P)> = Seq::empty();
    let mut removed: Vec<usize> = Vec::new();
    proof {
        vstd::seq_lib::seq_to_set_is_finite(w@);
        assert(done + fusion_pairs(w@.to_set()) =~= total);
        assert(steps@ == fuse_steps(st0, ps, done));
        assert(removed@ =~= absorbed(ps, done));
    }
    proof {
        assert forall|k: int| 0 <= k < w@.len() implies ps.contains(#[trigger] w@[k]) by {
            assert(w@.to_set().contains(w@[k]));
            let j = choose|j: int| 0 <= j < i && ps[j] == w@[k] && st0[j] == Command::Wait;
            assert(ps[j] == w@[k]);
        }
    }
    loop
        invariant
            n == positions@.len(),
            ps == positions@,
            steps@.len() == n,
            forall|k: int| 0 <= k < n ==> interior(#[trigger] ps[k]),
            sorted_points(w@),
            w@.to_set().finite(),
            forall|k: int| 0 <= k < w@.len() ==> ps.contains(#[trigger] w@[k]),
            done + fusion_pairs(w@.to_set()) == total,
            steps@ == fuse_steps(st0, ps, done),
            removed@ == absorbed(ps, done),
        ensures
            done == total,
            steps@ == fuse_steps(st0, ps, done),
            removed@ == absorbed(ps, done),
        decreases w@.to_set().len(),
    {
        let ghost w0 = w@;
        proof {
            assert forall|k: int| 0 <= k < w0.len() implies interior(#[trigger] w0[k]) by {
                let j = choose|j: int| 0 <= j < ps.len() && ps[j] == w0[k];
            }
            lemma_fusion_pairs_step(w0);
        }
        match pop_near_pair(&mut w) {
            None => {
                assert(done =~= total);
                break;
            },
            Some((p1, p2)) => {
                let ghost ab = near_pair_from(w0, 0)->Some_0;
                proof {
                    assert((p1, p2) == ordered(ab.0, ab.1));
                    assert(w@.to_set() == w0.to_set().remove(ab.0).remove(ab.1));
                    assert forall|k: int| 0 <= k < w@.len() implies ps.contains(#[trigger] w@[k]) by {
                        assert(w@.to_set().contains(w@[k]));
                        assert(w0.to_set().contains(w@[k]));
                        let j = choose|j: int| 0 <= j < w0.len() && w0[j] == w@[k];
                        assert(ps.contains(w0[j]));
                    }
                    vstd::seq_lib::seq_to_set_is_finite(w@);
                    let k1 = choose|k: int| 0 <= k < w0.len() && w0[k] == ab.0;
                    let k2 = choose|k: int| 0 <= k < w0.len() && w0[k] == ab.1;
                    assert(ps.contains(w0[k1]));
                    assert(ps.contains(w0[k2]));
                }
                let bid1 = find_index(positions, p1);
                let bid2 = find_index(positions, p2);
                steps.set(bid1, Command::FusionP(p2 - p1));
                steps.set(bid2, Command::FusionS(p1 - p2));
                removed.push(bid2);
                proof {
                    let pr = (p1, p2);
                    assert((done + seq![pr]).drop_last() =~= done);
                    assert(absorbed(ps, done + seq![pr]) =~= absorbed(ps, done).push(bid2));
                    assert(done + fusion_pairs(w0.to_set()) =~= (done + seq![pr]) + fusion_pairs(w@.to_set()));
                    done = done + seq![pr];
                }
            },
        }
    }
    removed
}

// ---------------------------------------------------------------------------
// One round.

/// The elements of `s` from index `i` on whose index is not listed in `rm`.
pub open spec fn kept_from<A>(s: Seq<A>, rm: Seq<usize>, i: int) -> Seq<A>
    decreases s.len() - i,
{
    if i < 0 || i >= s.len() {
        Seq::empty()
    } else {
        (if rm.contains(i as usize) { Seq::empty() } else { seq![s[i]] }) + kept_from(s, rm, i + 1)
    }
}

/// `s` without the elements whose index is listed in `rm`.
pub open spec fn drop_indices<A>(s: Seq<A>, rm: Seq<usize>) -> Seq<A> {
    kept_from(s, rm, 0)
}

fn contains_index(rm: &Vec<usize>, i: usize) -> (b: bool)
    ensures
        b == rm@.contains(i),
{
    let mut k: usize = 0;
    while k < rm.len()
        invariant
            k <= rm@.len(),
            forall|j: int| 0 <= j < k ==> rm@[j] != i,
        decreases rm@.len() - k,
    {
        if rm[k] == i {
            assert(rm@[k as int] == i);
            return true;
        }
        k += 1;
    }
    false
}

/// Removes the elements whose index is listed in `rm`, from the last one down.
fn remove_indices<T>(v: &mut Vec<T>, rm: &Vec<usize>)
    ensures
        final(v)@ == drop_indices(old(v)@, rm@),
{
    let ghost s = v@;
    let mut i: usize = v.len();
    assert(v@ =~= s.subrange(0, i as int) + kept_from(s, rm@, i as int));
    while i > 0
        invariant
            i <= s.len(),
            v@ == s.subrange(0, i as int) + kept_from(s, rm@, i as int),
        decreases i,
    {
        i -= 1;
        let ghost tail = kept_from(s, rm@, i + 1);
        if contains_index(rm, i) {
            v.remove(i);
            assert(v@ =~= s.subrange(0, i as int) + kept_from(s, rm@, i as int));
        } else {
            assert(v@ =~= s.subrange(0, i as int) + kept_from(s, rm@, i as int));
        }
    }
    assert(v@ =~= drop_indices(s, rm@));
}

proof fn lemma_kept_plans(qs: Seq<Vec<Command>>, rm: Seq<usize>, i: int)
    ensures
        plans_view(kept_from(qs, rm, i)) == kept_from(plans_view(qs), rm, i),
    decreases qs.len() - i,
{
    if 0 <= i < qs.len() {
        lemma_kept_plans(qs, rm, i + 1);
        let head: Seq<Vec<Command>> = if rm.contains(i as usize) { Seq::empty() } else { seq![qs[i]] };
        assert(plans_view(head + kept_from(qs, rm, i + 1)) =~= plans_view(head) + plans_view(kept_from(qs, rm, i + 1)));
        assert(plans_view(kept_from(qs, rm, i)) =~= kept_from(plans_view(qs), rm, i));
    } else {
        assert(plans_view(kept_from(qs, rm, i)) =~= kept_from(plans_view(qs), rm, i));
    }
}

/// Every command of the step is a wait.
pub open spec fn all_wait(steps: Seq<Command>) -> bool {
    forall|i: int| 0 <= i < steps.len() ==> steps[i] == Command::Wait
}

/// One round of the fusion: the moves of `move_phase`, then the fusions of
/// `fuse_phase`.  Gives the commands of the step, the positions and plans of
/// the bots left (the absorbed ones removed), and whether the step is all
/// waits.
pub open spec fn round_result(ps: Seq<P>, qs: Seq<Seq<Command>>) -> (Seq<Command>, Seq<P>, Seq<Seq<Command>>, bool) {
    let m = moves_upto(ps.to_set(), ps, qs, ps.len() as int);
    let pairs = fusion_pairs(waiting_set(m.0, m.2));
    let steps = fuse_steps(m.2, m.0, pairs);
    let rm = absorbed(m.0, pairs);
    (steps, drop_indices(m.0, rm), drop_indices(m.1, rm), all_wait(steps))
}

/// Plays one round (see `round_result`): when the step is all waits, nothing
/// is left to do and `None` comes back; otherwise the commands of the step,
/// with the absorbed bots removed from `positions` and `plans`.
pub fn fusion_round(positions: &mut Vec<P>, plans: &mut Vec<Vec<Command>>) -> (res: Option<Vec<Command>>)
    requires
        old(plans)@.len() == old(positions)@.len(),
        forall|i: int| 0 <= i < old(positions)@.len() ==> plan_ok(#[trigger] old(positions)@[i], old(plans)@[i]@),
    ensures
        ({
            let rr = round_result(old(positions)@, plans_view(old(plans)@));
            match res {
                Some(steps) => {
                    &&& !rr.3
                    &&& steps@ == rr.0
                    &&& final(positions)@ == rr.1
                    &&& plans_view(final(plans)@) == rr.2
                    &&& steps@.len() == old(positions)@.len()
                    &&& final(positions)@.len() <= old(positions)@.len()
                },
                None => rr.3,
            }
        }),
{
    proof {
        lemma_round_sizes(old(positions)@, plans_view(old(plans)@));
    }
    let mut steps = move_phase(positions, plans);
    let removed = fuse_phase(positions, &mut steps);
    let mut k: usize = 0;
    let mut waits = true;
    while k < steps.len()
        invariant
            k <= steps@.len(),
            waits == forall|j: int| 0 <= j < k ==> steps@[j] == Command::Wait,
        decreases steps@.len() - k,
    {
        if steps[k] != Command::Wait {
            waits = false;
        }
        k += 1;
    }
    if waits {
        return None;
    }
    let ghost qs1 = plans@;
    remove_indices(positions, &removed);
    remove_indices(plans, &removed);
    proof {
        lemma_kept_plans(qs1, removed@, 0);
    }
    Some(steps)
}

// ---------------------------------------------------------------------------
// Progress: a round that is not all waits leaves less work.

/// The work left in a plan: one per command plus its unit steps.
pub open spec fn plan_cost(q: Seq<Command>) -> int
    decreases q.len(),
{
    if q.len() == 0 {
        0
    } else {
        1 + walk_len(q[0]) + plan_cost(q.drop_first())
    }
}

/// The work left for the fleet: one per bot plus the cost of its plan.
pub open spec fn fleet_cost(qs: Seq<Seq<Command>>) -> int
    decreases qs.len(),
{
    if qs.len() == 0 {
        0
    } else {
        1 + plan_cost(qs[0]) + fleet_cost(qs.drop_first())
    }
}

proof fn lemma_walk_len_nonneg(c: Command)
    ensures
        walk_len(c) >= 0,
{
}

proof fn lemma_plan_cost_nonneg(q: Seq<Command>)
    ensures
        plan_cost(q) >= 0,
    decreases q.len(),
{
    if q.len() > 0 {
        lemma_walk_len_nonneg(q[0]);
        lemma_plan_cost_nonneg(q.drop_first());
    }
}

proof fn lemma_plan_cost_cons(c: Command, q: Seq<Command>)
    ensures
        plan_cost(seq![c] + q) == 1 + walk_len(c) + plan_cost(q),
{
    assert((seq![c] + q).drop_first() =~= q);
}

/// The part of a move left before its `(j + 1)`-th unit step: its length is
/// what remains of the walk; the part done is a wait before the first step
/// and a move after.
proof fn lemma_remain(p: P, cmd: Command, j: int)
    requires
        walkable(p, cmd),
        0 <= j < walk_len(cmd),
    ensures
        walk_len(walk_step(p, cmd, j + 1).2) == walk_len(cmd) - j,
        j == 0 ==> walk_step(p, cmd, j + 1).1 == Command::Wait,
        j > 0 ==> walk_step(p, cmd, j + 1).1 != Command::Wait,
{
    match cmd {
        Command::SMove(d) => {
            lemma_along(d, mlen_of(d) - j);
        },
        Command::LMove(d1, d2) => {
            lemma_along(d1, 0);
            lemma_along(d2, 0);
            let n1 = mlen_of(d1);
            if j + 1 <= n1 {
                lemma_along(d1, n1 - j);
            } else {
                lemma_along(d2, mlen_of(d2) - (j + 1 - n1) + 1);
            }
        },
        _ => {},
    }
}

/// A walk either completes (carrying out the whole command) or stops before
/// some unit step, carrying out the part before it and keeping the rest.
proof fn lemma_walk_outcome(o: Set<P>, p: P, cmd: Command, k: int, cur: P)
    requires
        0 <= k <= walk_len(cmd),
    ensures
        ({
            let w = walk_from(o, p, cmd, k, cur);
            ||| (w.2 is None && w.1 == cmd)
            ||| exists|t: int| k < t <= walk_len(cmd) && w.2 == Some((#[trigger] walk_step(p, cmd, t)).2) && w.1 == walk_step(p, cmd, t).1
        }),
    decreases walk_len(cmd) - k,
{
    if k < walk_len(cmd) {
        let s = walk_step(p, cmd, k + 1);
        if !o.contains(s.0) {
            lemma_walk_outcome(o.insert(s.0), p, cmd, k + 1, s.0);
        }
    }
}

/// Taking the next command never adds work, and removes some unless the bot
/// waits.
proof fn lemma_bot_progress(o: Set<P>, p: P, q: Seq<Command>)
    requires
        walkable(p, front(q)),
    ensures
        ({
            let w = walk_from(o, p, front(q), 0, p);
            let nq = requeue(w.2, rest(q));
            &&& plan_cost(nq) <= plan_cost(q)
            &&& w.1 != Command::Wait ==> plan_cost(nq) < plan_cost(q)
        }),
{
    let cmd = front(q);
    let w = walk_from(o, p, cmd, 0, p);
    lemma_walk_len_nonneg(cmd);
    lemma_walk_outcome(o, p, cmd, 0, p);
    if q.len() == 0 {
        assert(w.2 is None);
    } else {
        lemma_plan_cost_nonneg(rest(q));
        if w.2 is None {
        } else {
            let t = choose|t: int| 0 < t <= walk_len(cmd) && w.2 == Some((#[trigger] walk_step(p, cmd, t)).2) && w.1 == walk_step(p, cmd, t).1;
            let j = t - 1;
            lemma_remain(p, cmd, j);
            lemma_plan_cost_cons(walk_step(p, cmd, j + 1).2, rest(q));
        }
    }
}

/// Bot `j` of the round: its plan and the command it carried out are fixed
/// once it has moved, and untouched before.
proof fn lemma_moves_at(o: Set<P>, ps: Seq<P>, qs: Seq<Seq<Command>>, i: int, j: int)
    requires
        0 <= i <= ps.len(),
        qs.len() == ps.len(),
        0 <= j < ps.len(),
    ensures
        j >= i ==> moves_upto(o, ps, qs, i).0[j] == ps[j] && moves_upto(o, ps, qs, i).1[j] == qs[j],
        j < i ==> ({
            let prev = moves_upto(o, ps, qs, j);
            let w = walk_from(prev.3, ps[j], front(qs[j]), 0, ps[j]);
            &&& moves_upto(o, ps, qs, i).1[j] == requeue(w.2, rest(qs[j]))
            &&& moves_upto(o, ps, qs, i).2[j] == w.1
            &&& walk_from(prev.3, ps[j], front(qs[j]), 0, ps[j]) == walk_from(prev.3, prev.0[j], front(prev.1[j]), 0, prev.0[j])
        }),
    decreases i,
{
    lemma_moves_len(o, ps, qs, i);
    if i > 0 {
        lemma_moves_at(o, ps, qs, i - 1, j);
        lemma_moves_len(o, ps, qs, i - 1);
        if j == i - 1 {
            lemma_moves_at(o, ps, qs, j, j);
        }
    }
}

proof fn lemma_fleet_cost_le(a: Seq<Seq<Command>>, b: Seq<Seq<Command>>)
    requires
        a.len() == b.len(),
        forall|j: int| 0 <= j < a.len() ==> plan_cost(#[trigger] a[j]) <= plan_cost(b[j]),
    ensures
        fleet_cost(a) <= fleet_cost(b),
        (exists|j: int| 0 <= j < a.len() && plan_cost(#[trigger] a[j]) < plan_cost(b[j])) ==> fleet_cost(a) < fleet_cost(b),
    decreases a.len(),
{
    if a.len() > 0 {
        let a1 = a.drop_first();
        let b1 = b.drop_first();
        assert forall|j: int| 0 <= j < a1.len() implies plan_cost(#[trigger] a1[j]) <= plan_cost(b1[j]) by {
            assert(a1[j] == a[j + 1]);
        }
        lemma_fleet_cost_le(a1, b1);
        if exists|j: int| 0 <= j < a.len() && plan_cost(#[trigger] a[j]) < plan_cost(b[j]) {
            let j = choose|j: int| 0 <= j < a.len() && plan_cost(#[trigger] a[j]) < plan_cost(b[j]);
            if j > 0 {
                assert(a1[j - 1] == a[j]);
                assert(plan_cost(a1[j - 1]) < plan_cost(b1[j - 1]));
            }
        }
    }
}

proof fn lemma_fleet_cost_kept(s: Seq<Seq<Command>>, rm: Seq<usize>, i: int)
    requires
        0 <= i <= s.len(),
    ensures
        fleet_cost(kept_from(s, rm, i)) <= fleet_cost(s.subrange(i, s.len() as int)),
        (exists|k: usize| i <= k < s.len() && #[trigger] rm.contains(k)) ==>
            fleet_cost(kept_from(s, rm, i)) < fleet_cost(s.subrange(i, s.len() as int)),
    decreases s.len() - i,
{
    if i < s.len() {
        lemma_fleet_cost_kept(s, rm, i + 1);
        let tail = s.subrange(i + 1, s.len() as int);
        assert(s.subrange(i, s.len() as int).drop_first() =~= tail);
        lemma_plan_cost_nonneg(s[i]);
        let rest_k = kept_from(s, rm, i + 1);
        if !rm.contains(i as usize) {
            assert((seq![s[i]] + rest_k).drop_first() =~= rest_k);
        } else {
            assert(Seq::<Seq<Command>>::empty() + rest_k =~= rest_k);
        }
        if exists|k: usize| i <= k < s.len() && #[trigger] rm.contains(k) {
            let k = choose|k: usize| i <= k < s.len() && #[trigger] rm.contains(k);
            if k > i {
                assert(i + 1 <= k < s.len() && rm.contains(k));
            }
        }
    } else {
        assert(kept_from(s, rm, i) =~= Seq::<Seq<Command>>::empty());
    }
}


proof fn lemma_min_exists(s: Set<P>)
    requires
        s.finite(),
        s.len() > 0,
    ensures
        exists|m: P| s.contains(m) && forall|x: P| s.contains(x) && x != m ==> p_lt(m, x),
    decreases s.len(),
{
    let x = s.choose();
    let t = s.remove(x);
    if t.len() == 0 {
        assert forall|y: P| s.contains(y) && y != x implies p_lt(x, y) by {
            assert(t.contains(y));
        }
    } else {
        lemma_min_exists(t);
        let m = choose|m: P| t.contains(m) && forall|y: P| t.contains(y) && y != m ==> p_lt(m, y);
        if p_lt(x, m) {
            assert forall|y: P| s.contains(y) && y != x implies p_lt(x, y) by {
                if y != m {
                    assert(t.contains(y));
                }
            }
        } else {
            assert forall|y: P| s.contains(y) && y != m implies p_lt(m, y) by {
                if y != x {
                    assert(t.contains(y));
                }
            }
        }
    }
}

/// Every finite set of positions can be listed in increasing lexicographic
/// order.
pub proof fn lemma_sorted_exists(s: Set<P>)
    requires
        s.finite(),
    ensures
        sorted_points(sorted_of(s)),
        sorted_of(s).to_set() == s,
    decreases s.len(),
{
    if s.len() == 0 {
        let e = Seq::<P>::empty();
        assert(e.to_set() =~= s);
        assert(sorted_points(e));
    } else {
        lemma_min_exists(s);
        let m = choose|m: P| s.contains(m) && forall|x: P| s.contains(x) && x != m ==> p_lt(m, x);
        let t = s.remove(m);
        lemma_sorted_exists(t);
        let wt = sorted_of(t);
        let w = seq![m] + wt;
        assert forall|a: int, b: int| 0 <= a < b < w.len() implies p_lt(w[a], w[b]) by {
            assert(w[b] == wt[b - 1]);
            assert(t.contains(wt[b - 1]));
            if a > 0 {
                assert(w[a] == wt[a - 1]);
            }
        }
        assert forall|x: P| w.to_set().contains(x) <==> s.contains(x) by {
            if w.contains(x) {
                let k = choose|k: int| 0 <= k < w.len() && w[k] == x;
                if k > 0 {
                    assert(wt[k - 1] == x);
                    assert(t.contains(x));
                }
            }
            if s.contains(x) {
                if x == m {
                    assert(w[0] == x);
                } else {
                    assert(t.contains(x));
                    let k = choose|k: int| 0 <= k < wt.len() && wt[k] == x;
                    assert(w[k + 1] == x);
                }
            }
        }
        assert(w.to_set() =~= s);
        assert(sorted_points(w));
    }
}

proof fn lemma_pair_in(w: Seq<P>, i: int)
    ensures
        near_pair_from(w, i) matches Some((a, b)) ==> w.contains(a) && w.contains(b),
    decreases w.len() - i,
{
    if 0 <= i < w.len() {
        lemma_pair_in(w, i + 1);
        lemma_first_hit_some(near_spec(w[i], 9999), w);
        assert(w[i] == w[i]);
    }
}

/// Both bots of every pair that fuses are waiting.
pub proof fn lemma_fusion_pairs_members(s: Set<P>)
    requires
        s.finite(),
    ensures
        forall|k: int| 0 <= k < fusion_pairs(s).len() ==> s.contains((#[trigger] fusion_pairs(s)[k]).0) && s.contains(fusion_pairs(s)[k].1),
    decreases s.len(),
{
    lemma_sorted_exists(s);
    let w = sorted_of(s);
    lemma_pair_in(w, 0);
    if let Some((a, b)) = near_pair_from(w, 0) {
        assert(s.contains(a) && s.contains(b));
        let t = s.remove(a).remove(b);
        lemma_fusion_pairs_members(t);
        let f = fusion_pairs(s);
        assert(f == seq![ordered(a, b)] + fusion_pairs(t));
        assert forall|k: int| 0 <= k < f.len() implies s.contains((#[trigger] f[k]).0) && s.contains(f[k].1) by {
            if k > 0 {
                assert(f[k] == fusion_pairs(t)[k - 1]);
            }
        }
    }
}

proof fn lemma_moves_progress(ps: Seq<P>, qs: Seq<Seq<Command>>)
    requires
        qs.len() == ps.len(),
        forall|i: int| 0 <= i < ps.len() ==> plan_ok(#[trigger] ps[i], qs[i]),
    ensures
        ({
            let m = moves_upto(ps.to_set(), ps, qs, ps.len() as int);
            &&& m.0.len() == ps.len()
            &&& m.1.len() == ps.len()
            &&& m.2.len() == ps.len()
            &&& fleet_cost(m.1) <= fleet_cost(qs)
            &&& (exists|j: int| 0 <= j < m.2.len() && #[trigger] m.2[j] != Command::Wait) ==> fleet_cost(m.1) < fleet_cost(qs)
        }),
{
    let n = ps.len() as int;
    let o = ps.to_set();
    let m = moves_upto(o, ps, qs, n);
    lemma_moves_len(o, ps, qs, n);
    assert forall|j: int| 0 <= j < n implies plan_cost(#[trigger] m.1[j]) <= plan_cost(qs[j])
        && (m.2[j] != Command::Wait ==> plan_cost(m.1[j]) < plan_cost(qs[j])) by {
        lemma_moves_at(o, ps, qs, n, j);
        let prev = moves_upto(o, ps, qs, j);
        assert(plan_ok(ps[j], qs[j]));
        lemma_bot_progress(prev.3, ps[j], qs[j]);
    }
    lemma_fleet_cost_le(m.1, qs);
    if exists|j: int| 0 <= j < m.2.len() && #[trigger] m.2[j] != Command::Wait {
        let j = choose|j: int| 0 <= j < m.2.len() && #[trigger] m.2[j] != Command::Wait;
        assert(plan_cost(m.1[j]) < plan_cost(qs[j]));
    }
}

proof fn lemma_waiting_finite(ps: Seq<P>, steps: Seq<Command>)
    ensures
        waiting_set(ps, steps).finite(),
        forall|p: P| waiting_set(ps, steps).contains(p) ==> ps.contains(p),
{
    let ws = waiting_set(ps, steps);
    assert forall|p: P| ws.contains(p) implies ps.to_set().contains(p) by {
        let i = choose|i: int| 0 <= i < ps.len() && 0 <= i < steps.len() && ps[i] == p && steps[i] == Command::Wait;
        assert(ps.contains(p));
    }
    assert(ws.subset_of(ps.to_set()));
    vstd::seq_lib::seq_to_set_is_finite(ps);
    vstd::set_lib::lemma_set_subset_finite(ps.to_set(), ws);
}

/// The bots of a round that waits everywhere neither move nor fuse; any
/// other round leaves strictly less work (`fleet_cost`), so rounds cannot go
/// on forever.
#[verifier::rlimit(60)]
pub proof fn lemma_round_progress(ps: Seq<P>, qs: Seq<Seq<Command>>)
    requires
        qs.len() == ps.len(),
        forall|i: int| 0 <= i < ps.len() ==> plan_ok(#[trigger] ps[i], qs[i]),
    ensures
        !round_result(ps, qs).3 ==> fleet_cost(round_result(ps, qs).2) < fleet_cost(qs),
{
    let n = ps.len() as int;
    let m = moves_upto(ps.to_set(), ps, qs, n);
    lemma_moves_progress(ps, qs);
    let ws = waiting_set(m.0, m.2);
    lemma_waiting_finite(m.0, m.2);
    let pairs = fusion_pairs(ws);
    let steps = fuse_steps(m.2, m.0, pairs);
    let rm = absorbed(m.0, pairs);
    let rr = round_result(ps, qs);
    assert(rr.0 == steps && rr.2 == drop_indices(m.1, rm) && rr.3 == all_wait(steps));
    lemma_fleet_cost_kept(m.1, rm, 0);
    assert(m.1.subrange(0, n) =~= m.1);
    if !rr.3 {
        if pairs.len() == 0 {
            assert(rm =~= Seq::<usize>::empty());
            assert(steps == m.2);
            let j = choose|j: int| 0 <= j < steps.len() && steps[j] != Command::Wait;
            assert(m.2[j] != Command::Wait);
        } else {
            lemma_fusion_pairs_members(ws);
            let b = pairs[0].1;
            assert(ws.contains(b));
            assert(m.0.contains(b));
            let k = choose|k: int| 0 <= k < m.0.len() && m.0[k] == b;
            lemma_first_of(m.0, b, k);
            let fi = first_index(m.0, b);
            assert(0 <= fi < m.0.len());
            assert(rm[0] == fi as usize);
            let fu = fi as usize;
            assert(rm.contains(fu));
            assert(0 <= fu < m.1.len());
        }
    }
}

proof fn lemma_first_of(s: Seq<P>, q: P, k: int)
    requires
        0 <= k < s.len(),
        s[k] == q,
    ensures
        exists|k0: int| 0 <= k0 <= k && s[k0] == q && forall|j: int| 0 <= j < k0 ==> s[j] != q,
    decreases k,
{
    if exists|j: int| 0 <= j < k && s[j] == q {
        let j = choose|j: int| 0 <= j < k && s[j] == q;
        lemma_first_of(s, q, j);
    } else {
        assert(forall|j: int| 0 <= j < k ==> s[j] != q);
    }
}

// ---------------------------------------------------------------------------
// All rounds.

/// The work left is never negative.
pub proof fn lemma_fleet_cost_nonneg(qs: Seq<Seq<Command>>)
    ensures
        fleet_cost(qs) >= 0,
    decreases qs.len(),
{
    if qs.len() > 0 {
        lemma_plan_cost_nonneg(qs[0]);
        lemma_fleet_cost_nonneg(qs.drop_first());
    }
}

/// Every bot's next command can be walked (see `plan_ok`).
pub open spec fn plans_ok(ps: Seq<P>, qs: Seq<Seq<Command>>) -> bool {
    &&& qs.len() == ps.len()
    &&& forall|i: int| 0 <= i < ps.len() ==> plan_ok(#[trigger] ps[i], qs[i])
}

/// The whole fusion: rounds (see `round_result`) are played while some bot
/// moves or fuses, then the bots halt.  `None` when some bot's next command
/// cannot be walked (see `plan_ok`) at the start of a round.
pub open spec fn fusion_trace(ps: Seq<P>, qs: Seq<Seq<Command>>) -> Option<Seq<Command>>
    decreases fleet_cost(qs),
{
    if !plans_ok(ps, qs) {
        None
    } else {
        let rr = round_result(ps, qs);
        if rr.3 {
            Some(seq![Command::Halt])
        } else {
            proof {
                lemma_round_progress(ps, qs);
                lemma_fleet_cost_nonneg(rr.2);
            }
            match fusion_trace(rr.1, rr.2) {
                Some(t) => Some(rr.0 + t),
                None => None,
            }
        }
    }
}

proof fn lemma_kept_len<A, B>(s: Seq<A>, t: Seq<B>, rm: Seq<usize>, i: int)
    requires
        s.len() == t.len(),
    ensures
        kept_from(s, rm, i).len() == kept_from(t, rm, i).len(),
    decreases s.len() - i,
{
    if 0 <= i < s.len() {
        lemma_kept_len(s, t, rm, i + 1);
    }
}

proof fn lemma_round_lengths(ps: Seq<P>, qs: Seq<Seq<Command>>)
    requires
        qs.len() == ps.len(),
    ensures
        round_result(ps, qs).1.len() == round_result(ps, qs).2.len(),
{
    let n = ps.len() as int;
    let m = moves_upto(ps.to_set(), ps, qs, n);
    lemma_moves_len(ps.to_set(), ps, qs, n);
    let rm = absorbed(m.0, fusion_pairs(waiting_set(m.0, m.2)));
    lemma_kept_len(m.0, m.1, rm, 0);
}


// ---------------------------------------------------------------------------
// Laws of the whole fusion.

/// No command of `s` is a halt.
pub open spec fn no_halt(s: Seq<Command>) -> bool {
    forall|i: int| 0 <= i < s.len() ==> s[i] != Command::Halt
}

/// No plan holds a halt.
pub open spec fn plans_no_halt(qs: Seq<Seq<Command>>) -> bool {
    forall|i: int| 0 <= i < qs.len() ==> no_halt(#[trigger] qs[i])
}

proof fn lemma_walk_no_halt(o: Set<P>, p: P, cmd: Command, k: int, cur: P)
    requires
        cmd != Command::Halt,
    ensures
        walk_from(o, p, cmd, k, cur).1 != Command::Halt,
        walk_from(o, p, cmd, k, cur).2 matches Some(c) ==> c != Command::Halt,
    decreases walk_len(cmd) - k,
{
    if 0 <= k < walk_len(cmd) {
        let s = walk_step(p, cmd, k + 1);
        if !o.contains(s.0) {
            lemma_walk_no_halt(o.insert(s.0), p, cmd, k + 1, s.0);
        }
    }
}

proof fn lemma_moves_no_halt(o: Set<P>, ps: Seq<P>, qs: Seq<Seq<Command>>, i: int)
    requires
        0 <= i <= ps.len(),
        qs.len() == ps.len(),
        plans_no_halt(qs),
    ensures
        plans_no_halt(moves_upto(o, ps, qs, i).1),
        no_halt(moves_upto(o, ps, qs, i).2),
    decreases i,
{
    lemma_moves_len(o, ps, qs, i);
    if i > 0 {
        lemma_moves_no_halt(o, ps, qs, i - 1);
        lemma_moves_len(o, ps, qs, i - 1);
        let prev = moves_upto(o, ps, qs, i - 1);
        let j = i - 1;
        let q = prev.1[j];
        assert(no_halt(q));
        assert(front(q) != Command::Halt);
        lemma_walk_no_halt(prev.3, prev.0[j], front(q), 0, prev.0[j]);
        let w = walk_from(prev.3, prev.0[j], front(q), 0, prev.0[j]);
        let nq = requeue(w.2, rest(q));
        assert(no_halt(nq)) by {
            assert forall|k: int| 0 <= k < nq.len() implies nq[k] != Command::Halt by {
                match w.2 {
                    Some(c) => {
                        if k > 0 {
                            assert(nq[k] == rest(q)[k - 1]);
                            assert(rest(q)[k - 1] == q[k]);
                        }
                    },
                    None => {
                        assert(nq[k] == q[k + 1]);
                    },
                }
            }
        }
        let cur = moves_upto(o, ps, qs, i);
        assert(cur.1 == prev.1.update(j, nq));
        assert forall|k: int| 0 <= k < cur.1.len() implies no_halt(#[trigger] cur.1[k]) by {
            if k != j {
                assert(cur.1[k] == prev.1[k]);
            }
        }
        assert(cur.2 == prev.2.push(w.1));
        assert forall|k: int| 0 <= k < cur.2.len() implies cur.2[k] != Command::Halt by {
            if k < j {
                assert(cur.2[k] == prev.2[k]);
            }
        }
    }
}

proof fn lemma_fuse_steps_facts(steps: Seq<Command>, ps: Seq<P>, pairs: Seq<(P, P)>)
    requires
        steps.len() == ps.len(),
        forall|k: int| 0 <= k < pairs.len() ==> ps.contains((#[trigger] pairs[k]).0) && ps.contains(pairs[k].1),
    ensures
        fuse_steps(steps, ps, pairs).len() == steps.len(),
        no_halt(steps) ==> no_halt(fuse_steps(steps, ps, pairs)),
    decreases pairs.len(),
{
    if pairs.len() > 0 {
        let front_pairs = pairs.drop_last();
        assert forall|k: int| 0 <= k < front_pairs.len() implies
            ps.contains((#[trigger] front_pairs[k]).0) && ps.contains(front_pairs[k].1) by {
            assert(front_pairs[k] == pairs[k]);
        }
        lemma_fuse_steps_facts(steps, ps, front_pairs);
        let (a, b) = pairs.last();
        assert(ps.contains(pairs[pairs.len() - 1].0));
        let ka = choose|k: int| 0 <= k < ps.len() && ps[k] == a;
        let kb = choose|k: int| 0 <= k < ps.len() && ps[k] == b;
        lemma_first_of(ps, a, ka);
        lemma_first_of(ps, b, kb);
    }
}

/// The elements of `kept_from(s, rm, i)` are elements of `s` from index `i`
/// on, and it holds no more of them than `s` has from there.
proof fn lemma_kept_from_elems<A>(s: Seq<A>, rm: Seq<usize>, i: int)
    requires
        0 <= i,
    ensures
        kept_from(s, rm, i).len() <= if i < s.len() { s.len() - i } else { 0 },
        forall|j: int| 0 <= j < kept_from(s, rm, i).len() ==>
            exists|k: int| i <= k < s.len() && #[trigger] kept_from(s, rm, i)[j] == s[k],
    decreases s.len() - i,
{
    if i < s.len() {
        lemma_kept_from_elems(s, rm, i + 1);
        let head: Seq<A> = if rm.contains(i as usize) { Seq::empty() } else { seq![s[i]] };
        let tail = kept_from(s, rm, i + 1);
        let kf = kept_from(s, rm, i);
        assert(kf == head + tail);
        assert forall|j: int| 0 <= j < kf.len() implies exists|k: int| i <= k < s.len() && #[trigger] kf[j] == s[k] by {
            if j < head.len() {
                assert(kf[j] == s[i]);
            } else {
                assert(kf[j] == tail[j - head.len()]);
                let k = choose|k: int| i + 1 <= k < s.len() && #[trigger] tail[j - head.len()] == s[k];
                assert(kf[j] == s[k]);
            }
        }
    }
}

proof fn lemma_kept_from_no_dup<A>(s: Seq<A>, rm: Seq<usize>, i: int)
    requires
        0 <= i,
        s.no_duplicates(),
    ensures
        kept_from(s, rm, i).no_duplicates(),
    decreases s.len() - i,
{
    if i < s.len() {
        lemma_kept_from_no_dup(s, rm, i + 1);
        lemma_kept_from_elems(s, rm, i + 1);
        let head: Seq<A> = if rm.contains(i as usize) { Seq::empty() } else { seq![s[i]] };
        let tail = kept_from(s, rm, i + 1);
        let kf = kept_from(s, rm, i);
        assert(kf == head + tail);
        assert forall|a: int, b: int| 0 <= a < kf.len() && 0 <= b < kf.len() && a != b implies kf[a] != kf[b] by {
            if a >= head.len() && b >= head.len() {
                assert(kf[a] == tail[a - head.len()]);
                assert(kf[b] == tail[b - head.len()]);
            } else if a < head.len() {
                assert(kf[b] == tail[b - head.len()]);
                let k = choose|k: int| i + 1 <= k < s.len() && #[trigger] tail[b - head.len()] == s[k];
                assert(kf[a] == s[i]);
            } else {
                assert(kf[a] == tail[a - head.len()]);
                let k = choose|k: int| i + 1 <= k < s.len() && #[trigger] tail[a - head.len()] == s[k];
                assert(kf[b] == s[i]);
            }
        }
    }
}

/// Both bots of each fusing pair stand in `ps`.
proof fn lemma_pairs_in(ps: Seq<P>, steps: Seq<Command>)
    ensures
        forall|k: int| 0 <= k < fusion_pairs(waiting_set(ps, steps)).len() ==>
            ps.contains((#[trigger] fusion_pairs(waiting_set(ps, steps))[k]).0)
                && ps.contains(fusion_pairs(waiting_set(ps, steps))[k].1),
{
    let ws = waiting_set(ps, steps);
    lemma_waiting_finite(ps, steps);
    lemma_fusion_pairs_members(ws);
}

/// Each round gives one command per bot taking part, and leaves no more bots
/// than took part.
pub proof fn lemma_round_sizes(ps: Seq<P>, qs: Seq<Seq<Command>>)
    requires
        qs.len() == ps.len(),
    ensures
        round_result(ps, qs).0.len() == ps.len(),
        round_result(ps, qs).1.len() <= ps.len(),
        round_result(ps, qs).1.len() == round_result(ps, qs).2.len(),
{
    let n = ps.len() as int;
    let m = moves_upto(ps.to_set(), ps, qs, n);
    lemma_moves_len(ps.to_set(), ps, qs, n);
    let pairs = fusion_pairs(waiting_set(m.0, m.2));
    lemma_pairs_in(m.0, m.2);
    lemma_fuse_steps_facts(m.2, m.0, pairs);
    lemma_kept_from_elems(m.0, absorbed(m.0, pairs), 0);
    lemma_round_lengths(ps, qs);
}

/// A round of plans without halts gives commands without halts, and leaves
/// plans without halts.
proof fn lemma_round_no_halt(ps: Seq<P>, qs: Seq<Seq<Command>>)
    requires
        qs.len() == ps.len(),
        plans_no_halt(qs),
    ensures
        no_halt(round_result(ps, qs).0),
        plans_no_halt(round_result(ps, qs).2),
{
    let n = ps.len() as int;
    let m = moves_upto(ps.to_set(), ps, qs, n);
    lemma_moves_no_halt(ps.to_set(), ps, qs, n);
    lemma_moves_len(ps.to_set(), ps, qs, n);
    let pairs = fusion_pairs(waiting_set(m.0, m.2));
    lemma_pairs_in(m.0, m.2);
    lemma_fuse_steps_facts(m.2, m.0, pairs);
    let rm = absorbed(m.0, pairs);
    lemma_kept_from_elems(m.1, rm, 0);
    let kq = drop_indices(m.1, rm);
    assert forall|j: int| 0 <= j < kq.len() implies no_halt(#[trigger] kq[j]) by {
        let k = choose|k: int| 0 <= k < m.1.len() && #[trigger] kq[j] == m.1[k];
    }
}

/// When no plan holds a halt, the whole fusion ends in its only halt.
pub proof fn lemma_trace_halts_once(ps: Seq<P>, qs: Seq<Seq<Command>>)
    requires
        plans_no_halt(qs),
    ensures
        fusion_trace(ps, qs) matches Some(t) ==> t.len() >= 1 && t.last() == Command::Halt && no_halt(t.drop_last()),
    decreases fleet_cost(qs),
{
    if plans_ok(ps, qs) {
        let rr = round_result(ps, qs);
        if !rr.3 {
            lemma_round_progress(ps, qs);
            lemma_fleet_cost_nonneg(rr.2);
            lemma_round_no_halt(ps, qs);
            lemma_trace_halts_once(rr.1, rr.2);
            match fusion_trace(rr.1, rr.2) {
                Some(t) => {
                    let all = rr.0 + t;
                    assert(all.drop_last() =~= rr.0 + t.drop_last());
                    assert forall|i: int| 0 <= i < all.drop_last().len() implies all.drop_last()[i] != Command::Halt by {
                        if i < rr.0.len() {
                            assert(all.drop_last()[i] == rr.0[i]);
                        } else {
                            assert(all.drop_last()[i] == t.drop_last()[i - rr.0.len()]);
                        }
                    }
                },
                None => {},
            }
        } else {
            assert(seq![Command::Halt].drop_last() =~= Seq::<Command>::empty());
        }
    }
}

/// Bots stand in distinct cells at the start of every round of the fusion
/// and after every bot has moved in it, as long as the rounds go on (the
/// same rounds as `fusion_trace`).
pub open spec fn apart_in_rounds(ps: Seq<P>, qs: Seq<Seq<Command>>) -> bool
    decreases fleet_cost(qs),
{
    &&& ps.no_duplicates()
    &&& plans_ok(ps, qs) ==> {
        &&& moves_upto(ps.to_set(), ps, qs, ps.len() as int).0.no_duplicates()
        &&& !round_result(ps, qs).3 ==> {
            proof {
                lemma_round_progress(ps, qs);
                lemma_fleet_cost_nonneg(round_result(ps, qs).2);
            }
            apart_in_rounds(round_result(ps, qs).1, round_result(ps, qs).2)
        }
    }
}

/// Bots never share a cell during the fusion: when they start in distinct
/// cells, they stand in distinct cells in every round.
pub proof fn lemma_fusion_keeps_apart(ps: Seq<P>, qs: Seq<Seq<Command>>)
    requires
        ps.no_duplicates(),
    ensures
        apart_in_rounds(ps, qs),
    decreases fleet_cost(qs),
{
    if plans_ok(ps, qs) {
        lemma_moves_keep_apart(ps, qs);
        let rr = round_result(ps, qs);
        if !rr.3 {
            lemma_round_progress(ps, qs);
            lemma_fleet_cost_nonneg(rr.2);
            let n = ps.len() as int;
            let m = moves_upto(ps.to_set(), ps, qs, n);
            let rm = absorbed(m.0, fusion_pairs(waiting_set(m.0, m.2)));
            lemma_kept_from_no_dup(m.0, rm, 0);
            lemma_fusion_keeps_apart(rr.1, rr.2);
        }
    }
}

fn no_edge(v: i32) -> (b: bool)
    ensures
        b == (i32::MIN < v < i32::MAX),
{
    i32::MIN < v && v < i32::MAX
}

fn interior_point(p: P) -> (b: bool)
    ensures
        b == interior(p),
{
    no_edge(p.x) && no_edge(p.y) && no_edge(p.z)
}

fn linear_offset(d: P) -> (b: bool)
    ensures
        b == linear(d),
{
    if d.x == i32::MIN || d.y == i32::MIN || d.z == i32::MIN {
        return false;
    }
    (d.x != 0 && d.y == 0 && d.z == 0) || (d.x == 0 && d.y != 0 && d.z == 0) || (d.x == 0 && d.y == 0 && d.z != 0)
}

fn sum_fits(a: P, b: P) -> (f: bool)
    ensures
        f == add_fits(a, b),
{
    let x = a.x as i64 + b.x as i64;
    let y = a.y as i64 + b.y as i64;
    let z = a.z as i64 + b.z as i64;
    i32::MIN as i64 <= x && x <= i32::MAX as i64 && i32::MIN as i64 <= y && y <= i32::MAX as i64
        && i32::MIN as i64 <= z && z <= i32::MAX as i64
}

fn abs64(v: i32) -> (a: i64)
    ensures
        a == (if v < 0 { -v } else { v as int }),
{
    if v < 0 {
        -(v as i64)
    } else {
        v as i64
    }
}

fn can_walk(p: P, cmd: Command) -> (b: bool)
    ensures
        b == walkable(p, cmd),
{
    match cmd {
        Command::SMove(d) => linear_offset(d) && sum_fits(p, d),
        Command::LMove(d1, d2) => {
            if !linear_offset(d1) || !linear_offset(d2) || !sum_fits(p, d1) {
                return false;
            }
            let len = abs64(d1.x) + abs64(d1.y) + abs64(d1.z) + abs64(d2.x) + abs64(d2.y) + abs64(d2.z);
            if len > i32::MAX as i64 {
                return false;
            }
            sum_fits(P::new(p.x + d1.x, p.y + d1.y, p.z + d1.z), d2)
        },
        _ => true,
    }
}

/// Whether the next command of the bot at `p` can be walked (`plan_ok`).
pub fn plan_walkable(p: P, q: &Vec<Command>) -> (b: bool)
    ensures
        b == plan_ok(p, q@),
{
    let cmd = if q.len() > 0 { q[0] } else { Command::Wait };
    assert(cmd == front(q@));
    if !can_walk(p, cmd) || !interior_point(p) {
        return false;
    }
    let walk = path(p, cmd);
    proof {
        lemma_walk_len_nonneg(cmd);
    }
    let mut k: usize = 0;
    while k < walk.len()
        invariant
            walk@ == Seq::new(walk_len(cmd) as nat, |j: int| walk_step(p, cmd, j + 1)),
            walk_len(cmd) >= 0,
            cmd == front(q@),
            k <= walk@.len(),
            forall|j: int| 1 <= j <= k ==> interior(#[trigger] walk_step(p, cmd, j).0),
        decreases walk@.len() - k,
    {
        if !interior_point(walk[k].0) {
            assert(!interior(walk_step(p, cmd, k + 1).0));
            return false;
        }
        k += 1;
    }
    true
}

/// Whether every bot's next command can be walked (`plans_ok`).
pub fn all_plans_walkable(positions: &Vec<P>, plans: &Vec<Vec<Command>>) -> (b: bool)
    requires
        plans@.len() == positions@.len(),
    ensures
        b == plans_ok(positions@, plans_view(plans@)),
{
    let mut i: usize = 0;
    while i < positions.len()
        invariant
            plans@.len() == positions@.len(),
            i <= positions@.len(),
            forall|j: int| 0 <= j < i ==> plan_ok(#[trigger] positions@[j], plans@[j]@),
        decreases positions@.len() - i,
    {
        if !plan_walkable(positions[i], &plans[i]) {
            assert(plans_view(plans@)[i as int] == plans@[i as int]@);
            return false;
        }
        i += 1;
    }
    assert forall|j: int| 0 <= j < positions@.len() implies plan_ok(#[trigger] positions@[j], plans_view(plans@)[j]) by {
        assert(plans_view(plans@)[j] == plans@[j]@);
    }
    true
}

/// Brings the bots at `positions` together, each following its plan (see
/// `fusion_trace`): the commands of every round, bot by bot, then `HALT`.
/// `None` when a bot's next command cannot be walked at the start of a round.
/// When no plan holds a halt, the trace ends in its only `HALT`; when the
/// bots start in distinct cells, they stay in distinct cells in every round
/// (`apart_in_rounds`), and each round has one command per bot left
/// (`fusion_round`, `lemma_round_sizes`).
pub fn fusion_all(positions: Vec<P>, plans: Vec<Vec<Command>>) -> (cmds: Option<Vec<Command>>)
    requires
        plans@.len() == positions@.len(),
    ensures
        match cmds {
            Some(v) => fusion_trace(positions@, plans_view(plans@)) == Some(v@),
            None => fusion_trace(positions@, plans_view(plans@)) is None,
        },
        plans_no_halt(plans_view(plans@)) ==> (cmds matches Some(v) ==>
            v@.len() >= 1 && v@.last() == Command::Halt && no_halt(v@.drop_last())),
        positions@.no_duplicates() ==> apart_in_rounds(positions@, plans_view(plans@)),
{
    proof {
        if plans_no_halt(plans_view(plans@)) {
            lemma_trace_halts_once(positions@, plans_view(plans@));
        }
        if positions@.no_duplicates() {
            lemma_fusion_keeps_apart(positions@, plans_view(plans@));
        }
    }
    let mut ps = positions;
    let mut qs = plans;
    let mut out: Vec<Command> = Vec::new();
    let ghost total = fusion_trace(ps@, plans_view(qs@));
    loop
        invariant
            qs@.len() == ps@.len(),
            total == fusion_trace(positions@, plans_view(plans@)),
            plans_no_halt(plans_view(plans@)) ==> (total matches Some(t) ==>
                t.len() >= 1 && t.last() == Command::Halt && no_halt(t.drop_last())),
            positions@.no_duplicates() ==> apart_in_rounds(positions@, plans_view(plans@)),
            total == match fusion_trace(ps@, plans_view(qs@)) {
                Some(t) => Some(out@ + t),
                None => None,
            },
        decreases fleet_cost(plans_view(qs@)),
    {
        if !all_plans_walkable(&ps, &qs) {
            return None;
        }
        let ghost ps0 = ps@;
        let ghost qs0 = plans_view(qs@);
        proof {
            lemma_round_progress(ps0, qs0);
            lemma_round_lengths(ps0, qs0);
            lemma_fleet_cost_nonneg(round_result(ps0, qs0).2);
        }
        match fusion_round(&mut ps, &mut qs) {
            None => {
                let ghost before = out@;
                out.push(Command::Halt);
                assert(out@ == before + seq![Command::Halt]);
                return Some(out);
            },
            Some(steps) => {
                let ghost before = out@;
                let mut k: usize = 0;
                while k < steps.len()
                    invariant
                        k <= steps@.len(),
                        out@ == before + steps@.subrange(0, k as int),
                    decreases steps@.len() - k,
                {
                    out.push(steps[k]);
                    k += 1;
                    assert(out@ =~= before + steps@.subrange(0, k as int));
                }
                proof {
                    assert(steps@.subrange(0, k as int) =~= steps@);
                    let rr = round_result(ps0, qs0);
                    match fusion_trace(rr.1, rr.2) {
                        Some(t) => {
                            assert(before + (rr.0 + t) =~= out@ + t);
                        },
                        None => {},
                    }
                    assert(ps@.len() == rr.1.len());
                    assert(plans_view(qs@).len() == qs@.len());
                }
            },
        }
    }
}

} // verus!
