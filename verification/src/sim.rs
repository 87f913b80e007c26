//! A small simulator that tracks nanobot identities, seeds and positions
//! across time steps.
use vstd::prelude::*;
use crate::command::Command;
use crate::grid::{V3, view3, is_cube, filled_grid3};
use crate::point::{P, add_fits, padd};

verus! {

/// The elements of `s` strictly increase.
pub open spec fn strictly_increasing(s: Seq<usize>) -> bool {
    forall|i: int, j: int| 0 <= i < j < s.len() ==> s[i] < s[j]
}

/// `s.insert(i, x)` holds exactly `x` and the elements of `s`.
pub proof fn lemma_insert_contains<A>(s: Seq<A>, i: int, x: A, w: A)
    requires
        0 <= i <= s.len(),
    ensures
        s.insert(i, x).contains(w) <==> (w == x || s.contains(w)),
{
    let t = s.insert(i, x);
    if t.contains(w) {
        let k = choose|k: int| 0 <= k < t.len() && t[k] == w;
        if k < i {
            assert(s[k] == w);
        } else if k > i {
            assert(s[k - 1] == w);
        }
    }
    if s.contains(w) {
        let k = choose|k: int| 0 <= k < s.len() && s[k] == w;
        if k < i {
            assert(t[k] == w);
        } else {
            assert(t[k + 1] == w);
        }
    }
    if w == x {
        assert(t[i] == w);
    }
}

/// Inserts `x` into an ascending list of distinct values, keeping it so.
fn insert_seed(v: &mut Vec<usize>, x: usize)
    requires
        strictly_increasing(old(v)@),
    ensures
        strictly_increasing(final(v)@),
        final(v)@.to_set() == old(v)@.to_set().insert(x),
{
    let ghost before = v@;
    let mut i: usize = 0;
    while i < v.len() && v[i] < x
        invariant
            v@ == before,
            i <= v.len(),
            forall|k: int| 0 <= k < i ==> v@[k] < x,
        decreases v.len() - i,
    {
        i += 1;
    }
    if i < v.len() && v[i] == x {
        assert(v@.to_set() =~= before.to_set().insert(x));
        return;
    }
    v.insert(i, x);
    assert forall|a: int, b: int| 0 <= a < b < v@.len() implies v@[a] < v@[b] by {
        if b < i {
        } else if a < i && b == i {
        } else if a < i {
            assert(v@[b] == before[b - 1]);
        } else if a == i {
            assert(v@[b] == before[b - 1]);
            assert(before[i as int] > x);
            if b - 1 > i {
                assert(before[i as int] < before[b - 1]);
            }
        } else {
            assert(v@[a] == before[a - 1]);
            assert(v@[b] == before[b - 1]);
        }
    }
    assert forall|w: usize| v@.to_set().contains(w) <==> before.to_set().insert(x).contains(w) by {
        lemma_insert_contains(before, i as int, x, w);
    }
    assert(v@.to_set() =~= before.to_set().insert(x));
}

/// The abstract state of a nanobot: identifier, position and the ascending
/// identifiers it can hand to the bots it creates.
pub type BotView = (usize, P, Seq<usize>);

/// A nanobot.
pub struct Bot {
    pub bid: usize,
    pub p: P,
    pub seeds: Vec<usize>,
}

impl View for Bot {
    type V = BotView;

    open spec fn view(&self) -> BotView {
        (self.bid, self.p, self.seeds@)
    }
}

/// All identifiers held by a bot: its own and its seeds.
pub open spec fn ids(v: BotView) -> Set<usize> {
    v.2.to_set().insert(v.0)
}

/// The seeds ascend and do not include the bot's own identifier.
pub open spec fn bot_ok(v: BotView) -> bool {
    strictly_increasing(v.2) && !v.2.contains(v.0)
}

/// The child created by fission with offset `nd` and `m` handed-over seeds: it
/// takes the smallest seed as its identifier and the next `m` seeds.
pub open spec fn fission_child(v: BotView, nd: P, m: int) -> BotView {
    (v.2[0], padd(v.1, nd), v.2.subrange(1, m + 1))
}

/// The parent after fission: it keeps the seeds after the `m + 1` smallest.
pub open spec fn fission_parent(v: BotView, m: int) -> BotView {
    (v.0, v.1, v.2.subrange(m + 1, v.2.len() as int))
}

/// The initial seeds: `2..=20`.
pub open spec fn initial_seeds() -> Seq<usize> {
    Seq::new(19, |i: int| (i + 2) as usize)
}

impl Bot {
    /// The first bot: identifier 1 at the origin, holding seeds `2..=20`.
    pub fn new() -> (b: Bot)
        ensures
            b@ == (1usize, P { x: 0, y: 0, z: 0 }, initial_seeds()),
    {
        let mut seeds: Vec<usize> = Vec::new();
        let mut s: usize = 2;
        while s <= 20
            invariant
                2 <= s <= 21,
                seeds@ == Seq::new((s - 2) as nat, |i: int| (i + 2) as usize),
            decreases 21 - s,
        {
            seeds.push(s);
            s += 1;
            assert(seeds@ =~= Seq::new((s - 2) as nat, |i: int| (i + 2) as usize));
        }
        Bot { bid: 1, p: P::new(0, 0, 0), seeds }
    }

    /// Splits off a child at offset `nd`: the child takes the smallest seed as
    /// its identifier and the next `m` seeds; this bot keeps the rest.
    pub fn fission(&mut self, nd: P, m: usize) -> (child: Bot)
        requires
            old(self).seeds@.len() >= m + 1,
            add_fits(old(self).p, nd),
        ensures
            child@ == fission_child(old(self)@, nd, m as int),
            final(self)@ == fission_parent(old(self)@, m as int),
    {
        let n = self.seeds.len();
        let bid = self.seeds[0];
        let mut seeds: Vec<usize> = Vec::new();
        let mut k: usize = 1;
        while k <= m
            invariant
                n == self.seeds@.len(),
                n >= m + 1,
                1 <= k <= m + 1,
                seeds@ == self.seeds@.subrange(1, k as int),
            decreases m + 1 - k,
        {
            seeds.push(self.seeds[k]);
            k += 1;
            assert(seeds@ =~= self.seeds@.subrange(1, k as int));
        }
        let mut rest: Vec<usize> = Vec::new();
        let mut k: usize = m + 1;
        while k < n
            invariant
                n == self.seeds@.len(),
                m + 1 <= k <= n,
                rest@ == self.seeds@.subrange(m + 1, k as int),
            decreases n - k,
        {
            rest.push(self.seeds[k]);
            k += 1;
            assert(rest@ =~= self.seeds@.subrange(m + 1, k as int));
        }
        self.seeds = rest;
        Bot { bid, p: self.p + nd, seeds }
    }

    /// Absorbs `other`: its identifier and seeds become seeds of this bot.
    pub fn fusion(&mut self, other: Bot)
        requires
            strictly_increasing(old(self).seeds@),
            strictly_increasing(other.seeds@),
        ensures
            final(self).bid == old(self).bid,
            final(self).p == old(self).p,
            strictly_increasing(final(self).seeds@),
            final(self).seeds@.to_set() == old(self).seeds@.to_set().union(ids(other@)),
    {
        insert_seed(&mut self.seeds, other.bid);
        let mut k: usize = 0;
        while k < other.seeds.len()
            invariant
                strictly_increasing(self.seeds@),
                self.bid == old(self).bid,
                self.p == old(self).p,
                k <= other.seeds@.len(),
                self.seeds@.to_set() == old(self).seeds@.to_set().insert(other.bid).union(
                    other.seeds@.subrange(0, k as int).to_set()),
            decreases other.seeds@.len() - k,
        {
            let s = other.seeds[k];
            insert_seed(&mut self.seeds, s);
            proof {
                let a = other.seeds@.subrange(0, k as int);
                let b = other.seeds@.subrange(0, k + 1);
                assert(b =~= a.push(s));
                assert forall|w: usize| b.to_set().contains(w) <==> a.to_set().insert(s).contains(w) by {
                    if b.contains(w) {
                        let j = choose|j: int| 0 <= j < b.len() && b[j] == w;
                        if j < k {
                            assert(a[j] == w);
                        }
                    }
                    if a.contains(w) {
                        let j = choose|j: int| 0 <= j < a.len() && a[j] == w;
                        assert(b[j] == w);
                    }
                    if w == s {
                        assert(b[k as int] == w);
                    }
                }
                assert(b.to_set() =~= a.to_set().insert(s));
            }
            k += 1;
        }
        assert(other.seeds@.subrange(0, other.seeds@.len() as int) =~= other.seeds@);
        assert(self.seeds@.to_set() =~= old(self).seeds@.to_set().union(ids(other@)));
    }
}


/// Two ascending lists of the same values are equal.
proof fn lemma_increasing_unique(a: Seq<usize>, b: Seq<usize>)
    requires
        strictly_increasing(a),
        strictly_increasing(b),
        a.to_set() == b.to_set(),
    ensures
        a == b,
    decreases a.len(),
{
    if a.len() == 0 {
        if b.len() > 0 {
            assert(b.contains(b[0]));
            assert(b.to_set().contains(b[0]));
        }
        assert(a =~= b);
    } else if b.len() == 0 {
        assert(a.contains(a[0]));
        assert(a.to_set().contains(a[0]));
    } else {
        assert(a.to_set().contains(a[0]) && b.to_set().contains(b[0])) by {
            assert(a.contains(a[0]));
            assert(b.contains(b[0]));
        }
        let ka = choose|k: int| 0 <= k < b.len() && b[k] == a[0];
        let kb = choose|k: int| 0 <= k < a.len() && a[k] == b[0];
        assert(a[0] == b[0]) by {
            if ka > 0 {
                assert(b[0] < b[ka]);
            }
            if kb > 0 {
                assert(a[0] < a[kb]);
            }
        }
        let a1 = a.drop_first();
        let b1 = b.drop_first();
        assert forall|w: usize| a1.to_set().contains(w) <==> b1.to_set().contains(w) by {
            if a1.contains(w) {
                let i = choose|i: int| 0 <= i < a1.len() && a1[i] == w;
                assert(a[i + 1] == w && a.contains(w));
                assert(b.to_set().contains(w));
                let j = choose|j: int| 0 <= j < b.len() && b[j] == w;
                assert(a[0] < a[i + 1]);
                assert(j > 0);
                assert(b1[j - 1] == w);
            }
            if b1.contains(w) {
                let i = choose|i: int| 0 <= i < b1.len() && b1[i] == w;
                assert(b[i + 1] == w && b.contains(w));
                assert(a.to_set().contains(w));
                let j = choose|j: int| 0 <= j < a.len() && a[j] == w;
                assert(b[0] < b[i + 1]);
                assert(j > 0);
                assert(a1[j - 1] == w);
            }
        }
        assert(a1.to_set() =~= b1.to_set());
        lemma_increasing_unique(a1, b1);
        assert(a =~= b) by {
            assert forall|i: int| 0 <= i < a.len() implies a[i] == b[i] by {
                if i > 0 {
                    assert(a[i] == a1[i - 1]);
                    assert(b[i] == b1[i - 1]);
                }
            }
        }
    }
}

/// Fusing a child back into its parent gives back the bot as it was before
/// the fission: the same identifier, position and seeds.  `after` is the
/// parent as `Bot::fusion` leaves it after absorbing the child: the parent's
/// identifier and position, and ascending seeds made of the parent's seeds
/// and everything the child holds.
pub proof fn lemma_fission_fusion_roundtrip(v: BotView, nd: P, m: int, after: BotView)
    requires
        bot_ok(v),
        0 <= m,
        v.2.len() >= m + 1,
        after.0 == fission_parent(v, m).0,
        after.1 == fission_parent(v, m).1,
        strictly_increasing(after.2),
        after.2.to_set() == fission_parent(v, m).2.to_set().union(ids(fission_child(v, nd, m))),
    ensures
        after == v,
{
    let par = fission_parent(v, m).2;
    let ch = fission_child(v, nd, m);
    assert forall|w: usize| par.to_set().union(ids(ch)).contains(w) <==> v.2.to_set().contains(w) by {
        if par.contains(w) {
            let k = choose|k: int| 0 <= k < par.len() && par[k] == w;
            assert(v.2[k + m + 1] == w);
        }
        if ch.2.contains(w) {
            let k = choose|k: int| 0 <= k < ch.2.len() && ch.2[k] == w;
            assert(v.2[k + 1] == w);
        }
        if w == ch.0 {
            assert(v.2[0] == w);
        }
        if v.2.contains(w) {
            let k = choose|k: int| 0 <= k < v.2.len() && v.2[k] == w;
            if k == 0 {
            } else if k <= m {
                assert(ch.2[k - 1] == w);
            } else {
                assert(par[k - m - 1] == w);
            }
        }
    }
    assert(par.to_set().union(ids(ch)) =~= v.2.to_set());
    lemma_increasing_unique(after.2, v.2);
}

/// The views of a list of bots.
pub open spec fn bot_views(bs: Seq<Bot>) -> Seq<BotView> {
    bs.map_values(|b: Bot| b@)
}

/// Bots are listed by strictly increasing identifier.
pub open spec fn bids_increasing(vs: Seq<BotView>) -> bool {
    forall|i: int, j: int| 0 <= i < j < vs.len() ==> vs[i].0 < vs[j].0
}

/// A well-formed fleet: listed by identifier, each bot's seeds ascend, and no
/// identifier is held twice (by two bots, or as a bot and a seed).
pub open spec fn fleet_wf(vs: Seq<BotView>) -> bool {
    &&& bids_increasing(vs)
    &&& forall|i: int| 0 <= i < vs.len() ==> bot_ok(#[trigger] vs[i])
    &&& forall|i: int, j: int|
        0 <= i < vs.len() && 0 <= j < vs.len() && i != j ==> ids(vs[i]).disjoint(ids(vs[j]))
}

/// Every identifier held by some bot of the fleet.
pub open spec fn all_ids(vs: Seq<BotView>) -> Set<usize> {
    Set::new(|x: usize| exists|w: BotView| vs.contains(w) && #[trigger] ids(w).contains(x))
}

/// The command can be carried out by the bot without overflow or running out of seeds.
pub open spec fn step_ok(v: BotView, c: Command) -> bool {
    match c {
        Command::SMove(d) => add_fits(v.1, d),
        Command::LMove(d1, d2) => add_fits(d1, d2) && add_fits(v.1, padd(d1, d2)),
        Command::Fission(nd, m) => v.2.len() >= m + 1 && add_fits(v.1, nd),
        _ => true,
    }
}

/// The bot after carrying out the command.
pub open spec fn moved(v: BotView, c: Command) -> BotView {
    match c {
        Command::SMove(d) => (v.0, padd(v.1, d), v.2),
        Command::LMove(d1, d2) => (v.0, padd(v.1, padd(d1, d2)), v.2),
        Command::Fission(nd, m) => fission_parent(v, m as int),
        _ => v,
    }
}

/// The bot created by the command, if any.
pub open spec fn spawned(v: BotView, c: Command) -> Option<BotView> {
    match c {
        Command::Fission(nd, m) => Some(fission_child(v, nd, m as int)),
        _ => None,
    }
}

/// How many of the first `n` commands are fissions.
pub open spec fn fission_count(cs: Seq<Command>, n: int) -> int
    decreases n,
{
    if n <= 0 {
        0
    } else {
        fission_count(cs, n - 1) + if cs[n - 1] is Fission { 1int } else { 0int }
    }
}

/// The bots after the first `n` bots of `vs` have carried out their commands.
pub open spec fn stepped(vs: Seq<BotView>, cs: Seq<Command>, n: int) -> Set<BotView> {
    Set::new(|w: BotView| exists|i: int| 0 <= i < n && (w == moved(vs[i], cs[i]) || spawned(vs[i], cs[i]) == Some(w)))
}

/// The simulator state: the voxel matrix and the bots.
pub struct SimState {
    pub matrix: V3<bool>,
    pub bots: Vec<Bot>,
}

impl SimState {
    /// The state is consistent: the matrix is a cube and the fleet is well formed.
    pub open spec fn wf(&self) -> bool {
        &&& is_cube(view3(&self.matrix), self.matrix@.len() as int)
        &&& fleet_wf(bot_views(self.bots@))
    }
}

proof fn lemma_subrange_to_set(s: Seq<usize>, a: int, b: int, w: usize)
    requires
        0 <= a <= b <= s.len(),
    ensures
        s.subrange(a, b).contains(w) <==> exists|k: int| a <= k < b && s[k] == w,
{
    if s.subrange(a, b).contains(w) {
        let j = choose|j: int| 0 <= j < b - a && s.subrange(a, b)[j] == w;
        assert(s[a + j] == w);
    }
    if exists|k: int| a <= k < b && s[k] == w {
        let k = choose|k: int| a <= k < b && s[k] == w;
        assert(s.subrange(a, b)[k - a] == w);
    }
}

/// Carrying out a command splits the bot's identifiers between the moved bot
/// and the bot it creates, and each of them stays consistent.
proof fn lemma_step_one(v: BotView, c: Command)
    requires
        bot_ok(v),
        step_ok(v, c),
    ensures
        bot_ok(moved(v, c)),
        moved(v, c).0 == v.0,
        ids(moved(v, c)).subset_of(ids(v)),
        spawned(v, c) matches Some(w) ==> {
            &&& bot_ok(w)
            &&& ids(w).subset_of(ids(v))
            &&& ids(w).disjoint(ids(moved(v, c)))
            &&& ids(w).union(ids(moved(v, c))) == ids(v)
        },
        spawned(v, c) is None ==> ids(moved(v, c)) == ids(v),
{
    match c {
        Command::Fission(nd, m) => {
            let s = v.2;
            let n = s.len() as int;
            let mi = m as int;
            let par = fission_parent(v, mi);
            let ch = fission_child(v, nd, mi);
            assert forall|w: usize| #![auto] par.2.contains(w) <==> exists|k: int| mi + 1 <= k < n && s[k] == w by {
                lemma_subrange_to_set(s, mi + 1, n, w);
            }
            assert forall|w: usize| #![auto] ch.2.contains(w) <==> exists|k: int| 1 <= k < mi + 1 && s[k] == w by {
                lemma_subrange_to_set(s, 1, mi + 1, w);
            }
            assert(s[0] == s[0]);
            assert(strictly_increasing(par.2));
            assert(strictly_increasing(ch.2));
            assert forall|w: usize| ids(par).contains(w) implies ids(v).contains(w) by {
                if w != v.0 {
                    let k = choose|k: int| mi + 1 <= k < n && s[k] == w;
                    assert(s.contains(w));
                }
            }
            assert forall|w: usize| ids(ch).contains(w) implies ids(v).contains(w) by {
                if w != s[0] {
                    let k = choose|k: int| 1 <= k < mi + 1 && s[k] == w;
                    assert(s.contains(w));
                } else {
                    assert(s.contains(s[0]));
                }
            }
            assert forall|w: usize| !(ids(ch).contains(w) && ids(par).contains(w)) by {
                if ids(ch).contains(w) && ids(par).contains(w) {
                    if w == v.0 {
                        assert(s.contains(w));
                    } else {
                        let k2 = choose|k: int| mi + 1 <= k < n && s[k] == w;
                        if w == s[0] {
                            assert(s[0] < s[k2]);
                        } else {
                            let k1 = choose|k: int| 1 <= k < mi + 1 && s[k] == w;
                            assert(s[k1] < s[k2]);
                        }
                    }
                }
            }
            assert forall|w: usize| ids(v).contains(w) implies ids(ch).union(ids(par)).contains(w) by {
                if w != v.0 {
                    let k = choose|k: int| 0 <= k < n && s[k] == w;
                    if k == 0 {
                    } else if k < mi + 1 {
                        assert(ch.2.contains(w));
                    } else {
                        assert(par.2.contains(w));
                    }
                }
            }
            assert(!ch.2.contains(ch.0)) by {
                if ch.2.contains(ch.0) {
                    let k = choose|k: int| 1 <= k < mi + 1 && #[trigger] s[k] == s[0];
                    assert(s[0] < s[k]);
                }
            }
            assert(!par.2.contains(par.0)) by {
                if par.2.contains(par.0) {
                    let k = choose|k: int| mi + 1 <= k < n && s[k] == v.0;
                    assert(s.contains(v.0));
                }
            }
            assert(ids(ch).union(ids(par)) =~= ids(v));
        },
        _ => {
            assert(ids(moved(v, c)) =~= ids(v));
        },
    }
}

/// Inserts a bot into a list ordered by identifier; returns its position.
fn insert_bot(bots: &mut Vec<Bot>, b: Bot) -> (pos: usize)
    requires
        bids_increasing(bot_views(old(bots)@)),
        forall|k: int| 0 <= k < old(bots)@.len() ==> (#[trigger] old(bots)@[k]).bid != b.bid,
    ensures
        pos <= old(bots)@.len(),
        bot_views(final(bots)@) == bot_views(old(bots)@).insert(pos as int, b@),
        bids_increasing(bot_views(final(bots)@)),
{
    let ghost before = bot_views(bots@);
    let mut i: usize = 0;
    while i < bots.len() && bots[i].bid < b.bid
        invariant
            bot_views(bots@) == before,
            bids_increasing(before),
            i <= bots@.len(),
            forall|k: int| 0 <= k < i ==> before[k].0 < b.bid,
        decreases bots@.len() - i,
    {
        i += 1;
    }
    let ghost bv = b@;
    bots.insert(i, b);
    assert(bot_views(bots@) =~= before.insert(i as int, bv));
    let ghost after = bot_views(bots@);
    assert forall|a: int, c: int| 0 <= a < c < after.len() implies after[a].0 < after[c].0 by {
        if c < i {
        } else if a < i && c == i {
        } else if a < i {
            assert(after[c] == before[c - 1]);
        } else if a == i {
            assert(after[c] == before[c - 1]);
            assert(old(bots)@[i as int].bid != bv.0);
            assert(before[i as int].0 > bv.0);
            if c - 1 > i {
                assert(before[i as int].0 < before[c - 1].0);
            }
        } else {
            assert(after[a] == before[a - 1]);
            assert(after[c] == before[c - 1]);
        }
    }
    i
}

proof fn lemma_insert_fleet(vs: Seq<BotView>, pos: int, v: BotView)
    requires
        fleet_wf(vs),
        0 <= pos <= vs.len(),
        bids_increasing(vs.insert(pos, v)),
        bot_ok(v),
        forall|k: int| 0 <= k < vs.len() ==> ids(#[trigger] vs[k]).disjoint(ids(v)),
    ensures
        fleet_wf(vs.insert(pos, v)),
        all_ids(vs.insert(pos, v)) == all_ids(vs).union(ids(v)),
{
    let ws = vs.insert(pos, v);
    assert forall|i: int| 0 <= i < ws.len() implies bot_ok(#[trigger] ws[i]) by {
        if i > pos {
            assert(ws[i] == vs[i - 1]);
        }
    }
    assert forall|i: int, j: int|
        0 <= i < ws.len() && 0 <= j < ws.len() && i != j implies ids(ws[i]).disjoint(ids(ws[j])) by {
        if i != pos && j != pos {
            let i0 = if i < pos { i } else { i - 1 };
            let j0 = if j < pos { j } else { j - 1 };
            assert(ws[i] == vs[i0]);
            assert(ws[j] == vs[j0]);
        } else if i == pos {
            let j0 = if j < pos { j } else { j - 1 };
            assert(ws[j] == vs[j0]);
            assert(ids(vs[j0]).disjoint(ids(v)));
        } else {
            let i0 = if i < pos { i } else { i - 1 };
            assert(ws[i] == vs[i0]);
            assert(ids(vs[i0]).disjoint(ids(v)));
        }
    }
    assert forall|x: usize| all_ids(ws).contains(x) <==> all_ids(vs).union(ids(v)).contains(x) by {
        if all_ids(ws).contains(x) {
            let w = choose|w: BotView| ws.contains(w) && #[trigger] ids(w).contains(x);
            lemma_insert_contains(vs, pos, v, w);
        }
        if all_ids(vs).contains(x) {
            let w = choose|w: BotView| vs.contains(w) && #[trigger] ids(w).contains(x);
            lemma_insert_contains(vs, pos, v, w);
        }
        if ids(v).contains(x) {
            lemma_insert_contains(vs, pos, v, v);
        }
    }
    assert(all_ids(ws) =~= all_ids(vs).union(ids(v)));
}

/// Places a bot into a well-formed fleet, keeping it well formed.
fn place_bot(bots: &mut Vec<Bot>, b: Bot)
    requires
        fleet_wf(bot_views(old(bots)@)),
        bot_ok(b@),
        forall|k: int| 0 <= k < old(bots)@.len() ==> ids(#[trigger] bot_views(old(bots)@)[k]).disjoint(ids(b@)),
    ensures
        fleet_wf(bot_views(final(bots)@)),
        forall|w: BotView| #[trigger] bot_views(final(bots)@).contains(w) <==> (w == b@ || bot_views(old(bots)@).contains(w)),
        all_ids(bot_views(final(bots)@)) == all_ids(bot_views(old(bots)@)).union(ids(b@)),
        final(bots)@.len() == old(bots)@.len() + 1,
{
    let ghost before = bot_views(bots@);
    let ghost bv = b@;
    assert forall|k: int| 0 <= k < bots@.len() implies (#[trigger] bots@[k]).bid != b.bid by {
        assert(before[k] == bots@[k]@);
        assert(ids(before[k]).disjoint(ids(bv)));
        assert(ids(bv).contains(bv.0));
        assert(ids(before[k]).contains(before[k].0));
    }
    let pos = insert_bot(bots, b);
    proof {
        lemma_insert_fleet(before, pos as int, bv);
        assert(bot_views(bots@).len() == bots@.len());
        assert(before.len() == old(bots)@.len());
        assert forall|w: BotView| #[trigger] bot_views(bots@).contains(w) <==> (w == bv || before.contains(w)) by {
            lemma_insert_contains(before, pos as int, bv, w);
        }
    }
}

impl SimState {
    /// A state with an empty `r` by `r` by `r` matrix and the single initial bot.
    pub fn new(r: usize) -> (s: SimState)
        ensures
            s.wf(),
            view3(&s.matrix) == Seq::new(r as nat, |i: int| Seq::new(r as nat, |j: int| Seq::new(r as nat, |k: int| false))),
            bot_views(s.bots@) == seq![(1usize, P { x: 0, y: 0, z: 0 }, initial_seeds())],
    {
        let bot = Bot::new();
        let mut bots: Vec<Bot> = Vec::new();
        bots.push(bot);
        let matrix = filled_grid3(false, r);
        let s = SimState { matrix, bots };
        assert(bot_views(s.bots@) =~= seq![(1usize, P { x: 0, y: 0, z: 0 }, initial_seeds())]);
        assert(bot_ok(bot_views(s.bots@)[0]));
        assert(is_cube(view3(&s.matrix), s.matrix@.len() as int));
        s
    }

    /// Carries out one time step: the `i`-th command goes to the bot with the
    /// `i`-th smallest identifier.  Moves shift positions; fission creates a
    /// child; other commands leave the bot as it is.
    pub fn step(&mut self, cmds: Vec<Command>)
        requires
            old(self).wf(),
            cmds@.len() == old(self).bots@.len(),
            forall|i: int| 0 <= i < cmds@.len() ==> step_ok(#[trigger] bot_views(old(self).bots@)[i], cmds@[i]),
        ensures
            final(self).wf(),
            final(self).matrix == old(self).matrix,
            bot_views(final(self).bots@).to_set() == stepped(bot_views(old(self).bots@), cmds@, cmds@.len() as int),
            all_ids(bot_views(final(self).bots@)) == all_ids(bot_views(old(self).bots@)),
            final(self).bots@.len() == old(self).bots@.len() + fission_count(cmds@, cmds@.len() as int),
            forall|i: int, k: int|
                0 <= i < old(self).bots@.len() && 0 <= k < final(self).bots@.len()
                    && #[trigger] final(self).bots@[k].bid == #[trigger] old(self).bots@[i].bid
                    ==> bot_views(final(self).bots@)[k] == moved(bot_views(old(self).bots@)[i], cmds@[i]),
            forall|i: int| 0 <= i < old(self).bots@.len() ==>
                #[trigger] bot_views(final(self).bots@).contains(moved(bot_views(old(self).bots@)[i], cmds@[i])),
            forall|i: int| 0 <= i < old(self).bots@.len() && spawned(bot_views(old(self).bots@)[i], cmds@[i]) is Some ==>
                #[trigger] bot_views(final(self).bots@).contains(spawned(bot_views(old(self).bots@)[i], cmds@[i])->0),
    {
        let ghost olds = bot_views(self.bots@);
        let ghost cs = cmds@;
        let n = cmds.len();
        let mut rest: Vec<Bot> = Vec::new();
        std::mem::swap(&mut rest, &mut self.bots);
        assert(bot_views(rest@) =~= olds.subrange(0, n as int));
        assert(bot_views(self.bots@).to_set() =~= stepped(olds, cs, 0));
        assert(all_ids(bot_views(self.bots@)) =~= Set::new(|x: usize| exists|j: int| 0 <= j < 0 && #[trigger] ids(olds[j]).contains(x)));
        let mut i: usize = 0;
        while i < n
            invariant
                n == cs.len(),
                cs == cmds@,
                olds.len() == n,
                fleet_wf(olds),
                forall|k: int| 0 <= k < n ==> step_ok(#[trigger] olds[k], cs[k]),
                i <= n,
                bot_views(rest@) == olds.subrange(i as int, n as int),
                fleet_wf(bot_views(self.bots@)),
                bot_views(self.bots@).to_set() == stepped(olds, cs, i as int),
                forall|w: BotView|
                    bot_views(self.bots@).contains(w) ==> exists|j: int| 0 <= j < i && ids(w).subset_of(#[trigger] ids(olds[j])),
                all_ids(bot_views(self.bots@)) == Set::new(|x: usize| exists|j: int| 0 <= j < i && #[trigger] ids(olds[j]).contains(x)),
                self.matrix == old(self).matrix,
                self.bots@.len() == i + fission_count(cs, i as int),
            decreases n - i,
        {
            let ghost rest_before = bot_views(rest@);
            assert(rest@.len() == rest_before.len());
            let ghost first = rest@[0];
            let ghost rest_vec = rest@;
            let mut bot = rest.remove(0);
            assert(bot == first);
            let cmd = cmds[i];
            let ghost v = olds[i as int];
            assert(rest_before[0] == olds[i as int]);
            assert(rest_before[0] == first@);
            assert(bot@ == v);
            assert forall|k: int| 0 <= k < bot_views(rest@).len() implies
                bot_views(rest@)[k] == olds.subrange(i + 1, n as int)[k] by {
                assert(rest@[k] == rest_vec[k + 1]);
                assert(bot_views(rest@)[k] == rest_before[k + 1]);
            }
            assert(bot_views(rest@) =~= olds.subrange(i + 1, n as int));
            proof {
                lemma_step_one(v, cmd);
            }
            let ghost cur = bot_views(self.bots@);
            let ghost prev_ids = all_ids(cur);
            assert forall|k: int| 0 <= k < cur.len() implies ids(#[trigger] cur[k]).disjoint(ids(v)) by {
                assert(cur.contains(cur[k]));
                let j = choose|j: int| 0 <= j < i && ids(cur[k]).subset_of(#[trigger] ids(olds[j]));
                assert(ids(olds[j]).disjoint(ids(olds[i as int])));
            }
            match cmd {
                Command::SMove(d) => {
                    bot.p = bot.p + d;
                },
                Command::LMove(d1, d2) => {
                    bot.p = bot.p + (d1 + d2);
                },
                Command::Fission(nd, m) => {
                    let child = bot.fission(nd, m);
                    assert forall|k: int| 0 <= k < self.bots@.len() implies
                        ids(#[trigger] bot_views(self.bots@)[k]).disjoint(ids(child@)) by {
                        assert(ids(cur[k]).disjoint(ids(v)));
                    }
                    place_bot(&mut self.bots, child);
                },
                _ => {},
            }
            let ghost mv = bot@;
            assert(mv == moved(v, cmd));
            let ghost mid = bot_views(self.bots@);
            assert forall|w: BotView| mid.contains(w) implies
                (cur.contains(w) || spawned(v, cmd) == Some(w)) by {
            }
            assert forall|k: int| 0 <= k < mid.len() implies ids(#[trigger] mid[k]).disjoint(ids(mv)) by {
                assert(mid.contains(mid[k]));
                if cur.contains(mid[k]) {
                    let k0 = choose|k0: int| 0 <= k0 < cur.len() && cur[k0] == mid[k];
                    assert(ids(cur[k0]).disjoint(ids(v)));
                }
            }
            assert(all_ids(mid) == match spawned(v, cmd) { Some(w) => prev_ids.union(ids(w)), None => prev_ids });
            place_bot(&mut self.bots, bot);
            let ghost now = bot_views(self.bots@);
            i += 1;
            assert forall|w: BotView| now.to_set().contains(w) <==> stepped(olds, cs, i as int).contains(w) by {
                if stepped(olds, cs, i as int).contains(w) {
                    let j = choose|j: int| 0 <= j < i && (w == moved(olds[j], cs[j]) || spawned(olds[j], cs[j]) == Some(w));
                    if j < i - 1 {
                        assert(stepped(olds, cs, i - 1).contains(w));
                        assert(cur.to_set().contains(w));
                    }
                }
                if now.contains(w) && w != mv && spawned(v, cmd) != Some(w) {
                    assert(cur.to_set().contains(w));
                    assert(stepped(olds, cs, i - 1).contains(w));
                }
            }
            assert(now.to_set() =~= stepped(olds, cs, i as int));
            assert forall|w: BotView| now.contains(w) implies
                exists|j: int| 0 <= j < i && ids(w).subset_of(#[trigger] ids(olds[j])) by {
                if w == mv || spawned(v, cmd) == Some(w) {
                    assert(ids(w).subset_of(ids(olds[i - 1])));
                } else {
                    assert(cur.contains(w));
                }
            }
            assert(ids(mv).union(match spawned(v, cmd) { Some(w) => ids(w), None => Set::empty() }) == ids(v)) by {
                if spawned(v, cmd) is None {
                    assert(ids(mv).union(Set::empty()) =~= ids(mv));
                } else {
                    assert(ids(mv).union(ids(spawned(v, cmd)->0)) =~= ids(spawned(v, cmd)->0).union(ids(mv)));
                }
            }
            assert forall|x: usize| all_ids(now).contains(x) <==>
                (exists|j: int| 0 <= j < i && #[trigger] ids(olds[j]).contains(x)) by {
                if ids(v).contains(x) {
                    assert(ids(olds[i - 1]).contains(x));
                }
                if exists|j: int| 0 <= j < i && #[trigger] ids(olds[j]).contains(x) {
                    let j = choose|j: int| 0 <= j < i && #[trigger] ids(olds[j]).contains(x);
                    if j < i - 1 {
                        assert(prev_ids.contains(x));
                    }
                }
            }
            assert(all_ids(now) =~= Set::new(|x: usize| exists|j: int| 0 <= j < i && #[trigger] ids(olds[j]).contains(x)));
        }
        assert forall|x: usize| all_ids(bot_views(self.bots@)).contains(x) <==> all_ids(olds).contains(x) by {
            if all_ids(olds).contains(x) {
                let w = choose|w: BotView| olds.contains(w) && #[trigger] ids(w).contains(x);
                let j = choose|j: int| 0 <= j < olds.len() && olds[j] == w;
                assert(ids(olds[j]).contains(x));
            }
            if exists|j: int| 0 <= j < n && #[trigger] ids(olds[j]).contains(x) {
                let j = choose|j: int| 0 <= j < n && #[trigger] ids(olds[j]).contains(x);
                assert(olds.contains(olds[j]));
            }
        }
        assert(all_ids(bot_views(self.bots@)) =~= all_ids(olds));
        let ghost fin = bot_views(self.bots@);
        assert forall|i: int| 0 <= i < n implies #[trigger] fin.contains(moved(olds[i], cs[i])) by {
            assert(stepped(olds, cs, n as int).contains(moved(olds[i], cs[i])));
            assert(fin.to_set().contains(moved(olds[i], cs[i])));
        }
        assert forall|i: int| 0 <= i < n && spawned(olds[i], cs[i]) is Some implies
            #[trigger] fin.contains(spawned(olds[i], cs[i])->0) by {
            assert(stepped(olds, cs, n as int).contains(spawned(olds[i], cs[i])->0));
            assert(fin.to_set().contains(spawned(olds[i], cs[i])->0));
        }
        assert forall|i: int, k: int|
            0 <= i < n && 0 <= k < self.bots@.len() && #[trigger] self.bots@[k].bid == #[trigger] old(self).bots@[i].bid
            implies fin[k] == moved(olds[i], cs[i]) by {
            assert(olds[i] == old(self).bots@[i]@);
            assert(fin.contains(moved(olds[i], cs[i])));
            let k0 = choose|k0: int| 0 <= k0 < fin.len() && fin[k0] == moved(olds[i], cs[i]);
            assert(fin[k].0 == self.bots@[k].bid);
            assert(fin[k0].0 == olds[i].0);
            if k0 < k {
                assert(fin[k0].0 < fin[k].0);
            } else if k < k0 {
                assert(fin[k].0 < fin[k0].0);
            }
        }
    }
}

} // verus!
