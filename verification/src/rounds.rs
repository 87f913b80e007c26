//! Turning the per-bot command lists of the construction solver into one
//! trace: every bot issues one command per step, in bot order, and a bot with
//! nothing left to do waits.
use vstd::prelude::*;
use crate::command::Command;
use crate::layer::Bot;

verus! {

/// The length of the longest command list of `bs` (0 when there is none).
pub open spec fn max_len(bs: Seq<Bot>) -> nat
    decreases bs.len(),
{
    if bs.len() == 0 {
        0
    } else {
        let m = max_len(bs.drop_last());
        let l = bs.last().commands@.len();
        if l > m { l } else { m }
    }
}

/// The command of a bot at step `t`: its `t`-th command, or a wait once it
/// has none left.
pub open spec fn command_at(cs: Seq<Command>, t: int) -> Command {
    if 0 <= t < cs.len() { cs[t] } else { Command::Wait }
}

/// The commands of all bots at step `t`, in bot order.
pub open spec fn step_of(bs: Seq<Bot>, t: int) -> Seq<Command> {
    Seq::new(bs.len(), |i: int| command_at(bs[i].commands@, t))
}

/// The steps `0..t`, one after the other.
pub open spec fn steps_upto(bs: Seq<Bot>, t: int) -> Seq<Command>
    decreases t,
{
    if t <= 0 { Seq::empty() } else { steps_upto(bs, t - 1) + step_of(bs, t - 1) }
}

proof fn lemma_max_len(bs: Seq<Bot>)
    ensures
        forall|i: int| 0 <= i < bs.len() ==> (#[trigger] bs[i]).commands@.len() <= max_len(bs),
        bs.len() > 0 ==> exists|i: int| 0 <= i < bs.len() && (#[trigger] bs[i]).commands@.len() == max_len(bs),
    decreases bs.len(),
{
    if bs.len() > 0 {
        let front = bs.drop_last();
        lemma_max_len(front);
        assert forall|i: int| 0 <= i < bs.len() implies (#[trigger] bs[i]).commands@.len() <= max_len(bs) by {
            if i < front.len() {
                assert(bs[i] == front[i]);
            }
        }
        if bs.last().commands@.len() <= max_len(front) && front.len() > 0 {
            let i = choose|i: int| 0 <= i < front.len() && (#[trigger] front[i]).commands@.len() == max_len(front);
            assert(bs[i] == front[i]);
        } else {
            assert(bs[bs.len() - 1] == bs.last());
        }
    }
}

/// Every step has one command per bot.
pub proof fn lemma_steps_len(bs: Seq<Bot>, t: int)
    requires
        t >= 0,
    ensures
        steps_upto(bs, t).len() == t * bs.len(),
    decreases t,
{
    if t > 0 {
        lemma_steps_len(bs, t - 1);
        assert(step_of(bs, t - 1).len() == bs.len());
        assert((t - 1) * bs.len() + bs.len() == t * bs.len()) by (nonlinear_arith);
    } else {
        assert(0 * bs.len() == 0) by (nonlinear_arith);
    }
}

/// The longest command list of the bots.
fn longest(bots: &Vec<Bot>) -> (m: usize)
    ensures
        m == max_len(bots@),
{
    let mut m: usize = 0;
    let mut i: usize = 0;
    while i < bots.len()
        invariant
            i <= bots@.len(),
            m == max_len(bots@.subrange(0, i as int)),
        decreases bots@.len() - i,
    {
        assert(bots@.subrange(0, i + 1).drop_last() =~= bots@.subrange(0, i as int));
        if bots[i].commands.len() > m {
            m = bots[i].commands.len();
        }
        i += 1;
    }
    assert(bots@.subrange(0, i as int) =~= bots@);
    m
}

/// Appends the steps of all bots to `commands`: for each step up to the
/// longest command list, the command of every bot in order, a wait for a bot
/// that has run out of commands.
pub fn append_steps(commands: &mut Vec<Command>, bots: &Vec<Bot>)
    requires
        bots@.len() > 0,
    ensures
        final(commands)@ == old(commands)@ + steps_upto(bots@, max_len(bots@) as int),
        final(commands)@.len() == old(commands)@.len() + max_len(bots@) * bots@.len(),
{
    let t_max = longest(bots);
    let mut t: usize = 0;
    while t < t_max
        invariant
            t <= t_max,
            t_max == max_len(bots@),
            commands@ == old(commands)@ + steps_upto(bots@, t as int),
        decreases t_max - t,
    {
        let ghost before = commands@;
        let mut i: usize = 0;
        while i < bots.len()
            invariant
                i <= bots@.len(),
                commands@ == before + step_of(bots@, t as int).subrange(0, i as int),
            decreases bots@.len() - i,
        {
            let b = &bots[i];
            let c = if b.commands.len() <= t { Command::Wait } else { b.commands[t] };
            commands.push(c);
            proof {
                assert(step_of(bots@, t as int).subrange(0, i + 1) =~= step_of(bots@, t as int).subrange(0, i as int).push(c));
            }
            i += 1;
        }
        proof {
            assert(step_of(bots@, t as int).subrange(0, i as int) =~= step_of(bots@, t as int));
            assert(commands@ =~= old(commands)@ + steps_upto(bots@, t + 1));
        }
        t += 1;
    }
    proof {
        lemma_steps_len(bots@, t_max as int);
    }
}

/// Pads every bot's command list with waits up to the longest one, so that
/// all bots have the same number of commands.
pub fn pad_with_waits(bots: &mut Vec<Bot>)
    requires
        old(bots)@.len() > 0,
    ensures
        final(bots)@.len() == old(bots)@.len(),
        forall|i: int| 0 <= i < old(bots)@.len() ==> {
            &&& (#[trigger] final(bots)@[i]).bid == old(bots)@[i].bid
            &&& final(bots)@[i].p == old(bots)@[i].p
            &&& final(bots)@[i].commands@ == old(bots)@[i].commands@ + Seq::new(
                (max_len(old(bots)@) - old(bots)@[i].commands@.len()) as nat,
                |k: int| Command::Wait,
            )
        },
{
    let t_max = longest(bots);
    proof {
        lemma_max_len(old(bots)@);
    }
    let n = bots.len();
    let mut i: usize = 0;
    while i < n
        invariant
            n == old(bots)@.len(),
            bots@.len() == n,
            i <= n,
            t_max == max_len(old(bots)@),
            forall|j: int| 0 <= j < n ==> (#[trigger] old(bots)@[j]).commands@.len() <= t_max,
            forall|j: int| i <= j < n ==> #[trigger] bots@[j] == old(bots)@[j],
            forall|j: int| 0 <= j < i ==> {
                &&& (#[trigger] bots@[j]).bid == old(bots)@[j].bid
                &&& bots@[j].p == old(bots)@[j].p
                &&& bots@[j].commands@ == old(bots)@[j].commands@ + Seq::new(
                    (t_max - old(bots)@[j].commands@.len()) as nat,
                    |k: int| Command::Wait,
                )
            },
        decreases n - i,
    {
        let ghost whole = bots@;
        let mut b = bots.remove(i);
        assert(b == old(bots)@[i as int]);
        let ghost b0 = b;
        let ghost start = b.commands@;
        while b.commands.len() < t_max
            invariant
                b.bid == b0.bid,
                b.p == b0.p,
                start.len() <= t_max,
                start.len() <= b.commands@.len() <= t_max,
                b.commands@ == start + Seq::new((b.commands@.len() - start.len()) as nat, |k: int| Command::Wait),
            decreases t_max - b.commands@.len(),
        {
            b.commands.push(Command::Wait);
            assert(b.commands@ =~= start + Seq::new((b.commands@.len() - start.len()) as nat, |k: int| Command::Wait));
        }
        assert(b.bid == b0.bid && b.p == b0.p);
        let ghost mid = bots@;
        assert(mid == whole.remove(i as int));
        bots.insert(i, b);
        proof {
            assert(bots@ == mid.insert(i as int, b));
            assert forall|j: int| 0 <= j < n && j != i implies #[trigger] bots@[j] == whole[j] by {
                if j < i {
                    assert(bots@[j] == mid[j]);
                } else {
                    assert(bots@[j] == mid[j - 1]);
                }
            }
            assert(bots@[i as int] == b);
        }
        i += 1;
    }
}

} // verus!
