//! Nanobot commands and their textual form.
use vstd::prelude::*;
use crate::point::{P, mlen_fits, mlen_of};

verus! {

/// One command issued to one nanobot in one time step.
#[derive(Clone, Copy, Debug, PartialEq, Eq, Structural, PartialOrd, Ord, Hash)]
pub enum Command {
    Halt,
    Wait,
    SMove(P),
    LMove(P, P),
    FusionP(P),
    FusionS(P),
    Fission(P, usize),
    Fill(P),
}

/// The decimal digit character for `d` (in `0..10`).
pub open spec fn digit_char(d: int) -> char {
    if d == 0 { '0' }
    else if d == 1 { '1' }
    else if d == 2 { '2' }
    else if d == 3 { '3' }
    else if d == 4 { '4' }
    else if d == 5 { '5' }
    else if d == 6 { '6' }
    else if d == 7 { '7' }
    else if d == 8 { '8' }
    else { '9' }
}

/// Decimal digits of a natural number, most significant first, without leading zeros.
pub open spec fn nat_text(n: nat) -> Seq<char>
    decreases n,
{
    if n < 10 {
        seq![digit_char(n as int)]
    } else {
        nat_text(n / 10) + seq![digit_char((n % 10) as int)]
    }
}

/// Decimal text of an integer, with a leading `-` when negative.
pub open spec fn int_text(v: int) -> Seq<char> {
    if v < 0 { seq!['-'] + nat_text((-v) as nat) } else { nat_text(v as nat) }
}

/// The axis label printed for a move: `"x "` (with a trailing space) when the
/// `x` component is nonzero, else `"y"` when the `y` component is nonzero, else `"z"`.
pub open spec fn axis_text(d: P) -> Seq<char> {
    if d.x != 0 { "x "@ } else if d.y != 0 { "y"@ } else { "z"@ }
}

/// Coordinates separated by single spaces.
pub open spec fn coords_text(p: P) -> Seq<char> {
    int_text(p.x as int) + " "@ + int_text(p.y as int) + " "@ + int_text(p.z as int)
}

/// A command whose text can be computed: move lengths must fit in an `i32`.
pub open spec fn printable(c: Command) -> bool {
    match c {
        Command::SMove(d) => mlen_fits(d),
        Command::LMove(d1, d2) => mlen_fits(d1) && mlen_fits(d2),
        _ => true,
    }
}

/// The text of a command.
pub open spec fn command_text(c: Command) -> Seq<char> {
    match c {
        Command::Halt => "HALT"@,
        Command::Wait => "WAIT"@,
        Command::SMove(d) => "SMOVE "@ + axis_text(d) + " "@ + int_text(mlen_of(d)),
        Command::LMove(d1, d2) => "LMOVE "@ + axis_text(d1) + " "@ + int_text(mlen_of(d1)) + " "@
            + axis_text(d2) + " "@ + int_text(mlen_of(d2)),
        Command::FusionP(p) => "FUSIONP "@ + coords_text(p),
        Command::FusionS(p) => "FUSIONS "@ + coords_text(p),
        Command::Fission(p, m) => "FISSION "@ + coords_text(p) + " "@ + nat_text(m as nat),
        Command::Fill(p) => "FILL "@ + coords_text(p),
    }
}

/// Appends the decimal digit `d` (in `0..10`).
fn push_digit(s: &mut String, d: u64)
    requires
        d < 10,
    ensures
        final(s)@ == old(s)@.push(digit_char(d as int)),
{
    if d == 0 {
        s.append("0");
        proof {
            reveal_strlit("0");
        }
    } else if d == 1 {
        s.append("1");
        proof {
            reveal_strlit("1");
        }
    } else if d == 2 {
        s.append("2");
        proof {
            reveal_strlit("2");
        }
    } else if d == 3 {
        s.append("3");
        proof {
            reveal_strlit("3");
        }
    } else if d == 4 {
        s.append("4");
        proof {
            reveal_strlit("4");
        }
    } else if d == 5 {
        s.append("5");
        proof {
            reveal_strlit("5");
        }
    } else if d == 6 {
        s.append("6");
        proof {
            reveal_strlit("6");
        }
    } else if d == 7 {
        s.append("7");
        proof {
            reveal_strlit("7");
        }
    } else if d == 8 {
        s.append("8");
        proof {
            reveal_strlit("8");
        }
    } else {
        s.append("9");
        proof {
            reveal_strlit("9");
        }
    }
    assert(s@ =~= old(s)@.push(digit_char(d as int)));
}

fn push_nat(s: &mut String, n: u64)
    ensures
        final(s)@ == old(s)@ + nat_text(n as nat),
    decreases n,
{
    if n >= 10 {
        push_nat(s, n / 10);
    }
    push_digit(s, n % 10);
    assert(s@ =~= old(s)@ + nat_text(n as nat));
}

fn push_int(s: &mut String, v: i32)
    ensures
        final(s)@ == old(s)@ + int_text(v as int),
{
    if v < 0 {
        s.append("-");
        proof {
            reveal_strlit("-");
        }
        let n: i64 = v as i64;
        push_nat(s, (-n) as u64);
        assert(s@ =~= old(s)@ + int_text(v as int));
    } else {
        push_nat(s, v as u64);
    }
}

fn push_axis(s: &mut String, d: P)
    ensures
        final(s)@ == old(s)@ + axis_text(d),
{
    if d.x != 0 {
        s.append("x ");
    } else if d.y != 0 {
        s.append("y");
    } else {
        s.append("z");
    }
}

fn push_coords(s: &mut String, p: P)
    ensures
        final(s)@ == old(s)@ + coords_text(p),
{
    push_int(s, p.x);
    s.append(" ");
    push_int(s, p.y);
    s.append(" ");
    push_int(s, p.z);
    assert(s@ =~= old(s)@ + coords_text(p));
}

impl Command {
    /// The textual form of the command, e.g. `SMOVE y 3` or `FILL 0 -1 1`.
    pub fn to_string(&self) -> (s: String)
        requires
            printable(*self),
        ensures
            s@ == command_text(*self),
    {
        let mut s = String::new();
        match *self {
            Command::Halt => {
                s.append("HALT");
            },
            Command::Wait => {
                s.append("WAIT");
            },
            Command::SMove(d) => {
                s.append("SMOVE ");
                push_axis(&mut s, d);
                s.append(" ");
                push_int(&mut s, d.mlen());
            },
            Command::LMove(d1, d2) => {
                s.append("LMOVE ");
                push_axis(&mut s, d1);
                s.append(" ");
                push_int(&mut s, d1.mlen());
                s.append(" ");
                push_axis(&mut s, d2);
                s.append(" ");
                push_int(&mut s, d2.mlen());
            },
            Command::FusionP(p) => {
                s.append("FUSIONP ");
                push_coords(&mut s, p);
            },
            Command::FusionS(p) => {
                s.append("FUSIONS ");
                push_coords(&mut s, p);
            },
            Command::Fission(p, m) => {
                s.append("FISSION ");
                push_coords(&mut s, p);
                s.append(" ");
                push_nat(&mut s, m as u64);
            },
            Command::Fill(p) => {
                s.append("FILL ");
                push_coords(&mut s, p);
            },
        }
        assert(s@ =~= command_text(*self));
        s
    }
}

} // verus!
