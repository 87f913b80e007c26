use wata::command::Command;
use wata::layer::Bot;
use wata::point::P;
use wata::rounds::{append_steps, pad_with_waits};

fn bot(bid: usize, commands: Vec<Command>) -> Bot {
    Bot { bid, p: P::new(bid as i32, 0, 0), commands }
}

#[test]
fn steps_interleave_bots_and_wait_when_done() {
    let fill = Command::Fill(P::new(0, 1, 0));
    let mv = Command::SMove(P::new(1, 0, 0));
    let bots = vec![bot(0, vec![fill, mv]), bot(1, vec![]), bot(2, vec![mv])];
    let mut commands = vec![Command::Halt];
    append_steps(&mut commands, &bots);
    assert_eq!(
        commands,
        vec![Command::Halt, fill, Command::Wait, mv, mv, Command::Wait, Command::Wait]
    );
}

#[test]
fn steps_of_idle_bots_are_empty() {
    let bots = vec![bot(0, vec![]), bot(1, vec![])];
    let mut commands = vec![];
    append_steps(&mut commands, &bots);
    assert!(commands.is_empty());
}

#[test]
fn padding_evens_out_the_command_lists() {
    let mv = Command::SMove(P::new(0, 0, 2));
    let mut bots = vec![bot(0, vec![mv]), bot(1, vec![mv, mv, mv]), bot(2, vec![])];
    pad_with_waits(&mut bots);
    assert_eq!(bots[0].commands, vec![mv, Command::Wait, Command::Wait]);
    assert_eq!(bots[1].commands, vec![mv, mv, mv]);
    assert_eq!(bots[2].commands, vec![Command::Wait; 3]);
    assert_eq!(bots[2].bid, 2);
    assert_eq!(bots[2].p, P::new(2, 0, 0));
}
