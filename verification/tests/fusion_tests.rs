use wata::command::Command;
use wata::fusion::{fusion_all, fusion_round, move_phase, plan_walkable};
use wata::point::P;

#[test]
fn neighbours_fuse_then_halt() {
    let cmds = fusion_all(vec![P::new(1, 1, 1), P::new(1, 1, 2)], vec![vec![], vec![]]);
    assert_eq!(
        cmds,
        Some(vec![
            Command::FusionP(P::new(0, 0, 1)),
            Command::FusionS(P::new(0, 0, -1)),
            Command::Halt,
        ])
    );
}

#[test]
fn single_bot_follows_its_plan() {
    let cmds = fusion_all(vec![P::new(0, 0, 0)], vec![vec![Command::SMove(P::new(0, 0, 2))]]);
    assert_eq!(cmds, Some(vec![Command::SMove(P::new(0, 0, 2)), Command::Halt]));
}

#[test]
fn blocked_bot_stops_and_fuses() {
    let cmds = fusion_all(
        vec![P::new(0, 0, 0), P::new(0, 0, 2)],
        vec![vec![Command::SMove(P::new(0, 0, 2))], vec![]],
    );
    assert_eq!(
        cmds,
        Some(vec![
            Command::SMove(P::new(0, 0, 1)),
            Command::Wait,
            Command::FusionP(P::new(0, 0, 1)),
            Command::FusionS(P::new(0, 0, -1)),
            Command::SMove(P::new(0, 0, 1)),
            Command::Halt,
        ])
    );
}

#[test]
fn no_bots_just_halt() {
    assert_eq!(fusion_all(vec![], vec![]), Some(vec![Command::Halt]));
}

#[test]
fn diagonal_move_is_refused() {
    let cmds = fusion_all(vec![P::new(0, 0, 0)], vec![vec![Command::SMove(P::new(1, 1, 0))]]);
    assert_eq!(cmds, None);
    assert!(!plan_walkable(P::new(0, 0, 0), &vec![Command::SMove(P::new(1, 1, 0))]));
    assert!(plan_walkable(P::new(0, 0, 0), &vec![Command::LMove(P::new(1, 0, 0), P::new(0, 0, -3))]));
}

#[test]
fn move_phase_walks_until_blocked() {
    let mut ps = vec![P::new(0, 0, 0), P::new(0, 2, 0)];
    let mut plans = vec![
        vec![Command::LMove(P::new(0, 1, 0), P::new(0, 0, 1)), Command::Wait],
        vec![Command::SMove(P::new(0, -1, 0))],
    ];
    let steps = move_phase(&mut ps, &mut plans);
    // the first bot walks (0,1,0) then (0,1,1); the second is then blocked at (0,1,0)
    assert_eq!(steps, vec![Command::LMove(P::new(0, 1, 0), P::new(0, 0, 1)), Command::Wait]);
    assert_eq!(ps, vec![P::new(0, 1, 1), P::new(0, 2, 0)]);
    assert_eq!(plans, vec![vec![Command::Wait], vec![Command::SMove(P::new(0, -1, 0))]]);
}

#[test]
fn round_of_waiting_bots_far_apart_is_final() {
    let mut ps = vec![P::new(0, 0, 0), P::new(5, 5, 5)];
    let mut plans: Vec<Vec<Command>> = vec![vec![], vec![]];
    assert_eq!(fusion_round(&mut ps, &mut plans), None);
}

#[test]
fn round_removes_absorbed_bot() {
    let mut ps = vec![P::new(3, 3, 3), P::new(2, 3, 3), P::new(9, 9, 9)];
    let mut plans: Vec<Vec<Command>> = vec![vec![], vec![], vec![Command::Fill(P::new(0, 1, 0))]];
    let steps = fusion_round(&mut ps, &mut plans);
    // (2,3,3) comes first in order and is shorter: it is primary
    assert_eq!(
        steps,
        Some(vec![
            Command::FusionS(P::new(-1, 0, 0)),
            Command::FusionP(P::new(1, 0, 0)),
            Command::Fill(P::new(0, 1, 0)),
        ])
    );
    assert_eq!(ps, vec![P::new(2, 3, 3), P::new(9, 9, 9)]);
    assert_eq!(plans.len(), 2);
}

#[test]
fn bots_never_share_a_cell() {
    let mut ps = vec![P::new(0, 0, 0), P::new(0, 0, 3), P::new(3, 0, 0)];
    let mut plans = vec![
        vec![Command::SMove(P::new(0, 0, 3))],
        vec![Command::SMove(P::new(0, 0, -3))],
        vec![Command::SMove(P::new(-3, 0, 0))],
    ];
    let steps = move_phase(&mut ps, &mut plans);
    assert_eq!(steps[0], Command::SMove(P::new(0, 0, 2)));
    assert_eq!(steps[1], Command::Wait);
    assert_eq!(steps[2], Command::SMove(P::new(-2, 0, 0)));
    assert_eq!(ps, vec![P::new(0, 0, 2), P::new(0, 0, 3), P::new(1, 0, 0)]);
    for i in 0..ps.len() {
        for j in 0..i {
            assert_ne!(ps[i], ps[j]);
        }
    }
}

#[test]
fn trace_ends_in_its_only_halt() {
    let cmds = fusion_all(
        vec![P::new(0, 0, 0), P::new(0, 0, 2), P::new(5, 5, 5)],
        vec![vec![Command::SMove(P::new(0, 0, 2))], vec![], vec![Command::SMove(P::new(0, 3, 0))]],
    )
    .unwrap();
    assert_eq!(cmds.last(), Some(&Command::Halt));
    assert_eq!(cmds.iter().filter(|c| **c == Command::Halt).count(), 1);
    // one command per bot in the first round
    assert_eq!(&cmds[0..3], &[Command::SMove(P::new(0, 0, 1)), Command::Wait, Command::SMove(P::new(0, 3, 0))]);
}

#[test]
fn halt_in_a_plan_is_carried_out_as_planned() {
    let cmds = fusion_all(vec![P::new(0, 0, 0)], vec![vec![Command::Halt, Command::SMove(P::new(0, 0, 1))]]);
    assert_eq!(cmds, Some(vec![Command::Halt, Command::SMove(P::new(0, 0, 1)), Command::Halt]));
}
