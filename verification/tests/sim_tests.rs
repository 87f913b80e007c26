use wata::command::Command;
use wata::point::P;
use wata::sim::{Bot, SimState};

#[test]
fn initial_bot() {
    let b = Bot::new();
    assert_eq!(b.bid, 1);
    assert_eq!(b.p, P::new(0, 0, 0));
    assert_eq!(b.seeds, (2..=20).collect::<Vec<usize>>());
}

#[test]
fn fission_hands_out_smallest_seeds() {
    let mut b = Bot::new();
    let c = b.fission(P::new(1, 0, 0), 5);
    assert_eq!(c.bid, 2);
    assert_eq!(c.p, P::new(1, 0, 0));
    assert_eq!(c.seeds, vec![3, 4, 5, 6, 7]);
    assert_eq!(b.bid, 1);
    assert_eq!(b.seeds, (8..=20).collect::<Vec<usize>>());
}

#[test]
fn fusion_gives_back_identifiers() {
    let mut b = Bot::new();
    let c = b.fission(P::new(0, 1, 0), 2);
    b.fusion(c);
    assert_eq!(b.bid, 1);
    assert_eq!(b.seeds, (2..=20).collect::<Vec<usize>>());
}

#[test]
fn new_state_has_one_bot_and_empty_matrix() {
    let s = SimState::new(3);
    assert_eq!(s.bots.len(), 1);
    assert_eq!(s.bots[0].bid, 1);
    assert_eq!(s.matrix, vec![vec![vec![false; 3]; 3]; 3]);
}

#[test]
fn step_moves_and_splits_bots() {
    let mut s = SimState::new(3);
    s.step(vec![Command::Fission(P::new(1, 0, 0), 5)]);
    assert_eq!(s.bots.len(), 2);
    assert_eq!(s.bots[0].bid, 1);
    assert_eq!(s.bots[1].bid, 2);
    assert_eq!(s.bots[1].p, P::new(1, 0, 0));
    s.step(vec![Command::SMove(P::new(0, 1, 0)), Command::LMove(P::new(0, 0, 1), P::new(1, 0, 0))]);
    assert_eq!(s.bots[0].p, P::new(0, 1, 0));
    assert_eq!(s.bots[1].p, P::new(2, 0, 1));
    s.step(vec![Command::Wait, Command::Fill(P::new(0, 1, 0))]);
    assert_eq!(s.bots[1].p, P::new(2, 0, 1));
}

#[test]
fn step_keeps_every_identifier() {
    let mut s = SimState::new(2);
    s.step(vec![Command::Fission(P::new(0, 0, 1), 3)]);
    s.step(vec![Command::Fission(P::new(1, 0, 0), 2), Command::Wait]);
    let mut ids: Vec<usize> = Vec::new();
    for b in &s.bots {
        ids.push(b.bid);
        ids.extend(b.seeds.iter().copied());
    }
    ids.sort();
    assert_eq!(ids, (1..=20).collect::<Vec<usize>>());
    let bids: Vec<usize> = s.bots.iter().map(|b| b.bid).collect();
    assert_eq!(bids, vec![1, 2, 6]);
}

#[test]
fn step_adds_one_bot_per_fission() {
    let mut s = SimState::new(4);
    s.step(vec![Command::Fission(P::new(1, 0, 0), 6)]);
    s.step(vec![Command::Fission(P::new(0, 1, 0), 2), Command::Fission(P::new(0, 0, 1), 1)]);
    assert_eq!(s.bots.len(), 4);
    s.step(vec![Command::Wait, Command::SMove(P::new(0, 0, 1)), Command::Wait, Command::Fission(P::new(0, 1, 0), 0)]);
    assert_eq!(s.bots.len(), 5);
}

#[test]
fn fission_then_fusion_restores_the_bot() {
    let mut b = Bot::new();
    let c = b.fission(P::new(0, 0, 1), 7);
    let c2 = b.fission(P::new(1, 0, 0), 0);
    b.fusion(c2);
    b.fusion(c);
    assert_eq!(b.bid, 1);
    assert_eq!(b.p, P::new(0, 0, 0));
    assert_eq!(b.seeds, (2..=20).collect::<Vec<usize>>());
}
