use wata::command::Command;
use wata::layer::{layer_picture, Bot};
use wata::point::P;
use wata::scaffold::support_segments;
use wata::starts::{bottom_starts, layer_span, side_starts, spread_starts, top_layer};
use wata::transpose::{swap_commands_xz, transpose_xz};

fn cube(r: usize) -> Vec<Vec<Vec<bool>>> {
    vec![vec![vec![false; r]; r]; r]
}

#[test]
fn layer_picture_marks_cells_and_bots() {
    let mut target = cube(2);
    let mut filled = cube(2);
    let mut ground = vec![vec![false; 2]; 2];
    target[0][0][0] = true;
    filled[1][0][1] = true;
    ground[0][1] = true;
    let bots = vec![
        Bot { bid: 0, p: P::new(0, 1, 0), commands: vec![] },
        Bot { bid: 1, p: P::new(1, 1, 0), commands: vec![Command::Wait] },
        Bot { bid: 2, p: P::new(1, 0, 0), commands: vec![] },
    ];
    let out = layer_picture(&target, &filled, &ground, &bots, 0);
    assert_eq!(out, vec![vec!['T', 'g'], vec!['B', 'f']]);
}

#[test]
fn layer_picture_without_bots() {
    let mut target = cube(2);
    let filled = cube(2);
    let ground = vec![vec![false; 2]; 2];
    target[1][1][1] = true;
    let out = layer_picture(&target, &filled, &ground, &vec![], 1);
    assert_eq!(out, vec![vec!['.', '.'], vec!['.', 't']]);
}

#[test]
fn support_segments_of_short_run() {
    let mut target = cube(3);
    let mut filled = cube(3);
    target[0][2][0] = true;
    filled[0][0][0] = true;
    filled[0][1][0] = true;
    filled[0][2][0] = true;
    let s = support_segments(&target, &filled);
    assert_eq!(s, vec![[P::new(0, 0, 0), P::new(0, 1, 0)]]);
}

#[test]
fn support_segments_cut_long_runs() {
    let r = 40;
    let mut target = cube(r);
    let mut filled = cube(r);
    target[0][39][0] = true;
    for y in 0..40 {
        filled[0][y][0] = true;
    }
    target[1][5][2] = true;
    filled[1][3][2] = true;
    let s = support_segments(&target, &filled);
    assert_eq!(
        s,
        vec![
            [P::new(0, 0, 0), P::new(0, 30, 0)],
            [P::new(0, 31, 0), P::new(0, 38, 0)],
            [P::new(1, 3, 2), P::new(1, 4, 2)],
        ]
    );
}

#[test]
fn support_segments_without_supports() {
    let mut target = cube(2);
    target[0][0][0] = true;
    let filled = target.clone();
    assert!(support_segments(&target, &filled).is_empty());
}

#[test]
fn spread_picks_evenly() {
    let c: Vec<P> = (0..5).map(|i| P::new(i, 0, 0)).collect();
    let e = vec![P::new(9, 9, 9)];
    assert_eq!(spread_starts(&c, &e, 2), vec![P::new(0, 0, 0), P::new(2, 0, 0)]);
    assert_eq!(spread_starts(&c, &e, 5), c);
    assert!(spread_starts(&c, &e, 0).is_empty());
}

#[test]
fn spread_tops_up_from_fallbacks() {
    let c = vec![P::new(0, 0, 0)];
    let e = vec![P::new(1, 0, 0), P::new(2, 0, 0), P::new(3, 0, 0)];
    assert_eq!(spread_starts(&c, &e, 3), vec![P::new(0, 0, 0), P::new(1, 0, 0), P::new(2, 0, 0)]);
    assert_eq!(spread_starts(&c, &e, 9).len(), 4);
}

#[test]
fn bottom_starts_prefer_shape_cells() {
    let mut t = cube(2);
    t[1][0][1] = true;
    assert_eq!(bottom_starts(&t, 2), vec![P::new(1, 1, 1), P::new(0, 1, 0)]);
    assert_eq!(bottom_starts(&t, 1), vec![P::new(1, 1, 1)]);
}

#[test]
fn side_starts_beside_first_layer() {
    let mut t = cube(3);
    t[0][0][1] = true;
    t[2][1][1] = true;
    t[1][1][0] = true;
    // going up from z0 = 1: layer 1, bots at z = 2
    assert_eq!(side_starts(&t, 1, -1, 2), vec![P::new(0, 0, 2), P::new(2, 1, 2)]);
    // going down from z0 = 1: layer 0, bots at z = -1
    assert_eq!(side_starts(&t, 1, 1, 2), vec![P::new(1, 1, -1), P::new(0, 0, -1)]);
}

#[test]
fn top_layer_finds_highest_used_layer() {
    let mut t = cube(4);
    assert_eq!(top_layer(&t), 0);
    t[3][2][0] = true;
    t[0][1][1] = true;
    assert_eq!(top_layer(&t), 2);
}

#[test]
fn layer_span_counts_used_layers() {
    let mut t = cube(4);
    t[0][0][1] = true;
    t[0][0][2] = true;
    t[0][0][0] = true;
    assert_eq!(layer_span(&t, 1, -1), 2);
    assert_eq!(layer_span(&t, 1, 1), 1);
    assert_eq!(layer_span(&t, 4, -1), 0);
    assert_eq!(layer_span(&t, 0, 1), 0);
}

#[test]
fn transpose_swaps_x_and_z() {
    let mut t = cube(3);
    t[2][0][1] = true;
    let u = transpose_xz(&t);
    assert!(u[1][0][2]);
    assert!(!u[2][0][1]);
    assert_eq!(transpose_xz(&u), t);
}

#[test]
fn swap_commands_swaps_offsets() {
    let mut cmds = vec![
        Command::SMove(P::new(1, 2, 3)),
        Command::LMove(P::new(1, 0, 0), P::new(0, 0, -2)),
        Command::Fission(P::new(0, 1, 1), 4),
        Command::Halt,
    ];
    swap_commands_xz(&mut cmds);
    assert_eq!(
        cmds,
        vec![
            Command::SMove(P::new(3, 2, 1)),
            Command::LMove(P::new(0, 0, 1), P::new(-2, 0, 0)),
            Command::Fission(P::new(1, 1, 0), 4),
            Command::Halt,
        ]
    );
}
