use wata::command::Command;
use wata::destruction::{fleet_positions, fleet_side, session_offsets, session_side, App, Bot, CommandSet};
use wata::model::Model;
use wata::point::P;

fn model(r: usize) -> Model {
    Model { r, filled: vec![vec![vec![false; r]; r]; r] }
}

#[test]
fn new_app_has_one_bot_at_origin() {
    let m = model(3);
    let app = App::new(&m);
    assert_eq!(app.model.r, 3);
    assert_eq!(app.bots, vec![Bot { bid: 0, p: P::new(0, 0, 0) }]);
    assert!(app.command_sets.is_empty());
    assert!(app.get_trace().is_empty());
}

#[test]
fn uniform_command_set() {
    let cs = CommandSet::new_uniform(3, Command::Wait);
    assert_eq!(cs.commands, vec![Command::Wait; 3]);
}

#[test]
fn move_down_moves_every_bot() {
    let m = model(5);
    let mut app = App::new(&m);
    app.bots = vec![Bot { bid: 0, p: P::new(0, 4, 0) }, Bot { bid: 1, p: P::new(2, 4, 3) }];
    app.move_down();
    assert_eq!(app.bots[0].p, P::new(0, 3, 0));
    assert_eq!(app.bots[1].p, P::new(2, 3, 3));
    assert_eq!(app.get_trace(), vec![Command::SMove(P::new(0, -1, 0)); 2]);
}

#[test]
fn move_to_next_session_plans_legal_moves() {
    let m = model(40);
    let mut app = App::new(&m);
    app.bots = vec![Bot { bid: 0, p: P::new(0, 0, 0) }, Bot { bid: 1, p: P::new(30, 0, 0) }];
    app.move_to_next_session(P::new(3, 20, 7));
    assert_eq!(app.bots[0].p, P::new(3, 20, 7));
    assert_eq!(app.bots[1].p, P::new(33, 20, 7));
    let s1 = Command::SMove(P::new(0, 15, 0));
    let s2 = Command::LMove(P::new(0, 5, 0), P::new(3, 0, 0));
    let s3 = Command::SMove(P::new(0, 0, 7));
    assert_eq!(app.get_trace(), vec![s1, s1, s2, s2, s3, s3]);
}

#[test]
fn move_to_next_session_horizontal() {
    let m = model(40);
    let mut app = App::new(&m);
    app.move_to_next_session(P::new(-20, 0, 3));
    assert_eq!(app.bots[0].p, P::new(-20, 0, 3));
    assert_eq!(
        app.get_trace(),
        vec![
            Command::SMove(P::new(-15, 0, 0)),
            Command::LMove(P::new(-5, 0, 0), P::new(0, 0, 3)),
        ]
    );
}

#[test]
fn move_to_next_session_zero_offset_plans_nothing() {
    let m = model(2);
    let mut app = App::new(&m);
    app.move_to_next_session(P::new(0, 0, 0));
    assert!(app.command_sets.is_empty());
    assert_eq!(app.bots[0].p, P::new(0, 0, 0));
}

#[test]
fn trace_concatenates_all_phases() {
    let m = model(2);
    let mut app = App::new(&m);
    app.fission_commands = vec![Command::Fission(P::new(1, 0, 0), 0)];
    app.fusion_commands = vec![Command::Halt];
    app.command_sets.push(CommandSet::new_uniform(2, Command::Wait));
    app.command_sets.push(CommandSet { commands: vec![Command::Fill(P::new(0, 1, 0))] });
    assert_eq!(
        app.get_trace(),
        vec![
            Command::Fission(P::new(1, 0, 0), 0),
            Command::Wait,
            Command::Wait,
            Command::Fill(P::new(0, 1, 0)),
            Command::Halt,
        ]
    );
}

#[test]
fn fleet_side_grows_with_the_grid_up_to_six() {
    assert_eq!(fleet_side(1), 2);
    assert_eq!(fleet_side(30), 2);
    assert_eq!(fleet_side(31), 3);
    assert_eq!(fleet_side(121), 6);
    assert_eq!(fleet_side(250), 6);
}

#[test]
fn session_side_is_clamped_to_the_grid() {
    assert_eq!(session_side(40, 3), 40);
    assert_eq!(session_side(250, 6), 151);
    assert_eq!(session_side(10, 1), 1);
}

#[test]
fn sessions_push_the_last_strip_back_to_the_wall() {
    assert_eq!(session_offsets(250, 151, 151), vec![(0, 0), (0, 99), (99, 0), (99, 99)]);
    assert_eq!(session_offsets(10, 4, 10), vec![(0, 0), (4, 0), (6, 0)]);
    assert_eq!(session_offsets(5, 5, 5), vec![(0, 0)]);
}

#[test]
fn sessions_cover_every_column() {
    let (r, sx, sz) = (23, 7, 5);
    let sessions = session_offsets(r, sx, sz);
    for x in 0..r {
        for z in 0..r {
            assert!(sessions.iter().any(|&(ox, oz)| ox <= x && x < ox + sx && oz <= z && z < oz + sz));
        }
    }
    for &(ox, oz) in sessions.iter() {
        assert!(0 <= ox && ox + sx <= r && 0 <= oz && oz + sz <= r);
    }
}

#[test]
fn fleet_starts_on_the_top_layer() {
    assert_eq!(
        fleet_positions(40, 2, 3),
        vec![
            P::new(0, 39, 0),
            P::new(0, 39, 30),
            P::new(0, 39, 39),
            P::new(30, 39, 0),
            P::new(30, 39, 30),
            P::new(30, 39, 39),
        ]
    );
}

#[test]
fn fission_places_each_bot_where_the_order_says() {
    let m = model(40);
    let mut app = App::new(&m);
    let cmds = vec![Command::Fission(P::new(0, 1, 0), 3)];
    let grid = app.fission(2, 2, &vec![3, 1, 4, 2], cmds.clone());
    assert_eq!(grid, vec![vec![2, 0], vec![3, 1]]);
    assert_eq!(
        app.bots,
        vec![
            Bot { bid: 0, p: P::new(0, 39, 30) },
            Bot { bid: 1, p: P::new(30, 39, 30) },
            Bot { bid: 2, p: P::new(0, 39, 0) },
            Bot { bid: 3, p: P::new(30, 39, 0) },
        ]
    );
    assert_eq!(app.fission_commands, cmds);
}

#[test]
fn fission_with_repeated_ids_leaves_bots_unplaced() {
    let m = model(40);
    let mut app = App::new(&m);
    let grid = app.fission(2, 2, &vec![1, 1, 2, 2], vec![]);
    assert_eq!(grid, vec![vec![0, 0], vec![1, 1]]);
    assert_eq!(app.bots[0].p, P::new(0, 39, 30));
    assert_eq!(app.bots[1].p, P::new(30, 39, 30));
    assert_eq!(app.bots[2].p, P::new(-1, -1, -1));
    assert_eq!(app.bots[3].p, P::new(-1, -1, -1));
}
