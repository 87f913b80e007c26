use wata::command::Command;
use wata::point::P;
use wata::solve::{choose_z0, one_step};
use wata::support::target_bottom_up;
use wata::support_z::target_z;

fn cube(r: usize) -> Vec<Vec<Vec<bool>>> {
    vec![vec![vec![false; r]; r]; r]
}

fn cells(t: &Vec<Vec<Vec<bool>>>) -> Vec<(usize, usize, usize)> {
    let mut v = Vec::new();
    for x in 0..t.len() {
        for y in 0..t.len() {
            for z in 0..t.len() {
                if t[x][y][z] {
                    v.push((x, y, z));
                }
            }
        }
    }
    v
}

#[test]
fn choose_z0_finds_the_half_way_layer() {
    let mut t = cube(3);
    t[0][0][0] = true;
    t[1][1][2] = true;
    t[2][2][2] = true;
    assert_eq!(choose_z0(&t), 2);
    let mut u = cube(3);
    u[0][0][0] = true;
    u[1][0][0] = true;
    u[0][1][2] = true;
    assert_eq!(choose_z0(&u), 0);
}

#[test]
fn choose_z0_of_empty_shape_is_last_layer() {
    let t = cube(4);
    assert_eq!(choose_z0(&t), 3);
}

#[test]
fn one_step_in_small_open_grid() {
    let moves = one_step(0, 0, 2, |_x: i32, _z: i32| false);
    assert_eq!(
        moves,
        vec![
            (0, 1, Command::SMove(P::new(0, 0, 1))),
            (1, 1, Command::LMove(P::new(0, 0, 1), P::new(1, 0, 0))),
            (1, 0, Command::SMove(P::new(1, 0, 0))),
            (1, 1, Command::LMove(P::new(1, 0, 0), P::new(0, 0, 1))),
        ]
    );
}

#[test]
fn one_step_stops_at_blocked_cells() {
    let moves = one_step(0, 0, 3, |x: i32, z: i32| x == 1 || z == 1);
    assert!(moves.is_empty());
    let long = one_step(0, 0, 20, |x: i32, _z: i32| x != 0);
    // only straight moves along +z, up to 15 cells
    assert_eq!(long.len(), 15);
    assert_eq!(long[14], (0, 15, Command::SMove(P::new(0, 0, 15))));
}

#[test]
fn one_step_walks_around_a_single_blocked_cell() {
    let moves = one_step(0, 0, 3, |x: i32, z: i32| x == 1 && z == 0);
    assert_eq!(
        moves,
        vec![
            (0, 1, Command::SMove(P::new(0, 0, 1))),
            (1, 1, Command::LMove(P::new(0, 0, 1), P::new(1, 0, 0))),
            (2, 1, Command::LMove(P::new(0, 0, 1), P::new(2, 0, 0))),
            (0, 2, Command::SMove(P::new(0, 0, 2))),
            (1, 2, Command::LMove(P::new(0, 0, 2), P::new(1, 0, 0))),
            (2, 2, Command::LMove(P::new(0, 0, 2), P::new(2, 0, 0))),
        ]
    );
}

#[test]
fn one_step_from_far_outside_the_grid_has_no_moves() {
    assert!(one_step(i32::MAX - 1, i32::MIN + 1, 5, |_x: i32, _z: i32| false).is_empty());
    let moves = one_step(-1, 0, 3, |_x: i32, _z: i32| false);
    assert_eq!(moves[0], (1, 0, Command::SMove(P::new(1, 0, 0))));
}

#[test]
fn bottom_up_support_fills_column() {
    let mut t = cube(3);
    t[0][2][0] = true;
    let res = target_bottom_up(&t);
    assert_eq!(cells(&res), vec![(0, 0, 0), (0, 1, 0), (0, 2, 0)]);
}

#[test]
fn bottom_up_leaves_grounded_shape_alone() {
    let mut t = cube(3);
    t[0][0][0] = true;
    t[0][1][0] = true;
    t[1][1][0] = true;
    let res = target_bottom_up(&t);
    assert_eq!(cells(&res), cells(&t));
}

#[test]
fn z_support_fills_down_to_floor() {
    let mut t = cube(3);
    t[0][1][1] = true;
    let res = target_z(&t, 1);
    assert_eq!(cells(&res), vec![(0, 0, 1), (0, 1, 1)]);
}

#[test]
fn bottom_up_supports_highest_column_first() {
    let mut t = cube(4);
    t[0][2][0] = true;
    t[1][2][1] = true;
    t[1][0][1] = true;
    let res = target_bottom_up(&t);
    assert_eq!(
        cells(&res),
        vec![(0, 0, 0), (0, 1, 0), (0, 2, 0), (1, 0, 1), (1, 1, 1), (1, 2, 1)]
    );
}

#[test]
fn bottom_up_spreads_within_a_layer() {
    let mut t = cube(4);
    t[0][0][0] = true;
    t[0][1][0] = true;
    t[0][2][0] = true;
    t[1][2][0] = true;
    t[1][2][1] = true;
    let res = target_bottom_up(&t);
    assert_eq!(cells(&res), cells(&t));
}

#[test]
fn z_support_spreads_and_fills() {
    let mut t = cube(4);
    t[0][0][1] = true;
    t[1][0][1] = true;
    t[2][1][1] = true;
    let res = target_z(&t, 1);
    // (2, 1, 1) is not reached from the floor cells of its layer and gets a
    // column down to the floor
    assert_eq!(cells(&res), vec![(0, 0, 1), (1, 0, 1), (2, 0, 1), (2, 1, 1)]);
}
