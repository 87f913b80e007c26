use wata::command::Command;
use wata::point::P;
use wata::postproc::{cmd_push, contains_point, get_near_pair, path, pop_near_pair};

#[test]
fn cmd_push_grows_moves() {
    let x = P::new(1, 0, 0);
    let y = P::new(0, 1, 0);
    assert_eq!(cmd_push(Command::Wait, x), Command::SMove(x));
    assert_eq!(cmd_push(Command::SMove(P::new(2, 0, 0)), x), Command::SMove(P::new(3, 0, 0)));
    assert_eq!(cmd_push(Command::SMove(P::new(2, 0, 0)), y), Command::LMove(P::new(2, 0, 0), y));
    assert_eq!(
        cmd_push(Command::LMove(P::new(2, 0, 0), y), y),
        Command::LMove(P::new(2, 0, 0), P::new(0, 2, 0))
    );
}

#[test]
fn path_of_straight_move() {
    let steps = path(P::new(0, 0, 0), Command::SMove(P::new(0, 0, 2)));
    assert_eq!(
        steps,
        vec![
            (P::new(0, 0, 1), Command::Wait, Command::SMove(P::new(0, 0, 2))),
            (P::new(0, 0, 2), Command::SMove(P::new(0, 0, 1)), Command::SMove(P::new(0, 0, 1))),
        ]
    );
}

#[test]
fn path_of_long_move() {
    let steps = path(P::new(1, 1, 1), Command::LMove(P::new(1, 0, 0), P::new(0, 0, -1)));
    assert_eq!(
        steps,
        vec![
            (P::new(2, 1, 1), Command::Wait, Command::LMove(P::new(1, 0, 0), P::new(0, 0, -1))),
            (P::new(2, 1, 0), Command::SMove(P::new(1, 0, 0)), Command::SMove(P::new(0, 0, -1))),
        ]
    );
}

#[test]
fn path_of_other_commands_is_empty() {
    assert!(path(P::new(0, 0, 0), Command::Wait).is_empty());
    assert!(path(P::new(0, 0, 0), Command::Fill(P::new(0, 1, 0))).is_empty());
}

#[test]
fn contains_point_searches() {
    let v = vec![P::new(1, 2, 3), P::new(4, 5, 6)];
    assert!(contains_point(&v, P::new(4, 5, 6)));
    assert!(!contains_point(&v, P::new(4, 5, 7)));
}

#[test]
fn near_pair_found_in_order() {
    let v = vec![P::new(1, 1, 1), P::new(5, 5, 5), P::new(2, 2, 1)];
    assert_eq!(get_near_pair(&v), Some((P::new(1, 1, 1), P::new(2, 2, 1))));
    let far = vec![P::new(1, 1, 1), P::new(3, 3, 3)];
    assert_eq!(get_near_pair(&far), None);
}

#[test]
fn pop_near_pair_removes_both() {
    let mut v = vec![P::new(1, 1, 1), P::new(1, 1, 2), P::new(7, 7, 7)];
    assert_eq!(pop_near_pair(&mut v), Some((P::new(1, 1, 1), P::new(1, 1, 2))));
    assert_eq!(v, vec![P::new(7, 7, 7)]);
    assert_eq!(pop_near_pair(&mut v), None);
    assert_eq!(v, vec![P::new(7, 7, 7)]);
}

#[test]
fn pop_near_pair_orders_by_length() {
    let mut v = vec![P::new(2, 2, 2), P::new(3, 2, 1)];
    // (2, 2, 2) is found first; (3, 2, 1) is near it; both have length 6.
    assert_eq!(pop_near_pair(&mut v), Some((P::new(2, 2, 2), P::new(3, 2, 1))));
    let mut w = vec![P::new(2, 2, 2), P::new(3, 3, 2)];
    assert_eq!(pop_near_pair(&mut w), Some((P::new(2, 2, 2), P::new(3, 3, 2))));
    let mut u = vec![P::new(2, 2, 2), P::new(2, 1, 1)];
    // sorted: (2, 1, 1) comes first and has the smaller length.
    u.sort();
    assert_eq!(pop_near_pair(&mut u), Some((P::new(2, 1, 1), P::new(2, 2, 2))));
    assert!(u.is_empty());
}
