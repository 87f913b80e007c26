use wata::command::Command;
use wata::point::P;

#[test]
fn fixed_words() {
    assert_eq!(Command::Halt.to_string(), "HALT");
    assert_eq!(Command::Wait.to_string(), "WAIT");
}

#[test]
fn straight_moves_name_the_axis_and_length() {
    assert_eq!(Command::SMove(P::new(0, -3, 0)).to_string(), "SMOVE y 3");
    assert_eq!(Command::SMove(P::new(0, 0, 15)).to_string(), "SMOVE z 15");
    assert_eq!(Command::SMove(P::new(2, 0, 0)).to_string(), "SMOVE x  2");
}

#[test]
fn long_moves_name_both_legs() {
    assert_eq!(
        Command::LMove(P::new(0, 0, -2), P::new(1, 0, 0)).to_string(),
        "LMOVE z 2 x  1"
    );
    assert_eq!(
        Command::LMove(P::new(0, 5, 0), P::new(0, 0, -4)).to_string(),
        "LMOVE y 5 z 4"
    );
}

#[test]
fn coordinate_commands() {
    assert_eq!(Command::FusionP(P::new(1, -1, 0)).to_string(), "FUSIONP 1 -1 0");
    assert_eq!(Command::FusionS(P::new(-1, 1, 0)).to_string(), "FUSIONS -1 1 0");
    assert_eq!(Command::Fission(P::new(0, 0, 1), 5).to_string(), "FISSION 0 0 1 5");
    assert_eq!(Command::Fill(P::new(0, -1, 1)).to_string(), "FILL 0 -1 1");
    assert_eq!(Command::Fission(P::new(1, 0, 0), 123).to_string(), "FISSION 1 0 0 123");
}
