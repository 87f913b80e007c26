use wata::bfs::BFS;
use wata::xz::{any_y, shrink};

fn cube(r: usize) -> Vec<Vec<Vec<bool>>> {
    vec![vec![vec![false; r]; r]; r]
}

#[test]
fn bfs_new_has_zero_costs() {
    let b = BFS::new(2);
    assert_eq!(b.cost, vec![vec![vec![0usize; 2]; 2]; 2]);
}

#[test]
fn any_y_projects_columns() {
    let mut f = cube(2);
    f[1][1][0] = true;
    let p = any_y(&f);
    assert_eq!(p, vec![vec![false, false], vec![true, false]]);
}

#[test]
fn any_y_of_empty_grid() {
    let f = cube(3);
    assert_eq!(any_y(&f), vec![vec![false; 3]; 3]);
}

#[test]
fn shrink_covers_every_block_offset() {
    let mut orig = vec![vec![false; 3]; 3];
    orig[2][2] = true;
    let ret = shrink(&orig, 2);
    assert_eq!(ret.len(), 4);
    let expected = vec![vec![false, false], vec![false, true]];
    assert_eq!(ret[0], (-1, -1, expected.clone()));
    assert_eq!(ret[1], (-1, 0, expected.clone()));
    assert_eq!(ret[2], (0, -1, expected.clone()));
    assert_eq!(ret[3], (0, 0, expected));
}

#[test]
fn shrink_cuts_first_block() {
    let mut orig = vec![vec![false; 4]; 4];
    orig[1][0] = true;
    let ret = shrink(&orig, 2);
    // bx = 1: blocks along x are [0, 1), [1, 3), [3, 4).
    assert_eq!(ret[0].0, -1);
    assert_eq!(ret[0].2.len(), 3);
    assert!(ret[0].2[1][0]);
    assert!(!ret[0].2[0][0]);
    // bx = 2: blocks along x are [0, 2), [2, 4).
    assert_eq!(ret[2].0, 0);
    assert_eq!(ret[2].2.len(), 2);
    assert!(ret[2].2[0][0]);
}
