use wata::point::P;
use wata::{SetMax, SetMin};

#[test]
fn mlen_sums_absolute_values() {
    let p = P::new(-3, 4, -5);
    assert_eq!(p.mlen(), 12);
    assert_eq!(P::new(0, 0, 0).mlen(), 0);
}

#[test]
fn new_keeps_coordinates() {
    let p = P::new(1, -2, 3);
    assert_eq!(p.x, 1);
    assert_eq!(p.y, -2);
    assert_eq!(p.z, 3);
}

#[test]
fn is_valid_checks_every_axis() {
    assert!(P::new(0, 0, 0).is_valid(1));
    assert!(P::new(2, 2, 2).is_valid(3));
    assert!(!P::new(3, 0, 0).is_valid(3));
    assert!(!P::new(0, -1, 0).is_valid(3));
    assert!(!P::new(0, 0, 3).is_valid(3));
    assert!(!P::new(0, 0, 0).is_valid(0));
}

#[test]
fn near_lists_valid_neighbours_in_table_order() {
    let near = P::new(0, 0, 0).near(3);
    assert_eq!(
        near,
        vec![
            P::new(0, 0, 1),
            P::new(0, 1, 0),
            P::new(0, 1, 1),
            P::new(1, 0, 0),
            P::new(1, 0, 1),
            P::new(1, 1, 0),
        ]
    );
}

#[test]
fn near_of_interior_point_has_eighteen_cells() {
    let p = P::new(5, 5, 5);
    let near = p.near(11);
    assert_eq!(near.len(), 18);
    for q in &near {
        let d = *q - p;
        assert!(d.mlen() == 1 || d.mlen() == 2);
        assert!(d.x.abs() <= 1 && d.y.abs() <= 1 && d.z.abs() <= 1);
    }
}

#[test]
fn near_is_symmetric_on_examples() {
    let r = 4;
    for a in [P::new(0, 0, 0), P::new(1, 2, 3), P::new(3, 3, 0)] {
        for b in a.near(r) {
            assert!(b.near(r).contains(&a));
        }
    }
}

#[test]
fn adj_checks_the_offsets_not_the_cells() {
    assert_eq!(
        P::new(0, 0, 0).adj(5),
        vec![P::new(1, 0, 0), P::new(0, 1, 0), P::new(0, 0, 1)]
    );
    assert_eq!(
        P::new(4, 4, 4).adj(5),
        vec![P::new(5, 4, 4), P::new(4, 5, 4), P::new(4, 4, 5)]
    );
    assert!(P::new(0, 0, 0).adj(1).is_empty());
}

#[test]
fn arithmetic_operators() {
    let a = P::new(1, 2, 3);
    let b = P::new(-4, 5, 0);
    assert_eq!(a + b, P::new(-3, 7, 3));
    assert_eq!(a - b, P::new(5, -3, 3));
    assert_eq!(a * 3, P::new(3, 6, 9));
    assert_eq!(P::new(-7, 6, 0) / 2, P::new(-3, 3, 0));
}

#[test]
fn setmin_and_setmax() {
    let mut a: i32 = 5;
    assert!(a.setmin(3));
    assert_eq!(a, 3);
    assert!(!a.setmin(4));
    assert_eq!(a, 3);
    let mut b: usize = 2;
    assert!(b.setmax(7));
    assert_eq!(b, 7);
    assert!(!b.setmax(7));
    assert_eq!(b, 7);
}
