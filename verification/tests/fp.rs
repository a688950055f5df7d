use calyx_runtime::fp::{Coords, LinMap};

fn cols7() -> Vec<Coords> {
    vec![Coords::W(vec![1, 2, 0]), Coords::W(vec![0, 1, 3]), Coords::W(vec![5, 0, 1])]
}

#[test]
fn inverse_and_left_inverse() {
    let cols = cols7();
    let m = LinMap::from_columns(7, &cols, 3);
    let inv = m.inverse().unwrap();
    let v = Coords::W(vec![3, 4, 5]);
    assert_eq!(m.apply(&inv.apply(&v)), v);
    // An injective 3x2 map.
    let e = LinMap::from_columns(7, &cols[..2], 3);
    let l = e.left_inverse().unwrap();
    let x = Coords::W(vec![6, 2]);
    assert_eq!(l.apply(&e.apply(&x)), x);
}

#[test]
fn solve_singular_systems() {
    // The first column is zero and the third twice the second: both free.
    let cols = [Coords::W(vec![0, 0]), Coords::W(vec![1, 2]), Coords::W(vec![2, 4])];
    let m = LinMap::from_columns(5, &cols, 2);
    let b = Coords::W(vec![3, 1]);
    assert_eq!(m.solve(&b), Some(Coords::W(vec![0, 3, 0])));
    assert_eq!(m.solve(&Coords::W(vec![1, 1])), None);
}

#[test]
fn apply_multiplies_by_the_columns() {
    let m = LinMap::from_columns(7, &cols7(), 3);
    assert_eq!(m.apply(&Coords::W(vec![1, 1, 1])), Coords::W(vec![6, 3, 4]));
    assert_eq!(m.apply(&Coords::W(vec![0, 0, 0])), Coords::W(vec![0, 0, 0]));
}

#[test]
fn inverse_undoes_on_the_other_side_too() {
    let m = LinMap::from_columns(7, &cols7(), 3);
    let inv = m.inverse().unwrap();
    for v in [vec![1, 0, 0], vec![0, 1, 0], vec![0, 0, 1], vec![6, 6, 6]] {
        let c = Coords::W(v);
        assert_eq!(inv.apply(&m.apply(&c)), c);
    }
}

#[test]
fn singular_maps_have_no_inverse() {
    let cols = [Coords::W(vec![1, 2]), Coords::W(vec![2, 4])];
    let m = LinMap::from_columns(5, &cols, 2);
    assert!(m.inverse().is_none());
    // Two equal columns are not injective.
    let e = LinMap::from_columns(5, &[Coords::W(vec![1, 2, 3]), Coords::W(vec![1, 2, 3])], 3);
    assert!(e.left_inverse().is_none());
}

#[test]
fn solve_reduces_the_right_side() {
    let cols = [Coords::W(vec![1, 0]), Coords::W(vec![0, 1])];
    let m = LinMap::from_columns(5, &cols, 2);
    assert_eq!(m.solve(&Coords::W(vec![8, 11])), Some(Coords::W(vec![3, 1])));
}

#[test]
fn short_columns_are_padded_with_zeros() {
    let m = LinMap::from_columns(7, &[Coords::W(vec![2]), Coords::W(vec![3, 4])], 3);
    assert_eq!(m.apply(&Coords::W(vec![1, 1])), Coords::W(vec![5, 4, 0]));
}

#[test]
fn coordinate_vectors() {
    let c = Coords::W(vec![1, 2, 3, 4, 5, 6]);
    assert_eq!(c.len(), 6);
    assert!(!c.is_empty());
    assert!(!c.is_zero());
    assert!(Coords::W(vec![0, 0]).is_zero());
    assert!(Coords::W(vec![]).is_empty());
    assert!(Coords::W(vec![]).is_zero());
    assert_eq!(c.chunk(1, 2), Coords::W(vec![3, 4]));
    assert_eq!(c.chunk(0, 3), Coords::W(vec![1, 2, 3]));
    assert_eq!(c.chunk(5, 0), Coords::W(vec![]));
    let parts = [c.chunk(2, 2), c.chunk(0, 2), Coords::W(vec![])];
    assert_eq!(Coords::concat(&parts), Coords::W(vec![5, 6, 1, 2]));
    assert_eq!(Coords::concat(&[]), Coords::W(vec![]));
}

#[test]
fn left_inverse_reads_the_first_independent_coordinates() {
    // Rows (1, 0), (2, 0), (0, 1): the second row depends on the first.
    let e = LinMap::from_columns(5, &[Coords::W(vec![1, 2, 0]), Coords::W(vec![0, 0, 1])], 3);
    let l = e.left_inverse().unwrap();
    assert_eq!(l.apply(&Coords::W(vec![0, 1, 0])), Coords::W(vec![0, 0]));
    assert_eq!(l.apply(&Coords::W(vec![1, 0, 0])), Coords::W(vec![1, 0]));
    assert_eq!(l.apply(&Coords::W(vec![0, 0, 1])), Coords::W(vec![0, 1]));
    let x = Coords::W(vec![3, 4]);
    assert_eq!(l.apply(&e.apply(&x)), x);
}
