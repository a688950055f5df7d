use calyx_runtime::arith::BinOp;
use calyx_runtime::integer::Integer;
use calyx_runtime::interp::Interp;
use calyx_runtime::perms::{perm_binop, PermArg, PermError, PermValue};
use calyx_runtime::perms::{factorial_factorization, images_from_seq, sym_degree, StructKind, SymSource};


fn integer(x: i64) -> Integer {
    Integer::from_i64(x)
}

#[test]
fn products_compose_left_to_right() {
    let mut it = Interp::new();
    // (1, 2) then (2, 3): 1 -> 2 -> 3, 2 -> 1, 3 -> 2.
    let a = it.perm(vec![1, 0, 2]);
    let b = it.perm(vec![0, 2, 1]);
    assert_eq!(a.mul(&b).images, vec![2, 0, 1]);
    assert_eq!(b.mul(&a).images, vec![1, 2, 0]);
}

#[test]
fn inverses_cancel() {
    let mut it = Interp::new();
    let p = it.perm(vec![2, 0, 3, 1]);
    let q = p.inverse();
    assert_eq!(q.images, vec![1, 3, 0, 2]);
    assert!(p.mul(&q).is_identity());
    assert!(q.mul(&p).is_identity());
}

#[test]
fn conjugates_relabel_the_points() {
    let mut it = Interp::new();
    let p = it.perm(vec![1, 0, 2]);
    let q = it.perm(vec![0, 2, 1]);
    // q^-1 p q = (1, 3).
    assert_eq!(p.conjugate(&q).images, vec![2, 1, 0]);
}

#[test]
fn cycles_and_their_notation() {
    let mut it = Interp::new();
    let p = it.perm(vec![1, 2, 0, 4, 3]);
    assert_eq!(p.cycles(), vec![vec![0, 1, 2], vec![3, 4]]);
    assert_eq!(p.cycle_notation().as_deref(), Some("(1, 2, 3)(4, 5)"));
    assert_eq!(p.sign(), -1);
    let e = it.perm_identity(4);
    assert!(e.is_identity());
    assert_eq!(e.cycle_notation(), None);
    assert_eq!(e.sign(), 1);
    assert_eq!(e.degree(), 4);
}

#[test]
fn signs_of_cycles() {
    let mut it = Interp::new();
    assert_eq!(it.perm(vec![1, 2, 0]).sign(), 1);
    assert_eq!(it.perm(vec![1, 0]).sign(), -1);
    assert_eq!(it.perm(vec![1, 2, 3, 0]).sign(), -1);
}

#[test]
fn signs_count_points_less_cycles() {
    let mut it = Interp::new();
    // (1, 2)(3, 4, 5): five points in two cycles, 5 - 2 odd.
    let p = it.perm(vec![1, 0, 3, 4, 2]);
    assert_eq!(p.cycles().len(), 2);
    assert_eq!(p.sign(), -1);
    // (1, 2)(3, 4) and the fixed point 5: three cycles, 5 - 3 even.
    let q = it.perm(vec![1, 0, 3, 2, 4]);
    assert_eq!(q.cycles().len(), 3);
    assert_eq!(q.sign(), 1);
    // Inverting keeps the sign.
    assert_eq!(p.inverse().sign(), p.sign());
    assert_eq!(q.inverse().sign(), q.sign());
}

#[test]
fn factorials_as_magma_prints_them() {
    assert_eq!(factorial_factorization(0), "1");
    assert_eq!(factorial_factorization(1), "1");
    assert_eq!(factorial_factorization(2), "2");
    assert_eq!(factorial_factorization(3), "2 * 3");
    assert_eq!(factorial_factorization(5), "2^3 * 3 * 5");
    assert_eq!(factorial_factorization(10), "2^8 * 3^4 * 5^2 * 7");
}

#[test]
fn sequences_that_are_permutations() {
    assert_eq!(images_from_seq(&[Some(2), Some(3), Some(1)], 3), Some(vec![1, 2, 0]));
    assert_eq!(images_from_seq(&[Some(2), Some(2), Some(1)], 3), None);
    assert_eq!(images_from_seq(&[Some(2), Some(4), Some(1)], 3), None);
    assert_eq!(images_from_seq(&[Some(1), None], 2), None);
    assert_eq!(images_from_seq(&[Some(1)], 2), None);
}

#[test]
fn coercions_into_sym() {
    let mut it = Interp::new();
    let one = it.coerce_into_sym(3, &SymSource::Int { is_one: true }).unwrap();
    assert!(one.is_identity());
    assert!(it.coerce_into_sym(3, &SymSource::Int { is_one: false }).unwrap_err().is_none());
    let p = it.coerce_into_sym(3, &SymSource::Sequence(vec![Some(3), Some(1), Some(2)])).unwrap();
    assert_eq!(p.images, vec![2, 0, 1]);
    let q = it.perm(vec![1, 0]);
    let e = it.coerce_into_sym(3, &SymSource::Permutation(q)).unwrap_err();
    assert_eq!(e.as_deref(), Some("Could not find a covering group"));
    assert!(it.coerce_into_sym(3, &SymSource::Other).unwrap_err().is_none());
}

#[test]
fn groups_are_shared() {
    let mut it = Interp::new();
    let g = it.sym_group(4);
    let h = it.sym_group(4);
    assert!(std::rc::Rc::ptr_eq(&g, &h));
    assert_eq!(g.degree, 4);
    let t = it.sym_generator(4, 1);
    assert_eq!(t.degree(), 4);
}

#[test]
fn powers_move_along_the_cycles() {
    let mut it = Interp::new();
    // (1, 2, 3)(4, 5)
    let p = it.perm(vec![1, 2, 0, 4, 3]);
    assert_eq!(p.pow(&integer(0)).images, vec![0, 1, 2, 3, 4]);
    assert_eq!(p.pow(&integer(1)).images, p.images);
    assert_eq!(p.pow(&integer(2)).images, vec![2, 0, 1, 3, 4]);
    assert_eq!(p.pow(&integer(-1)).images, p.inverse().images);
    assert_eq!(p.pow(&integer(6)).images, vec![0, 1, 2, 3, 4]);
    assert_eq!(p.pow(&integer(7)).images, p.images);
    assert_eq!(p.pow(&integer(-5)).images, p.images);
    // -2^63 is 1 modulo 3 and 0 modulo 2.
    assert_eq!(p.pow(&integer(i64::MIN)).images, vec![1, 2, 0, 3, 4]);
    assert_eq!(p.pow(&integer(2)).mul(&p.pow(&integer(3))).images, p.pow(&integer(5)).images);
    // 2^64 + 1 is 2 modulo 3 and 1 modulo 2; its negative 1 and 1.
    let big = Integer::from_limbs(false, vec![1, 1]);
    assert_eq!(p.pow(&big).images, vec![2, 0, 1, 4, 3]);
    let neg_big = Integer::from_limbs(true, vec![1, 1]);
    assert_eq!(p.pow(&neg_big).images, p.images);
    // 2^128 is 1 modulo 3 and 0 modulo 2.
    let huge = Integer::from_limbs(false, vec![0, 0, 1]);
    assert_eq!(p.pow(&huge).images, vec![1, 2, 0, 3, 4]);
}

#[test]
fn operators_on_permutations() {
    let mut it = Interp::new();
    let a = PermArg::Perm(it.perm(vec![1, 0, 2]));
    let b = PermArg::Perm(it.perm(vec![0, 2, 1]));
    let c = PermArg::Perm(it.perm(vec![1, 0]));
    match perm_binop(BinOp::Mul, &a, &b) {
        Ok(Some(PermValue::Perm(z))) => assert_eq!(z.images, vec![2, 0, 1]),
        _ => panic!("a product"),
    }
    match perm_binop(BinOp::Pow, &a, &b) {
        Ok(Some(PermValue::Perm(z))) => assert_eq!(z.images, vec![2, 1, 0]),
        _ => panic!("a conjugate"),
    }
    match perm_binop(BinOp::Pow, &b, &PermArg::Int(integer(-1))) {
        Ok(Some(PermValue::Perm(z))) => assert_eq!(z.images, vec![0, 2, 1]),
        _ => panic!("a power"),
    }
    match perm_binop(BinOp::Pow, &PermArg::Int(integer(2)), &b) {
        Ok(Some(PermValue::Int(k))) => assert_eq!(k, 3),
        _ => panic!("an image"),
    }
    assert!(matches!(perm_binop(BinOp::Pow, &PermArg::Int(integer(4)), &b), Err(PermError::CannotApply)));
    assert!(matches!(perm_binop(BinOp::Pow, &PermArg::Int(integer(0)), &b), Err(PermError::CannotApply)));
    let far = PermArg::Int(Integer::from_limbs(false, vec![2, 1]));
    assert!(matches!(perm_binop(BinOp::Pow, &far, &b), Err(PermError::CannotApply)));
    assert!(matches!(perm_binop(BinOp::Mul, &a, &c), Err(PermError::Incompatible)));
    assert!(matches!(perm_binop(BinOp::Pow, &a, &c), Err(PermError::Incompatible)));
    assert!(matches!(perm_binop(BinOp::Lt, &a, &b), Err(PermError::NoComparison)));
    assert!(matches!(perm_binop(BinOp::Add, &a, &b), Ok(None)));
    assert!(matches!(perm_binop(BinOp::Mul, &a, &PermArg::Other), Ok(None)));
    assert_eq!(PermError::Incompatible.message(), "Arguments are not compatible\nArgument types given: GrpPermElt, GrpPermElt");
    assert_eq!(PermError::CannotApply.message(), "Cannot apply permutation to this object");
}

#[test]
fn degrees_of_symmetric_groups() {
    assert_eq!(sym_degree(&StructKind::SymGroup(4)), Some(4));
    assert_eq!(sym_degree(&StructKind::Other), None);
}
