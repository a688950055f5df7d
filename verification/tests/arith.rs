use calyx_runtime::integer::Integer;
use calyx_runtime::arith::{small_binop, BinOp, SmallArg, SmallValue};
use calyx_runtime::nmod::Nmod;
use calyx_runtime::small::{next_index, register, SmallInfo, SmallKind, SmallRings};
use std::rc::Rc;

#[test]
fn residue_division_of_units_is_the_quotient() {
    let m = Nmod::new(7);
    assert_eq!(m.residue_div(3, 5), Some(2));
    assert_eq!(m.residue_div(3, 0), None);
    for y in 1..7 {
        for x in 0..7 {
            let q = m.residue_div(x, y).unwrap();
            assert_eq!(m.mul(q, y), x);
        }
    }
}

#[test]
fn residue_division_by_zero_divisors_uses_the_textbook_cofactor() {
    let m = Nmod::new(12);
    // gcd(6, 12) = 6 with cofactor 1: floor(8 / 6) = 1.
    assert_eq!(m.residue_div(8, 6), Some(1));
    // gcd(8, 12) = 4 with cofactor -1: floor(9 / 4) * -1 = -2.
    assert_eq!(m.residue_div(9, 8), Some(10));
}

#[test]
fn powers_and_integer_residues() {
    let m = Nmod::new(13);
    assert_eq!(m.pow(2, 12), 1);
    assert_eq!(m.pow(3, 0), 1);
    assert_eq!(m.pow(5, 3), 8);
    assert_eq!(m.pow(0, 5), 0);
    let i = Integer::from_i64;
    assert_eq!(i(-1).rem_euclid_word(10), 9);
    assert_eq!(i(i64::MIN).rem_euclid_word(10), 2);
    assert_eq!(i(i64::MAX).rem_euclid_word(10), 7);
    assert_eq!(i(-10).rem_euclid_word(10), 0);
    assert_eq!(i(-3).rem_euclid_word(1), 0);
    // 2^64 = 18446744073709551616.
    let two64 = Integer::from_limbs(false, vec![0, 1]);
    assert_eq!(two64.rem_euclid_word(10), 6);
    assert_eq!(Integer::from_limbs(true, vec![0, 1]).rem_euclid_word(10), 4);
    assert_eq!(two64.to_u64(), None);
    assert_eq!(i(-1).to_u64(), None);
    assert_eq!(Integer::from_limbs(false, vec![5, 0]).to_u64(), Some(5));
    // 3 has order 3 modulo 13 and 2^64 is 1 modulo 3; 2 has order 12 and
    // 2^64 is 4 modulo 12.
    assert_eq!(m.pow_integer(3, &two64), 3);
    assert_eq!(m.pow_integer(2, &two64), 3);
    assert_eq!(m.pow_integer(5, &i(3)), 8);
}

#[test]
fn operators_on_word_elements() {
    let mut rings: SmallRings<()> = SmallRings::new();
    let r = next_index(&rings);
    register(&mut rings, r, SmallInfo { m: Nmod::new(7), kind: SmallKind::Residue }, Rc::new(()));
    let f = next_index(&rings);
    register(&mut rings, f, SmallInfo { m: Nmod::new(5), kind: SmallKind::PrimeField }, Rc::new(()));
    let e = |x: u64| SmallArg::Small(r, x);
    assert_eq!(small_binop(&rings, BinOp::Add, e(5), e(4)), Some(SmallValue::Small(r, 2)));
    assert_eq!(small_binop(&rings, BinOp::Sub, e(2), e(4)), Some(SmallValue::Small(r, 5)));
    assert_eq!(small_binop(&rings, BinOp::Mul, e(3), e(5)), Some(SmallValue::Small(r, 1)));
    assert_eq!(small_binop(&rings, BinOp::Div, e(3), e(5)), Some(SmallValue::Small(r, 2)));
    assert_eq!(small_binop(&rings, BinOp::Div, e(3), e(0)), None);
    assert_eq!(small_binop(&rings, BinOp::IntDiv, e(3), e(5)), Some(SmallValue::Small(r, 2)));
    assert_eq!(small_binop(&rings, BinOp::IntDiv, e(3), e(0)), None);
    assert_eq!(small_binop(&rings, BinOp::Lt, e(3), e(5)), Some(SmallValue::Bool(true)));
    assert_eq!(small_binop(&rings, BinOp::Cmpne, e(3), e(5)), Some(SmallValue::Bool(true)));
    assert_eq!(small_binop(&rings, BinOp::Eq, e(3), e(3)), Some(SmallValue::Bool(true)));
    assert_eq!(small_binop(&rings, BinOp::Ge, e(3), e(5)), Some(SmallValue::Bool(false)));
    assert_eq!(small_binop(&rings, BinOp::Mod, e(3), e(5)), None);
    // Integers count as their residues, and as exponents.
    assert_eq!(small_binop(&rings, BinOp::Add, e(3), SmallArg::Int(Integer::from_i64(-1))), Some(SmallValue::Small(r, 2)));
    assert_eq!(small_binop(&rings, BinOp::Mul, SmallArg::Int(Integer::from_i64(10)), e(2)), Some(SmallValue::Small(r, 6)));
    assert_eq!(small_binop(&rings, BinOp::Pow, e(3), SmallArg::Int(Integer::from_i64(-1))), Some(SmallValue::Small(r, 5)));
    assert_eq!(small_binop(&rings, BinOp::Pow, e(3), SmallArg::Int(Integer::from_i64(6))), Some(SmallValue::Small(r, 1)));
    assert_eq!(small_binop(&rings, BinOp::Pow, e(0), SmallArg::Int(Integer::from_i64(-2))), None);
    // An exponent beyond a word: 3 has order 6 modulo 7, and 2^64 is 4
    // modulo 6; -2^64 is 2 modulo 6.
    let two64 = Integer::from_limbs(false, vec![0, 1]);
    assert_eq!(small_binop(&rings, BinOp::Pow, e(3), SmallArg::Int(two64)), Some(SmallValue::Small(r, 4)));
    let minus = Integer::from_limbs(true, vec![0, 1]);
    assert_eq!(small_binop(&rings, BinOp::Pow, e(3), SmallArg::Int(minus)), Some(SmallValue::Small(r, 2)));
    assert_eq!(small_binop(&rings, BinOp::Pow, SmallArg::Int(Integer::from_i64(2)), e(3)), None);
    assert_eq!(small_binop(&rings, BinOp::Pow, e(2), e(3)), None);
    // Elements of different rings, and integer division in a field.
    assert_eq!(small_binop(&rings, BinOp::Add, e(1), SmallArg::Small(f, 1)), None);
    assert_eq!(small_binop(&rings, BinOp::IntDiv, SmallArg::Small(f, 3), SmallArg::Small(f, 2)), None);
    assert_eq!(small_binop(&rings, BinOp::Div, SmallArg::Small(f, 3), SmallArg::Small(f, 2)), Some(SmallValue::Small(f, 4)));
    assert_eq!(small_binop(&rings, BinOp::Add, SmallArg::Int(Integer::from_i64(1)), SmallArg::Int(Integer::from_i64(2))), None);
}
