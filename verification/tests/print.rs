use calyx_runtime::print::{int_poly, is_compound, join_terms, power, term};
use calyx_runtime::reals::{common_bits, fixed_of};
use calyx_runtime::interp::Interp;

#[test]
fn terms_with_unit_and_compound_coefficients() {
    assert_eq!(term("3", "x^2"), "3*x^2");
    assert_eq!(term("1", "x"), "x");
    assert_eq!(term("-1", "x"), "-x");
    assert_eq!(term("a + 1", "x"), "(a + 1)*x");
    assert_eq!(term("a - 1", "x"), "(a - 1)*x");
    assert_eq!(term("-2", "x"), "-2*x");
    assert_eq!(term("5", ""), "5");
    assert_eq!(term("1", ""), "1");
    assert!(is_compound("x + 1"));
    assert!(is_compound("x - 1"));
    assert!(!is_compound("-x"));
    assert!(!is_compound("x+1"));
    assert!(!is_compound(""));
}

#[test]
fn sums_of_terms() {
    let s = |v: &[&str]| v.iter().map(|t| t.to_string()).collect::<Vec<String>>();
    assert_eq!(join_terms(&s(&[])), "0");
    assert_eq!(join_terms(&s(&["x"])), "x");
    assert_eq!(join_terms(&s(&["-x"])), "-x");
    assert_eq!(join_terms(&s(&["x^2", "-3*x", "2"])), "x^2 - 3*x + 2");
    assert_eq!(power("x", 0), "");
    assert_eq!(power("x", 1), "x");
    assert_eq!(power("x", 12), "x^12");
}

#[test]
fn integer_polynomials() {
    let s = |v: &[&str]| v.iter().map(|t| t.to_string()).collect::<Vec<String>>();
    assert_eq!(int_poly(&s(&["2", "-3", "1"]), "x"), "x^2 - 3*x + 2");
    assert_eq!(int_poly(&s(&["-1", "0", "0", "1"]), "a"), "a^3 - 1");
    assert_eq!(int_poly(&s(&["0", "-1"]), "t"), "-t");
    assert_eq!(int_poly(&s(&["0", "0"]), "t"), "0");
    assert_eq!(int_poly(&s(&[]), "t"), "0");
}

#[test]
fn mixed_precisions_round_to_the_smaller() {
    let it = Interp::new();
    assert_eq!(common_bits(&it, Some(100), Some(60)), 60);
    assert_eq!(common_bits(&it, None, Some(60)), 60);
    assert_eq!(common_bits(&it, Some(200), None), 200);
    assert_eq!(common_bits(&it, None, None), 100);
    assert_eq!(fixed_of(Some(3), Some(2)), Some(2));
    assert_eq!(fixed_of(None, Some(3)), Some(3));
    assert_eq!(fixed_of(Some(3), None), Some(3));
    assert_eq!(fixed_of(None, None), None);
}
