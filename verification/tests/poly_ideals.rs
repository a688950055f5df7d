use calyx_runtime::monomials::{bayer_order, divide_out_last, dimension_class, homogenized, independent_set, standard_exponents, standard_monomials, Dim};
use calyx_runtime::weights::{homogeneous_weights, linked_weights};

/// The exponents of the terms of the polynomials in `s` (coefficients
/// ignored), in the variables `vars`: "x^2 + y, x*y - 1".
fn polys(vars: &str, s: &str) -> Vec<Vec<Vec<u64>>> {
    let exps = |m: &str| {
        let mut e = vec![0; vars.len()];
        for f in m
            .split('*')
            .map(str::trim)
            .filter(|f| f.chars().all(|c| c.is_ascii_alphabetic() || c == '^' || c.is_ascii_digit()))
        {
            let (v, k) = f.split_once('^').unwrap_or((f, "1"));
            if let Some(i) = vars.find(v).filter(|_| v.len() == 1) {
                e[i] += k.parse::<u64>().unwrap();
            }
        }
        e
    };
    s.split(',')
        .map(|p| p.replace('-', "+").split('+').map(str::trim).filter(|t| !t.is_empty()).map(exps).collect())
        .collect()
}

#[test]
fn weights_as_magma_finds_them() {
    // The weights of Magma 2.22's easy orders (EasyIdeal), except that
    // for x^2 - y*z^3, x*y Magma finds none (and uses grevlex) where
    // [2, 1, 1] would do.
    let cases: &[(&str, &str, Option<&[u64]>)] = &[
        ("xyz", "x^2 + y, x*y - z", Some(&[1, 2, 3])),
        ("xyz", "x^3 - y, y^2 - z, x*z - 1", Some(&[1, 3, 6])),
        ("xyz", "x*y - 1, x^2 + y^2 - 4", Some(&[1, 1, 1])),
        ("xyz", "x^2 + y, y^2 + z, z^2 + x", None),
        ("xyz", "x^2 + y, x^3 + y^2", None),
        ("xyz", "x*y - z^2, x^3 - y", Some(&[1, 3, 2])),
        ("xyz", "x^2 + y, x*y", Some(&[1, 2, 1])),
        ("xyz", "x + y^2, x*y", Some(&[2, 1, 1])),
        ("xyz", "x*y + z, x^2", Some(&[1, 1, 2])),
        ("xyz", "x^2*y + z^3, x*y", Some(&[1, 1, 1])),
        ("xyz", "x^2 + x, x*y", None),
        ("xyz", "x^6 + y^4, x*y", Some(&[2, 3, 1])),
        ("xyz", "x^2*z + y^3, x*y", Some(&[1, 1, 1])),
        ("xyz", "x + y^2 + z^3, x*y", Some(&[6, 3, 2])),
        ("xyz", "x^2 + y^2 + z, x*y", Some(&[1, 1, 2])),
        ("xyz", "x + y + z^2, x*y", Some(&[2, 2, 1])),
        ("xyz", "x^2 + y + z, x*y", Some(&[1, 2, 2])),
        ("xyz", "x^2 - y, x*y - 1", Some(&[1, 2, 1])),
        ("xyz", "x*y + z, x*z", Some(&[1, 1, 2])),
        ("xyz", "x*y + z^2, x*z", Some(&[1, 1, 1])),
        ("xyz", "x^2 + y*z, x*y", Some(&[1, 1, 1])),
        ("xyz", "x^3 + y*z, x*y", Some(&[1, 1, 2])),
        ("xyz", "x^3 + y*z, x*y, x + z^5", Some(&[5, 14, 1])),
        ("xyz", "x^2 + y, x*y, y^2 + z^3", Some(&[3, 6, 4])),
        ("xyz", "x^4 + y, x^2*y", Some(&[1, 4, 1])),
        ("xyz", "x^2 + y, x*y + 1", Some(&[1, 2, 1])),
        ("xyz", "x - y*z, x*y", Some(&[2, 1, 1])),
        ("xyz", "y - x*z, x*y", Some(&[1, 2, 1])),
        ("xyz", "x*y - z^3, x^2", Some(&[1, 2, 1])),
        ("xyz", "x^5 - y*z, x*y", Some(&[1, 2, 3])),
        ("xyz", "z - x*y^2, x*z", Some(&[1, 1, 3])),
        ("xyz", "x^3 - y^2*z, x*y", Some(&[1, 1, 1])),
        ("xyz", "x^2*y - z, x*z", Some(&[1, 1, 3])),
        ("xyz", "y^3 - x*z^2, x*y", Some(&[1, 1, 1])),
        ("xyz", "x - y^2*z^2, x*y", Some(&[4, 1, 1])),
        ("xyz", "z^3 - x*y, x^2", Some(&[1, 2, 1])),
        ("xyz", "x^2 + y^3 + z^6, x*z", Some(&[3, 2, 1])),
        ("abcd", "a*b - c, a*d", Some(&[1, 1, 2, 1])),
        ("abcd", "a - b*c, a*d", Some(&[2, 1, 1, 1])),
        ("abcd", "a^2 - b, c^3 - d, a*c", Some(&[1, 2, 1, 3])),
        ("abcd", "a*b - c*d, a^2 - d, a*c", Some(&[1, 2, 1, 2])),
        ("abcd", "a^2 - b*c*d, a*b", Some(&[2, 1, 1, 2])),
        ("abcd", "a - b, c^2 - d, a*c", Some(&[1, 1, 1, 2])),
        ("abcd", "a^3 - b*c, d^2 - a, a*b", Some(&[2, 3, 3, 1])),
    ];
    for (vars, s, w) in cases {
        assert_eq!(homogeneous_weights(vars.len(), &polys(vars, s)).as_deref(), *w, "{s}");
    }
}

#[test]
fn dimensions_as_magma_finds_them() {
    // Dimension(Ideal(...)) in Magma 2.22: the dimension is the size of
    // the set of variables (numbered from 0 here).
    let cases: &[(&str, &[usize])] = &[
        ("x*y", &[1, 2]),
        ("y*z", &[0, 2]),
        ("x*z", &[1, 2]),
        ("x*y*z", &[1, 2]),
        ("x^2*y", &[1, 2]),
        ("y^2, x*z", &[2]),
        ("x*y, z^2", &[1]),
        ("x*z, y*z", &[0, 1]),
        ("x*y, y*z", &[0, 2]),
        ("x - 1, y, z", &[]),
    ];
    for (s, u) in cases {
        let lms: Vec<Vec<u64>> = polys("xyz", s).into_iter().map(|p| p[0].clone()).collect();
        assert_eq!(independent_set(3, &lms), *u, "{s}");
    }
    assert_eq!(independent_set(3, &[]), [0, 1, 2]);
    let lms: Vec<Vec<u64>> = vec![vec![2, 0, 0], vec![0, 1, 0], vec![0, 0, 3]];
    assert!(dimension_class(3, &lms) == Dim::Exactly(0));
    assert_eq!(standard_monomials(3, &lms), 6);
    let lms: Vec<Vec<u64>> = vec![vec![2, 0, 0], vec![1, 1, 0]];
    assert!(dimension_class(3, &lms) == Dim::Positive);
    assert!(dimension_class(3, &[vec![0, 0, 0]]) == Dim::Unit);
}

#[test]
fn weights_of_one_ray_are_primitive() {
    // x - y^2 = 0: weights (2, 1); the ray's primitive vector.
    assert_eq!(linked_weights(vec![vec![1, -2]], 2), Some(vec![2, 1]));
    // 2a - 4b = 0 reduces to a = 2b.
    assert_eq!(linked_weights(vec![vec![2, -4]], 2), Some(vec![2, 1]));
    // a + b = 0 has no positive solution.
    assert_eq!(linked_weights(vec![vec![1, 1]], 2), None);
    // A single variable with a non-zero coefficient: only 0.
    assert_eq!(linked_weights(vec![vec![3]], 1), None);
}

#[test]
fn weights_of_a_search_prefer_small_sums() {
    // a - b - c = 0: a = b + c with b, c free; the least sum is (2, 1, 1).
    assert_eq!(linked_weights(vec![vec![1, -1, -1]], 3), Some(vec![2, 1, 1]));
}

#[test]
fn weights_break_ties_toward_later_variables() {
    // 2a = b + c + d: least sum 6, then least largest weight 2; of
    // (2, 2, 1, 1), (2, 1, 2, 1) and (2, 1, 1, 2) the later variables win.
    assert_eq!(linked_weights(vec![vec![-2, 1, 1, 1]], 4), Some(vec![2, 1, 1, 2]));
}

#[test]
fn weights_of_two_equations() {
    // a = b and b = c: the ray of (1, 1, 1).
    assert_eq!(linked_weights(vec![vec![1, -1, 0], vec![0, 1, -1]], 3), Some(vec![1, 1, 1]));
    // a = 2b and b = 2a: only 0.
    assert_eq!(linked_weights(vec![vec![1, -2], vec![-2, 1]], 2), None);
}

#[test]
fn unlinked_variables_weigh_one() {
    // x^2 + y links x and y (y = 2x); z is in no equation.
    assert_eq!(homogeneous_weights(3, &polys("xyz", "x^2 + y")), Some(vec![1, 2, 1]));
}

#[test]
fn weights_without_equations_are_ones() {
    // Each polynomial with at most one non-constant term.
    assert_eq!(homogeneous_weights(3, &polys("xyz", "x^2 + 1, y*z")), Some(vec![1, 1, 1]));
    assert_eq!(homogeneous_weights(2, &[]), Some(vec![1, 1]));
    // One linked set with no equations: every weight 1.
    assert_eq!(linked_weights(vec![], 1), Some(vec![1]));
    assert_eq!(linked_weights(vec![], 3), Some(vec![1, 1, 1]));
    assert_eq!(linked_weights(vec![], 0), None);
}

#[test]
fn weights_refuse_huge_exponents() {
    let big = 1u64 << 21;
    let p = vec![vec![vec![big, 0], vec![0, 1]]];
    assert_eq!(homogeneous_weights(2, &p), None);
    // Alone, a huge term needs no weights.
    let p = vec![vec![vec![big, 0]]];
    assert_eq!(homogeneous_weights(2, &p), Some(vec![1, 1]));
}

#[test]
fn homogeneous_weights_make_terms_level() {
    let ps = polys("xyz", "x^3 + y*z, x*y, x + z^5");
    let w = homogeneous_weights(3, &ps).unwrap();
    for p in &ps {
        let degs: Vec<u64> = p
            .iter()
            .filter(|e| e.iter().any(|&k| k > 0))
            .map(|e| e.iter().zip(&w).map(|(a, b)| a * b).sum())
            .collect();
        assert!(degs.windows(2).all(|d| d[0] == d[1]));
    }
}

#[test]
fn standard_monomials_count_the_staircase() {
    // x^2, x*y, y^2: 1, x, y.
    let lms = vec![vec![2, 0], vec![1, 1], vec![0, 2]];
    assert_eq!(standard_monomials(2, &lms), 3);
    // The unit ideal has none.
    assert_eq!(standard_monomials(2, &[vec![0, 0]]), 0);
    // No variables: just 1.
    assert_eq!(standard_monomials(0, &[]), 1);
}

#[test]
fn independent_sets_avoid_the_monomials() {
    // x*y*z: any two variables; the latest two.
    assert_eq!(independent_set(3, &[vec![1, 1, 1]]), [1, 2]);
    // x, y, z: none.
    assert_eq!(independent_set(3, &[vec![1, 0, 0], vec![0, 1, 0], vec![0, 0, 1]]), Vec::<usize>::new());
}

#[test]
fn standard_monomials_below_a_staircase() {
    assert_eq!(standard_monomials(2, &[vec![2, 0], vec![0, 3]]), 6);
    assert_eq!(standard_monomials(2, &[vec![2, 0], vec![1, 1], vec![0, 3]]), 4);
    assert_eq!(standard_monomials(2, &[vec![0, 0], vec![1, 0], vec![0, 1]]), 0);
    assert_eq!(standard_monomials(1, &[vec![5]]), 5);
    assert_eq!(standard_monomials(0, &[vec![]]), 1);
}

#[test]
fn standard_exponents_list_what_is_counted() {
    let lms = vec![vec![2, 0], vec![0, 2]];
    assert_eq!(standard_exponents(2, &lms), vec![vec![0, 0], vec![0, 1], vec![1, 0], vec![1, 1]]);
    let lms = vec![vec![2, 0], vec![1, 1], vec![0, 3]];
    let ms = standard_exponents(2, &lms);
    assert_eq!(ms, vec![vec![0, 0], vec![0, 1], vec![0, 2], vec![1, 0]]);
    assert_eq!(ms.len() as u128, standard_monomials(2, &lms));
    assert_eq!(standard_exponents(1, &[vec![3]]), vec![vec![0], vec![1], vec![2]]);
    assert_eq!(standard_exponents(0, &[]), vec![Vec::<u64>::new()]);
}

#[test]
fn homogenization_lifts_to_the_top_degree() {
    let t = vec![vec![2, 0], vec![0, 1], vec![0, 0]];
    assert_eq!(homogenized(&[1, 2], &t), vec![vec![0, 2, 0], vec![0, 0, 1], vec![2, 0, 0]]);
    assert_eq!(homogenized(&[1, 1], &[]), Vec::<Vec<u64>>::new());
    assert_eq!(homogenized(&[3], &[vec![1]]), vec![vec![0, 1]]);
}

#[test]
fn bayer_orders_zero_the_least_variable_first() {
    assert_eq!(
        bayer_order(&[1, 2, 3, 4], 2),
        vec![vec![1, 2, 3, 4], vec![1, 2, 0, 4], vec![1, 2, 0, 0], vec![1, 0, 0, 0]]
    );
    assert_eq!(bayer_order(&[5], 0), vec![vec![5]]);
    assert_eq!(bayer_order(&[1, 1, 1], 0), vec![vec![1, 1, 1], vec![0, 1, 1], vec![0, 1, 0]]);
}

#[test]
fn independent_sets_prefer_the_later_variables() {
    // {x} and {y} are both largest for x*y: y is the later.
    assert_eq!(independent_set(2, &[vec![1, 1]]), [1]);
    // x*y, y*z: {x, z} is the only largest.
    assert_eq!(independent_set(3, &[vec![1, 1, 0], vec![0, 1, 1]]), [0, 2]);
    // x*z, y*z: {x, y} is the only largest.
    assert_eq!(independent_set(3, &[vec![1, 0, 1], vec![0, 1, 1]]), [0, 1]);
    // y and z themselves: {x} alone.
    assert_eq!(independent_set(3, &[vec![0, 1, 0], vec![0, 0, 1]]), [0]);
    // One of x, y and one of z, w: the later of each.
    assert_eq!(independent_set(4, &[vec![1, 1, 0, 0], vec![0, 0, 1, 1]]), [1, 3]);
}

#[test]
fn bayer_divides_out_the_last_variable() {
    // y^2 z + x y^3 and x^2: y^2 divides the first, nothing the second.
    let g = vec![vec![vec![0, 2, 1], vec![1, 3, 0]], vec![vec![2, 0, 0]]];
    let (out, k) = divide_out_last(&g, 1, false).unwrap();
    assert_eq!(k, 2);
    assert_eq!(out, vec![vec![vec![0, 0, 1], vec![1, 1, 0]], vec![vec![2, 0, 0]]]);
    // With a homogenizing first variable, which is then dropped.
    let (out, k) = divide_out_last(&g, 1, true).unwrap();
    assert_eq!(k, 2);
    assert_eq!(out, vec![vec![vec![0, 1], vec![1, 0]], vec![vec![0, 0]]]);
    // The variable divides no polynomial: the ideal stays.
    assert_eq!(divide_out_last(&vec![vec![vec![1, 0], vec![0, 2]]], 1, false), None);
}
