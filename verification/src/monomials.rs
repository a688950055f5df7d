//! The monomial combinatorics behind ideals of multivariate polynomial
//! rings: weighted degrees, the weights that make polynomials homogeneous
//! (for the "easy" Gröbner basis orders), dimension classes, maximally
//! independent sets of variables, standard monomials, and the exponent
//! maps of variable extension and homogenization.
//!
//! A monomial is given by its exponents, one per variable.

use vstd::prelude::*;

verus! {

/// The dimension of an ideal, as far as it is known.
#[derive(Clone, Copy, Debug, PartialEq, Eq, Structural)]
pub enum Dim {
    /// The ideal is the whole ring (of dimension -1).
    Unit,
    Positive,
    Exactly(usize),
}

/// The order of an easy Gröbner basis.
#[derive(Clone, Copy, PartialEq, Eq, Debug, Structural)]
pub enum EasyKind {
    /// The ring's own order: the easy basis is the Gröbner basis of the
    /// ideal.
    Ring,
    /// grevlex.
    GRevLex,
    /// grevlex with weights that make the generators homogeneous.
    Weighted,
}

// ----- weighted degrees -------------------------------------------------------

/// The weighted degree `w[0] e[0] + w[1] e[1] + ...` of the first `k`
/// exponents.
pub open spec fn wdeg_upto(w: Seq<u64>, e: Seq<u64>, k: int) -> int
    decreases k,
{
    if k <= 0 {
        0
    } else {
        wdeg_upto(w, e, k - 1) + w[k - 1] * e[k - 1]
    }
}

/// The weighted degree of the monomial with exponents `e` for the weights
/// `w` (over the variables that both give).
pub open spec fn wdeg_spec(w: Seq<u64>, e: Seq<u64>) -> int {
    wdeg_upto(w, e, if w.len() < e.len() { w.len() as int } else { e.len() as int })
}

proof fn lemma_wdeg_monotone(w: Seq<u64>, e: Seq<u64>, j: int, k: int)
    requires
        0 <= j <= k <= w.len(),
        k <= e.len(),
    ensures
        0 <= wdeg_upto(w, e, j) <= wdeg_upto(w, e, k),
    decreases k - j,
{
    if j < k {
        lemma_wdeg_monotone(w, e, j, k - 1);
        assert(w[k - 1] * e[k - 1] >= 0) by (nonlinear_arith);
    } else {
        lemma_wdeg_nonneg(w, e, k);
    }
}

proof fn lemma_wdeg_nonneg(w: Seq<u64>, e: Seq<u64>, k: int)
    requires
        0 <= k <= w.len(),
        k <= e.len(),
    ensures
        0 <= wdeg_upto(w, e, k),
    decreases k,
{
    if k > 0 {
        lemma_wdeg_nonneg(w, e, k - 1);
        assert(w[k - 1] * e[k - 1] >= 0) by (nonlinear_arith);
    }
}

/// The weighted degree of the monomial with exponents `e`.
pub fn wdeg(w: &[u64], e: &[u64]) -> (d: u128)
    requires
        wdeg_spec(w@, e@) <= u128::MAX,
    ensures
        d == wdeg_spec(w@, e@),
{
    let k = if w.len() < e.len() { w.len() } else { e.len() };
    let mut d: u128 = 0;
    let mut i: usize = 0;
    while i < k
        invariant
            k <= w.len(),
            k <= e.len(),
            k == (if w.len() < e.len() { w.len() } else { e.len() }),
            i <= k,
            d == wdeg_upto(w@, e@, i as int),
            wdeg_upto(w@, e@, k as int) <= u128::MAX,
        decreases k - i,
    {
        proof {
            lemma_wdeg_monotone(w@, e@, i + 1, k as int);
            lemma_wdeg_nonneg(w@, e@, i as int);
        }
        let t = w[i] as u128 * e[i] as u128;
        d = d + t;
        i += 1;
    }
    d
}

/// The monomials `t` have one weighted degree for the weights `w`.
pub open spec fn homogeneous_spec(w: Seq<u64>, t: Seq<Seq<u64>>) -> bool {
    forall|j: int| 0 <= j < t.len() ==> wdeg_spec(w, #[trigger] t[j]) == wdeg_spec(w, t[0])
}

/// Whether the terms (given by their exponents `t`) of a polynomial have
/// one degree for the weights `w`.
pub fn homogeneous_in(w: &[u64], t: &[Vec<u64>]) -> (b: bool)
    requires
        forall|j: int| 0 <= j < t.len() ==> wdeg_spec(w@, #[trigger] t@[j]@) <= u128::MAX,
    ensures
        b == homogeneous_spec(w@, t@.map_values(|e: Vec<u64>| e@)),
{
    let ghost tv = t@.map_values(|e: Vec<u64>| e@);
    if t.len() == 0 {
        return true;
    }
    let d0 = wdeg(w, t[0].as_slice());
    let mut j: usize = 0;
    while j < t.len()
        invariant
            tv == t@.map_values(|e: Vec<u64>| e@),
            t.len() > 0,
            j <= t.len(),
            d0 == wdeg_spec(w@, tv[0]),
            forall|i: int| 0 <= i < t.len() ==> wdeg_spec(w@, #[trigger] t@[i]@) <= u128::MAX,
            forall|i: int| 0 <= i < j ==> wdeg_spec(w@, #[trigger] tv[i]) == wdeg_spec(w@, tv[0]),
        decreases t.len() - j,
    {
        assert(tv[j as int] == t@[j as int]@);
        if wdeg(w, t[j].as_slice()) != d0 {
            return false;
        }
        j += 1;
    }
    true
}

// ----- leading monomials ------------------------------------------------------

/// The variables of the monomial `e`.
pub open spec fn uses(e: Seq<u64>, i: int) -> bool {
    0 <= i < e.len() && e[i] > 0
}

/// The leading monomials of the non-zero polynomials (`Some`) share no
/// variable.
pub open spec fn pairwise_coprime(lead: Seq<Option<Seq<u64>>>) -> bool {
    forall|a: int, b: int|
        0 <= a < lead.len() && 0 <= b < lead.len() && a != b && (#[trigger] lead[a]) is Some
            && (#[trigger] lead[b]) is Some ==> share_no_variable(lead[a]->0, lead[b]->0)
}

/// The monomials `e` and `f` have no variable in common.
pub open spec fn share_no_variable(e: Seq<u64>, f: Seq<u64>) -> bool {
    forall|i: int| !(#[trigger] uses(e, i) && uses(f, i))
}

/// Whether the leading monomials (given for each polynomial, `None` for
/// zero) of polynomials in `n` variables are pairwise coprime, which makes
/// the polynomials a Gröbner basis.
pub fn coprime_leading(n: usize, lead: &[Option<Vec<u64>>]) -> (b: bool)
    requires
        forall|a: int| 0 <= a < lead.len() ==> ((#[trigger] lead@[a]) is Some ==> lead@[a]->0.len() == n),
    ensures
        b == pairwise_coprime(lead@.map_values(|o: Option<Vec<u64>>| match o {
            Some(e) => Some(e@),
            None => None,
        })),
{
    let ghost lv = lead@.map_values(|o: Option<Vec<u64>>| match o {
        Some(e) => Some(e@),
        None => None,
    });
    let mut used: Vec<bool> = Vec::with_capacity(n);
    let mut k: usize = 0;
    while k < n
        invariant
            k <= n,
            used.len() == k,
            forall|j: int| 0 <= j < k ==> !used@[j],
        decreases n - k,
    {
        used.push(false);
        k += 1;
    }
    let mut a: usize = 0;
    while a < lead.len()
        invariant
            lv == lead@.map_values(|o: Option<Vec<u64>>| match o {
                Some(e) => Some(e@),
                None => None,
            }),
            forall|x: int| 0 <= x < lead.len() ==> ((#[trigger] lead@[x]) is Some ==> lead@[x]->0.len() == n),
            a <= lead.len(),
            used.len() == n,
            pairwise_coprime(lv.take(a as int)),
            forall|i: int| 0 <= i < n ==> (used@[i] <==> exists|x: int| 0 <= x < a && (#[trigger] lv[x]) is Some && uses(lv[x]->0, i)),
        decreases lead.len() - a,
    {
        assert(lv.take(a + 1).drop_last() =~= lv.take(a as int));
        match &lead[a] {
            None => {
                proof {
                    assert forall|i: int| 0 <= i < n implies (used@[i] <==> exists|x: int| 0 <= x < a + 1 && (#[trigger] lv[x]) is Some && uses(lv[x]->0, i)) by {
                        if exists|x: int| 0 <= x < a + 1 && (#[trigger] lv[x]) is Some && uses(lv[x]->0, i) {
                            let x = choose|x: int| 0 <= x < a + 1 && (#[trigger] lv[x]) is Some && uses(lv[x]->0, i);
                            assert(x != a);
                        }
                    }
                    let t = lv.take(a + 1);
                    assert forall|x: int, y: int|
                        0 <= x < t.len() && 0 <= y < t.len() && x != y && (#[trigger] t[x]) is Some
                            && (#[trigger] t[y]) is Some implies share_no_variable(t[x]->0, t[y]->0) by {
                        assert(x != a && y != a);
                        assert(t[x] == lv.take(a as int)[x]);
                        assert(t[y] == lv.take(a as int)[y]);
                    }
                }
            },
            Some(e) => {
                let ghost ev = e@;
                assert(lv[a as int] == Some(ev));
                let ghost before = used@;
                let mut i: usize = 0;
                while i < e.len()
                    invariant
                        lv == lead@.map_values(|o: Option<Vec<u64>>| match o {
                            Some(e) => Some(e@),
                            None => None,
                        }),
                        a < lead.len(),
                        lv[a as int] == Some(ev),
                        forall|j: int| 0 <= j < n ==> (before[j] <==> exists|x: int| 0 <= x < a && (#[trigger] lv[x]) is Some && uses(lv[x]->0, j)),
                        e.len() == n,
                        ev == e@,
                        used.len() == n,
                        i <= n,
                        forall|j: int| 0 <= j < i ==> uses(ev, j) ==> !before[j],
                        forall|j: int| 0 <= j < n ==> (used@[j] <==> (before[j] || (j < i && uses(ev, j)))),
                    decreases n - i,
                {
                    if e[i] > 0 {
                        if used[i] {
                            proof {
                                assert(before[i as int]);
                                let x = choose|x: int| 0 <= x < a && (#[trigger] lv[x]) is Some && uses(lv[x]->0, i as int);
                                assert(0 <= x < a);
                                assert(lv.len() == lead.len());
                                let t = lv.take(a + 1);
                                assert(t[x] == lv[x]);
                                assert(t[a as int] == lv[a as int]);
                                assert(uses(t[a as int]->0, i as int));
                                assert(!share_no_variable(t[x]->0, t[a as int]->0));
                                assert(!pairwise_coprime(lv.take(a + 1)));
                                lemma_coprime_prefix(lv, a + 1);
                            }
                            return false;
                        }
                        used[i] = true;
                    }
                    i += 1;
                }
                proof {
                    assert forall|j: int| 0 <= j < n implies (used@[j] <==> exists|x: int| 0 <= x < a + 1 && (#[trigger] lv[x]) is Some && uses(lv[x]->0, j)) by {
                        if uses(ev, j) {
                            assert(lv[a as int] is Some && uses(lv[a as int]->0, j));
                        }
                        if exists|x: int| 0 <= x < a + 1 && (#[trigger] lv[x]) is Some && uses(lv[x]->0, j) {
                            let x = choose|x: int| 0 <= x < a + 1 && (#[trigger] lv[x]) is Some && uses(lv[x]->0, j);
                            if x < a {
                                assert(before[j]);
                            }
                        }
                    }
                    let t = lv.take(a + 1);
                    assert forall|x: int, y: int|
                        0 <= x < t.len() && 0 <= y < t.len() && x != y && (#[trigger] t[x]) is Some
                            && (#[trigger] t[y]) is Some implies share_no_variable(t[x]->0, t[y]->0) by {
                        if x != a && y != a {
                            assert(t[x] == lv.take(a as int)[x]);
                            assert(t[y] == lv.take(a as int)[y]);
                        } else {
                            assert forall|i: int| !(#[trigger] uses(t[x]->0, i) && uses(t[y]->0, i)) by {
                                if x == a && uses(t[x]->0, i) && uses(t[y]->0, i) {
                                    assert(t[y] == lv[y]);
                                    assert(before[i]);
                                } else if y == a && uses(t[x]->0, i) && uses(t[y]->0, i) {
                                    assert(t[x] == lv[x]);
                                    assert(before[i]);
                                }
                            }
                        }
                    }
                }
            },
        }
        a += 1;
    }
    assert(lv.take(lead.len() as int) =~= lv);
    true
}

/// Pairwise coprimality fails for a sequence once it fails for a prefix.
proof fn lemma_coprime_prefix(lv: Seq<Option<Seq<u64>>>, k: int)
    requires
        0 <= k <= lv.len(),
        !pairwise_coprime(lv.take(k)),
    ensures
        !pairwise_coprime(lv),
{
    let t = lv.take(k);
    let (a, b) = choose|a: int, b: int|
        0 <= a < t.len() && 0 <= b < t.len() && a != b && (#[trigger] t[a]) is Some
            && (#[trigger] t[b]) is Some && !share_no_variable(t[a]->0, t[b]->0);
    assert(lv[a] == t[a] && lv[b] == t[b]);
}

/// The leading monomials of the polynomials (given by the exponents of
/// their terms, in decreasing order): the first term of each non-zero one.
pub fn leading_monomials(ts: &[Vec<Vec<u64>>]) -> (lms: Vec<Vec<u64>>)
    ensures
        lms@.map_values(|e: Vec<u64>| e@) == leading_of(ts@.map_values(|t: Vec<Vec<u64>>| t@.map_values(|e: Vec<u64>| e@))),
        lms.len() == nonzero_count(polys_view(ts@), ts.len() as int),
        forall|a: int|
            0 <= a < ts.len() && ts@[a].len() > 0 ==> #[trigger] lms@[nonzero_count(polys_view(ts@), a)]@ == ts@[a]@[0]@,
{
    let ghost tv = ts@.map_values(|t: Vec<Vec<u64>>| t@.map_values(|e: Vec<u64>| e@));
    let mut lms: Vec<Vec<u64>> = Vec::new();
    let mut a: usize = 0;
    while a < ts.len()
        invariant
            tv == ts@.map_values(|t: Vec<Vec<u64>>| t@.map_values(|e: Vec<u64>| e@)),
            a <= ts.len(),
            lms@.map_values(|e: Vec<u64>| e@) == leading_of(tv.take(a as int)),
        decreases ts.len() - a,
    {
        assert(tv.take(a + 1).drop_last() =~= tv.take(a as int));
        assert(tv.take(a + 1).last() == tv[a as int]);
        if ts[a].len() > 0 {
            let e = ts[a][0].clone();
            assert(tv[a as int][0] == e@);
            lms.push(e);
            assert(lms@.map_values(|e: Vec<u64>| e@) =~= leading_of(tv.take(a + 1)));
        } else {
            assert(tv[a as int].len() == 0);
        }
        a += 1;
    }
    assert(tv.take(ts.len() as int) =~= tv);
    proof {
        assert(tv == polys_view(ts@));
        law_leading_of(tv);
        let lv = lms@.map_values(|e: Vec<u64>| e@);
        assert forall|a: int| 0 <= a < ts.len() && ts@[a].len() > 0 implies #[trigger] lms@[nonzero_count(tv, a)]@
            == ts@[a]@[0]@ by {
            assert(tv[a] == ts@[a]@.map_values(|e: Vec<u64>| e@));
            assert(tv[a].len() > 0);
            assert(leading_of(tv)[nonzero_count(tv, a)] == tv[a][0]);
            lemma_nonzero_count_mono(tv, a + 1, tv.len() as int);
            assert(nonzero_count(tv, a + 1) == nonzero_count(tv, a) + 1);
            assert(lv.len() == lms.len());
            lemma_nonzero_count_prefix(tv, tv, a);
            assert(0 <= nonzero_count(tv, a) < lms.len());
            assert(lv[nonzero_count(tv, a)] == lms@[nonzero_count(tv, a)]@);
        }
    }
    lms
}

/// The first monomial of each non-empty list.
pub open spec fn leading_of(ts: Seq<Seq<Seq<u64>>>) -> Seq<Seq<u64>>
    decreases ts.len(),
{
    if ts.len() == 0 {
        seq![]
    } else if ts.last().len() > 0 {
        leading_of(ts.drop_last()).push(ts.last()[0])
    } else {
        leading_of(ts.drop_last())
    }
}

/// The number of polynomials among the first `k` that have a term.
pub open spec fn nonzero_count(ts: Seq<Seq<Seq<u64>>>, k: int) -> int
    decreases k,
{
    if k <= 0 {
        0
    } else {
        nonzero_count(ts, k - 1) + if ts[k - 1].len() > 0 { 1int } else { 0int }
    }
}

proof fn lemma_nonzero_count_prefix(ts: Seq<Seq<Seq<u64>>>, us: Seq<Seq<Seq<u64>>>, k: int)
    requires
        0 <= k <= ts.len(),
        k <= us.len(),
        forall|a: int| 0 <= a < k ==> ts[a] == us[a],
    ensures
        nonzero_count(ts, k) == nonzero_count(us, k),
        0 <= nonzero_count(ts, k) <= k,
    decreases k,
{
    if k > 0 {
        lemma_nonzero_count_prefix(ts, us, k - 1);
    }
}

/// The leading monomials are the first terms of the polynomials that have
/// terms, one for each, in their order: the polynomial `a` gives the
/// monomial after those of the polynomials with terms before it.
pub proof fn law_leading_of(ts: Seq<Seq<Seq<u64>>>)
    ensures
        leading_of(ts).len() == nonzero_count(ts, ts.len() as int),
        forall|a: int|
            0 <= a < ts.len() && ts[a].len() > 0 ==> #[trigger] leading_of(ts)[nonzero_count(ts, a)] == ts[a][0],
    decreases ts.len(),
{
    if ts.len() > 0 {
        let d = ts.drop_last();
        let l = ts.len() - 1;
        law_leading_of(d);
        lemma_nonzero_count_prefix(ts, d, l);
        assert(ts[l] == ts.last());
        assert forall|a: int| 0 <= a < ts.len() && ts[a].len() > 0 implies #[trigger] leading_of(ts)[nonzero_count(ts, a)]
            == ts[a][0] by {
            lemma_nonzero_count_prefix(ts, d, a);
            if a < l {
                assert(ts[a] == d[a]);
                lemma_nonzero_count_prefix(d, d, l);
                lemma_nonzero_count_mono(d, a + 1, l);
            }
        }
    }
}

proof fn lemma_nonzero_count_mono(ts: Seq<Seq<Seq<u64>>>, a: int, b: int)
    requires
        0 <= a <= b,
    ensures
        nonzero_count(ts, a) <= nonzero_count(ts, b),
    decreases b,
{
    if b > a {
        lemma_nonzero_count_mono(ts, a, b - 1);
    }
}

// ----- dimension --------------------------------------------------------------

/// The monomial `e` is constant.
pub open spec fn is_constant(e: Seq<u64>) -> bool {
    forall|j: int| 0 <= j < e.len() ==> #[trigger] e[j] == 0
}

/// The monomial `e` is a power of the variable `i`.
pub open spec fn is_pure_power(e: Seq<u64>, i: int) -> bool {
    &&& e[i] > 0
    &&& forall|j: int| 0 <= j < e.len() && j != i ==> #[trigger] e[j] == 0
}

/// Some variable `i` has a power among the monomials `lms`.
pub open spec fn has_pure_power(lms: Seq<Vec<u64>>, i: int) -> bool {
    exists|a: int| 0 <= a < lms.len() && is_pure_power(#[trigger] lms[a]@, i)
}

/// The dimension class of the ideal of a ring of rank `n` with a Gröbner
/// basis with leading monomials `lms`.
pub open spec fn dimension_of(n: int, lms: Seq<Vec<u64>>) -> Dim {
    if exists|a: int| 0 <= a < lms.len() && is_constant(#[trigger] lms[a]@) {
        Dim::Unit
    } else if forall|i: int| 0 <= i < n ==> #[trigger] has_pure_power(lms, i) {
        Dim::Exactly(0)
    } else {
        Dim::Positive
    }
}

/// The exponents of `e` below `n` are all 0.
pub open spec fn zero_below(e: Seq<u64>, n: int) -> bool {
    forall|j: int| 0 <= j < n ==> e[j] == 0
}

/// Below `n`, only the exponent of the variable `i` in `e` is not 0.
pub open spec fn only_variable(e: Seq<u64>, n: int, i: int) -> bool {
    &&& e[i] > 0
    &&& forall|j: int| 0 <= j < n && j != i ==> e[j] == 0
}

/// Some monomial of `lms` has only zero exponents below `n`.
pub open spec fn some_constant(n: int, lms: Seq<Vec<u64>>) -> bool {
    exists|a: int| 0 <= a < lms.len() && zero_below(#[trigger] lms[a]@, n)
}

/// Variable `i` has a power among `lms`: a monomial whose only non-zero
/// exponent below `n` is that of `i`.
pub open spec fn power_of_variable(n: int, lms: Seq<Vec<u64>>, i: int) -> bool {
    exists|a: int| 0 <= a < lms.len() && only_variable(#[trigger] lms[a]@, n, i)
}

/// The dimension class says what the leading monomials show: the unit
/// ideal exactly when one is constant; else zero-dimensional exactly when
/// every variable below `n` has a power among them (and never another
/// dimension); positive exactly when some variable has none.
pub proof fn law_dimension_class(n: int, lms: Seq<Vec<u64>>)
    requires
        forall|a: int| 0 <= a < lms.len() ==> (#[trigger] lms[a]).len() == n,
    ensures
        (dimension_of(n, lms) == Dim::Unit) <==> some_constant(n, lms),
        (dimension_of(n, lms) == Dim::Exactly(0)) <==> (!some_constant(n, lms) && forall|i: int|
            0 <= i < n ==> #[trigger] power_of_variable(n, lms, i)),
        (dimension_of(n, lms) == Dim::Positive) <==> (!some_constant(n, lms) && exists|i: int|
            0 <= i < n && !#[trigger] power_of_variable(n, lms, i)),
        dimension_of(n, lms) is Exactly ==> dimension_of(n, lms) == Dim::Exactly(0),
{
    assert forall|a: int| 0 <= a < lms.len() implies (is_constant(#[trigger] lms[a]@) <==> zero_below(lms[a]@, n)) by {
        assert(lms[a]@.len() == n);
    }
    assert forall|a: int, i: int| 0 <= a < lms.len() && 0 <= i < n implies (is_pure_power(#[trigger] lms[a]@, i)
        <==> #[trigger] only_variable(lms[a]@, n, i)) by {
        assert(lms[a]@.len() == n);
    }
    assert(some_constant(n, lms) <==> exists|a: int| 0 <= a < lms.len() && is_constant(#[trigger] lms[a]@)) by {
        if some_constant(n, lms) {
            let a = choose|a: int| 0 <= a < lms.len() && zero_below(#[trigger] lms[a]@, n);
            assert(is_constant(lms[a]@));
        }
        if exists|a: int| 0 <= a < lms.len() && is_constant(#[trigger] lms[a]@) {
            let a = choose|a: int| 0 <= a < lms.len() && is_constant(#[trigger] lms[a]@);
            assert(zero_below(lms[a]@, n));
        }
    }
    assert forall|i: int| 0 <= i < n implies (#[trigger] power_of_variable(n, lms, i) <==> has_pure_power(lms, i)) by {
        if power_of_variable(n, lms, i) {
            let a = choose|a: int| 0 <= a < lms.len() && only_variable(#[trigger] lms[a]@, n, i);
            assert(is_pure_power(lms[a]@, i));
        }
        if has_pure_power(lms, i) {
            let a = choose|a: int| 0 <= a < lms.len() && is_pure_power(#[trigger] lms[a]@, i);
            assert(only_variable(lms[a]@, n, i));
        }
    }
    let all_pure = forall|i: int| 0 <= i < n ==> #[trigger] has_pure_power(lms, i);
    let all_powers = forall|i: int| 0 <= i < n ==> #[trigger] power_of_variable(n, lms, i);
    assert(all_pure <==> all_powers) by {
        if all_pure {
            assert forall|i: int| 0 <= i < n implies #[trigger] power_of_variable(n, lms, i) by {
                assert(has_pure_power(lms, i));
            }
        }
        if all_powers {
            assert forall|i: int| 0 <= i < n implies #[trigger] has_pure_power(lms, i) by {
                assert(power_of_variable(n, lms, i));
            }
        }
    }
    assert(!all_powers <==> exists|i: int| 0 <= i < n && !#[trigger] power_of_variable(n, lms, i)) by {
        if !all_powers {
            let i = choose|i: int| !(0 <= i < n ==> #[trigger] power_of_variable(n, lms, i));
            assert(0 <= i < n && !power_of_variable(n, lms, i));
        }
    }
}

/// The dimension class of an ideal of a ring of rank `n` with a Gröbner
/// basis with leading monomials `lms`: the unit ideal when one is
/// constant, zero-dimensional when a power of each variable is one of
/// them, and positive otherwise.
pub fn dimension_class(n: usize, lms: &[Vec<u64>]) -> (d: Dim)
    requires
        forall|a: int| 0 <= a < lms.len() ==> (#[trigger] lms@[a]).len() == n,
    ensures
        d == dimension_of(n as int, lms@),
        (d == Dim::Unit) <==> some_constant(n as int, lms@),
        (d == Dim::Exactly(0)) <==> (!some_constant(n as int, lms@) && forall|i: int|
            0 <= i < n ==> #[trigger] power_of_variable(n as int, lms@, i)),
        (d == Dim::Positive) <==> (!some_constant(n as int, lms@) && exists|i: int|
            0 <= i < n && !#[trigger] power_of_variable(n as int, lms@, i)),
{
    proof {
        law_dimension_class(n as int, lms@);
    }
    let mut a: usize = 0;
    while a < lms.len()
        invariant
            a <= lms.len(),
            forall|x: int| 0 <= x < lms.len() ==> (#[trigger] lms@[x]).len() == n,
            forall|b: int| 0 <= b < a ==> !is_constant(#[trigger] lms@[b]@),
        decreases lms.len() - a,
    {
        let e = &lms[a];
        let mut j: usize = 0;
        let mut constant = true;
        while j < e.len()
            invariant
                j <= e.len(),
                constant == forall|k: int| 0 <= k < j ==> #[trigger] e@[k] == 0,
            decreases e.len() - j,
        {
            if e[j] != 0 {
                constant = false;
            }
            j += 1;
        }
        if constant {
            proof {
                law_dimension_class(n as int, lms@);
            }
            return Dim::Unit;
        }
        a += 1;
    }
    let mut i: usize = 0;
    while i < n
        invariant
            i <= n,
            forall|a: int| 0 <= a < lms.len() ==> (#[trigger] lms@[a]).len() == n,
            forall|b: int| 0 <= b < lms.len() ==> !is_constant(#[trigger] lms@[b]@),
            forall|k: int| 0 <= k < i ==> #[trigger] has_pure_power(lms@, k),
        decreases n - i,
    {
        let mut found = false;
        let mut a: usize = 0;
        while a < lms.len()
            invariant
                i < n,
                a <= lms.len(),
                forall|x: int| 0 <= x < lms.len() ==> (#[trigger] lms@[x]).len() == n,
                found == exists|b: int| 0 <= b < a && is_pure_power(#[trigger] lms@[b]@, i as int),
            decreases lms.len() - a,
        {
            let e = &lms[a];
            if e[i] > 0 {
                let mut j: usize = 0;
                let mut pure = true;
                while j < e.len()
                    invariant
                        j <= e.len(),
                        i < e.len(),
                        pure == forall|k: int| 0 <= k < j && k != i ==> #[trigger] e@[k] == 0,
                    decreases e.len() - j,
                {
                    if j != i && e[j] != 0 {
                        pure = false;
                    }
                    j += 1;
                }
                if pure {
                    found = true;
                }
                assert(pure == is_pure_power(lms@[a as int]@, i as int));
            } else {
                assert(!is_pure_power(lms@[a as int]@, i as int));
            }
            a += 1;
        }
        if !found {
            assert(!has_pure_power(lms@, i as int));
            proof {
                law_dimension_class(n as int, lms@);
            }
            return Dim::Positive;
        }
        i += 1;
    }
    proof {
        law_dimension_class(n as int, lms@);
    }
    Dim::Exactly(0)
}

// ----- exponent maps ----------------------------------------------------------

/// The map of `VariableExtension` from P to Q, which has `k` variables more:
/// before those of P, or after them.
pub struct ExtensionMap {
    pub k: usize,
    pub before: bool,
}

impl ExtensionMap {
    /// The exponents in Q of the monomial of P with exponents `e`.
    pub fn up(&self, e: Vec<u64>) -> (r: Vec<u64>)
        requires
            e.len() + self.k <= usize::MAX,
        ensures
            r@ == if self.before {
                Seq::new(self.k as nat, |i: int| 0u64) + e@
            } else {
                e@ + Seq::new(self.k as nat, |i: int| 0u64)
            },
    {
        let mut r: Vec<u64> = Vec::with_capacity(e.len() + self.k);
        if !self.before {
            let mut j: usize = 0;
            while j < e.len()
                invariant
                    j <= e.len(),
                    r@ == e@.take(j as int),
                decreases e.len() - j,
            {
                r.push(e[j]);
                j += 1;
                assert(r@ =~= e@.take(j as int));
            }
        }
        let start = r.len();
        let mut p: usize = 0;
        while p < self.k
            invariant
                p <= self.k,
                r.len() == start + p,
                forall|x: int| 0 <= x < start ==> r@[x] == (if self.before { 0u64 } else { e@[x] }),
                start == (if self.before { 0 } else { e.len() }),
                forall|x: int| start <= x < start + p ==> r@[x] == 0,
            decreases self.k - p,
        {
            r.push(0);
            p += 1;
        }
        if self.before {
            let mut j: usize = 0;
            while j < e.len()
                invariant
                    j <= e.len(),
                    r.len() == self.k + j,
                    forall|x: int| 0 <= x < self.k ==> r@[x] == 0,
                    forall|x: int| 0 <= x < j ==> r@[self.k + x] == e@[x],
                decreases e.len() - j,
            {
                r.push(e[j]);
                j += 1;
            }
            assert(r@ =~= Seq::new(self.k as nat, |i: int| 0u64) + e@);
        } else {
            assert(r@ =~= e@ + Seq::new(self.k as nat, |i: int| 0u64));
        }
        r
    }

    /// Which variables of Q (with `m` variables) are the new ones.
    pub fn new_vars(&self, m: usize) -> (r: Vec<bool>)
        requires
            !self.before ==> self.k <= m,
        ensures
            r.len() == m,
            forall|p: int| 0 <= p < m ==> #[trigger] r@[p] == if self.before {
                p < self.k
            } else {
                p >= m - self.k
            },
    {
        let mut r: Vec<bool> = Vec::with_capacity(m);
        let mut p: usize = 0;
        while p < m
            invariant
                p <= m,
                r.len() == p,
                !self.before ==> self.k <= m,
                forall|x: int| 0 <= x < p ==> #[trigger] r@[x] == if self.before {
                    x < self.k
                } else {
                    x >= m - self.k
                },
            decreases m - p,
        {
            r.push(if self.before { p < self.k } else { p >= m - self.k });
            p += 1;
        }
        r
    }

    /// The exponents in P of a monomial of Q free of the new variables.
    pub fn down(&self, e: &[u64]) -> (r: Vec<u64>)
        requires
            self.k <= e.len(),
        ensures
            r@ == if self.before {
                e@.subrange(self.k as int, e.len() as int)
            } else {
                e@.subrange(0, e.len() - self.k)
            },
    {
        let n = e.len() - self.k;
        let (lo, hi) = if self.before { (self.k, e.len()) } else { (0, n) };
        let mut r: Vec<u64> = Vec::with_capacity(hi - lo);
        let mut j = lo;
        while j < hi
            invariant
                lo <= j <= hi,
                hi <= e.len(),
                r@ == e@.subrange(lo as int, j as int),
            decreases hi - j,
        {
            r.push(e[j]);
            j += 1;
            assert(r@ =~= e@.subrange(lo as int, j as int));
        }
        r
    }
}

/// The map of `Homogenization` from P to H, which has the variable H before
/// those of P, or after them.
pub struct HomogenizationMap {
    pub before: bool,
}

impl HomogenizationMap {
    /// The exponents in H of the monomial of P with exponents `e` times
    /// H^h.
    pub fn up(&self, e: Vec<u64>, h: u64) -> (r: Vec<u64>)
        ensures
            r@ == if self.before { seq![h] + e@ } else { e@.push(h) },
    {
        if self.before {
            let mut r: Vec<u64> = Vec::new();
            r.push(h);
            let mut j: usize = 0;
            while j < e.len()
                invariant
                    j <= e.len(),
                    r@ == seq![h] + e@.take(j as int),
                decreases e.len() - j,
            {
                r.push(e[j]);
                j += 1;
                assert(r@ =~= seq![h] + e@.take(j as int));
            }
            assert(e@.take(e.len() as int) =~= e@);
            r
        } else {
            let mut e = e;
            e.push(h);
            e
        }
    }

    /// The exponents of a monomial of H with the exponent of H first.
    pub fn h_first(&self, e: Vec<u64>) -> (r: Vec<u64>)
        ensures
            r@ == if !self.before && e.len() > 0 { seq![e@.last()] + e@.drop_last() } else { e@ },
    {
        if !self.before && e.len() > 0 {
            let n = e.len();
            let mut r: Vec<u64> = Vec::with_capacity(n);
            r.push(e[n - 1]);
            let mut j: usize = 0;
            while j < n - 1
                invariant
                    n == e.len(),
                    n > 0,
                    j <= n - 1,
                    r@ == seq![e@.last()] + e@.take(j as int),
                decreases n - 1 - j,
            {
                r.push(e[j]);
                j += 1;
                assert(r@ =~= seq![e@.last()] + e@.take(j as int));
            }
            assert(e@.take(n - 1) =~= e@.drop_last());
            r
        } else {
            e
        }
    }
}

/// Whether the monomials `t` (of a polynomial) are free of the variables
/// marked in `elim`.
pub fn free_of(t: &[Vec<u64>], elim: &[bool]) -> (b: bool)
    ensures
        b == forall|a: int, i: int|
            0 <= a < t.len() && 0 <= i < t@[a].len() && i < elim.len() ==> (#[trigger] t@[a]@[i] == 0
                || !elim@[i]),
{
    let mut a: usize = 0;
    while a < t.len()
        invariant
            a <= t.len(),
            forall|x: int, i: int|
                0 <= x < a && 0 <= i < t@[x].len() && i < elim.len() ==> (#[trigger] t@[x]@[i] == 0
                    || !elim@[i]),
        decreases t.len() - a,
    {
        let e = &t[a];
        let mut i: usize = 0;
        while i < e.len() && i < elim.len()
            invariant
                a < t.len(),
                i <= e.len(),
                e@ == t@[a as int]@,
                forall|j: int| 0 <= j < i && j < elim.len() ==> (e@[j] == 0 || !elim@[j]),
            decreases e.len() - i,
        {
            if e[i] != 0 && elim[i] {
                assert(!(t@[a as int]@[i as int] == 0 || !elim@[i as int]));
                return false;
            }
            i += 1;
        }
        a += 1;
    }
    true
}

// ----- maximally independent sets ---------------------------------------------

/// The number of marked variables among the first `k`.
pub open spec fn count(m: Seq<bool>, k: int) -> int
    decreases k,
{
    if k <= 0 {
        0
    } else {
        count(m, k - 1) + if m[k - 1] {
            1int
        } else {
            0
        }
    }
}

/// The set of variables `s` (marked among `n`) contains the variables of
/// none of the monomials `lms`.
pub open spec fn independent(lms: Seq<Vec<u64>>, s: Seq<bool>, n: int) -> bool {
    forall|a: int| 0 <= a < lms.len() ==> escapes(#[trigger] lms[a]@, s, n)
}

/// The monomial `e` has a variable (of the first `n`) outside the set `s`.
pub open spec fn escapes(e: Seq<u64>, s: Seq<bool>, n: int) -> bool {
    exists|j: int| 0 <= j < n && #[trigger] e[j] > 0 && !s[j]
}

/// At the last variable where they differ, `s` has it and `t` does not:
/// `s` has the later variables.
pub open spec fn later_than(s: Seq<bool>, t: Seq<bool>, n: int) -> bool {
    exists|k: int| 0 <= k < n && s[k] && !t[k] && forall|j: int| k < j < n ==> #[trigger] s[j] == t[j]
}

/// The variables listed in `u`, as marks among `n`.
pub open spec fn marks(u: Seq<usize>, n: int) -> Seq<bool> {
    Seq::new(n as nat, |j: int| u.contains(j as usize))
}

/// What `independent_set` promises, written out: no leading monomial is a
/// product of the chosen variables alone (each has a variable outside
/// them), and a set of variables with a higher count would contain one.
pub proof fn law_independent(lms: Seq<Vec<u64>>, u: Seq<usize>, n: int)
    requires
        0 <= n <= usize::MAX,
        independent(lms, marks(u, n), n),
    ensures
        forall|a: int| 0 <= a < lms.len() ==> !#[trigger] within_vars(lms[a]@, u, n),
{
    assert forall|a: int| 0 <= a < lms.len() implies !#[trigger] within_vars(lms[a]@, u, n) by {
        assert(escapes(lms[a]@, marks(u, n), n));
        let j = choose|j: int| 0 <= j < n && #[trigger] lms[a]@[j] > 0 && !marks(u, n)[j];
        assert(marks(u, n)[j] == u.contains(j as usize));
    }
}

/// Every variable (of the first `n`) of the monomial `e` is one of `u`.
pub open spec fn within_vars(e: Seq<u64>, u: Seq<usize>, n: int) -> bool {
    forall|j: int| 0 <= j < n && #[trigger] e[j] > 0 ==> u.contains(j as usize)
}

/// The sets `s` and `t` agree on the variables from `v` on.
pub open spec fn agree_from(s: Seq<bool>, t: Seq<bool>, v: int, n: int) -> bool {
    forall|j: int| v <= j < n ==> #[trigger] s[j] == t[j]
}

/// `vars` lists the variables of the monomial `e` in increasing order.
pub open spec fn support_list(vars: Seq<usize>, e: Seq<u64>) -> bool {
    &&& forall|q: int| 0 <= q < vars.len() ==> #[trigger] vars[q] < e.len() && e[vars[q] as int] > 0
    &&& forall|j: int| 0 <= j < e.len() && e[j] > 0 ==> exists|q: int| 0 <= q < vars.len() && #[trigger] vars[q] == j
}

proof fn lemma_count_update(m: Seq<bool>, i: int, b: bool, k: int)
    requires
        0 <= i < m.len(),
        0 <= k <= m.len(),
    ensures
        count(m.update(i, b), k) == count(m, k) + if i < k {
            (if b { 1int } else { 0 }) - (if m[i] { 1int } else { 0 })
        } else {
            0
        },
    decreases k,
{
    if k > 0 {
        lemma_count_update(m, i, b, k - 1);
    }
}

proof fn lemma_count_ext(s: Seq<bool>, t: Seq<bool>, k: int)
    requires
        0 <= k <= s.len(),
        k <= t.len(),
        forall|j: int| 0 <= j < k ==> s[j] == t[j],
    ensures
        count(s, k) == count(t, k),
    decreases k,
{
    if k > 0 {
        lemma_count_ext(s, t, k - 1);
    }
}

/// A set that agrees with `t` from `v` on, where `t` marks nothing below
/// `v`, has at most `v` more variables than `t`.
proof fn lemma_count_bound(s: Seq<bool>, t: Seq<bool>, v: int, k: int)
    requires
        0 <= v,
        0 <= k <= s.len(),
        k <= t.len(),
        forall|j: int| v <= j < k ==> s[j] == t[j],
    ensures
        count(s, k) <= count(t, k) + if k < v {
            k
        } else {
            v
        },
    decreases k,
{
    if k > 0 {
        lemma_count_bound(s, t, v, k - 1);
    }
}

/// The decided part of the search: `inset` marks the variables of `cur`,
/// all from `v` on, which contain the variables of no monomial.
pub open spec fn search_state(
    lms: Seq<Vec<u64>>,
    inset: Seq<bool>,
    cur: Seq<usize>,
    v: int,
    n: int,
) -> bool {
    &&& inset.len() == n
    &&& 0 <= v <= n <= usize::MAX
    &&& forall|j: int| 0 <= j < v ==> !#[trigger] inset[j]
    &&& forall|j: int| 0 <= j < n ==> (#[trigger] inset[j] <==> cur.contains(j as usize))
    &&& forall|q: int| 0 <= q < cur.len() ==> v <= #[trigger] cur[q] < n
    &&& forall|q: int, r: int| 0 <= q < r < cur.len() ==> cur[q] > cur[r]
    &&& cur.len() == count(inset, n)
    &&& cur.len() + v <= n
    &&& none_inside(lms, inset, n)
}

/// The set `s` contains the variables of none of the monomials `lms`.
#[verifier::opaque]
pub open spec fn none_inside(lms: Seq<Vec<u64>>, s: Seq<bool>, n: int) -> bool {
    forall|a: int| 0 <= a < lms.len() ==> escapes(#[trigger] lms[a]@, s, n)
}

/// The best set so far: independent, with its variables in decreasing
/// order.
pub open spec fn best_state(lms: Seq<Vec<u64>>, best: Seq<usize>, n: int) -> bool {
    &&& forall|q: int| 0 <= q < best.len() ==> #[trigger] best[q] < n
    &&& forall|q: int, r: int| 0 <= q < r < best.len() ==> best[q] > best[r]
    &&& independent(lms, marks(best, n), n)
}

/// Some variable listed in `vars` is outside the set `s`.
pub open spec fn list_escapes(vars: Seq<usize>, s: Seq<bool>, n: int) -> bool {
    exists|q: int| 0 <= q < vars.len() && #[trigger] vars[q] < n && !s[vars[q] as int]
}

/// Whether some variable listed in `vars` is outside the set `inset`.
fn escapes_set(vars: &Vec<usize>, inset: &Vec<bool>) -> (b: bool)
    ensures
        b == list_escapes(vars@, inset@, inset.len() as int),
{
    let mut q: usize = 0;
    while q < vars.len()
        invariant
            q <= vars.len(),
            forall|r: int| 0 <= r < q ==> !(#[trigger] vars@[r] < inset.len() && !inset@[vars@[r] as int]),
        decreases vars.len() - q,
    {
        if vars[q] < inset.len() && !inset[vars[q]] {
            return true;
        }
        q += 1;
    }
    false
}

/// Whether each of the lists `sets` has a variable outside `inset`.
fn all_escape(sets: &Vec<Vec<usize>>, inset: &Vec<bool>) -> (b: bool)
    ensures
        b == forall|t: int| 0 <= t < sets.len() ==> list_escapes(#[trigger] sets@[t]@, inset@, inset.len() as int),
{
    let mut k: usize = 0;
    while k < sets.len()
        invariant
            k <= sets.len(),
            forall|t: int| 0 <= t < k ==> list_escapes(#[trigger] sets@[t]@, inset@, inset.len() as int),
        decreases sets.len() - k,
    {
        if !escapes_set(&sets[k], inset) {
            return false;
        }
        k += 1;
    }
    true
}

/// `with[i]` lists the variables of each monomial with the variable `i`.
pub open spec fn with_lists(with: Seq<Vec<Vec<usize>>>, lms: Seq<Vec<u64>>, n: int) -> bool {
    &&& with.len() == n
    &&& forall|a: int| 0 <= a < lms.len() ==> (#[trigger] lms[a]).len() == n
    &&& lists_supports(with, lms, n)
    &&& lists_all(with, lms, n)
}

/// Each list in `with[i]` is the set of variables of a monomial with `i`.
#[verifier::opaque]
pub open spec fn lists_supports(with: Seq<Vec<Vec<usize>>>, lms: Seq<Vec<u64>>, n: int) -> bool {
    forall|i: int, k: int| #![trigger with[i]@[k]] 0 <= i < n && 0 <= k < with[i].len() ==> supported(with[i]@[k]@, lms, i)
}

/// `vars` is the set of variables of one of the monomials `lms` with `i`.
pub open spec fn supported(vars: Seq<usize>, lms: Seq<Vec<u64>>, i: int) -> bool {
    exists|a: int| 0 <= a < lms.len() && lms[a]@[i] > 0 && #[trigger] support_list(vars, lms[a]@)
}

/// Each monomial with `i` has its set of variables in `with[i]`.
pub open spec fn lists_all(with: Seq<Vec<Vec<usize>>>, lms: Seq<Vec<u64>>, n: int) -> bool {
    lists_upto(with, lms, n, lms.len() as int)
}

/// Each of the first `upto` monomials with `i` has its set of variables in
/// `with[i]`.
#[verifier::opaque]
pub open spec fn lists_upto(with: Seq<Vec<Vec<usize>>>, lms: Seq<Vec<u64>>, n: int, upto: int) -> bool {
    forall|i: int, a: int| 0 <= i < n && 0 <= a < upto && #[trigger] lms[a]@[i] > 0 ==> listed(with, i, lms[a]@)
}

/// Marking `i` and listing it last keeps `inset` the marks of `cur`.
proof fn lemma_marks_push(inset0: Seq<bool>, cur0: Seq<usize>, i: int, n: int)
    requires
        inset0.len() == n,
        0 <= i < n <= usize::MAX,
        forall|j: int| 0 <= j < n ==> (#[trigger] inset0[j] <==> cur0.contains(j as usize)),
    ensures
        forall|j: int| 0 <= j < n ==> (#[trigger] inset0.update(i, true)[j] <==> cur0.push(i as usize).contains(
            j as usize,
        )),
{
    let inset = inset0.update(i, true);
    let cur = cur0.push(i as usize);
    assert forall|j: int| 0 <= j < n implies (#[trigger] inset[j] <==> cur.contains(j as usize)) by {
        if j == i {
            assert(cur[cur0.len() as int] == i as usize);
        } else {
            if inset0[j] {
                assert(cur0.contains(j as usize));
                let q = choose|q: int| 0 <= q < cur0.len() && cur0[q] == j as usize;
                assert(cur[q] == j as usize);
            }
            if cur.contains(j as usize) {
                let q = choose|q: int| 0 <= q < cur.len() && cur[q] == j as usize;
                if q == cur0.len() {
                    assert(cur[q] == i as usize);
                } else {
                    assert(cur0[q] == j as usize);
                    assert(cur0.contains(j as usize));
                }
            }
        }
    }
}

/// Marking `i`, when each monomial with `i` keeps a variable outside,
/// leaves no monomial inside the set.
proof fn lemma_none_inside_push(
    with: Seq<Vec<Vec<usize>>>,
    lms: Seq<Vec<u64>>,
    inset0: Seq<bool>,
    i: int,
    n: int,
)
    requires
        with_lists(with, lms, n),
        inset0.len() == n,
        none_inside(lms, inset0, n),
        0 <= i < n,
        forall|t: int| 0 <= t < with[i].len() ==> list_escapes(#[trigger] with[i]@[t]@, inset0.update(i, true), n),
    ensures
        none_inside(lms, inset0.update(i, true), n),
{
    let inset = inset0.update(i, true);
    reveal(lists_upto);
    reveal(none_inside);
    assert forall|a: int| 0 <= a < lms.len() implies escapes(#[trigger] lms[a]@, inset, n) by {
        if lms[a]@[i] > 0 {
            let t = choose|t: int| 0 <= t < with[i].len() && support_list(#[trigger] with[i]@[t]@, lms[a]@);
            assert(list_escapes(with[i]@[t]@, inset, n));
            let q = choose|q: int|
                0 <= q < with[i]@[t]@.len() && #[trigger] with[i]@[t]@[q] < n && !inset[with[i]@[t]@[q] as int];
            let j = with[i]@[t]@[q] as int;
            assert(lms[a]@[j] > 0);
        } else {
            assert(escapes(lms[a]@, inset0, n));
            let j = choose|j: int| 0 <= j < n && #[trigger] lms[a]@[j] > 0 && !inset0[j];
            assert(j != i);
            assert(!inset[j]);
        }
    }
}

/// Adding the variable `i` (below `v`, the first undecided) to a decided
/// set, when each monomial with `i` keeps a variable outside, keeps the
/// search state.
proof fn lemma_include(
    with: Seq<Vec<Vec<usize>>>,
    lms: Seq<Vec<u64>>,
    inset0: Seq<bool>,
    cur0: Seq<usize>,
    i: int,
    n: int,
)
    requires
        with_lists(with, lms, n),
        search_state(lms, inset0, cur0, i + 1, n),
        0 <= i < n,
        forall|t: int| 0 <= t < with[i].len() ==> list_escapes(#[trigger] with[i]@[t]@, inset0.update(i, true), n),
    ensures
        search_state(lms, inset0.update(i, true), cur0.push(i as usize), i, n),
{
    lemma_count_update(inset0, i, true, n);
    lemma_marks_push(inset0, cur0, i, n);
    lemma_none_inside_push(with, lms, inset0, i, n);
}

/// If a monomial with `i` has all its variables in the decided set with
/// `i`, no set that agrees with it is independent.
proof fn lemma_exclude(
    with: Seq<Vec<Vec<usize>>>,
    lms: Seq<Vec<u64>>,
    with_i: Seq<bool>,
    s: Seq<bool>,
    i: int,
    n: int,
)
    requires
        with_lists(with, lms, n),
        with_i.len() == n,
        0 <= i < n,
        forall|j: int| 0 <= j < i ==> !with_i[j],
        !(forall|t: int| 0 <= t < with[i].len() ==> list_escapes(#[trigger] with[i]@[t]@, with_i, n)),
        s.len() == n,
        agree_from(s, with_i, i, n),
    ensures
        !independent(lms, s, n),
{
    reveal(lists_supports);
    let t = choose|t: int| 0 <= t < with[i].len() && !list_escapes(#[trigger] with[i]@[t]@, with_i, n);
    assert(supported(with[i]@[t]@, lms, i));
    let a = choose|a: int| 0 <= a < lms.len() && lms[a]@[i] > 0 && #[trigger] support_list(with[i]@[t]@, lms[a]@);
    if independent(lms, s, n) {
        assert(escapes(lms[a]@, s, n));
        let j = choose|j: int| 0 <= j < n && #[trigger] lms[a]@[j] > 0 && !s[j];
        let q = choose|q: int| 0 <= q < with[i]@[t]@.len() && #[trigger] with[i]@[t]@[q] == j;
        assert(with_i[j]);
        if j >= i {
            assert(s[j] == with_i[j]);
        }
    }
}

/// Decide the variables below `v`, the later first; a set replaces the
/// best only if larger.
fn run(
    with: &Vec<Vec<Vec<usize>>>,
    lms: &[Vec<u64>],
    n: usize,
    inset: &mut Vec<bool>,
    cur: &mut Vec<usize>,
    best: &mut Vec<usize>,
    v: usize,
)
    requires
        with_lists(with@, lms@, n as int),
        search_state(lms@, old(inset)@, old(cur)@, v as int, n as int),
        best_state(lms@, old(best)@, n as int),
    ensures
        final(inset)@ == old(inset)@,
        final(cur)@ == old(cur)@,
        best_state(lms@, final(best)@, n as int),
        final(best).len() >= old(best).len(),
        forall|s: Seq<bool>|
            s.len() == n && independent(lms@, s, n as int) && #[trigger] agree_from(s, old(inset)@, v as int, n as int)
                ==> count(s, n as int) <= final(best).len(),
        final(best).len() == old(best).len() ==> final(best)@ == old(best)@,
        final(best).len() > old(best).len() ==> agree_from(marks(final(best)@, n as int), old(inset)@, v as int, n as int),
        final(best).len() > old(best).len() ==> forall|s: Seq<bool>|
            s.len() == n && independent(lms@, s, n as int) && agree_from(s, old(inset)@, v as int, n as int) && count(
                s,
                n as int,
            ) == final(best).len() ==> !#[trigger] later_than(s, marks(final(best)@, n as int), n as int),
    decreases v,
{
    if cur.len() + v <= best.len() {
        proof {
            assert forall|s: Seq<bool>|
                s.len() == n && independent(lms@, s, n as int) && #[trigger] agree_from(s, inset@, v as int, n as int)
                    implies count(s, n as int) <= best.len() by {
                lemma_count_bound(s, inset@, v as int, n as int);
            }
        }
        return;
    }
    if v == 0 {
        *best = cur.clone();
        proof {
            reveal(none_inside);
            assert(best@ =~= cur@);
            assert(marks(best@, n as int) =~= inset@);
            assert forall|s: Seq<bool>|
                s.len() == n && independent(lms@, s, n as int) && agree_from(s, inset@, 0, n as int) && count(s, n as int)
                    == best.len() implies !#[trigger] later_than(s, marks(best@, n as int), n as int) by {
                if later_than(s, marks(best@, n as int), n as int) {
                    let k = choose|k: int|
                        0 <= k < n && s[k] && !marks(best@, n as int)[k] && forall|j: int| k < j < n ==> #[trigger] s[j]
                            == marks(best@, n as int)[j];
                    assert(s[k] == inset@[k]);
                }
            }
            assert forall|s: Seq<bool>|
                s.len() == n && independent(lms@, s, n as int) && #[trigger] agree_from(s, inset@, 0, n as int)
                    implies count(s, n as int) <= best.len() by {
                lemma_count_ext(s, inset@, n as int);
            }
        }
        return;
    }
    let i = v - 1;
    let ghost inset0 = inset@;
    let ghost cur0 = cur@;
    let ghost b0 = best@;
    inset.set(i, true);
    let ghost with_i = inset@;
    let taken = all_escape(&with[i], inset);
    if taken {
        proof {
            lemma_include(with@, lms@, inset0, cur0, i as int, n as int);
        }
        cur.push(i);
        run(with, lms, n, inset, cur, best, i);
        cur.pop();
        proof {
            assert(cur@ =~= cur0);
        }
    } else {
        proof {
            assert forall|s: Seq<bool>|
                s.len() == n && #[trigger] agree_from(s, with_i, i as int, n as int) implies !independent(
                lms@,
                s,
                n as int,
            ) by {
                lemma_exclude(with@, lms@, with_i, s, i as int, n as int);
            }
        }
    }
    let ghost b1 = best@;
    inset.set(i, false);
    proof {
        assert(inset@ =~= inset0);
    }
    run(with, lms, n, inset, cur, best, i);
    proof {
        let b2 = best@;
        assert forall|s: Seq<bool>|
            s.len() == n && independent(lms@, s, n as int) && #[trigger] agree_from(s, inset0, v as int, n as int)
                implies count(s, n as int) <= best.len() by {
            if s[i as int] {
                assert(agree_from(s, with_i, i as int, n as int));
            } else {
                assert(agree_from(s, inset0, i as int, n as int));
            }
        }
        if b2.len() > b0.len() {
            if b2.len() > b1.len() {
                // The exclusion found it: no larger set has i.
                assert(agree_from(marks(b2, n as int), inset0, i as int, n as int));
                assert forall|s: Seq<bool>|
                    s.len() == n && independent(lms@, s, n as int) && agree_from(s, inset0, v as int, n as int) && count(
                        s,
                        n as int,
                    ) == b2.len() implies !#[trigger] later_than(s, marks(b2, n as int), n as int) by {
                    if s[i as int] {
                        assert(agree_from(s, with_i, i as int, n as int));
                    } else {
                        assert(agree_from(s, inset0, i as int, n as int));
                    }
                }
            } else {
                // The inclusion found it, and it has i.
                assert(b2 == b1);
                assert(taken);
                let mb = marks(b1, n as int);
                assert(agree_from(mb, with_i, i as int, n as int));
                assert(mb[i as int]);
                assert forall|s: Seq<bool>|
                    s.len() == n && independent(lms@, s, n as int) && agree_from(s, inset0, v as int, n as int) && count(
                        s,
                        n as int,
                    ) == b2.len() implies !#[trigger] later_than(s, mb, n as int) by {
                    if s[i as int] {
                        assert(agree_from(s, with_i, i as int, n as int));
                    } else if later_than(s, mb, n as int) {
                        let k = choose|k: int|
                            0 <= k < n && s[k] && !mb[k] && forall|j: int| k < j < n ==> #[trigger] s[j] == mb[j];
                        if k > i {
                            assert(s[k] == inset0[k]);
                            assert(mb[k] == with_i[k]);
                        } else if k < i {
                            assert(s[i as int] == mb[i as int]);
                        }
                    }
                }
            }
        }
    }
}

/// `with[i]` has the variables of the monomial `e`.
pub open spec fn listed(with: Seq<Vec<Vec<usize>>>, i: int, e: Seq<u64>) -> bool {
    exists|k: int| 0 <= k < with[i].len() && support_list(#[trigger] with[i]@[k]@, e)
}

/// The variables of the monomial `e` (of `n`), in increasing order.
fn support(e: &Vec<u64>, n: usize) -> (vars: Vec<usize>)
    requires
        e.len() == n,
    ensures
        support_list(vars@, e@),
        forall|q: int, r: int| 0 <= q < r < vars.len() ==> vars@[q] < vars@[r],
{
    let mut vars: Vec<usize> = Vec::new();
    let mut i: usize = 0;
    while i < n
        invariant
            i <= n,
            e.len() == n,
            forall|q: int| 0 <= q < vars.len() ==> #[trigger] vars@[q] < i && e@[vars@[q] as int] > 0,
            forall|j: int| 0 <= j < i && e@[j] > 0 ==> exists|q: int| 0 <= q < vars.len() && #[trigger] vars@[q] == j,
            forall|q: int, r: int| 0 <= q < r < vars.len() ==> vars@[q] < vars@[r],
        decreases n - i,
    {
        if e[i] > 0 {
            let ghost v0 = vars@;
            vars.push(i);
            proof {
                assert forall|j: int| 0 <= j < i + 1 && e@[j] > 0 implies exists|q: int|
                    0 <= q < vars.len() && #[trigger] vars@[q] == j by {
                    if j == i {
                        assert(vars@[vars.len() - 1] == j);
                    } else {
                        let q = choose|q: int| 0 <= q < v0.len() && #[trigger] v0[q] == j;
                        assert(vars@[q] == j);
                    }
                }
            }
        }
        i += 1;
    }
    vars
}

/// A largest set of variables (by number) of which none of the leading
/// monomials `lms` of a Gröbner basis of a proper ideal is a product: a
/// maximally independent set, whose size is the dimension. Of the largest
/// sets, the one with the latest variables, as Magma chooses.
#[verifier::spinoff_prover]
pub fn independent_set(n: usize, lms: &[Vec<u64>]) -> (u: Vec<usize>)
    requires
        forall|a: int| 0 <= a < lms.len() ==> (#[trigger] lms@[a]).len() == n,
        forall|a: int| 0 <= a < lms.len() ==> !is_constant(#[trigger] lms@[a]@),
    ensures
        forall|q: int| 0 <= q < u.len() ==> #[trigger] u@[q] < n,
        forall|q: int, r: int| 0 <= q < r < u.len() ==> u@[q] < u@[r],
        independent(lms@, marks(u@, n as int), n as int),
        forall|s: Seq<bool>| s.len() == n && #[trigger] independent(lms@, s, n as int) ==> count(s, n as int) <= u.len(),
        forall|s: Seq<bool>|
            s.len() == n && independent(lms@, s, n as int) && count(s, n as int) == u.len() ==> !#[trigger] later_than(
                s,
                marks(u@, n as int),
                n as int,
            ),
{
    // The monomials with each variable, as their sets of variables.
    let mut with: Vec<Vec<Vec<usize>>> = Vec::with_capacity(n);
    let mut i: usize = 0;
    while i < n
        invariant
            i <= n,
            with.len() == i,
            forall|j: int| 0 <= j < i ==> (#[trigger] with@[j]).len() == 0,
        decreases n - i,
    {
        with.push(Vec::new());
        i += 1;
    }
    proof {
        reveal(lists_supports);
        reveal(lists_upto);
    }
    let mut a: usize = 0;
    while a < lms.len()
        invariant
            a <= lms.len(),
            with.len() == n,
            forall|b: int| 0 <= b < lms.len() ==> (#[trigger] lms@[b]).len() == n,
            lists_supports(with@, lms@, n as int),
            lists_upto(with@, lms@, n as int, a as int),
        decreases lms.len() - a,
    {
        let vars = support(&lms[a], n);
        let ghost w0 = with@;
        add_lists(&mut with, &vars, Ghost(lms@[a as int]@), n);
        proof {
            lemma_add_lists(w0, with@, lms@, a as int, vars@, n as int);
        }
        a += 1;
    }
    let mut inset: Vec<bool> = Vec::with_capacity(n);
    let mut i: usize = 0;
    while i < n
        invariant
            i <= n,
            inset.len() == i,
            forall|j: int| 0 <= j < i ==> !(#[trigger] inset@[j]),
        decreases n - i,
    {
        inset.push(false);
        i += 1;
    }
    let mut cur: Vec<usize> = Vec::new();
    let mut best: Vec<usize> = Vec::new();
    proof {
        lemma_search_start(lms@, inset@, cur@, best@, n as int);
    }
    run(&with, lms, n, &mut inset, &mut cur, &mut best, n);
    // In increasing order.
    let mut u: Vec<usize> = Vec::with_capacity(best.len());
    let mut k = best.len();
    while k > 0
        invariant
            k <= best.len(),
            u.len() == best.len() - k,
            forall|q: int| 0 <= q < u.len() ==> #[trigger] u@[q] == best@[best.len() - 1 - q],
        decreases k,
    {
        k -= 1;
        u.push(best[k]);
    }
    proof {
        assert(marks(u@, n as int) =~= marks(best@, n as int)) by {
            assert forall|j: int| 0 <= j < n implies marks(u@, n as int)[j] == marks(best@, n as int)[j] by {
                if u@.contains(j as usize) {
                    let q = choose|q: int| 0 <= q < u.len() && u@[q] == j as usize;
                    assert(best@[best.len() - 1 - q] == j as usize);
                }
                if best@.contains(j as usize) {
                    let q = choose|q: int| 0 <= q < best.len() && best@[q] == j as usize;
                    assert(u@[best.len() - 1 - q] == j as usize);
                }
            }
        }
        assert forall|s: Seq<bool>| s.len() == n && #[trigger] independent(lms@, s, n as int) implies count(s, n as int)
            <= u.len() by {
            assert(agree_from(s, inset@, n as int, n as int));
        }
        assert forall|s: Seq<bool>|
            s.len() == n && independent(lms@, s, n as int) && count(s, n as int) == u.len() implies !#[trigger] later_than(
                s,
                marks(u@, n as int),
                n as int,
            ) by {
            assert(agree_from(s, inset@, n as int, n as int));
            if best.len() == 0 {
                if later_than(s, marks(u@, n as int), n as int) {
                    let k = choose|k: int|
                        0 <= k < n && s[k] && !marks(u@, n as int)[k] && forall|j: int| k < j < n ==> #[trigger] s[j]
                            == marks(u@, n as int)[j];
                    lemma_count_pos(s, k, n as int);
                }
            }
        }
    }
    u
}

/// A set with a marked variable counts at least one.
proof fn lemma_count_pos(m: Seq<bool>, j: int, k: int)
    requires
        0 <= j < k <= m.len(),
        m[j],
    ensures
        count(m, k) >= 1,
    decreases k,
{
    if k - 1 > j {
        lemma_count_pos(m, j, k - 1);
    } else {
        lemma_count_nonneg(m, k - 1);
    }
}

proof fn lemma_count_nonneg(m: Seq<bool>, k: int)
    ensures
        count(m, k) >= 0,
    decreases k,
{
    if k > 0 {
        lemma_count_nonneg(m, k - 1);
    }
}

/// Nothing marked counts nothing.
proof fn lemma_count_none(m: Seq<bool>, k: int)
    requires
        0 <= k <= m.len(),
        forall|j: int| 0 <= j < k ==> !m[j],
    ensures
        count(m, k) == 0,
    decreases k,
{
    if k > 0 {
        lemma_count_none(m, k - 1);
    }
}

/// Add the variables `vars` of the monomial `e` to the lists of each of
/// them.
#[verifier::spinoff_prover]
#[verifier::rlimit(50)]
fn add_lists(with: &mut Vec<Vec<Vec<usize>>>, vars: &Vec<usize>, Ghost(e): Ghost<Seq<u64>>, n: usize)
    requires
        old(with).len() == n,
        e.len() == n,
        support_list(vars@, e),
        forall|q: int, r: int| 0 <= q < r < vars.len() ==> vars@[q] < vars@[r],
    ensures
        final(with).len() == n,
        forall|i: int, k: int| 0 <= i < n && 0 <= k < old(with)@[i].len() ==> final(with)@[i]@[k] == #[trigger] old(with)@[i]@[k],
        forall|i: int| 0 <= i < n ==> old(with)@[i].len() <= (#[trigger] final(with)@[i]).len(),
        forall|i: int, k: int| 0 <= i < n && old(with)@[i].len() <= k < final(with)@[i].len() ==> (#[trigger] final(with)@[i]@[k])@
            == vars@ && e[i] > 0,
        forall|i: int| 0 <= i < n && e[i] > 0 ==> old(with)@[i].len() < (#[trigger] final(with)@[i]).len(),
{
    let ghost w0 = with@;
    let mut q: usize = 0;
    while q < vars.len()
        invariant
            q <= vars.len(),
            with.len() == n,
            w0.len() == n,
            e.len() == n,
            support_list(vars@, e),
            forall|r: int, t: int| 0 <= r < t < vars.len() ==> vars@[r] < vars@[t],
            forall|i: int, k: int| 0 <= i < n && 0 <= k < w0[i].len() ==> with@[i]@[k] == #[trigger] w0[i]@[k],
            forall|i: int| 0 <= i < n ==> w0[i].len() <= (#[trigger] with@[i]).len(),
            forall|i: int, k: int| 0 <= i < n && w0[i].len() <= k < with@[i].len() ==> (#[trigger] with@[i]@[k])@ == vars@
                && e[i] > 0,
            forall|r: int| 0 <= r < q ==> w0[vars@[r] as int].len() < (#[trigger] with@[vars@[r] as int]).len(),
        decreases vars.len() - q,
    {
        let x = vars[q];
        let mut list: Vec<Vec<usize>> = Vec::new();
        with.set_and_swap(x, &mut list);
        list.push(vars.clone());
        with.set_and_swap(x, &mut list);
        proof {
            assert(with@[x as int]@[with@[x as int].len() - 1]@ == vars@);
            assert forall|r: int| 0 <= r < q + 1 implies w0[vars@[r] as int].len() < (#[trigger] with@[vars@[r] as int]).len() by {
                if r < q {
                    assert(vars@[r] < vars@[q as int]);
                }
            }
        }
        q += 1;
    }
    proof {
        assert forall|i: int| 0 <= i < n && e[i] > 0 implies w0[i].len() < (#[trigger] with@[i]).len() by {
            let r = choose|r: int| 0 <= r < vars.len() && #[trigger] vars@[r] == i;
            assert(w0[vars@[r] as int].len() < with@[vars@[r] as int].len());
        }
    }
}

/// Adding the monomial `a` to the lists keeps them right, one monomial on.
proof fn lemma_add_lists(
    w0: Seq<Vec<Vec<usize>>>,
    w1: Seq<Vec<Vec<usize>>>,
    lms: Seq<Vec<u64>>,
    a: int,
    vars: Seq<usize>,
    n: int,
)
    requires
        0 <= a < lms.len(),
        w0.len() == n,
        w1.len() == n,
        forall|b: int| 0 <= b < lms.len() ==> (#[trigger] lms[b]).len() == n,
        support_list(vars, lms[a]@),
        lists_supports(w0, lms, n),
        lists_upto(w0, lms, n, a),
        forall|i: int, k: int| 0 <= i < n && 0 <= k < w0[i].len() ==> w1[i]@[k] == #[trigger] w0[i]@[k],
        forall|i: int| 0 <= i < n ==> w0[i].len() <= (#[trigger] w1[i]).len(),
        forall|i: int, k: int| 0 <= i < n && w0[i].len() <= k < w1[i].len() ==> (#[trigger] w1[i]@[k])@ == vars
            && lms[a]@[i] > 0,
        forall|i: int| 0 <= i < n && lms[a]@[i] > 0 ==> w0[i].len() < (#[trigger] w1[i]).len(),
    ensures
        lists_supports(w1, lms, n),
        lists_upto(w1, lms, n, a + 1),
{
    reveal(lists_supports);
    reveal(lists_upto);
    assert forall|i: int, k: int| #![trigger w1[i]@[k]] 0 <= i < n && 0 <= k < w1[i].len() implies supported(w1[i]@[k]@, lms, i) by {
        if k < w0[i].len() {
            assert(w1[i]@[k] == w0[i]@[k]);
            assert(supported(w0[i]@[k]@, lms, i));
        } else {
            assert(w1[i]@[k]@ == vars);
            assert(support_list(w1[i]@[k]@, lms[a]@));
        }
    }
    assert forall|i: int, b: int| 0 <= i < n && 0 <= b < a + 1 && #[trigger] lms[b]@[i] > 0 implies listed(w1, i, lms[b]@) by {
        if b < a {
            assert(listed(w0, i, lms[b]@));
            let k = choose|k: int| 0 <= k < w0[i].len() && support_list(#[trigger] w0[i]@[k]@, lms[b]@);
            assert(w1[i]@[k] == w0[i]@[k]);
        } else {
            let k = w0[i].len() as int;
            assert(w1[i]@[k]@ == vars);
        }
    }
}

/// The search starts with nothing decided and an empty best set.
proof fn lemma_search_start(lms: Seq<Vec<u64>>, inset: Seq<bool>, cur: Seq<usize>, best: Seq<usize>, n: int)
    requires
        0 <= n <= usize::MAX,
        inset.len() == n,
        forall|j: int| 0 <= j < n ==> !(#[trigger] inset[j]),
        cur.len() == 0,
        best.len() == 0,
        forall|a: int| 0 <= a < lms.len() ==> (#[trigger] lms[a]).len() == n,
        forall|a: int| 0 <= a < lms.len() ==> !is_constant(#[trigger] lms[a]@),
    ensures
        search_state(lms, inset, cur, n, n),
        best_state(lms, best, n),
{
    reveal(none_inside);
    assert forall|b: int| 0 <= b < lms.len() implies escapes(#[trigger] lms[b]@, inset, n) by {
        assert(!is_constant(lms[b]@));
        let j = choose|j: int| 0 <= j < lms[b]@.len() && lms[b]@[j] != 0;
        assert(lms[b]@[j] > 0 && !inset[j]);
    }
    lemma_count_none(inset, n);
    assert forall|b: int| 0 <= b < lms.len() implies escapes(#[trigger] lms[b]@, marks(best, n), n) by {
        assert(!is_constant(lms[b]@));
        let j = choose|j: int| 0 <= j < lms[b]@.len() && lms[b]@[j] != 0;
        assert(lms[b]@[j] > 0 && !marks(best, n)[j]);
    }
}

// ----- standard monomials -----------------------------------------------------

/// The monomial `m` divides `e`.
pub open spec fn divides(m: Seq<u64>, e: Seq<u64>) -> bool {
    forall|j: int| 0 <= j < m.len() && j < e.len() ==> #[trigger] m[j] <= e[j]
}

/// A power of each of the `n` variables is among the monomials `lms`: the
/// ideal is zero-dimensional.
pub open spec fn zero_dimensional(lms: Seq<Vec<u64>>, n: int) -> bool {
    forall|i: int| 0 <= i < n ==> #[trigger] has_pure_power(lms, i)
}

/// One of the monomials `lms` divides `e`.
pub open spec fn divided_by(lms: Seq<Vec<u64>>, e: Seq<u64>) -> bool {
    exists|a: int| 0 <= a < lms.len() && divides(#[trigger] lms[a]@, e)
}

/// The largest entry of `e` (0 if none).
pub open spec fn max_entry(e: Seq<u64>) -> nat
    decreases e.len(),
{
    if e.len() == 0 {
        0
    } else {
        let m = max_entry(e.drop_last());
        if m >= e.last() { m } else { e.last() as nat }
    }
}

/// One more than the largest exponent in the monomials `lms`: every
/// standard monomial of a zero-dimensional ideal has its exponents below.
pub open spec fn exponent_bound(lms: Seq<Vec<u64>>) -> nat
    decreases lms.len(),
{
    if lms.len() == 0 {
        1
    } else {
        let b = exponent_bound(lms.drop_last());
        let m = max_entry(lms.last()@) + 1;
        if b >= m { b } else { m }
    }
}

/// The number of monomials in `n` variables with exponents below `d` that
/// extend `q` and that none of `lms` divides.
pub open spec fn standard_count(lms: Seq<Vec<u64>>, q: Seq<u64>, n: nat, d: nat) -> nat
    decreases n - q.len(), 1nat, 0nat,
{
    if q.len() >= n {
        if divided_by(lms, q) { 0 } else { 1 }
    } else {
        standard_sum(lms, q, n, d, d)
    }
}

/// The sum of `standard_count` over the extensions of `q` by one exponent
/// below `k`.
pub open spec fn standard_sum(lms: Seq<Vec<u64>>, q: Seq<u64>, n: nat, d: nat, k: nat) -> nat
    decreases n - q.len(), 0nat, k,
{
    if q.len() >= n || k == 0 {
        0
    } else {
        standard_sum(lms, q, n, d, (k - 1) as nat) + standard_count(lms, q.push((k - 1) as u64), n, d)
    }
}

/// `min(x, u128::MAX)`.
pub open spec fn saturated(x: nat) -> u128 {
    if x <= u128::MAX { x as u128 } else { u128::MAX }
}

proof fn lemma_max_entry(e: Seq<u64>, j: int)
    requires
        0 <= j < e.len(),
    ensures
        e[j] <= max_entry(e),
    decreases e.len(),
{
    if j < e.len() - 1 {
        lemma_max_entry(e.drop_last(), j);
    }
}

proof fn lemma_max_entry_le(e: Seq<u64>)
    ensures
        max_entry(e) <= u64::MAX,
    decreases e.len(),
{
    if e.len() > 0 {
        lemma_max_entry_le(e.drop_last());
    }
}

/// The bound is at most `2^64`.
proof fn lemma_exponent_bound_le(lms: Seq<Vec<u64>>)
    ensures
        1 <= exponent_bound(lms) <= u64::MAX + 1,
    decreases lms.len(),
{
    if lms.len() > 0 {
        lemma_exponent_bound_le(lms.drop_last());
        lemma_max_entry_le(lms.last()@);
    }
}

/// Every exponent of the monomials lies below the bound.
pub proof fn lemma_exponent_bound(lms: Seq<Vec<u64>>, a: int, j: int)
    requires
        0 <= a < lms.len(),
        0 <= j < lms[a]@.len(),
    ensures
        lms[a]@[j] < exponent_bound(lms),
    decreases lms.len(),
{
    if a < lms.len() - 1 {
        lemma_exponent_bound(lms.drop_last(), a, j);
        assert(lms.drop_last()[a] == lms[a]);
    } else {
        lemma_max_entry(lms.last()@, j);
    }
}

/// For a zero-dimensional ideal every monomial with an exponent at the
/// bound or beyond is divided by a power of a variable: the standard
/// monomials all lie in the box that `standard_count` counts.
pub proof fn lemma_standard_in_box(lms: Seq<Vec<u64>>, n: nat, e: Seq<u64>, j: int)
    requires
        forall|a: int| 0 <= a < lms.len() ==> (#[trigger] lms[a]).len() == n,
        zero_dimensional(lms, n as int),
        e.len() == n,
        0 <= j < n,
        e[j] >= exponent_bound(lms),
    ensures
        divided_by(lms, e),
{
    assert(has_pure_power(lms, j));
    let a = choose|a: int| 0 <= a < lms.len() && is_pure_power(#[trigger] lms[a]@, j);
    lemma_exponent_bound(lms, a, j);
    assert(divides(lms[a]@, e));
}

/// No extension of `q` is standard when every extension lies above a
/// monomial `g` that is divided.
proof fn lemma_count_zero(lms: Seq<Vec<u64>>, q: Seq<u64>, n: nat, d: nat, g: Seq<u64>)
    requires
        g.len() == n,
        q.len() <= n,
        d <= u64::MAX + 1,
        divided_by(lms, g),
        forall|j: int| 0 <= j < q.len() ==> #[trigger] q[j] >= g[j],
        forall|j: int| q.len() <= j < n ==> #[trigger] g[j] == 0,
    ensures
        standard_count(lms, q, n, d) == 0,
    decreases n - q.len(), 1nat, 0nat,
{
    if q.len() >= n {
        let a = choose|a: int| 0 <= a < lms.len() && divides(#[trigger] lms[a]@, g);
        assert(divides(lms[a]@, q));
    } else {
        lemma_sum_zero(lms, q, n, d, g, d);
    }
}

proof fn lemma_sum_zero(lms: Seq<Vec<u64>>, q: Seq<u64>, n: nat, d: nat, g: Seq<u64>, k: nat)
    requires
        g.len() == n,
        q.len() < n,
        k <= d,
        d <= u64::MAX + 1,
        divided_by(lms, g),
        forall|j: int| 0 <= j < q.len() ==> #[trigger] q[j] >= g[j],
        forall|j: int| q.len() <= j < n ==> #[trigger] g[j] == 0,
    ensures
        standard_sum(lms, q, n, d, k) == 0,
    decreases n - q.len(), 0nat, k,
{
    if k > 0 {
        lemma_sum_zero(lms, q, n, d, g, (k - 1) as nat);
        let c = q.push((k - 1) as u64);
        assert forall|j: int| 0 <= j < c.len() implies #[trigger] c[j] >= g[j] by {
            if j < q.len() {
                assert(c[j] == q[j]);
            }
        }
        lemma_count_zero(lms, c, n, d, g);
    }
}

/// Past the first exponent `x0` at which an extension of `q` (by zeros)
/// is divided, the sum gains nothing.
proof fn lemma_sum_stops(lms: Seq<Vec<u64>>, q: Seq<u64>, n: nat, d: nat, g: Seq<u64>, x0: nat, k: nat)
    requires
        g.len() == n,
        q.len() < n,
        x0 <= k <= d,
        d <= u64::MAX + 1,
        divided_by(lms, g),
        g.take(q.len() as int) == q,
        g[q.len() as int] == x0,
        forall|j: int| q.len() < j < n ==> #[trigger] g[j] == 0,
    ensures
        standard_sum(lms, q, n, d, k) == standard_sum(lms, q, n, d, x0),
    decreases k,
{
    if k > x0 {
        lemma_sum_stops(lms, q, n, d, g, x0, (k - 1) as nat);
        let c = q.push((k - 1) as u64);
        assert forall|j: int| 0 <= j < c.len() implies #[trigger] c[j] >= g[j] by {
            if j < q.len() {
                assert(c[j] == q[j]);
                assert(g.take(q.len() as int)[j] == g[j]);
            }
        }
        lemma_count_zero(lms, c, n, d, g);
    }
}

/// Whether one of the monomials `lms` divides `e`.
fn divided(lms: &[Vec<u64>], e: &Vec<u64>) -> (b: bool)
    ensures
        b == divided_by(lms@, e@),
{
    let mut a: usize = 0;
    while a < lms.len()
        invariant
            a <= lms.len(),
            forall|x: int| 0 <= x < a ==> !divides(#[trigger] lms@[x]@, e@),
        decreases lms.len() - a,
    {
        let m = &lms[a];
        let mut j: usize = 0;
        let mut all = true;
        while j < m.len() && j < e.len()
            invariant
                j <= m.len(),
                all == forall|t: int| 0 <= t < j && t < e.len() ==> #[trigger] m@[t] <= e@[t],
            decreases m.len() - j,
        {
            if m[j] > e[j] {
                all = false;
            }
            j += 1;
        }
        if all {
            assert(divides(lms@[a as int]@, e@));
            return true;
        }
        a += 1;
    }
    false
}

/// The number of monomials `e` with `e[..i]` as given that none of `lms`
/// divides: the later variables run up from 0 until a monomial divides.
fn count_from(i: usize, e: &mut Vec<u64>, lms: &[Vec<u64>]) -> (total: u128)
    requires
        i <= old(e).len(),
        forall|a: int| 0 <= a < lms.len() ==> (#[trigger] lms@[a]).len() == old(e).len(),
        zero_dimensional(lms@, old(e).len() as int),
        forall|j: int| i <= j < old(e).len() ==> #[trigger] old(e)@[j] == 0,
        i == old(e).len() ==> !divided_by(lms@, old(e)@),
    ensures
        final(e)@ == old(e)@,
        total == saturated(standard_count(lms@, old(e)@.take(i as int), old(e).len() as nat, exponent_bound(lms@))),
    decreases old(e).len() - i,
{
    let ghost n = e.len() as nat;
    let ghost d = exponent_bound(lms@);
    let ghost e0 = e@;
    let ghost q = e0.take(i as int);
    if i == e.len() {
        assert(q =~= e0);
        return 1;
    }
    // The power of the variable that bounds its exponent.
    assert(has_pure_power(lms@, i as int));
    let ghost a = choose|a: int| 0 <= a < lms@.len() && is_pure_power(#[trigger] lms@[a]@, i as int);
    let ghost b = lms@[a]@[i as int];
    proof {
        lemma_exponent_bound(lms@, a, i as int);
        lemma_exponent_bound_le(lms@);
    }
    let mut total: u128 = 0;
    while !divided(lms, e)
        invariant
            i < e.len(),
            e.len() == n,
            n == e0.len(),
            n == old(e).len(),
            q == e0.take(i as int),
            d == exponent_bound(lms@),
            b < d,
            d <= u64::MAX + 1,
            0 <= a < lms.len(),
            is_pure_power(lms@[a]@, i as int),
            b == lms@[a]@[i as int],
            lms@[a]@.len() == n,
            e@[i as int] <= b,
            forall|c: int| 0 <= c < lms.len() ==> (#[trigger] lms@[c]).len() == n,
            zero_dimensional(lms@, n as int),
            forall|j: int| 0 <= j < n && j != i ==> #[trigger] e@[j] == e0[j],
            forall|j: int| i < j < n ==> #[trigger] e@[j] == 0,
            total == saturated(standard_sum(lms@, q, n, d, e@[i as int] as nat)),
        decreases b - e@[i as int],
    {
        proof {
            if e@[i as int] >= b {
                assert(divides(lms@[a]@, e@));
            }
            assert(e@.take(i + 1) =~= q.push(e@[i as int]));
        }
        let c = count_from(i + 1, e, lms);
        let ghost x = e@[i as int] as nat;
        total = if total > u128::MAX - c {
            u128::MAX
        } else {
            total + c
        };
        proof {
            assert(standard_sum(lms@, q, n, d, x + 1) == standard_sum(lms@, q, n, d, x) + standard_count(lms@, q.push(x as u64), n, d));
        }
        let y = e[i] + 1;
        e.set(i, y);
    }
    proof {
        let x0 = e@[i as int] as nat;
        assert(e@.take(i as int) =~= q);
        lemma_sum_stops(lms@, q, n, d, e@, x0, d);
    }
    e.set(i, 0);
    proof {
        assert(e@ =~= e0);
    }
    total
}

/// The number of monomials in `n` variables that none of the monomials
/// `lms` divides (for the leading monomials of a Gröbner basis of a
/// zero-dimensional ideal, the dimension of the quotient), at most
/// `u128::MAX`. With no variables, the one monomial 1.
pub fn standard_monomials(n: usize, lms: &[Vec<u64>]) -> (c: u128)
    requires
        forall|a: int| 0 <= a < lms.len() ==> (#[trigger] lms@[a]).len() == n,
        zero_dimensional(lms@, n as int),
    ensures
        c == if n == 0 {
            1
        } else {
            saturated(standard_count(lms@, seq![], n as nat, exponent_bound(lms@)))
        },
{
    if n == 0 {
        return 1;
    }
    let mut e: Vec<u64> = Vec::with_capacity(n);
    let mut i: usize = 0;
    while i < n
        invariant
            i <= n,
            e.len() == i,
            forall|j: int| 0 <= j < i ==> #[trigger] e@[j] == 0,
        decreases n - i,
    {
        e.push(0);
        i += 1;
    }
    let c = count_from(0, &mut e, lms);
    assert(e@.take(0) =~= Seq::<u64>::empty());
    c
}

// ----- the standard monomials themselves --------------------------------------

/// The monomials in `n` variables with exponents below `d` that extend `q`
/// and that none of `lms` divides, the earlier variables running slowest.
pub open spec fn standard_list(lms: Seq<Vec<u64>>, q: Seq<u64>, n: nat, d: nat) -> Seq<Seq<u64>>
    decreases n - q.len(), 1nat, 0nat,
{
    if q.len() >= n {
        if divided_by(lms, q) { seq![] } else { seq![q] }
    } else {
        standard_seq(lms, q, n, d, d)
    }
}

/// `standard_list` of the extensions of `q` by one exponent below `k`, in
/// turn.
pub open spec fn standard_seq(lms: Seq<Vec<u64>>, q: Seq<u64>, n: nat, d: nat, k: nat) -> Seq<Seq<u64>>
    decreases n - q.len(), 0nat, k,
{
    if q.len() >= n || k == 0 {
        seq![]
    } else {
        standard_seq(lms, q, n, d, (k - 1) as nat) + standard_list(lms, q.push((k - 1) as u64), n, d)
    }
}

/// The entries of the rows.
pub open spec fn views(s: Seq<Vec<u64>>) -> Seq<Seq<u64>> {
    s.map_values(|v: Vec<u64>| v@)
}

/// The standard monomials listed are as many as `standard_count` counts.
proof fn lemma_list_len(lms: Seq<Vec<u64>>, q: Seq<u64>, n: nat, d: nat)
    ensures
        standard_list(lms, q, n, d).len() == standard_count(lms, q, n, d),
    decreases n - q.len(), 1nat, 0nat,
{
    if q.len() < n {
        lemma_seq_len(lms, q, n, d, d);
    }
}

proof fn lemma_seq_len(lms: Seq<Vec<u64>>, q: Seq<u64>, n: nat, d: nat, k: nat)
    ensures
        standard_seq(lms, q, n, d, k).len() == standard_sum(lms, q, n, d, k),
    decreases n - q.len(), 0nat, k,
{
    if q.len() < n && k > 0 {
        lemma_seq_len(lms, q, n, d, (k - 1) as nat);
        lemma_list_len(lms, q.push((k - 1) as u64), n, d);
    }
}

/// Past the first exponent `x0` at which an extension of `q` (by zeros) is
/// divided, nothing more is listed.
proof fn lemma_seq_stops(lms: Seq<Vec<u64>>, q: Seq<u64>, n: nat, d: nat, g: Seq<u64>, x0: nat, k: nat)
    requires
        g.len() == n,
        q.len() < n,
        x0 <= k <= d,
        d <= u64::MAX + 1,
        divided_by(lms, g),
        g.take(q.len() as int) == q,
        g[q.len() as int] == x0,
        forall|j: int| q.len() < j < n ==> #[trigger] g[j] == 0,
    ensures
        standard_seq(lms, q, n, d, k) == standard_seq(lms, q, n, d, x0),
    decreases k,
{
    if k > x0 {
        lemma_seq_stops(lms, q, n, d, g, x0, (k - 1) as nat);
        let c = q.push((k - 1) as u64);
        assert forall|j: int| 0 <= j < c.len() implies #[trigger] c[j] >= g[j] by {
            if j < q.len() {
                assert(c[j] == q[j]);
                assert(g.take(q.len() as int)[j] == g[j]);
            }
        }
        lemma_count_zero(lms, c, n, d, g);
        lemma_list_len(lms, c, n, d);
        assert(standard_seq(lms, q, n, d, k) =~= standard_seq(lms, q, n, d, (k - 1) as nat));
    }
}

/// Appends the monomials `e` with `e[..i]` as given that none of `lms`
/// divides: the later variables run up from 0 until a monomial divides.
fn list_from(i: usize, e: &mut Vec<u64>, lms: &[Vec<u64>], out: &mut Vec<Vec<u64>>)
    requires
        i <= old(e).len(),
        forall|a: int| 0 <= a < lms.len() ==> (#[trigger] lms@[a]).len() == old(e).len(),
        zero_dimensional(lms@, old(e).len() as int),
        forall|j: int| i <= j < old(e).len() ==> #[trigger] old(e)@[j] == 0,
        i == old(e).len() ==> !divided_by(lms@, old(e)@),
    ensures
        final(e)@ == old(e)@,
        views(final(out)@) == views(old(out)@) + standard_list(
            lms@,
            old(e)@.take(i as int),
            old(e).len() as nat,
            exponent_bound(lms@),
        ),
    decreases old(e).len() - i,
{
    let ghost n = e.len() as nat;
    let ghost d = exponent_bound(lms@);
    let ghost e0 = e@;
    let ghost q = e0.take(i as int);
    let ghost out0 = views(out@);
    if i == e.len() {
        assert(q =~= e0);
        let m = e.clone();
        out.push(m);
        assert(views(out@) =~= out0 + seq![e0]);
        return;
    }
    // The power of the variable that bounds its exponent.
    assert(has_pure_power(lms@, i as int));
    let ghost a = choose|a: int| 0 <= a < lms@.len() && is_pure_power(#[trigger] lms@[a]@, i as int);
    let ghost b = lms@[a]@[i as int];
    proof {
        lemma_exponent_bound(lms@, a, i as int);
        lemma_exponent_bound_le(lms@);
        assert(views(out@) =~= out0 + standard_seq(lms@, q, n, d, 0));
    }
    while !divided(lms, e)
        invariant
            i < e.len(),
            e.len() == n,
            n == e0.len(),
            n == old(e).len(),
            q == e0.take(i as int),
            d == exponent_bound(lms@),
            b < d,
            d <= u64::MAX + 1,
            0 <= a < lms.len(),
            is_pure_power(lms@[a]@, i as int),
            b == lms@[a]@[i as int],
            lms@[a]@.len() == n,
            e@[i as int] <= b,
            forall|c: int| 0 <= c < lms.len() ==> (#[trigger] lms@[c]).len() == n,
            zero_dimensional(lms@, n as int),
            forall|j: int| 0 <= j < n && j != i ==> #[trigger] e@[j] == e0[j],
            forall|j: int| i < j < n ==> #[trigger] e@[j] == 0,
            views(out@) == out0 + standard_seq(lms@, q, n, d, e@[i as int] as nat),
        decreases b - e@[i as int],
    {
        proof {
            if e@[i as int] >= b {
                assert(divides(lms@[a]@, e@));
            }
            assert(e@.take(i + 1) =~= q.push(e@[i as int]));
        }
        let ghost x = e@[i as int] as nat;
        list_from(i + 1, e, lms, out);
        proof {
            assert(standard_seq(lms@, q, n, d, x + 1) == standard_seq(lms@, q, n, d, x) + standard_list(
                lms@,
                q.push(x as u64),
                n,
                d,
            ));
            assert(views(out@) =~= out0 + standard_seq(lms@, q, n, d, x + 1));
        }
        let y = e[i] + 1;
        e.set(i, y);
    }
    proof {
        let x0 = e@[i as int] as nat;
        assert(e@.take(i as int) =~= q);
        lemma_seq_stops(lms@, q, n, d, e@, x0, d);
    }
    e.set(i, 0);
    proof {
        assert(e@ =~= e0);
    }
}

/// The exponents of the monomials in `n` variables that none of the
/// monomials `lms` divides (for the leading monomials of a Gröbner basis of
/// a zero-dimensional ideal, a basis of the quotient), found by running up
/// the exponents one variable at a time, the first slowest, until a
/// monomial divides. With no variables, the one monomial 1.
pub fn standard_exponents(n: usize, lms: &[Vec<u64>]) -> (ms: Vec<Vec<u64>>)
    requires
        forall|a: int| 0 <= a < lms.len() ==> (#[trigger] lms@[a]).len() == n,
        zero_dimensional(lms@, n as int),
    ensures
        views(ms@) == if n == 0 {
            seq![Seq::<u64>::empty()]
        } else {
            standard_list(lms@, seq![], n as nat, exponent_bound(lms@))
        },
        n > 0 ==> forall|e: Seq<u64>|
            #[trigger] views(ms@).contains(e) <==> (e.len() == n && !exists|a: int|
                0 <= a < lms.len() && below_all(#[trigger] lms@[a]@, e, n as int)),
        n > 0 ==> views(ms@).no_duplicates(),
{
    proof {
        if n > 0 {
            law_standard_monomials(lms@, n as nat);
        }
    }
    let mut out: Vec<Vec<u64>> = Vec::new();
    if n == 0 {
        out.push(Vec::new());
        assert(views(out@) =~= seq![Seq::<u64>::empty()]);
        return out;
    }
    let mut e: Vec<u64> = Vec::with_capacity(n);
    let mut i: usize = 0;
    while i < n
        invariant
            i <= n,
            e.len() == i,
            forall|j: int| 0 <= j < i ==> #[trigger] e@[j] == 0,
        decreases n - i,
    {
        e.push(0);
        i += 1;
    }
    list_from(0, &mut e, lms, &mut out);
    assert(e@.take(0) =~= Seq::<u64>::empty());
    assert(views(out@) =~= standard_list(lms@, seq![], n as nat, exponent_bound(lms@)));
    out
}

/// The monomials in `n` variables that extend `q`, have their exponent at
/// `q.len()` below `k` and the later ones below `d`, and are divided by none
/// of `lms`.
pub open spec fn standard_in(lms: Seq<Vec<u64>>, q: Seq<u64>, n: nat, d: nat, k: nat, e: Seq<u64>) -> bool {
    &&& e.len() == n
    &&& e.take(q.len() as int) == q
    &&& (q.len() < n ==> e[q.len() as int] < k)
    &&& forall|j: int| q.len() < j < n ==> #[trigger] e[j] < d
    &&& !divided_by(lms, e)
}

proof fn lemma_concat_members(a: Seq<Seq<u64>>, b: Seq<Seq<u64>>)
    ensures
        forall|e: Seq<u64>| #[trigger] (a + b).contains(e) <==> a.contains(e) || b.contains(e),
{
    assert forall|e: Seq<u64>| #[trigger] (a + b).contains(e) implies a.contains(e) || b.contains(e) by {
        let i = choose|i: int| 0 <= i < (a + b).len() && (a + b)[i] == e;
        if i >= a.len() {
            assert(b[i - a.len()] == e);
        }
    }
    assert forall|e: Seq<u64>| a.contains(e) || b.contains(e) implies #[trigger] (a + b).contains(e) by {
        if a.contains(e) {
            let i = choose|i: int| 0 <= i < a.len() && a[i] == e;
            assert((a + b)[i] == e);
        } else {
            let i = choose|i: int| 0 <= i < b.len() && b[i] == e;
            assert((a + b)[a.len() + i] == e);
        }
    }
}

proof fn lemma_list_members(lms: Seq<Vec<u64>>, q: Seq<u64>, n: nat, d: nat)
    requires
        q.len() <= n,
        d <= u64::MAX + 1,
    ensures
        forall|e: Seq<u64>| #[trigger] standard_list(lms, q, n, d).contains(e) <==> standard_in(lms, q, n, d, d, e),
        standard_list(lms, q, n, d).no_duplicates(),
    decreases n - q.len(), 1nat, 0nat,
{
    if q.len() >= n {
        assert forall|e: Seq<u64>| #[trigger] standard_list(lms, q, n, d).contains(e) <==> standard_in(lms, q, n, d, d, e) by {
            if standard_in(lms, q, n, d, d, e) {
                assert(e.take(q.len() as int) =~= e);
                assert(standard_list(lms, q, n, d)[0] == e);
            }
            if standard_list(lms, q, n, d).contains(e) {
                assert(e == q);
                assert(e.take(q.len() as int) =~= e);
            }
        }
    } else {
        lemma_seq_members(lms, q, n, d, d);
    }
}

proof fn lemma_seq_members(lms: Seq<Vec<u64>>, q: Seq<u64>, n: nat, d: nat, k: nat)
    requires
        q.len() < n,
        k <= d <= u64::MAX + 1,
    ensures
        forall|e: Seq<u64>| #[trigger] standard_seq(lms, q, n, d, k).contains(e) <==> standard_in(lms, q, n, d, k, e),
        standard_seq(lms, q, n, d, k).no_duplicates(),
    decreases n - q.len(), 0nat, k,
{
    let ql = q.len() as int;
    if k == 0 {
        assert forall|e: Seq<u64>| #[trigger] standard_seq(lms, q, n, d, k).contains(e) <==> standard_in(lms, q, n, d, k, e) by {}
    } else {
        let a = standard_seq(lms, q, n, d, (k - 1) as nat);
        let qq = q.push((k - 1) as u64);
        let b = standard_list(lms, qq, n, d);
        lemma_seq_members(lms, q, n, d, (k - 1) as nat);
        lemma_list_members(lms, qq, n, d);
        lemma_concat_members(a, b);
        assert(standard_seq(lms, q, n, d, k) == a + b);
        assert forall|e: Seq<u64>| #[trigger] standard_seq(lms, q, n, d, k).contains(e) <==> standard_in(lms, q, n, d, k, e) by {
            if e.len() == n {
                if e.take(ql + 1) == qq {
                    assert(e.take(ql) =~= e.take(ql + 1).take(ql));
                    assert(qq.take(ql) =~= q);
                    assert(e[ql] == e.take(ql + 1)[ql]);
                }
                if e.take(ql) == q && e[ql] == k - 1 {
                    assert(e.take(ql + 1) =~= qq) by {
                        assert forall|i: int| 0 <= i < ql + 1 implies e.take(ql + 1)[i] == qq[i] by {
                            if i < ql {
                                assert(e.take(ql)[i] == q[i]);
                            }
                        }
                    }
                }
            }
        }
        assert forall|x: Seq<u64>, y: Seq<u64>| a.contains(x) && b.contains(y) implies x != y by {
            assert(standard_in(lms, q, n, d, (k - 1) as nat, x));
            assert(standard_in(lms, qq, n, d, d, y));
            assert(y.take(ql + 1) == qq);
            assert(y[ql] == y.take(ql + 1)[ql]);
            assert(qq[ql] == k - 1);
        }
        assert((a + b).no_duplicates()) by {
            assert forall|i: int, j: int| 0 <= i < (a + b).len() && 0 <= j < (a + b).len() && i != j implies (a + b)[i]
                != (a + b)[j] by {
                if i < a.len() && j < a.len() {
                    assert((a + b)[i] == a[i] && (a + b)[j] == a[j]);
                } else if i >= a.len() && j >= a.len() {
                    assert((a + b)[i] == b[i - a.len()] && (a + b)[j] == b[j - a.len()]);
                } else if i < a.len() {
                    assert((a + b)[i] == a[i] && (a + b)[j] == b[j - a.len()]);
                    assert(a.contains(a[i]));
                    assert(b.contains(b[j - a.len()]));
                } else {
                    assert((a + b)[j] == a[j] && (a + b)[i] == b[i - a.len()]);
                    assert(a.contains(a[j]));
                    assert(b.contains(b[i - a.len()]));
                }
            }
        }
    }
}

/// The leading monomial `m` divides `e` in the first `n` variables.
pub open spec fn below_all(m: Seq<u64>, e: Seq<u64>, n: int) -> bool {
    forall|j: int| 0 <= j < n ==> m[j] <= e[j]
}

/// The standard monomials of a zero-dimensional ideal with the leading
/// monomials `lms`, as `standard_exponents` lists them and
/// `standard_monomials` counts them: exactly the monomials in `n`
/// variables that no leading monomial divides, each once.
pub proof fn law_standard_monomials(lms: Seq<Vec<u64>>, n: nat)
    requires
        forall|a: int| 0 <= a < lms.len() ==> (#[trigger] lms[a]).len() == n,
        zero_dimensional(lms, n as int),
    ensures
        forall|e: Seq<u64>|
            #[trigger] standard_list(lms, seq![], n, exponent_bound(lms)).contains(e) <==> (e.len() == n && !exists|a: int|
                0 <= a < lms.len() && below_all(#[trigger] lms[a]@, e, n as int)),
        standard_list(lms, seq![], n, exponent_bound(lms)).no_duplicates(),
        standard_list(lms, seq![], n, exponent_bound(lms)).len() == standard_count(lms, seq![], n, exponent_bound(lms)),
{
    let d = exponent_bound(lms);
    lemma_exponent_bound_le(lms);
    lemma_list_members(lms, seq![], n, d);
    lemma_listing_counts(n, lms);
    assert forall|e: Seq<u64>| #[trigger] standard_list(lms, seq![], n, d).contains(e) <==> (e.len() == n && !exists|a: int|
        0 <= a < lms.len() && below_all(#[trigger] lms[a]@, e, n as int)) by {
        if e.len() == n {
            assert(e.take(0) =~= Seq::<u64>::empty());
            assert(divided_by(lms, e) <==> exists|a: int| 0 <= a < lms.len() && below_all(#[trigger] lms[a]@, e, n as int)) by {
                if divided_by(lms, e) {
                    let a = choose|a: int| 0 <= a < lms.len() && divides(#[trigger] lms[a]@, e);
                    assert(below_all(lms[a]@, e, n as int));
                }
                if exists|a: int| 0 <= a < lms.len() && below_all(#[trigger] lms[a]@, e, n as int) {
                    let a = choose|a: int| 0 <= a < lms.len() && below_all(#[trigger] lms[a]@, e, n as int);
                    assert(divides(lms[a]@, e));
                }
            }
            if !divided_by(lms, e) {
                assert forall|j: int| 0 <= j < n implies #[trigger] e[j] < d by {
                    if e[j] >= d {
                        lemma_standard_in_box(lms, n, e, j);
                    }
                }
            }
        }
    }
}

/// The standard monomials listed are as many as `standard_monomials`
/// counts (below its saturation): the dimension of the quotient either way.
pub proof fn lemma_listing_counts(n: nat, lms: Seq<Vec<u64>>)
    ensures
        standard_list(lms, seq![], n, exponent_bound(lms)).len() == standard_count(lms, seq![], n, exponent_bound(lms)),
{
    lemma_list_len(lms, seq![], n, exponent_bound(lms));
}

// ----- homogenization and Bayer's order ---------------------------------------

/// The largest weighted degree of the monomials `t` (0 if none).
pub open spec fn max_wdeg(w: Seq<u64>, t: Seq<Seq<u64>>) -> int
    decreases t.len(),
{
    if t.len() == 0 {
        0
    } else {
        let m = max_wdeg(w, t.drop_last());
        let x = wdeg_spec(w, t.last());
        if m >= x { m } else { x }
    }
}

proof fn lemma_max_wdeg(w: Seq<u64>, t: Seq<Seq<u64>>, k: int)
    requires
        0 <= k < t.len(),
    ensures
        wdeg_spec(w, t[k]) <= max_wdeg(w, t),
        0 <= max_wdeg(w, t),
    decreases t.len(),
{
    if k < t.len() - 1 {
        lemma_max_wdeg(w, t.drop_last(), k);
        assert(t.drop_last()[k] == t[k]);
    } else if t.len() > 1 {
        lemma_max_wdeg(w, t.drop_last(), 0);
    } else {
        assert(max_wdeg(w, t.drop_last()) == 0);
    }
}

/// The degree that homogenizing lifts to is the largest weighted degree of
/// the monomials: at least each of theirs, and equal to one of them (0 for
/// no monomials).
pub proof fn law_max_wdeg(w: Seq<u64>, t: Seq<Seq<u64>>)
    ensures
        forall|k: int| 0 <= k < t.len() ==> 0 <= #[trigger] wdeg_spec(w, t[k]) <= max_wdeg(w, t),
        t.len() > 0 ==> exists|k: int| 0 <= k < t.len() && #[trigger] wdeg_spec(w, t[k]) == max_wdeg(w, t),
        t.len() == 0 ==> max_wdeg(w, t) == 0,
    decreases t.len(),
{
    if t.len() > 0 {
        let d = t.drop_last();
        law_max_wdeg(w, d);
        let l = t.len() - 1;
        assert(t[l] == t.last());
        assert forall|k: int| 0 <= k < t.len() implies 0 <= #[trigger] wdeg_spec(w, t[k]) <= max_wdeg(w, t) by {
            lemma_max_wdeg(w, t, k);
            lemma_wdeg_spec_nonneg(w, t[k]);
        }
        if max_wdeg(w, t) == wdeg_spec(w, t.last()) {
            assert(wdeg_spec(w, t[l]) == max_wdeg(w, t));
        } else {
            assert(d.len() > 0) by {
                if d.len() == 0 {
                    lemma_wdeg_spec_nonneg(w, t.last());
                }
            }
            let k = choose|k: int| 0 <= k < d.len() && #[trigger] wdeg_spec(w, d[k]) == max_wdeg(w, d);
            assert(t[k] == d[k]);
            assert(wdeg_spec(w, t[k]) == max_wdeg(w, t));
        }
    }
}

proof fn lemma_wdeg_spec_nonneg(w: Seq<u64>, e: Seq<u64>)
    ensures
        wdeg_spec(w, e) >= 0,
{
    let m = if w.len() < e.len() { w.len() as int } else { e.len() as int };
    lemma_wdeg_monotone(w, e, 0, m);
}

/// The homogenization of the polynomial with the monomials `t` for the
/// weights `w`, by a new first variable of weight 1: each monomial gets
/// the exponent that lifts it to the largest weighted degree (as a word).
pub fn homogenized(w: &[u64], t: &[Vec<u64>]) -> (h: Vec<Vec<u64>>)
    requires
        forall|k: int| 0 <= k < t.len() ==> wdeg_spec(w@, #[trigger] t@[k]@) <= u128::MAX,
    ensures
        h.len() == t.len(),
        forall|k: int| 0 <= k < t.len() ==> (#[trigger] h@[k])@ == seq![
            (max_wdeg(w@, t@.map_values(|e: Vec<u64>| e@)) - wdeg_spec(w@, t@[k]@)) as u64,
        ] + t@[k]@,
        forall|k: int| 0 <= k < t.len() ==> (#[trigger] h@[k])@.drop_first() == t@[k]@,
        (forall|j: int| 0 <= j < t.len() ==> wdeg_spec(w@, #[trigger] t@[j]@) <= u64::MAX) ==> forall|k: int, l: int|
            0 <= k < t.len() && 0 <= l < t.len() ==> #[trigger] h@[k]@[0] + wdeg_spec(w@, t@[k]@) == #[trigger] h@[l]@[0]
                + wdeg_spec(w@, t@[l]@),
        t.len() > 0 ==> exists|k: int| 0 <= k < t.len() && #[trigger] h@[k]@[0] == 0,
{
    let ghost tv = t@.map_values(|e: Vec<u64>| e@);
    let mut d: u128 = 0;
    let mut k: usize = 0;
    while k < t.len()
        invariant
            tv == t@.map_values(|e: Vec<u64>| e@),
            k <= t.len(),
            forall|j: int| 0 <= j < t.len() ==> wdeg_spec(w@, #[trigger] t@[j]@) <= u128::MAX,
            d == max_wdeg(w@, tv.take(k as int)),
        decreases t.len() - k,
    {
        let x = wdeg(w, &t[k]);
        proof {
            assert(tv.take(k + 1).drop_last() =~= tv.take(k as int));
            assert(tv.take(k + 1).last() == t@[k as int]@);
        }
        if x > d {
            d = x;
        }
        k += 1;
    }
    assert(tv.take(t.len() as int) =~= tv);
    let mut h: Vec<Vec<u64>> = Vec::with_capacity(t.len());
    let mut k: usize = 0;
    while k < t.len()
        invariant
            tv == t@.map_values(|e: Vec<u64>| e@),
            k <= t.len(),
            forall|j: int| 0 <= j < t.len() ==> wdeg_spec(w@, #[trigger] t@[j]@) <= u128::MAX,
            d == max_wdeg(w@, tv),
            h.len() == k,
            forall|j: int| 0 <= j < k ==> (#[trigger] h@[j])@ == seq![(d - wdeg_spec(w@, t@[j]@)) as u64] + t@[j]@,
        decreases t.len() - k,
    {
        let e = &t[k];
        let x = wdeg(w, e);
        proof {
            lemma_max_wdeg(w@, tv, k as int);
        }
        let mut g: Vec<u64> = Vec::new();
        g.push(#[verifier::truncate] ((d - x) as u64));
        let mut j: usize = 0;
        while j < e.len()
            invariant
                j <= e.len(),
                g@ == seq![(d - x) as u64] + e@.take(j as int),
            decreases e.len() - j,
        {
            g.push(e[j]);
            j += 1;
            assert(g@ =~= seq![(d - x) as u64] + e@.take(j as int));
        }
        assert(e@.take(e.len() as int) =~= e@);
        h.push(g);
        k += 1;
    }
    proof {
        law_max_wdeg(w@, tv);
        assert forall|j: int| 0 <= j < t.len() implies #[trigger] tv[j] == t@[j]@ by {}
        assert forall|k: int| 0 <= k < t.len() implies (#[trigger] h@[k])@.drop_first() == t@[k]@ by {
            assert(h@[k]@.drop_first() =~= t@[k]@);
        }
        if forall|j: int| 0 <= j < t.len() ==> wdeg_spec(w@, #[trigger] t@[j]@) <= u64::MAX {
            if t.len() > 0 {
                let m = choose|m: int| 0 <= m < tv.len() && #[trigger] wdeg_spec(w@, tv[m]) == max_wdeg(w@, tv);
                assert(wdeg_spec(w@, t@[m]@) <= u64::MAX);
            }
            assert forall|k: int| 0 <= k < t.len() implies #[trigger] h@[k]@[0] + wdeg_spec(w@, t@[k]@) == d by {
                assert(0 <= wdeg_spec(w@, tv[k]) <= max_wdeg(w@, tv));
                assert(h@[k]@[0] == (d - wdeg_spec(w@, t@[k]@)) as u64);
            }
        }
        if t.len() > 0 {
            let m = choose|m: int| 0 <= m < tv.len() && #[trigger] wdeg_spec(w@, tv[m]) == max_wdeg(w@, tv);
            assert(h@[m]@[0] == 0);
        }
    }
    h
}

/// The place of the variable `i != last` among the others from the
/// highest down.
pub open spec fn bayer_rank(n: int, last: int, i: int) -> int {
    if i > last { n - 1 - i } else { n - 2 - i }
}

/// The weight row `k` of Bayer's order for the weights `w` and the least
/// variable `last`: the weights with `last` and then the other variables
/// from the highest down set to 0, one more in each row.
pub open spec fn bayer_row(w: Seq<u64>, last: int, k: int) -> Seq<u64> {
    Seq::new(w.len(), |i: int| if k >= 1 && (i == last || bayer_rank(w.len() as int, last, i) + 2 <= k) { 0 } else { w[i] })
}

/// Bayer's order for positive weights: the first row is the weights; every
/// later row drops `last`; the variables dropped besides it are the
/// highest ones, once dropped they stay dropped, and each row from the
/// second on drops exactly one more; otherwise a row keeps the weights.
pub proof fn law_bayer_order(w: Seq<u64>, last: int)
    requires
        0 <= last < w.len(),
        forall|i: int| 0 <= i < w.len() ==> #[trigger] w[i] > 0,
    ensures
        bayer_row(w, last, 0) == w,
        forall|k: int| 1 <= k < w.len() ==> #[trigger] bayer_row(w, last, k)[last] == 0,
        forall|k: int, i: int|
            0 <= k < w.len() && 0 <= i < w.len() ==> (#[trigger] bayer_row(w, last, k)[i] == 0 || bayer_row(w, last, k)[i] == w[i]),
        forall|k: int, i: int, j: int|
            1 <= k < w.len() && 0 <= i < j < w.len() && i != last && j != last && #[trigger] bayer_row(w, last, k)[i] == 0
                ==> #[trigger] bayer_row(w, last, k)[j] == 0,
        forall|k: int, k2: int, i: int|
            0 <= k <= k2 < w.len() && 0 <= i < w.len() && #[trigger] bayer_row(w, last, k)[i] == 0 ==> #[trigger] bayer_row(
                w,
                last,
                k2,
            )[i] == 0,
        forall|k: int|
            2 <= k < w.len() ==> 0 <= #[trigger] dropped_at(w.len() as int, last, k) < w.len() && bayer_row(w, last, k)[dropped_at(
                w.len() as int,
                last,
                k,
            )] == 0 && bayer_row(w, last, k - 1)[dropped_at(w.len() as int, last, k)] != 0,
        forall|k: int, i: int, i2: int|
            2 <= k < w.len() && 0 <= i < w.len() && 0 <= i2 < w.len() && #[trigger] bayer_row(w, last, k)[i] == 0
                && bayer_row(w, last, k - 1)[i] != 0 && #[trigger] bayer_row(w, last, k)[i2] == 0 && bayer_row(w, last, k - 1)[i2]
                != 0 ==> i == i2,
{
    let n = w.len() as int;
    assert(bayer_row(w, last, 0) =~= w);
    assert forall|k: int| 2 <= k < w.len() implies 0 <= #[trigger] dropped_at(w.len() as int, last, k) < w.len() && bayer_row(
        w,
        last,
        k,
    )[dropped_at(w.len() as int, last, k)] == 0 && bayer_row(w, last, k - 1)[dropped_at(w.len() as int, last, k)] != 0 by {
        lemma_bayer_new(w, last, k);
    }
}

/// The variable that row `k >= 2` of Bayer's order for `n` variables drops
/// beside those of row `k - 1`: the highest variable other than `last`
/// not yet dropped.
pub open spec fn dropped_at(n: int, last: int, k: int) -> int {
    if n - 1 - (k - 2) > last { n - 1 - (k - 2) } else { n - 2 - (k - 2) }
}

/// The variable that row `k` of Bayer's order drops first.
proof fn lemma_bayer_new(w: Seq<u64>, last: int, k: int) -> (i: int)
    requires
        0 <= last < w.len(),
        forall|i: int| 0 <= i < w.len() ==> #[trigger] w[i] > 0,
        2 <= k < w.len(),
    ensures
        i == dropped_at(w.len() as int, last, k),
        0 <= i < w.len(),
        bayer_row(w, last, k)[i] == 0,
        bayer_row(w, last, k - 1)[i] != 0,
{
    let n = w.len() as int;
    let r = k - 2;
    let i = dropped_at(n, last, k);
    assert(bayer_rank(n, last, i) == r);
    assert(i != last);
    assert(w[i] > 0);
    i
}

/// The weight rows of grevlex for the positive weights `w` with the
/// variable `last` the least: the one whose exponent decides a tie first.
pub fn bayer_order(w: &[u64], last: usize) -> (rows: Vec<Vec<u64>>)
    requires
        last < w.len(),
    ensures
        rows.len() == w.len(),
        forall|k: int| 0 <= k < w.len() ==> (#[trigger] rows@[k])@ == bayer_row(w@, last as int, k),
{
    let n = w.len();
    let mut row: Vec<u64> = Vec::with_capacity(n);
    let mut i: usize = 0;
    while i < n
        invariant
            n == w.len(),
            i <= n,
            row@ == w@.take(i as int),
        decreases n - i,
    {
        row.push(w[i]);
        i += 1;
        assert(row@ =~= w@.take(i as int));
    }
    assert(row@ =~= bayer_row(w@, last as int, 0));
    let mut rows: Vec<Vec<u64>> = Vec::with_capacity(n);
    rows.push(row.clone());
    let mut k: usize = 1;
    while k < n
        invariant
            n == w.len(),
            last < n,
            1 <= k <= n,
            rows.len() == k,
            row@ == bayer_row(w@, last as int, k - 1),
            forall|s: int| 0 <= s < k ==> (#[trigger] rows@[s])@ == bayer_row(w@, last as int, s),
        decreases n - k,
    {
        let v = if k == 1 {
            last
        } else {
            let r = k - 2;
            if n - 1 - r > last {
                n - 1 - r
            } else {
                n - 2 - r
            }
        };
        row.set(v, 0);
        assert(row@ =~= bayer_row(w@, last as int, k as int));
        let c = row.clone();
        assert(c@ =~= row@);
        rows.push(c);
        k += 1;
    }
    rows
}


/// The least exponent of the variable `last` in the monomials `t` (0 for
/// none): the power of it that divides the polynomial.
pub open spec fn least_power(t: Seq<Seq<u64>>, last: int) -> u64
    decreases t.len(),
{
    if t.len() == 0 {
        0
    } else if t.len() == 1 {
        t[0][last]
    } else {
        let r = least_power(t.drop_last(), last);
        if t.last()[last] < r { t.last()[last] } else { r }
    }
}

/// The largest of the powers of the variable `last` that divide the
/// polynomials `g` (0 for none).
pub open spec fn saturation_power(g: Seq<Seq<Seq<u64>>>, last: int) -> u64
    decreases g.len(),
{
    if g.len() == 0 {
        0
    } else {
        let r = saturation_power(g.drop_last(), last);
        let d = least_power(g.last(), last);
        if d > r { d } else { r }
    }
}

/// The monomial `e` with the exponent of `last` lowered by `d`, and without
/// its first variable when `drop` is set.
pub open spec fn lowered(e: Seq<u64>, last: int, d: u64, drop: bool) -> Seq<u64> {
    let f = e.update(last, (e[last] - d) as u64);
    if drop { f.drop_first() } else { f }
}

/// The monomials of the polynomials as sequences.
pub open spec fn polys_view(g: Seq<Vec<Vec<u64>>>) -> Seq<Seq<Seq<u64>>> {
    g.map_values(|t: Vec<Vec<u64>>| t@.map_values(|e: Vec<u64>| e@))
}

proof fn lemma_least_power_le(t: Seq<Seq<u64>>, last: int, j: int)
    requires
        0 <= j < t.len(),
    ensures
        least_power(t, last) <= t[j][last],
    decreases t.len(),
{
    if t.len() > 1 && j < t.len() - 1 {
        lemma_least_power_le(t.drop_last(), last, j);
        assert(t.drop_last()[j] == t[j]);
    }
}

/// The power of `last` that divides a polynomial is the least of its
/// exponents of `last`: one term has it, and no term has less.
pub proof fn law_least_power(t: Seq<Seq<u64>>, last: int)
    requires
        t.len() > 0,
    ensures
        exists|j: int| 0 <= j < t.len() && #[trigger] t[j][last] == least_power(t, last),
        forall|j: int| 0 <= j < t.len() ==> least_power(t, last) <= #[trigger] t[j][last],
    decreases t.len(),
{
    if t.len() == 1 {
        assert(t[0][last] == least_power(t, last));
    } else {
        let d = t.drop_last();
        law_least_power(d, last);
        let j0 = choose|j: int| 0 <= j < d.len() && #[trigger] d[j][last] == least_power(d, last);
        assert(t[j0] == d[j0]);
        assert(t[t.len() - 1] == t.last());
        assert forall|j: int| 0 <= j < t.len() implies least_power(t, last) <= #[trigger] t[j][last] by {
            if j < t.len() - 1 {
                assert(t[j] == d[j]);
            }
        }
    }
}

/// The power of `last` that Bayer's method reports is the highest one
/// divided out: each polynomial with a term has one whose exponent of
/// `last` is at most it, and when it is not 0 some polynomial with a term
/// has every exponent of `last` at least it.
pub proof fn law_saturation_power(g: Seq<Seq<Seq<u64>>>, last: int)
    ensures
        forall|a: int|
            0 <= a < g.len() && g[a].len() > 0 ==> exists|j: int|
                0 <= j < g[a].len() && #[trigger] g[a][j][last] <= saturation_power(g, last),
        saturation_power(g, last) > 0 ==> exists|a: int|
            0 <= a < g.len() && g[a].len() > 0 && forall|j: int|
                0 <= j < g[a].len() ==> saturation_power(g, last) <= #[trigger] g[a][j][last],
    decreases g.len(),
{
    if g.len() > 0 {
        let d = g.drop_last();
        let l = g.len() - 1;
        assert(g[l] == g.last());
        law_saturation_power(d, last);
        let k = saturation_power(g, last);
        if g.last().len() > 0 {
            law_least_power(g.last(), last);
        }
        assert forall|a: int| 0 <= a < g.len() && g[a].len() > 0 implies exists|j: int|
            0 <= j < g[a].len() && #[trigger] g[a][j][last] <= k by {
            if a < l {
                assert(g[a] == d[a]);
                let j = choose|j: int| 0 <= j < d[a].len() && #[trigger] d[a][j][last] <= saturation_power(d, last);
                assert(g[a][j][last] <= k);
            } else {
                let j = choose|j: int| 0 <= j < g.last().len() && #[trigger] g.last()[j][last] == least_power(g.last(), last);
                assert(g[a][j][last] <= k);
            }
        }
        if k > 0 {
            if k == least_power(g.last(), last) && g.last().len() > 0 {
                assert forall|j: int| 0 <= j < g[l].len() implies k <= #[trigger] g[l][j][last] by {}
            } else {
                assert(k == saturation_power(d, last));
                let a = choose|a: int|
                    0 <= a < d.len() && d[a].len() > 0 && forall|j: int|
                        0 <= j < d[a].len() ==> saturation_power(d, last) <= #[trigger] d[a][j][last];
                assert(g[a] == d[a]);
                assert forall|j: int| 0 <= j < g[a].len() implies k <= #[trigger] g[a][j][last] by {
                    assert(d[a][j] == g[a][j]);
                }
            }
        }
    }
}

/// The power of the variable `last` that divides the polynomial with the
/// monomials `t`.
fn least_power_of(t: &Vec<Vec<u64>>, last: usize) -> (d: u64)
    requires
        forall|j: int| 0 <= j < t.len() ==> last < (#[trigger] t@[j]).len(),
    ensures
        d == least_power(t@.map_values(|e: Vec<u64>| e@), last as int),
{
    let ghost tv = t@.map_values(|e: Vec<u64>| e@);
    if t.len() == 0 {
        return 0;
    }
    let mut d = t[0][last];
    let mut j: usize = 1;
    proof {
        assert(tv.take(1).len() == 1);
        assert(tv.take(1)[0] == tv[0]);
    }
    while j < t.len()
        invariant
            1 <= j <= t.len(),
            tv == t@.map_values(|e: Vec<u64>| e@),
            forall|i: int| 0 <= i < t.len() ==> last < (#[trigger] t@[i]).len(),
            d == least_power(tv.take(j as int), last as int),
        decreases t.len() - j,
    {
        let x = t[j][last];
        proof {
            assert(tv.take(j + 1).drop_last() =~= tv.take(j as int));
            assert(tv.take(j + 1).last() == tv[j as int]);
        }
        if x < d {
            d = x;
        }
        j += 1;
    }
    assert(tv.take(t.len() as int) =~= tv);
    d
}

/// The last step of Bayer's method on a Gröbner basis with the monomials
/// `g`: each polynomial divided by the highest power of the variable `last`
/// that divides it, and without the homogenizing first variable when
/// `homogenize` is set, with the highest of those powers; `None` when the
/// variable divides none of the polynomials, which leaves the ideal as it
/// is.
pub fn divide_out_last(g: &Vec<Vec<Vec<u64>>>, last: usize, homogenize: bool) -> (r: Option<(Vec<Vec<Vec<u64>>>, u64)>)
    requires
        forall|a: int, j: int| 0 <= a < g.len() && 0 <= j < g@[a].len() ==> last < (#[trigger] g@[a]@[j]).len(),
    ensures
        r is None <==> saturation_power(polys_view(g@), last as int) == 0,
        r matches Some(ok) ==> {
            &&& ok.1 == saturation_power(polys_view(g@), last as int)
            &&& ok.0.len() == g.len()
            &&& forall|a: int| 0 <= a < g.len() ==> (#[trigger] ok.0@[a]).len() == g@[a].len()
            &&& forall|a: int, j: int|
                0 <= a < g.len() && 0 <= j < g@[a].len() ==> (#[trigger] ok.0@[a]@[j])@ == lowered(
                    g@[a]@[j]@,
                    last as int,
                    least_power(polys_view(g@)[a], last as int),
                    homogenize,
                )
        },
        r is None <==> forall|a: int|
            0 <= a < g.len() && g@[a].len() > 0 ==> exists|j: int| 0 <= j < g@[a].len() && #[trigger] g@[a]@[j]@[last as int] == 0,
        r matches Some(ok) ==> forall|a: int|
            0 <= a < g.len() && g@[a].len() > 0 ==> exists|j: int| 0 <= j < g@[a].len() && #[trigger] g@[a]@[j]@[last as int] <= ok.1,
        r matches Some(ok) ==> exists|a: int|
            0 <= a < g.len() && g@[a].len() > 0 && forall|j: int| 0 <= j < g@[a].len() ==> ok.1 <= #[trigger] g@[a]@[j]@[last as int],
        r matches Some(ok) ==> forall|a: int, j: int|
            0 <= a < g.len() && 0 <= j < g@[a].len() ==> (#[trigger] ok.0@[a]@[j]).len() == g@[a]@[j].len() - (if homogenize {
                1int
            } else {
                0int
            }),
        r matches Some(ok) ==> forall|a: int, j: int, y: int|
            0 <= a < g.len() && 0 <= j < g@[a].len() && 0 <= y < g@[a]@[j].len() - (if homogenize { 1int } else { 0int })
                ==> #[trigger] ok.0@[a]@[j]@[y] == (if y + (if homogenize { 1int } else { 0int }) == last {
                (g@[a]@[j]@[last as int] - least_power(polys_view(g@)[a], last as int)) as u64
            } else {
                g@[a]@[j]@[y + (if homogenize { 1int } else { 0int })]
            }),
{
    let ghost gv = polys_view(g@);
    let mut out: Vec<Vec<Vec<u64>>> = Vec::with_capacity(g.len());
    let mut k: u64 = 0;
    let mut a: usize = 0;
    proof {
        assert(gv.take(0) =~= Seq::<Seq<Seq<u64>>>::empty());
    }
    while a < g.len()
        invariant
            a <= g.len(),
            gv == polys_view(g@),
            forall|b: int, j: int| 0 <= b < g.len() && 0 <= j < g@[b].len() ==> last < (#[trigger] g@[b]@[j]).len(),
            k == saturation_power(gv.take(a as int), last as int),
            out.len() == a,
            forall|b: int| 0 <= b < a ==> (#[trigger] out@[b]).len() == g@[b].len(),
            forall|b: int, j: int|
                0 <= b < a && 0 <= j < g@[b].len() ==> (#[trigger] out@[b]@[j])@ == lowered(
                    g@[b]@[j]@,
                    last as int,
                    least_power(gv[b], last as int),
                    homogenize,
                ),
        decreases g.len() - a,
    {
        let t = &g[a];
        proof {
            assert forall|j: int| 0 <= j < t.len() implies last < (#[trigger] t@[j]).len() by {
                assert(t@[j] == g@[a as int]@[j]);
            }
        }
        let d = least_power_of(t, last);
        let ghost tv = t@.map_values(|e: Vec<u64>| e@);
        assert(tv == gv[a as int]);
        let mut nt: Vec<Vec<u64>> = Vec::with_capacity(t.len());
        let mut j: usize = 0;
        while j < t.len()
            invariant
                j <= t.len(),
                tv == t@.map_values(|e: Vec<u64>| e@),
                forall|i: int| 0 <= i < t.len() ==> last < (#[trigger] t@[i]).len(),
                d == least_power(tv, last as int),
                nt.len() == j,
                forall|i: int| 0 <= i < j ==> (#[trigger] nt@[i])@ == lowered(t@[i]@, last as int, d, homogenize),
            decreases t.len() - j,
        {
            let e = &t[j];
            proof {
                lemma_least_power_le(tv, last as int, j as int);
                assert(tv[j as int] == e@);
            }
            let mut f: Vec<u64> = Vec::with_capacity(e.len());
            let mut x: usize = if homogenize { 1 } else { 0 };
            let start = x;
            while x < e.len()
                invariant
                    start <= x <= e.len(),
                    start == (if homogenize { 1usize } else { 0usize }),
                    last < e.len(),
                    d <= e@[last as int],
                    f.len() == x - start,
                    forall|i: int| start <= i < x ==> #[trigger] f@[i - start] == (if i == last { (e@[i] - d) as u64 } else { e@[i] }),
                decreases e.len() - x,
            {
                if x == last {
                    f.push(e[x] - d);
                } else {
                    f.push(e[x]);
                }
                x += 1;
            }
            proof {
                let lw = lowered(e@, last as int, d, homogenize);
                assert(f@ =~= lw) by {
                    if homogenize {
                        assert(lw.len() == e.len() - 1);
                        assert forall|i: int| 0 <= i < f.len() implies f@[i] == lw[i] by {
                            assert(f@[(i + 1) - 1] == (if i + 1 == last { (e@[i + 1] - d) as u64 } else { e@[i + 1] }));
                        }
                    } else {
                        assert forall|i: int| 0 <= i < f.len() implies f@[i] == lw[i] by {
                            assert(f@[i - 0] == (if i == last { (e@[i] - d) as u64 } else { e@[i] }));
                        }
                    }
                }
            }
            nt.push(f);
            j += 1;
        }
        proof {
            assert(gv.take(a + 1).drop_last() =~= gv.take(a as int));
            assert(gv.take(a + 1).last() == gv[a as int]);
        }
        if d > k {
            k = d;
        }
        out.push(nt);
        proof {
            assert forall|b: int, i: int|
                0 <= b < a + 1 && 0 <= i < g@[b].len() implies (#[trigger] out@[b]@[i])@ == lowered(
                g@[b]@[i]@,
                last as int,
                least_power(gv[b], last as int),
                homogenize,
            ) by {
                if b == a {
                    assert(t@[i] == g@[b]@[i]);
                }
            }
        }
        a += 1;
    }
    proof {
        assert(gv.take(g.len() as int) =~= gv);
        law_saturation_power(gv, last as int);
        assert forall|a: int, j: int| 0 <= a < g.len() && 0 <= j < g@[a].len() implies #[trigger] g@[a]@[j]@[last as int]
            == gv[a][j][last as int] by {
            assert(gv[a] == g@[a]@.map_values(|e: Vec<u64>| e@));
        }
        assert forall|a: int| 0 <= a < g.len() implies #[trigger] g@[a].len() == gv[a].len() by {
            assert(gv[a] == g@[a]@.map_values(|e: Vec<u64>| e@));
        }
        if k == 0 {
            assert forall|a: int| 0 <= a < g.len() && g@[a].len() > 0 implies exists|j: int|
                0 <= j < g@[a].len() && #[trigger] g@[a]@[j]@[last as int] == 0 by {
                let j = choose|j: int| 0 <= j < gv[a].len() && #[trigger] gv[a][j][last as int] <= k;
                assert(g@[a]@[j]@[last as int] == gv[a][j][last as int]);
            }
        } else {
            let a = choose|a: int|
                0 <= a < gv.len() && gv[a].len() > 0 && forall|j: int| 0 <= j < gv[a].len() ==> k <= #[trigger] gv[a][j][last as int];
            assert(g@[a].len() > 0);
            assert forall|j: int| 0 <= j < g@[a].len() implies k <= #[trigger] g@[a]@[j]@[last as int] by {
                assert(g@[a]@[j]@[last as int] == gv[a][j][last as int]);
            }
            assert(!(forall|a: int|
                0 <= a < g.len() && g@[a].len() > 0 ==> exists|j: int| 0 <= j < g@[a].len() && #[trigger] g@[a]@[j]@[last as int] == 0)) by {
                if g@[a].len() > 0 {
                    if exists|j: int| 0 <= j < g@[a].len() && #[trigger] g@[a]@[j]@[last as int] == 0 {
                        let j = choose|j: int| 0 <= j < g@[a].len() && #[trigger] g@[a]@[j]@[last as int] == 0;
                        assert(k <= g@[a]@[j]@[last as int]);
                    }
                }
            }
            assert forall|b: int| 0 <= b < g.len() && g@[b].len() > 0 implies exists|j: int|
                0 <= j < g@[b].len() && #[trigger] g@[b]@[j]@[last as int] <= k by {
                let j = choose|j: int| 0 <= j < gv[b].len() && #[trigger] gv[b][j][last as int] <= k;
                assert(g@[b]@[j]@[last as int] == gv[b][j][last as int]);
            }
        }
    }
    if k == 0 {
        None
    } else {
        Some((out, k))
    }
}

} // verus!
