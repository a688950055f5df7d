//! Weights that make polynomials homogeneous: integer linear algebra on the
//! differences of exponent vectors, solved over the integers by a fraction
//! free reduced echelon form.

use vstd::prelude::*;
use vstd::arithmetic::div_mod::*;
use vstd::arithmetic::power::{pow, lemma_pow_increases};

verus! {

// ----- the equations ----------------------------------------------------------

/// `a[0] v[0] + ... + a[k-1] v[k-1]`.
pub open spec fn dot(a: Seq<i128>, v: Seq<int>, k: int) -> int
    decreases k,
{
    if k <= 0 {
        0
    } else {
        dot(a, v, k - 1) + a[k - 1] * v[k - 1]
    }
}

/// `v` solves each of the equations `eqs` (each a row of coefficients).
pub open spec fn solves(eqs: Seq<Vec<i128>>, v: Seq<int>) -> bool {
    forall|i: int| 0 <= i < eqs.len() ==> dot(#[trigger] eqs[i]@, v, v.len() as int) == 0
}

/// `v` is a solution of `eqs` in positive integers, one for each of the
/// `m` variables.
pub open spec fn positive_solution(eqs: Seq<Vec<i128>>, v: Seq<int>, m: int) -> bool {
    &&& v.len() == m
    &&& forall|k: int| 0 <= k < m ==> #[trigger] v[k] > 0
    &&& solves(eqs, v)
}

/// The weights `w` are the solution `v`, entry by entry (so each entry of
/// `v` fits a machine word).
pub open spec fn word_weights(w: Seq<u64>, v: Seq<int>) -> bool {
    &&& w.len() == v.len()
    &&& forall|k: int| 0 <= k < w.len() ==> #[trigger] w[k] == v[k]
}

/// The greatest common divisor, by Euclid's algorithm.
pub open spec fn gcd(a: nat, b: nat) -> nat
    decreases b,
{
    if b == 0 {
        a
    } else {
        gcd(b, a % b)
    }
}

pub open spec fn abs(x: int) -> nat {
    if x < 0 {
        (-x) as nat
    } else {
        x as nat
    }
}

proof fn lemma_divides_trans(a: int, g: int, h: int)
    requires
        g > 0,
        h > 0,
        a % g == 0,
        g % h == 0,
    ensures
        a % h == 0,
{
    lemma_fundamental_div_mod(a, g);
    lemma_fundamental_div_mod(g, h);
    let k = a / g;
    let l = g / h;
    assert(a == h * (l * k)) by (nonlinear_arith)
        requires
            a == g * k,
            g == h * l,
    ;
    lemma_mod_multiples_basic(l * k, h);
    assert(h * (l * k) == (l * k) * h) by (nonlinear_arith);
}

pub proof fn lemma_gcd_divides(a: nat, b: nat)
    ensures
        gcd(a, b) > 0 ==> a % gcd(a, b) == 0 && b % gcd(a, b) == 0,
        a > 0 || b > 0 ==> gcd(a, b) > 0,
        gcd(a, b) == 0 ==> a == 0 && b == 0,
    decreases b,
{
    if b == 0 {
        if a > 0 {
            lemma_mod_self_0(a as int);
            lemma_small_mod(0, a);
        }
    } else {
        let r = a % b;
        lemma_gcd_divides(b, r);
        let d = gcd(b, r);
        assert(d > 0);
        lemma_fundamental_div_mod(a as int, b as int);
        let q = a / b;
        lemma_add_mod_noop((b * q) as int, r as int, d as int);
        lemma_mul_mod_noop_left(b as int, q as int, d as int);
        lemma_small_mod(0, d);
        assert((0 * (q as int)) % (d as int) == 0);
    }
}

/// A common divisor of `a` and `b` divides their gcd.
pub proof fn lemma_common_divides_gcd(a: nat, b: nat, d: int)
    requires
        d > 0,
        (a as int) % d == 0,
        (b as int) % d == 0,
    ensures
        (gcd(a, b) as int) % d == 0,
    decreases b,
{
    if b > 0 {
        lemma_fundamental_div_mod(a as int, d);
        lemma_fundamental_div_mod(b as int, d);
        lemma_fundamental_div_mod(a as int, b as int);
        let (x, y, q) = ((a as int) / d, (b as int) / d, (a as int) / (b as int));
        assert((a % b) as int == d * (x - y * q)) by (nonlinear_arith)
            requires
                a as int == d * x + 0,
                b as int == d * y + 0,
                a as int == b * q + (a % b) as int,
        ;
        lemma_mod_multiples_basic(x - y * q, d);
        assert(d * (x - y * q) == (x - y * q) * d) by (nonlinear_arith);
        lemma_common_divides_gcd(b, a % b, d);
    }
}

/// The gcd is at most a positive number it divides.
pub proof fn lemma_divisor_le(a: nat, g: nat)
    requires
        a > 0,
        g > 0,
        a % g == 0,
    ensures
        g <= a,
{
    lemma_fundamental_div_mod(a as int, g as int);
    let q = a / g;
    assert(q >= 1) by (nonlinear_arith)
        requires
            a == g * q + 0,
            a > 0,
            g > 0,
            q >= 0,
    ;
    assert(g <= g * q) by (nonlinear_arith)
        requires
            q >= 1,
            g > 0,
    ;
}

/// `dot` is linear in the row.
proof fn lemma_dot_combo(a: Seq<i128>, b: Seq<i128>, c: Seq<i128>, v: Seq<int>, x: int, y: int, k: int)
    requires
        0 <= k,
        forall|j: int| 0 <= j < k ==> a[j] == x * b[j] - y * c[j],
    ensures
        dot(a, v, k) == x * dot(b, v, k) - y * dot(c, v, k),
    decreases k,
{
    if k > 0 {
        lemma_dot_combo(a, b, c, v, x, y, k - 1);
        let (aj, bj, cj, vj) = (a[k - 1] as int, b[k - 1] as int, c[k - 1] as int, v[k - 1]);
        let (db, dc) = (dot(b, v, k - 1), dot(c, v, k - 1));
        assert(aj * vj == x * (bj * vj) - y * (cj * vj)) by (nonlinear_arith)
            requires
                aj == x * bj - y * cj,
        ;
        assert(x * db - y * dc + (x * (bj * vj) - y * (cj * vj)) == x * (db + bj * vj) - y * (dc + cj
            * vj)) by (nonlinear_arith);
    }
}

/// `dot` only reads the first `k` coefficients.
proof fn lemma_dot_ext(a: Seq<i128>, b: Seq<i128>, v: Seq<int>, k: int)
    requires
        0 <= k,
        forall|j: int| 0 <= j < k ==> a[j] == b[j],
    ensures
        dot(a, v, k) == dot(b, v, k),
    decreases k,
{
    if k > 0 {
        lemma_dot_ext(a, b, v, k - 1);
    }
}

/// A row of zeros.
proof fn lemma_dot_zero(a: Seq<i128>, v: Seq<int>, k: int)
    requires
        0 <= k,
        forall|j: int| 0 <= j < k ==> a[j] == 0,
    ensures
        dot(a, v, k) == 0,
    decreases k,
{
    if k > 0 {
        lemma_dot_zero(a, v, k - 1);
    }
}

// ----- integer row operations -------------------------------------------------

/// `|x|`.
fn magnitude(x: i128) -> (m: u128)
    ensures
        m == abs(x as int),
{
    if x >= 0 {
        x as u128
    } else {
        let y: i128 = -(x + 1);
        y as u128 + 1
    }
}

/// The gcd of two magnitudes.
fn gcd_of(a: u128, b: u128) -> (g: u128)
    ensures
        g == gcd(a as nat, b as nat),
    decreases b,
{
    if b == 0 {
        a
    } else {
        gcd_of(b, a % b)
    }
}

/// The gcd of the entries of a row: 0 for a row of zeros, else a positive
/// divisor of each entry.
fn row_gcd(row: &Vec<i128>) -> (g: u128)
    ensures
        g == 0 ==> forall|j: int| 0 <= j < row.len() ==> row@[j] == 0,
        g > 0 ==> forall|j: int| 0 <= j < row.len() ==> (abs(#[trigger] row@[j] as int) as int) % (g as int)
            == 0,
        forall|d: int|
            d > 0 && (forall|j: int| 0 <= j < row.len() ==> (abs(#[trigger] row@[j] as int) as int) % d == 0) ==> #[trigger] ((
            g as int) % d) == 0,
{
    let mut g: u128 = 0;
    let mut t: usize = 0;
    while t < row.len()
        invariant
            t <= row.len(),
            g == 0 ==> forall|j: int| 0 <= j < t ==> row@[j] == 0,
            g > 0 ==> forall|j: int| 0 <= j < t ==> (abs(#[trigger] row@[j] as int) as int) % (g as int) == 0,
            forall|d: int|
                d > 0 && (forall|j: int| 0 <= j < t ==> (abs(#[trigger] row@[j] as int) as int) % d == 0) ==> #[trigger] ((
                g as int) % d) == 0,
        decreases row.len() - t,
    {
        let x = magnitude(row[t]);
        let h = gcd_of(g, x);
        proof {
            assert forall|d: int|
                d > 0 && (forall|j: int| 0 <= j < t + 1 ==> (abs(#[trigger] row@[j] as int) as int) % d == 0) implies #[trigger] ((
                h as int) % d) == 0 by {
                assert(forall|j: int| 0 <= j < t ==> (abs(#[trigger] row@[j] as int) as int) % d == 0);
                assert((g as int) % d == 0);
                assert((abs(row@[t as int] as int) as int) % d == 0);
                lemma_common_divides_gcd(g as nat, x as nat, d);
            }
            lemma_gcd_divides(g as nat, x as nat);
            if h > 0 {
                assert forall|j: int| 0 <= j < t + 1 implies (abs(#[trigger] row@[j] as int) as int) % (
                h as int) == 0 by {
                    if j < t {
                        if g > 0 {
                            lemma_divides_trans(abs(row@[j] as int) as int, g as int, h as int);
                        } else {
                            lemma_small_mod(0, h as nat);
                        }
                    }
                }
            }
        }
        g = h;
        t += 1;
    }
    g
}

/// The row divided by a divisor `g` of all its entries.
fn divide_row(row: &Vec<i128>, g: u128) -> (q: Vec<i128>)
    requires
        g >= 2,
        forall|j: int| 0 <= j < row.len() ==> (abs(#[trigger] row@[j] as int) as int) % (g as int) == 0,
    ensures
        q.len() == row.len(),
        forall|j: int| 0 <= j < row.len() ==> row@[j] == g * #[trigger] q@[j],
{
    let mut q: Vec<i128> = Vec::with_capacity(row.len());
    let mut t: usize = 0;
    while t < row.len()
        invariant
            t <= row.len(),
            g >= 2,
            q.len() == t,
            forall|j: int| 0 <= j < row.len() ==> (abs(#[trigger] row@[j] as int) as int) % (g as int) == 0,
            forall|j: int| 0 <= j < t ==> row@[j] == g * #[trigger] q@[j],
        decreases row.len() - t,
    {
        let x = row[t];
        let a = magnitude(x);
        let s = a / g;
        proof {
            lemma_fundamental_div_mod(a as int, g as int);
            assert(a == g * s);
            assert(s <= a / 2) by {
                lemma_div_is_ordered_by_denominator(a as int, 2, g as int);
            }
        }
        let y: i128 = if x < 0 {
            -(s as i128)
        } else {
            s as i128
        };
        assert(x == g * y) by (nonlinear_arith)
            requires
                a == g * s,
                a == abs(x as int),
                y == (if x < 0 { -(s as int) } else { s as int }),
        ;
        q.push(y);
        t += 1;
    }
    q
}

/// `a_j x`, `b_j y` and `a_j x - b_j y` all fit in an `i128`.
pub open spec fn combines(x: i128, aj: i128, y: i128, bj: i128) -> bool {
    &&& i128::MIN <= aj * x <= i128::MAX
    &&& i128::MIN <= bj * y <= i128::MAX
    &&& i128::MIN <= aj * x - bj * y <= i128::MAX
}

/// The row `x a - y b`, if no entry overflows.
fn combine(x: i128, a: &Vec<i128>, y: i128, b: &Vec<i128>) -> (c: Option<Vec<i128>>)
    requires
        a.len() == b.len(),
    ensures
        c matches Some(c) ==> c.len() == a.len() && forall|j: int|
            0 <= j < a.len() ==> #[trigger] c@[j] == x * a@[j] - y * b@[j],
        c is None <==> exists|j: int| 0 <= j < a.len() && !#[trigger] combines(x, a@[j], y, b@[j]),
{
    let mut c: Vec<i128> = Vec::with_capacity(a.len());
    let mut j: usize = 0;
    while j < a.len()
        invariant
            a.len() == b.len(),
            j <= a.len(),
            c.len() == j,
            forall|t: int| 0 <= t < j ==> #[trigger] c@[t] == x * a@[t] - y * b@[t],
            forall|t: int| 0 <= t < j ==> #[trigger] combines(x, a@[t], y, b@[t]),
        decreases a.len() - j,
    {
        let u = match a[j].checked_mul(x) {
            Some(u) => u,
            None => {
                assert(!combines(x, a@[j as int], y, b@[j as int]));
                return None;
            },
        };
        let w = match b[j].checked_mul(y) {
            Some(w) => w,
            None => {
                assert(!combines(x, a@[j as int], y, b@[j as int]));
                return None;
            },
        };
        let z = match u.checked_sub(w) {
            Some(z) => z,
            None => {
                assert(!combines(x, a@[j as int], y, b@[j as int]));
                return None;
            },
        };
        assert(z == x * a@[j as int] - y * b@[j as int]) by (nonlinear_arith)
            requires
                u == a@[j as int] * x,
                w == b@[j as int] * y,
                z == u - w,
        ;
        c.push(z);
        j += 1;
    }
    Some(c)
}

// ----- the reduced echelon form -----------------------------------------------

/// The rows `e` (of length `m`) are in reduced echelon form in their first
/// `c` columns, with pivot columns `piv` (the pivot of row `k` in column
/// `piv[k]`): each pivot column is zero but in its row, and the rows
/// below the pivots are zero in the other columns.
pub open spec fn echelon(e: Seq<Vec<i128>>, piv: Seq<usize>, c: int, m: int) -> bool {
    &&& piv.len() <= e.len()
    &&& forall|i: int| 0 <= i < e.len() ==> (#[trigger] e[i]).len() == m
    &&& forall|k: int, l: int| 0 <= k < l < piv.len() ==> piv[k] < piv[l]
    &&& forall|k: int| 0 <= k < piv.len() ==> #[trigger] piv[k] < c
    &&& forall|k: int| 0 <= k < piv.len() ==> e[k]@[#[trigger] piv[k] as int] != 0
    &&& forall|k: int, i: int|
        0 <= k < piv.len() && 0 <= i < e.len() && i != k ==> #[trigger] e[i]@[piv[k] as int] == 0
    &&& forall|j: int, i: int|
        0 <= j < c && (forall|k: int| 0 <= k < piv.len() ==> piv[k] != j) && piv.len() <= i < e.len()
            ==> #[trigger] e[i]@[j] == 0
}

/// Each pivot row is 0 in the columns before its pivot that are no pivot:
/// the pivot columns are the first possible ones.
pub open spec fn leading(e: Seq<Vec<i128>>, piv: Seq<usize>) -> bool {
    forall|k: int, j: int| 0 <= k < piv.len() && 0 <= j < piv[k] && !is_pivot(piv, j) ==> #[trigger] e[k]@[j] == 0
}

/// Whether column `j` is one of the pivot columns `piv`.
pub open spec fn is_pivot(piv: Seq<usize>, j: int) -> bool {
    exists|k: int| 0 <= k < piv.len() && piv[k] == j
}

/// Every solution of the rows `e` (in `m` variables) solves `orig`.
pub open spec fn keeps_solutions(e: Seq<Vec<i128>>, orig: Seq<Vec<i128>>, m: int) -> bool {
    forall|v: Seq<int>| v.len() == m && #[trigger] solves(e, v) ==> solves(orig, v)
}

/// Replacing row `i` by `nr`, where `g nr = x e[i] - y e[r]` with `x` and `g`
/// non-zero, loses no solution.
proof fn lemma_row_op_sound(
    e: Seq<Vec<i128>>,
    nr: Vec<i128>,
    pre: Seq<i128>,
    i: int,
    r: int,
    x: int,
    y: int,
    g: int,
    m: int,
)
    requires
        0 <= i < e.len(),
        0 <= r < e.len(),
        i != r,
        x != 0,
        g != 0,
        0 <= m,
        forall|j: int| 0 <= j < m ==> pre[j] == x * e[i]@[j] - y * e[r]@[j],
        forall|j: int| 0 <= j < m ==> pre[j] == g * nr@[j],
    ensures
        forall|v: Seq<int>| v.len() == m && #[trigger] solves(e.update(i, nr), v) ==> solves(e, v),
{
    assert forall|v: Seq<int>| v.len() == m && #[trigger] solves(e.update(i, nr), v) implies solves(e, v) by {
        let e2 = e.update(i, nr);
        assert(dot(e2[i]@, v, m) == 0);
        assert(dot(e2[r]@, v, m) == 0);
        lemma_dot_combo(pre, e[i]@, e[r]@, v, x, y, m);
        lemma_dot_combo(pre, nr@, nr@, v, g, 0, m);
        let (a, b, p, q) = (dot(e[i]@, v, m), dot(e[r]@, v, m), dot(pre, v, m), dot(nr@, v, m));
        assert(a == 0) by (nonlinear_arith)
            requires
                p == x * a - y * b,
                p == g * q - 0 * q,
                q == 0,
                b == 0,
                x != 0,
        ;
        assert forall|t: int| 0 <= t < e.len() implies dot(#[trigger] e[t]@, v, v.len() as int) == 0 by {
            if t != i {
                assert(e2[t] == e[t]);
            }
        }
    }
}

/// The entries of the rows `lo..hi` (their first `m`) lie in `-b..=b`.
pub open spec fn within(eqs: Seq<Vec<i128>>, lo: int, hi: int, b: int, m: int) -> bool {
    forall|t: int, j: int| lo <= t < hi && 0 <= j < m ==> -b <= #[trigger] eqs[t]@[j] <= b
}

/// The largest absolute value of the first `k` entries of `r`.
pub open spec fn row_max(r: Seq<i128>, k: int) -> int
    decreases k,
{
    if k <= 0 {
        0
    } else {
        let a: int = if r[k - 1] < 0 { -r[k - 1] } else { r[k - 1] as int };
        let b = row_max(r, k - 1);
        if a > b { a } else { b }
    }
}

/// The largest absolute value of an entry of the first `t` rows.
pub open spec fn max_entry(eqs: Seq<Vec<i128>>, t: int, m: int) -> int
    decreases t,
{
    if t <= 0 {
        0
    } else {
        let a = row_max(eqs[t - 1]@, m);
        let b = max_entry(eqs, t - 1, m);
        if a > b { a } else { b }
    }
}

/// A bound on the entries after the elimination of `c` columns from rows
/// with entries at most `b`: each step takes `x a - y b`.
pub open spec fn growth(b: int, c: nat) -> int
    decreases c,
{
    if c == 0 {
        b
    } else {
        2 * growth(b, (c - 1) as nat) * growth(b, (c - 1) as nat)
    }
}

proof fn lemma_row_max(r: Seq<i128>, k: int)
    requires
        0 <= k,
    ensures
        row_max(r, k) >= 0,
        forall|j: int| 0 <= j < k ==> -row_max(r, k) <= #[trigger] r[j] <= row_max(r, k),
    decreases k,
{
    if k > 0 {
        lemma_row_max(r, k - 1);
    }
}

proof fn lemma_max_entry(eqs: Seq<Vec<i128>>, t: int, m: int)
    requires
        0 <= t <= eqs.len(),
        0 <= m,
    ensures
        max_entry(eqs, t, m) >= 0,
        within(eqs, 0, t, max_entry(eqs, t, m), m),
    decreases t,
{
    if t > 0 {
        lemma_max_entry(eqs, t - 1, m);
        lemma_row_max(eqs[t - 1]@, m);
    }
}

proof fn lemma_growth_nonneg(b: int, d: nat)
    requires
        b >= 0,
    ensures
        growth(b, d) >= 0,
    decreases d,
{
    if d > 0 {
        lemma_growth_nonneg(b, (d - 1) as nat);
        let g = growth(b, (d - 1) as nat);
        assert(2 * g * g >= 0) by (nonlinear_arith)
            requires
                g >= 0,
        ;
    }
}

proof fn lemma_growth_mono(b: int, c: nat, d: nat)
    requires
        b >= 0,
        c <= d,
    ensures
        0 <= growth(b, c) <= growth(b, d),
    decreases d,
{
    lemma_growth_nonneg(b, c);
    if d > c {
        lemma_growth_mono(b, c, (d - 1) as nat);
        let g = growth(b, (d - 1) as nat);
        assert(g <= 2 * g * g) by (nonlinear_arith)
            requires
                g >= 0,
        ;
    }
}

/// `x a - y b` of entries at most `g` is at most `2 g^2`, and fits where that
/// does.
proof fn lemma_combine_bound(x: i128, a: i128, y: i128, b: i128, g: int)
    requires
        -g <= x <= g,
        -g <= a <= g,
        -g <= y <= g,
        -g <= b <= g,
    ensures
        -(2 * g * g) <= a * x - b * y <= 2 * g * g,
        2 * g * g <= i128::MAX ==> combines(x, a, y, b),
{
    assert(-(g * g) <= a * x <= g * g) by (nonlinear_arith)
        requires
            -g <= x <= g,
            -g <= a <= g,
    ;
    assert(-(g * g) <= b * y <= g * g) by (nonlinear_arith)
        requires
            -g <= y <= g,
            -g <= b <= g,
    ;
    assert(2 * g * g == g * g + g * g) by (nonlinear_arith);
}

proof fn lemma_quotient_bound(p: int, g: int, q: int, b: int)
    requires
        p == g * q,
        g >= 1,
        -b <= p <= b,
    ensures
        -b <= q <= b,
{
    assert(-b <= q <= b) by (nonlinear_arith)
        requires
            p == g * q,
            g >= 1,
            -b <= p <= b,
    ;
}

/// The reduced echelon form of the rows `eqs` (each of length `m`) over the
/// integers, in place: each row below the pivot is replaced by the pivot's
/// multiple of it less its own multiple of the pivot row, divided by the
/// gcd of its entries. The pivot columns, the first ones possible; `None`
/// if an entry overflows.
fn reduce(eqs: &mut Vec<Vec<i128>>, m: usize) -> (piv: Option<Vec<usize>>)
    requires
        forall|i: int| 0 <= i < old(eqs).len() ==> (#[trigger] old(eqs)@[i]).len() == m,
    ensures
        final(eqs).len() == old(eqs).len(),
        piv matches Some(piv) ==> echelon(final(eqs)@, piv@, m as int, m as int),
        piv matches Some(piv) ==> leading(final(eqs)@, piv@),
        piv is Some ==> keeps_solutions(final(eqs)@, old(eqs)@, m as int),
        piv is Some ==> keeps_solutions(old(eqs)@, final(eqs)@, m as int),
        old(eqs).len() == 0 ==> (piv matches Some(piv) && piv@.len() == 0),
        old(eqs).len() <= 1 ==> (piv is Some && final(eqs)@ == old(eqs)@),
        growth(max_entry(old(eqs)@, old(eqs).len() as int, m as int), m as nat) <= i128::MAX ==> piv is Some,
{
    let ghost orig = eqs@;
    let ghost M0 = max_entry(orig, orig.len() as int, m as int);
    proof {
        lemma_max_entry(orig, orig.len() as int, m as int);
    }
    let mut pivots: Vec<usize> = Vec::new();
    let mut c: usize = 0;
    while c < m
        invariant
            c <= m,
            orig == old(eqs)@,
            M0 == max_entry(orig, orig.len() as int, m as int),
            M0 >= 0,
            within(eqs@, 0, eqs.len() as int, growth(M0, c as nat), m as int),
            eqs.len() == orig.len(),
            echelon(eqs@, pivots@, c as int, m as int),
            keeps_solutions(eqs@, orig, m as int),
            keeps_solutions(orig, eqs@, m as int),
            orig.len() == 0 ==> pivots.len() == 0,
            orig.len() <= 1 ==> eqs@ == orig,
            leading(eqs@, pivots@),
        decreases m - c,
    {
        let r = pivots.len();
        let mut p = r;
        while p < eqs.len() && eqs[p][c] == 0
            invariant
                r <= p <= eqs.len(),
                c < m,
                echelon(eqs@, pivots@, c as int, m as int),
                r == pivots.len(),
                forall|i: int| r <= i < p ==> #[trigger] eqs@[i]@[c as int] == 0,
                within(eqs@, 0, eqs.len() as int, growth(M0, c as nat), m as int),
            decreases eqs.len() - p,
        {
            p += 1;
        }
        if p == eqs.len() {
            proof {
                lemma_growth_mono(M0, c as nat, (c + 1) as nat);
            }
            assert(echelon(eqs@, pivots@, c + 1, m as int)) by {
                assert forall|j: int, i: int|
                    0 <= j < c + 1 && (forall|k: int| 0 <= k < pivots@.len() ==> pivots@[k] != j)
                        && pivots@.len() <= i < eqs@.len() implies #[trigger] eqs@[i]@[j] == 0 by {
                    if j == c {
                        assert(eqs@[i]@[c as int] == 0);
                    }
                }
            }
            c += 1;
            continue;
        }
        // The pivot row first.
        let ghost before = eqs@;
        if p != r {
            let mut tmp: Vec<i128> = Vec::new();
            eqs.set_and_swap(r, &mut tmp);
            eqs.set_and_swap(p, &mut tmp);
            eqs.set_and_swap(r, &mut tmp);
        }
        proof {
            let sw = eqs@;
            assert(sw =~= before.update(r as int, before[p as int]).update(p as int, before[r as int]));
            if orig.len() <= 1 {
                assert(p == r);
                assert(sw =~= before);
            }
            assert forall|v: Seq<int>| v.len() == m && #[trigger] solves(orig, v) implies solves(sw, v) by {
                assert(solves(before, v));
                assert forall|t: int| 0 <= t < sw.len() implies dot(#[trigger] sw[t]@, v, v.len() as int) == 0 by {
                    if t == r {
                        assert(sw[t] == before[p as int]);
                    } else if t == p {
                        assert(sw[t] == before[r as int]);
                    } else {
                        assert(sw[t] == before[t]);
                    }
                }
            }
            assert forall|v: Seq<int>| v.len() == m && #[trigger] solves(sw, v) implies solves(orig, v) by {
                assert forall|t: int| 0 <= t < before.len() implies dot(#[trigger] before[t]@, v, v.len() as int)
                    == 0 by {
                    if t == r {
                        assert(before[t] == sw[p as int]);
                    } else if t == p {
                        assert(before[t] == sw[r as int]);
                    } else {
                        assert(before[t] == sw[t]);
                    }
                }
                assert(solves(before, v));
            }
            assert forall|i: int| 0 <= i < sw.len() implies (#[trigger] sw[i]).len() == m by {
                if i == r {
                    assert(sw[i] == before[p as int]);
                } else if i == p {
                    assert(sw[i] == before[r as int]);
                } else {
                    assert(sw[i] == before[i]);
                }
            }
            assert forall|k: int, i: int|
                0 <= k < pivots@.len() && 0 <= i < sw.len() && i != k implies #[trigger] sw[i]@[pivots@[k] as int]
                == 0 by {
                if i == r {
                    assert(sw[i] == before[p as int]);
                } else if i == p {
                    assert(sw[i] == before[r as int]);
                } else {
                    assert(sw[i] == before[i]);
                }
            }
            assert forall|k: int| 0 <= k < pivots@.len() implies sw[k]@[#[trigger] pivots@[k] as int] != 0 by {
                assert(sw[k] == before[k]);
            }
            assert forall|j: int, i: int|
                0 <= j < c && (forall|k: int| 0 <= k < pivots@.len() ==> pivots@[k] != j) && pivots@.len() <= i
                    < sw.len() implies #[trigger] sw[i]@[j] == 0 by {
                if i == r {
                    assert(sw[i] == before[p as int]);
                    assert(before[p as int]@[j] == 0);
                } else if i == p {
                    assert(sw[i] == before[r as int]);
                    assert(before[r as int]@[j] == 0);
                } else {
                    assert(sw[i] == before[i]);
                }
            }
            assert(echelon(sw, pivots@, c as int, m as int));
            assert forall|t: int, j: int| 0 <= t < sw.len() && 0 <= j < m implies -growth(M0, c as nat) <= #[trigger] sw[t]@[j]
                <= growth(M0, c as nat) by {
                if t == r {
                    assert(sw[t] == before[p as int]);
                } else if t == p {
                    assert(sw[t] == before[r as int]);
                } else {
                    assert(sw[t] == before[t]);
                }
            }
            assert forall|k: int, j: int| 0 <= k < pivots@.len() && 0 <= j < pivots@[k] && !is_pivot(pivots@, j) implies #[trigger] sw[k]@[j] == 0 by {
                assert(sw[k] == before[k]);
            }
        }
        let x = eqs[r][c];
        let ghost row_r = eqs@[r as int];
        let ghost g0 = growth(M0, c as nat);
        let ghost g1 = growth(M0, (c + 1) as nat);
        proof {
            lemma_growth_mono(M0, c as nat, (c + 1) as nat);
            lemma_growth_mono(M0, (c + 1) as nat, m as nat);
            assert(g1 == 2 * g0 * g0);
        }
        // Clear the column in the other rows.
        let mut i: usize = 0;
        while i < eqs.len()
            invariant
                c < m,
                r == pivots.len(),
                r < eqs.len(),
                eqs.len() == orig.len(),
                i <= eqs.len(),
                orig == old(eqs)@,
                eqs@[r as int] == row_r,
                x == row_r@[c as int],
                x != 0,
                echelon(eqs@, pivots@, c as int, m as int),
                keeps_solutions(eqs@, orig, m as int),
                keeps_solutions(orig, eqs@, m as int),
                orig.len() <= 1 ==> eqs@ == orig,
                leading(eqs@, pivots@),
                forall|t: int| 0 <= t < i && t != r ==> #[trigger] eqs@[t]@[c as int] == 0,
                M0 == max_entry(orig, orig.len() as int, m as int),
                0 <= g0 <= g1,
                g1 == 2 * g0 * g0,
                g1 <= growth(M0, m as nat),
                within(eqs@, 0, i as int, g1, m as int),
                within(eqs@, i as int, eqs.len() as int, g0, m as int),
                forall|j: int| 0 <= j < m ==> -g0 <= #[trigger] row_r@[j] <= g0,
            decreases eqs.len() - i,
        {
            if i != r && eqs[i][c] != 0 {
                let y = eqs[i][c];
                let ghost e = eqs@;
                let pre = match combine(x, &eqs[i], y, &eqs[r]) {
                    Some(pre) => pre,
                    None => {
                        proof {
                            let j = choose|j: int| 0 <= j < eqs@[i as int].len() && !#[trigger] combines(
                                x,
                                eqs@[i as int]@[j],
                                y,
                                eqs@[r as int]@[j],
                            );
                            assert(-g0 <= eqs@[i as int]@[j] <= g0);
                            assert(-g0 <= eqs@[r as int]@[j] <= g0);
                            assert(-g0 <= eqs@[i as int]@[c as int] <= g0);
                            lemma_combine_bound(x, eqs@[i as int]@[j], y, eqs@[r as int]@[j], g0);
                        }
                        return None;
                    },
                };
                proof {
                    assert forall|j: int| 0 <= j < m implies -g1 <= #[trigger] pre@[j] <= g1 by {
                        assert(-g0 <= e[i as int]@[j] <= g0);
                        assert(-g0 <= e[r as int]@[j] <= g0);
                        assert(-g0 <= e[i as int]@[c as int] <= g0);
                        lemma_combine_bound(x, e[i as int]@[j], y, e[r as int]@[j], g0);
                    }
                }
                let g = row_gcd(&pre);
                let nr = if g > 1 {
                    divide_row(&pre, g)
                } else {
                    pre.clone()
                };
                let ghost gi: int = if g > 1 { g as int } else { 1 };
                assert forall|j: int| 0 <= j < m implies pre@[j] == gi * #[trigger] nr@[j] by {
                    if g <= 1 {
                        assert(nr@[j] == pre@[j]);
                    }
                }
                proof {
                    lemma_row_op_sound(e, nr, pre@, i as int, r as int, x as int, y as int, gi, m as int);
                    assert forall|v: Seq<int>| v.len() == m && #[trigger] solves(orig, v) implies solves(e.update(i as int, nr), v) by {
                        assert(solves(e, v));
                        assert(dot(e[i as int]@, v, m as int) == 0);
                        assert(dot(e[r as int]@, v, m as int) == 0);
                        lemma_dot_combo(pre@, e[i as int]@, e[r as int]@, v, x as int, y as int, m as int);
                        lemma_dot_combo(pre@, nr@, nr@, v, gi, 0, m as int);
                        let q = dot(nr@, v, m as int);
                        assert(q == 0) by (nonlinear_arith)
                            requires
                                dot(pre@, v, m as int) == x * 0 - y * 0,
                                dot(pre@, v, m as int) == gi * q - 0 * q,
                                gi != 0,
                        ;
                        assert forall|t: int| 0 <= t < e.len() implies dot(#[trigger] e.update(i as int, nr)[t]@, v, v.len() as int) == 0 by {
                            if t != i {
                                assert(e.update(i as int, nr)[t] == e[t]);
                            }
                        }
                    }
                    assert(pre@[c as int] == 0) by (nonlinear_arith)
                        requires
                            pre@[c as int] == x * y - y * x,
                    ;
                    assert(nr@[c as int] == 0) by (nonlinear_arith)
                        requires
                            pre@[c as int] == gi * nr@[c as int],
                            pre@[c as int] == 0,
                            gi != 0,
                    ;
                    let e2 = e.update(i as int, nr);
                    assert forall|k: int| 0 <= k < pivots@.len() implies e2[k]@[#[trigger] pivots@[k] as int] != 0 by {
                        let pk = pivots@[k] as int;
                        if k == i {
                            assert(e[r as int]@[pk] == 0);
                            assert(e[k]@[pk] != 0);
                            assert(pre@[pk] == x * e[k]@[pk] - y * 0);
                            assert(nr@[pk] != 0) by (nonlinear_arith)
                                requires
                                    pre@[pk] == x * e[k]@[pk] - y * 0,
                                    pre@[pk] == gi * nr@[pk],
                                    x != 0,
                                    e[k]@[pk] != 0,
                            ;
                        }
                    }
                    assert forall|k: int, t: int|
                        0 <= k < pivots@.len() && 0 <= t < e2.len() && t != k implies #[trigger] e2[t]@[pivots@[k] as int]
                        == 0 by {
                        let pk = pivots@[k] as int;
                        if t == i {
                            assert(e[r as int]@[pk] == 0);
                            assert(e[t]@[pk] == 0);
                            assert(nr@[pk] == 0) by (nonlinear_arith)
                                requires
                                    pre@[pk] == x * 0 - y * 0,
                                    pre@[pk] == gi * nr@[pk],
                                    gi != 0,
                            ;
                        }
                    }
                    assert forall|j: int, t: int|
                        0 <= j < c && (forall|k: int| 0 <= k < pivots@.len() ==> pivots@[k] != j) && pivots@.len()
                            <= t < e2.len() implies #[trigger] e2[t]@[j] == 0 by {
                        if t == i {
                            assert(e[r as int]@[j] == 0);
                            assert(e[t]@[j] == 0);
                            assert(nr@[j] == 0) by (nonlinear_arith)
                                requires
                                    pre@[j] == x * 0 - y * 0,
                                    pre@[j] == gi * nr@[j],
                                    gi != 0,
                            ;
                        }
                    }
                    assert forall|t: int| 0 <= t < e2.len() implies (#[trigger] e2[t]).len() == m by {}
                    assert(echelon(e2, pivots@, c as int, m as int));
                    assert forall|k: int, j: int| 0 <= k < pivots@.len() && 0 <= j < pivots@[k] && !is_pivot(pivots@, j) implies #[trigger] e2[k]@[j] == 0 by {
                        if k == i {
                            assert(e[k]@[j] == 0);
                            assert(forall|l: int| 0 <= l < pivots@.len() ==> pivots@[l] != j);
                            assert(pivots@[k] < c);
                            assert(e[r as int]@[j] == 0);
                            assert(nr@[j] == 0) by (nonlinear_arith)
                                requires
                                    pre@[j] == x * 0 - y * 0,
                                    pre@[j] == gi * nr@[j],
                                    gi != 0,
                            ;
                        }
                    }
                }
                proof {
                    assert forall|j: int| 0 <= j < m implies -g1 <= #[trigger] nr@[j] <= g1 by {
                        lemma_quotient_bound(pre@[j] as int, gi, nr@[j] as int, g1);
                    }
                }
                eqs.set(i, nr);
            }
            proof {
                assert forall|t: int, j: int| 0 <= t < i + 1 && 0 <= j < m implies -g1 <= #[trigger] eqs@[t]@[j] <= g1 by {
                    if t == i {
                        if eqs@[t]@[j] != 0 {
                        }
                    }
                }
            }
            i += 1;
        }
        proof {
            let e = eqs@;
            let piv2 = pivots@.push(c);
            assert forall|k: int, t: int|
                0 <= k < piv2.len() && 0 <= t < e.len() && t != k implies #[trigger] e[t]@[piv2[k] as int] == 0 by {
                if k < pivots@.len() {
                    assert(piv2[k] == pivots@[k]);
                }
            }
            assert forall|j: int, t: int|
                0 <= j < c + 1 && (forall|k: int| 0 <= k < piv2.len() ==> piv2[k] != j) && piv2.len() <= t
                    < e.len() implies #[trigger] e[t]@[j] == 0 by {
                assert(piv2[r as int] == c);
                assert forall|k: int| 0 <= k < pivots@.len() implies pivots@[k] != j by {
                    assert(piv2[k] == pivots@[k]);
                }
            }
            assert forall|k: int| 0 <= k < piv2.len() implies e[k]@[#[trigger] piv2[k] as int] != 0 by {
                if k < pivots@.len() {
                    assert(piv2[k] == pivots@[k]);
                }
            }
            assert forall|k: int, j: int| 0 <= k < piv2.len() && 0 <= j < piv2[k] && !is_pivot(piv2, j) implies #[trigger] e[k]@[j] == 0 by {
                assert(!is_pivot(pivots@, j)) by {
                    if is_pivot(pivots@, j) {
                        let l = choose|l: int| 0 <= l < pivots@.len() && pivots@[l] == j;
                        assert(piv2[l] == j);
                    }
                }
                assert(forall|l: int| 0 <= l < pivots@.len() ==> pivots@[l] != j);
                if k < pivots@.len() {
                    assert(piv2[k] == pivots@[k]);
                } else {
                    assert(e[k] == row_r);
                }
            }
        }
        pivots.push(c);
        c += 1;
    }
    Some(pivots)
}

// ----- solutions --------------------------------------------------------------

/// The sum of `a[j] v[j]` over the columns `j < k` marked free.
pub open spec fn dot_free(a: Seq<i128>, v: Seq<int>, fr: Seq<bool>, k: int) -> int
    decreases k,
{
    if k <= 0 {
        0
    } else {
        dot_free(a, v, fr, k - 1) + if fr[k - 1] {
            a[k - 1] * v[k - 1]
        } else {
            0
        }
    }
}

/// The entries of `w` as integers.
pub open spec fn ints(w: Seq<i128>) -> Seq<int> {
    w.map_values(|x: i128| x as int)
}

/// `fr` marks the columns (of `m`) that are not pivot columns, and `free`
/// lists them in increasing order.
pub open spec fn free_columns(piv: Seq<usize>, free: Seq<usize>, fr: Seq<bool>, m: int) -> bool {
    &&& fr.len() == m
    &&& forall|j: int| 0 <= j < m ==> (#[trigger] fr[j] <==> !is_pivot(piv, j))
    &&& forall|t: int| 0 <= t < free.len() ==> #[trigger] free[t] < m && fr[free[t] as int]
    &&& forall|t: int, u: int| 0 <= t < u < free.len() ==> free[t] < free[u]
}

/// A row that is zero in all columns but the free ones and `c` splits into
/// its free part and its term in `c`.
proof fn lemma_dot_split(a: Seq<i128>, v: Seq<int>, fr: Seq<bool>, c: int, k: int)
    requires
        0 <= k <= fr.len(),
        0 <= c,
        c < fr.len() ==> !fr[c],
        forall|j: int| 0 <= j < k && j != c && !fr[j] ==> a[j] == 0,
    ensures
        dot(a, v, k) == dot_free(a, v, fr, k) + if c < k {
            a[c] * v[c]
        } else {
            0
        },
    decreases k,
{
    if k > 0 {
        lemma_dot_split(a, v, fr, c, k - 1);
        if k - 1 != c && !fr[k - 1] {
            assert(a[k - 1] * v[k - 1] == 0) by (nonlinear_arith)
                requires
                    a[k - 1] == 0,
            ;
        }
        if k - 1 == c {
            assert(!fr[c]);
            assert(dot_free(a, v, fr, k) == dot_free(a, v, fr, k - 1));
        } else if fr[k - 1] {
            assert(dot_free(a, v, fr, k) == dot_free(a, v, fr, k - 1) + a[k - 1] * v[k - 1]);
        } else {
            assert(dot_free(a, v, fr, k) == dot_free(a, v, fr, k - 1));
        }
    }
}

/// Changing an entry of `v` whose coefficient is zero leaves `dot` alone.
proof fn lemma_dot_update(a: Seq<i128>, v: Seq<int>, c: int, x: int, k: int)
    requires
        0 <= k <= v.len(),
        0 <= c < v.len(),
        c < k ==> a[c] == 0,
    ensures
        dot(a, v.update(c, x), k) == dot(a, v, k),
    decreases k,
{
    if k > 0 {
        lemma_dot_update(a, v, c, x, k - 1);
        if k - 1 == c {
            assert(a[c] * x == 0 && a[c] * v[c] == 0) by (nonlinear_arith)
                requires
                    a[c] == 0,
            ;
        }
    }
}

/// Changing an entry of `v` outside the free columns leaves `dot_free` alone.
proof fn lemma_dot_free_update(a: Seq<i128>, v: Seq<int>, fr: Seq<bool>, c: int, x: int, k: int)
    requires
        0 <= k <= v.len(),
        k <= fr.len(),
        0 <= c < v.len(),
        c < fr.len(),
        !fr[c],
    ensures
        dot_free(a, v.update(c, x), fr, k) == dot_free(a, v, fr, k),
    decreases k,
{
    if k > 0 {
        lemma_dot_free_update(a, v, fr, c, x, k - 1);
    }
}

/// The integer quotient `s / e` when `e` divides `s`.
fn exact_quotient(s: i128, e: i128) -> (q: Option<i128>)
    requires
        e != 0,
    ensures
        q matches Some(q) ==> q * e == s,
        q is None ==> (abs(s as int) as int) % (abs(e as int) as int) != 0 || s == i128::MIN,
        q is None ==> forall|k: int| i128::MIN < k <= i128::MAX ==> #[trigger] (k * e) != s,
        q matches Some(q) ==> q > i128::MIN,
{
    let (a, b) = (magnitude(s), magnitude(e));
    if a % b != 0 {
        proof {
            assert forall|k: int| i128::MIN < k <= i128::MAX implies #[trigger] (k * e) != s by {
                if k * e == s {
                    assert(a == abs(k) * b) by (nonlinear_arith)
                        requires
                            k * e == s,
                            a == abs(s as int),
                            b == abs(e as int),
                    ;
                    lemma_mod_multiples_basic(abs(k) as int, b as int);
                }
            }
        }
        return None;
    }
    let t = a / b;
    proof {
        lemma_fundamental_div_mod(a as int, b as int);
        assert(t <= a) by {
            lemma_div_is_ordered_by_denominator(a as int, 1, b as int);
        }
    }
    if t > i128::MAX as u128 {
        proof {
            assert forall|k: int| i128::MIN < k <= i128::MAX implies #[trigger] (k * e) != s by {
                if k * e == s {
                    assert(a == abs(k) * b) by (nonlinear_arith)
                        requires
                            k * e == s,
                            a == abs(s as int),
                            b == abs(e as int),
                    ;
                    assert(a == b * t);
                    assert(abs(k) == t) by (nonlinear_arith)
                        requires
                            a == abs(k) * b,
                            a == b * t,
                            b > 0,
                    ;
                }
            }
        }
        return None;
    }
    let u = t as i128;
    let q: i128 = if (s < 0) != (e < 0) {
        -u
    } else {
        u
    };
    assert(q * e == s) by (nonlinear_arith)
        requires
            a == b * u,
            a == abs(s as int),
            b == abs(e as int),
            q == (if (s < 0) != (e < 0) { -(u as int) } else { u as int }),
    ;
    Some(q)
}

/// The pivot entry of row `row` (pivot column `c`) of the solution `v` is
/// found within `i128`: each product and partial sum over the free columns
/// fits, and the entry itself is above `i128::MIN`.
pub open spec fn row_fits(row: Seq<i128>, v: Seq<i128>, fr: Seq<bool>, c: int, m: int) -> bool {
    &&& forall|j: int|
        0 <= j < m && #[trigger] fr[j] ==> i128::MIN <= row[j] * v[j] <= i128::MAX && i128::MIN <= -dot_free(
            row,
            ints(v),
            fr,
            j + 1,
        ) <= i128::MAX
    &&& v[c] > i128::MIN
}

/// Every pivot entry of `v` is found within `i128`.
pub open spec fn fits(e: Seq<Vec<i128>>, piv: Seq<usize>, fr: Seq<bool>, v: Seq<i128>, m: int) -> bool {
    forall|r: int| 0 <= r < piv.len() ==> row_fits(#[trigger] e[r]@, v, fr, piv[r] as int, m)
}

/// `v` solves the rows `e` and has the values `vals` in the columns `free`.
pub open spec fn solution_with(e: Seq<Vec<i128>>, free: Seq<usize>, vals: Seq<i128>, v: Seq<i128>, m: int) -> bool {
    &&& v.len() == m
    &&& solves(e, ints(v))
    &&& forall|t: int| 0 <= t < free.len() ==> v[#[trigger] free[t] as int] == vals[t]
}

proof fn lemma_dot_free_agree(a: Seq<i128>, x: Seq<int>, y: Seq<int>, fr: Seq<bool>, k: int)
    requires
        forall|j: int| 0 <= j < k && fr[j] ==> x[j] == y[j],
    ensures
        dot_free(a, x, fr, k) == dot_free(a, y, fr, k),
    decreases k,
{
    if k > 0 {
        lemma_dot_free_agree(a, x, y, fr, k - 1);
    }
}

/// Values listed for the free columns reach every free column.
proof fn lemma_free_agree(
    w: Seq<i128>,
    v: Seq<i128>,
    fixed: Seq<i128>,
    free: Seq<usize>,
    fr: Seq<bool>,
    vals: Seq<i128>,
    m: int,
)
    requires
        lists_free(free, fr, m),
        forall|u: int| 0 <= u < free.len() ==> fixed[#[trigger] free[u] as int] == vals[u],
        forall|j: int| 0 <= j < m && fr[j] ==> w[j] == fixed[j],
        forall|t: int| 0 <= t < free.len() ==> v[#[trigger] free[t] as int] == vals[t],
    ensures
        forall|j: int| 0 <= j < m && fr[j] ==> w[j] == v[j],
{
    assert forall|j: int| 0 <= j < m && fr[j] implies w[j] == v[j] by {
        assert(fr[j]);
        let t = choose|t: int| 0 <= t < free.len() && free[t] == j;
        assert(v[free[t] as int] == vals[t]);
        assert(fixed[free[t] as int] == vals[t]);
    }
}

/// Row `r` in reduced echelon form: its sum is its free part plus its pivot
/// term.
proof fn lemma_row_split(e: Seq<Vec<i128>>, piv: Seq<usize>, fr: Seq<bool>, m: int, r: int, x: Seq<int>)
    requires
        echelon(e, piv, m, m),
        fr.len() == m,
        forall|j: int| 0 <= j < m ==> (#[trigger] fr[j] <==> !is_pivot(piv, j)),
        0 <= r < piv.len(),
        x.len() == m,
    ensures
        dot(e[r]@, x, m) == dot_free(e[r]@, x, fr, m) + e[r]@[piv[r] as int] * x[piv[r] as int],
{
    let c = piv[r] as int;
    assert(!fr[c]) by {
        assert(is_pivot(piv, c));
    }
    assert forall|j: int| 0 <= j < m && j != c && !fr[j] implies e[r]@[j] == 0 by {
        assert(is_pivot(piv, j));
        let l = choose|l: int| 0 <= l < piv.len() && piv[l] == j;
        assert(e[r]@[piv[l] as int] == 0);
    }
    lemma_dot_split(e[r]@, x, fr, c, m);
}

/// Two solutions of rows in reduced echelon form that agree in the free
/// columns are equal.
proof fn lemma_solution_unique(e: Seq<Vec<i128>>, piv: Seq<usize>, fr: Seq<bool>, m: int, x: Seq<int>, y: Seq<int>)
    requires
        echelon(e, piv, m, m),
        fr.len() == m,
        forall|j: int| 0 <= j < m ==> (#[trigger] fr[j] <==> !is_pivot(piv, j)),
        x.len() == m,
        y.len() == m,
        solves(e, x),
        solves(e, y),
        forall|j: int| 0 <= j < m && fr[j] ==> x[j] == y[j],
    ensures
        x == y,
{
    assert forall|j: int| 0 <= j < m implies x[j] == y[j] by {
        if !fr[j] {
            assert(is_pivot(piv, j));
            let r = choose|r: int| 0 <= r < piv.len() && piv[r] == j;
            lemma_row_split(e, piv, fr, m, r, x);
            lemma_row_split(e, piv, fr, m, r, y);
            lemma_dot_free_agree(e[r]@, x, y, fr, m);
            assert(dot(e[r]@, x, m) == 0);
            assert(dot(e[r]@, y, m) == 0);
            let a = e[r]@[j] as int;
            assert(a != 0);
            assert(x[j] == y[j]) by (nonlinear_arith)
                requires
                    a * x[j] == a * y[j],
                    a != 0,
            ;
        }
    }
    assert(x =~= y);
}

/// Changing a column that is neither free nor the pivot keeps a row's fit.
proof fn lemma_row_fits_update(row: Seq<i128>, w: Seq<i128>, fr: Seq<bool>, ck: int, m: int, c: int, q: i128)
    requires
        row_fits(row, w, fr, ck, m),
        w.len() == m,
        fr.len() == m,
        0 <= c < m,
        0 <= ck < m,
        !fr[c],
        c != ck,
    ensures
        row_fits(row, w.update(c, q), fr, ck, m),
{
    let w2 = w.update(c, q);
    assert(ints(w2) =~= ints(w).update(c, q as int));
    assert forall|j: int| 0 <= j < m && #[trigger] fr[j] implies i128::MIN <= row[j] * w2[j] <= i128::MAX && i128::MIN
        <= -dot_free(row, ints(w2), fr, j + 1) <= i128::MAX by {
        lemma_dot_free_update(row, ints(w), fr, c, q as int, j + 1);
    }
}

/// The solution of the reduced rows `eqs` with the free variables `vals`,
/// if it is integral (and no entry overflows): the pivot variable of each
/// row is what makes the row vanish.
fn solve_with(
    eqs: &Vec<Vec<i128>>,
    pivots: &Vec<usize>,
    free: &Vec<usize>,
    fr: &Vec<bool>,
    m: usize,
    vals: &Vec<i128>,
) -> (w: Option<Vec<i128>>)
    requires
        echelon(eqs@, pivots@, m as int, m as int),
        free_columns(pivots@, free@, fr@, m as int),
        lists_free(free@, fr@, m as int),
        vals.len() == free.len(),
    ensures
        w matches Some(w) ==> w.len() == m && solves(eqs@, ints(w@)) && forall|t: int|
            0 <= t < free.len() ==> w@[#[trigger] free@[t] as int] == vals@[t],
        pivots@.len() == 0 ==> w is Some,
        forall|v: Seq<i128>|
            #[trigger] fits(eqs@, pivots@, fr@, v, m as int) && solution_with(eqs@, free@, vals@, v, m as int) ==> (
            w matches Some(w) && w@ == v),
        w matches Some(w) ==> fits(eqs@, pivots@, fr@, w@, m as int),
{
    let mut w: Vec<i128> = Vec::with_capacity(m);
    let mut j: usize = 0;
    while j < m
        invariant
            j <= m,
            w.len() == j,
        decreases m - j,
    {
        w.push(0);
        j += 1;
    }
    let mut t: usize = 0;
    while t < free.len()
        invariant
            t <= free.len(),
            w.len() == m,
            vals.len() == free.len(),
            free_columns(pivots@, free@, fr@, m as int),
            forall|u: int| 0 <= u < t ==> w@[#[trigger] free@[u] as int] == vals@[u],
        decreases free.len() - t,
    {
        w.set(free[t], vals[t]);
        assert forall|u: int| 0 <= u < t + 1 implies w@[#[trigger] free@[u] as int] == vals@[u] by {
            if u < t {
                assert(free@[u] < free@[t as int]);
            }
        }
        t += 1;
    }
    let ghost fixed = w@;
    let mut r: usize = 0;
    while r < pivots.len()
        invariant
            r <= pivots.len(),
            w.len() == m,
            echelon(eqs@, pivots@, m as int, m as int),
            free_columns(pivots@, free@, fr@, m as int),
            fixed.len() == m,
            forall|j: int| 0 <= j < m && fr@[j] ==> w@[j] == fixed[j],
            forall|k: int| 0 <= k < r ==> dot(#[trigger] eqs@[k]@, ints(w@), m as int) == 0,
            lists_free(free@, fr@, m as int),
            vals.len() == free.len(),
            forall|u: int| 0 <= u < free.len() ==> fixed[#[trigger] free@[u] as int] == vals@[u],
            forall|k: int| 0 <= k < r ==> row_fits(#[trigger] eqs@[k]@, w@, fr@, pivots@[k] as int, m as int),
        decreases pivots.len() - r,
    {
        let c = pivots[r];
        let row = &eqs[r];
        let mut s: i128 = 0;
        let mut j: usize = 0;
        while j < m
            invariant
                j <= m,
                w.len() == m,
                row.len() == m,
                fr.len() == m,
                r < pivots.len(),
                row == eqs@[r as int],
                s == -dot_free(row@, ints(w@), fr@, j as int),
                fixed.len() == m,
                forall|j: int| 0 <= j < m && fr@[j] ==> w@[j] == fixed[j],
                lists_free(free@, fr@, m as int),
                vals.len() == free.len(),
                forall|u: int| 0 <= u < free.len() ==> fixed[#[trigger] free@[u] as int] == vals@[u],
                forall|jj: int|
                    0 <= jj < j && #[trigger] fr@[jj] ==> i128::MIN <= row@[jj] * w@[jj] <= i128::MAX && i128::MIN <= -dot_free(
                        row@,
                        ints(w@),
                        fr@,
                        jj + 1,
                    ) <= i128::MAX,
            decreases m - j,
        {
            if fr[j] {
                let u = match row[j].checked_mul(w[j]) {
                    Some(u) => u,
                    None => {
                        proof {
                            assert forall|v: Seq<i128>|
                                #[trigger] fits(eqs@, pivots@, fr@, v, m as int) && solution_with(eqs@, free@, vals@, v, m as int) implies false by {
                                lemma_free_agree(w@, v, fixed, free@, fr@, vals@, m as int);
                                assert(row_fits(eqs@[r as int]@, v, fr@, pivots@[r as int] as int, m as int));
                                assert(fr@[j as int]);
                            }
                        }
                        return None;
                    },
                };
                s = match s.checked_sub(u) {
                    Some(z) => z,
                    None => {
                        proof {
                            assert forall|v: Seq<i128>|
                                #[trigger] fits(eqs@, pivots@, fr@, v, m as int) && solution_with(eqs@, free@, vals@, v, m as int) implies false by {
                                lemma_free_agree(w@, v, fixed, free@, fr@, vals@, m as int);
                                lemma_dot_free_agree(row@, ints(w@), ints(v), fr@, j + 1);
                                assert(row_fits(eqs@[r as int]@, v, fr@, pivots@[r as int] as int, m as int));
                                assert(fr@[j as int]);
                                assert(dot_free(row@, ints(w@), fr@, j + 1) == dot_free(row@, ints(w@), fr@, j as int) + row@[j as int] * w@[j as int]);
                            }
                        }
                        return None;
                    },
                };
            }
            j += 1;
        }
        let q = match exact_quotient(s, row[c]) {
            Some(q) => q,
            None => {
                proof {
                    assert forall|v: Seq<i128>|
                        #[trigger] fits(eqs@, pivots@, fr@, v, m as int) && solution_with(eqs@, free@, vals@, v, m as int) implies false by {
                        lemma_free_agree(w@, v, fixed, free@, fr@, vals@, m as int);
                        lemma_dot_free_agree(row@, ints(w@), ints(v), fr@, m as int);
                        assert(row_fits(eqs@[r as int]@, v, fr@, pivots@[r as int] as int, m as int));
                        lemma_row_split(eqs@, pivots@, fr@, m as int, r as int, ints(v));
                        assert(dot(eqs@[r as int]@, ints(v), m as int) == 0);
                        let k = v[c as int] as int;
                        assert(k * row@[c as int] == s) by (nonlinear_arith)
                            requires
                                row@[c as int] * k == s,
                        ;
                    }
                }
                return None;
            },
        };
        proof {
            let v = ints(w@);
            let v2 = v.update(c as int, q as int);
            assert(ints(w@.update(c as int, q)) =~= v2);
            assert(!fr@[c as int]) by {
                assert(is_pivot(pivots@, c as int));
            }
            assert forall|k: int| 0 <= k < r + 1 implies dot(#[trigger] eqs@[k]@, v2, m as int) == 0 by {
                if k < r {
                    assert(eqs@[k]@[pivots@[r as int] as int] == 0);
                    lemma_dot_update(eqs@[k]@, v, c as int, q as int, m as int);
                } else {
                    assert forall|j: int| 0 <= j < m && j != c && !fr@[j] implies row@[j] == 0 by {
                        assert(is_pivot(pivots@, j));
                        let l = choose|l: int| 0 <= l < pivots@.len() && pivots@[l] == j;
                        assert(eqs@[r as int]@[pivots@[l] as int] == 0);
                    }
                    lemma_dot_split(row@, v2, fr@, c as int, m as int);
                    lemma_dot_free_update(row@, v, fr@, c as int, q as int, m as int);
                    assert(v2[c as int] == q);
                    assert(row@[c as int] * q == s) by (nonlinear_arith)
                        requires
                            q * row@[c as int] == s,
                    ;
                    assert(eqs@[k] == *row);
                }
            }
        }
        let ghost w0 = w@;
        w.set(c, q);
        proof {
            assert(!fr@[c as int]) by {
                assert(is_pivot(pivots@, c as int));
            }
            assert forall|k: int| 0 <= k < r + 1 implies row_fits(#[trigger] eqs@[k]@, w@, fr@, pivots@[k] as int, m as int) by {
                if k < r {
                    assert(pivots@[k] < pivots@[r as int]);
                    lemma_row_fits_update(eqs@[k]@, w0, fr@, pivots@[k] as int, m as int, c as int, q);
                } else {
                    assert(ints(w@) =~= ints(w0).update(c as int, q as int));
                    assert forall|j: int| 0 <= j < m && #[trigger] fr@[j] implies i128::MIN <= row@[j] * w@[j] <= i128::MAX
                        && i128::MIN <= -dot_free(row@, ints(w@), fr@, j + 1) <= i128::MAX by {
                        lemma_dot_free_update(row@, ints(w0), fr@, c as int, q as int, j + 1);
                    }
                }
            }
        }
        r += 1;
    }
    proof {
        let v = ints(w@);
        assert forall|i: int| 0 <= i < eqs@.len() implies dot(#[trigger] eqs@[i]@, v, v.len() as int) == 0 by {
            if i >= pivots@.len() {
                assert forall|j: int| 0 <= j < m implies eqs@[i]@[j] == 0 by {
                    if is_pivot(pivots@, j) {
                        let l = choose|l: int| 0 <= l < pivots@.len() && pivots@[l] == j;
                        assert(eqs@[i]@[pivots@[l] as int] == 0);
                    } else {
                        assert(forall|k: int| 0 <= k < pivots@.len() ==> pivots@[k] != j);
                    }
                }
                lemma_dot_zero(eqs@[i]@, v, m as int);
            }
        }
        assert forall|u: int| 0 <= u < free.len() implies w@[#[trigger] free@[u] as int] == vals@[u] by {
            assert(fr@[free@[u] as int]);
        }
        assert forall|x: Seq<i128>|
            #[trigger] fits(eqs@, pivots@, fr@, x, m as int) && solution_with(eqs@, free@, vals@, x, m as int) implies w@ == x by {
            lemma_free_agree(w@, x, fixed, free@, fr@, vals@, m as int);
            lemma_solution_unique(eqs@, pivots@, fr@, m as int, v, ints(x));
            assert forall|j: int| 0 <= j < m implies w@[j] == x[j] by {
                assert(v[j] == ints(x)[j]);
            }
            assert(w@ =~= x);
        }
        assert(fits(eqs@, pivots@, fr@, w@, m as int));
    }
    Some(w)
}

// ----- the weights of one linked set of variables -----------------------------

/// `b` is a positive solution of the rows `eqs` in `m` variables.
pub open spec fn good_solution(eqs: Seq<Vec<i128>>, b: Seq<i128>, m: int) -> bool {
    &&& b.len() == m
    &&& forall|k: int| 0 <= k < m ==> #[trigger] b[k] > 0
    &&& solves(eqs, ints(b))
}

/// The sum of the first `k` entries.
pub open spec fn sum_of(w: Seq<i128>, k: int) -> int
    decreases k,
{
    if k <= 0 {
        0
    } else {
        sum_of(w, k - 1) + w[k - 1]
    }
}

/// The largest of the first `k` entries (0 for none).
pub open spec fn max_of(w: Seq<i128>, k: int) -> int
    decreases k,
{
    if k <= 0 {
        0
    } else if k == 1 {
        w[0] as int
    } else if w[k - 1] > max_of(w, k - 1) {
        w[k - 1] as int
    } else {
        max_of(w, k - 1)
    }
}

/// Entries of at least 1 sum to at least their number, and to exactly it
/// only when all are 1.
proof fn lemma_sum_of_ones(w: Seq<i128>, k: int)
    requires
        0 <= k <= w.len(),
        forall|j: int| 0 <= j < k ==> #[trigger] w[j] >= 1,
    ensures
        sum_of(w, k) >= k,
        sum_of(w, k) == k ==> forall|j: int| 0 <= j < k ==> #[trigger] w[j] == 1,
    decreases k,
{
    if k > 0 {
        lemma_sum_of_ones(w, k - 1);
    }
}

/// Every partial sum of the entries fits in an `i128`.
pub open spec fn sums_fit(w: Seq<i128>) -> bool {
    forall|k: int| 0 <= k <= w.len() ==> i128::MIN <= #[trigger] sum_of(w, k) <= i128::MAX
}

/// The sum and the largest of the entries, if the sum fits.
fn sum_and_max(w: &Vec<i128>) -> (r: Option<(i128, i128)>)
    ensures
        r matches Some(sm) ==> sm.0 == sum_of(w@, w.len() as int) && sm.1 == max_of(w@, w.len() as int),
        r is None <==> !sums_fit(w@),
{
    let mut s: i128 = 0;
    let mut mx: i128 = 0;
    let mut j: usize = 0;
    while j < w.len()
        invariant
            j <= w.len(),
            s == sum_of(w@, j as int),
            mx == max_of(w@, j as int),
            forall|k: int| 0 <= k <= j ==> i128::MIN <= #[trigger] sum_of(w@, k) <= i128::MAX,
        decreases w.len() - j,
    {
        s = match s.checked_add(w[j]) {
            Some(t) => t,
            None => {
                assert(!(i128::MIN <= sum_of(w@, j + 1) <= i128::MAX));
                return None;
            },
        };
        if j == 0 || w[j] > mx {
            mx = w[j];
        }
        j += 1;
    }
    Some((s, mx))
}

/// Whether the weights `w` beat `b`: a smaller sum, then a smaller largest
/// weight, then (from the last variable back) the first weight that
/// differs larger.
/// Going back from entry `j - 1`, the first entry in which `w` and `b`
/// differ is larger in `w`.
pub open spec fn later_heavier(w: Seq<i128>, b: Seq<i128>, j: int) -> bool
    decreases j,
{
    if j <= 0 {
        false
    } else if b[j - 1] != w[j - 1] {
        b[j - 1] < w[j - 1]
    } else {
        later_heavier(w, b, j - 1)
    }
}

/// `w` beats `b`: both sums fit, and `w` has the smaller sum, else the
/// smaller largest entry, else the later entries heavier.
pub open spec fn beats(w: Seq<i128>, b: Seq<i128>) -> bool {
    if !sums_fit(w) || !sums_fit(b) {
        false
    } else if sum_of(w, w.len() as int) != sum_of(b, b.len() as int) {
        sum_of(w, w.len() as int) < sum_of(b, b.len() as int)
    } else if max_of(w, w.len() as int) != max_of(b, b.len() as int) {
        max_of(w, w.len() as int) < max_of(b, b.len() as int)
    } else {
        later_heavier(w, b, w.len() as int)
    }
}

proof fn lemma_later_irreflexive(a: Seq<i128>, j: int)
    ensures
        !later_heavier(a, a, j),
    decreases j,
{
    if j > 0 {
        lemma_later_irreflexive(a, j - 1);
    }
}

proof fn lemma_later_transitive(a: Seq<i128>, b: Seq<i128>, c: Seq<i128>, j: int)
    requires
        later_heavier(a, b, j),
        later_heavier(b, c, j),
    ensures
        later_heavier(a, c, j),
    decreases j,
{
    if j > 0 && b[j - 1] == a[j - 1] && c[j - 1] == b[j - 1] {
        lemma_later_transitive(a, b, c, j - 1);
    }
}

/// `beats` is a strict order: nothing beats itself, and it is transitive.
proof fn lemma_beats_order(a: Seq<i128>, b: Seq<i128>, c: Seq<i128>)
    requires
        a.len() == b.len(),
        b.len() == c.len(),
    ensures
        !beats(a, a),
        beats(a, b) && beats(b, c) ==> beats(a, c),
{
    lemma_later_irreflexive(a, a.len() as int);
    if beats(a, b) && beats(b, c) {
        let n = a.len() as int;
        if sum_of(a, n) == sum_of(b, n) && sum_of(b, n) == sum_of(c, n) && max_of(a, n) == max_of(b, n) && max_of(b, n)
            == max_of(c, n) {
            lemma_later_transitive(a, b, c, n);
        }
    }
}

proof fn lemma_later_total(a: Seq<i128>, b: Seq<i128>, j: int, k: int)
    requires
        0 <= k < j,
        a[k] != b[k],
    ensures
        later_heavier(a, b, j) || later_heavier(b, a, j),
    decreases j,
{
    if a[j - 1] == b[j - 1] {
        lemma_later_total(a, b, j - 1, k);
    }
}

/// The weight rule decides between any two different weights of one length
/// whose sums fit: one of them beats the other.
pub proof fn lemma_beats_total(a: Seq<i128>, b: Seq<i128>)
    requires
        a.len() == b.len(),
        sums_fit(a),
        sums_fit(b),
        a != b,
    ensures
        beats(a, b) || beats(b, a),
{
    assert(exists|k: int| 0 <= k < a.len() && a[k] != b[k]) by {
        if forall|k: int| 0 <= k < a.len() ==> a[k] == b[k] {
            assert(a =~= b);
        }
    }
    let k = choose|k: int| 0 <= k < a.len() && a[k] != b[k];
    lemma_later_total(a, b, a.len() as int, k);
}

/// The search picks one weight vector: two candidates in the box that no
/// candidate beats are equal, where their sums fit.
pub proof fn lemma_best_unique(
    e: Seq<Vec<i128>>,
    piv: Seq<usize>,
    fr: Seq<bool>,
    free: Seq<usize>,
    m: int,
    bound: int,
    b1: Seq<i128>,
    b2: Seq<i128>,
)
    requires
        best_in_box(e, piv, fr, free, m, bound, b1),
        best_in_box(e, piv, fr, free, m, bound, b2),
        sums_fit(b1),
        sums_fit(b2),
    ensures
        b1 == b2,
{
    if b1 != b2 {
        lemma_beats_total(b1, b2);
        assert(candidate(e, piv, fr, b2, m));
        assert(candidate(e, piv, fr, b1, m));
    }
}

/// Whether every entry fits a machine word.
fn all_words(w: &Vec<i128>) -> (r: bool)
    ensures
        r <==> forall|t: int| 0 <= t < w.len() ==> 0 <= #[trigger] w@[t] <= u64::MAX,
{
    let mut k: usize = 0;
    while k < w.len()
        invariant
            k <= w.len(),
            forall|t: int| 0 <= t < k ==> 0 <= #[trigger] w@[t] <= u64::MAX,
        decreases w.len() - k,
    {
        if w[k] < 0 || w[k] > u64::MAX as i128 {
            return false;
        }
        k += 1;
    }
    true
}

fn better(w: &Vec<i128>, b: &Vec<i128>) -> (r: bool)
    requires
        w.len() == b.len(),
    ensures
        r == beats(w@, b@),
        r ==> sum_of(w@, w.len() as int) <= sum_of(b@, b.len() as int) && w@ != b@,
{
    let (ws, wm) = match sum_and_max(w) {
        Some(k) => k,
        None => return false,
    };
    let (bs, bm) = match sum_and_max(b) {
        Some(k) => k,
        None => return false,
    };
    if ws != bs {
        return ws < bs;
    }
    if wm != bm {
        return wm < bm;
    }
    let mut j = w.len();
    while j > 0
        invariant
            j <= w.len(),
            w.len() == b.len(),
            sum_of(w@, w.len() as int) == sum_of(b@, b.len() as int),
            beats(w@, b@) == later_heavier(w@, b@, j as int),
        decreases j,
    {
        j -= 1;
        if b[j] != w[j] {
            return b[j] < w[j];
        }
    }
    false
}

/// `free` lists every column that `fr` marks.
pub open spec fn lists_free(free: Seq<usize>, fr: Seq<bool>, m: int) -> bool {
    forall|j: int| 0 <= j < m && #[trigger] fr[j] ==> exists|t: int| 0 <= t < free.len() && free[t] == j
}

/// `m` ones.
pub open spec fn ones(m: int) -> Seq<i128> {
    Seq::new(m as nat, |k: int| 1i128)
}

proof fn lemma_sum_ones(m: int, k: int)
    requires
        0 <= k <= m,
    ensures
        sum_of(ones(m), k) == k,
    decreases k,
{
    if k > 0 {
        lemma_sum_ones(m, k - 1);
    }
}

/// With no pivots, every column is free and the solution with the free
/// values `vals` is `vals` itself, column by column.
proof fn lemma_no_pivots(w: Seq<i128>, vals: Seq<i128>, pivots: Seq<usize>, free: Seq<usize>, fr: Seq<bool>, m: int)
    requires
        pivots.len() == 0,
        free_columns(pivots, free, fr, m),
        lists_free(free, fr, m),
        w.len() == m,
        vals.len() == free.len(),
        forall|t: int| 0 <= t < free.len() ==> w[#[trigger] free[t] as int] == vals[t],
        forall|t: int| 0 <= t < vals.len() ==> #[trigger] vals[t] >= 1,
    ensures
        forall|j: int| 0 <= j < m ==> #[trigger] w[j] >= 1,
        (forall|t: int| 0 <= t < vals.len() ==> #[trigger] vals[t] == 1) ==> w == ones(m),
{
    assert forall|j: int| 0 <= j < m implies #[trigger] w[j] >= 1 && ((forall|t: int|
        0 <= t < vals.len() ==> #[trigger] vals[t] == 1) ==> w[j] == 1) by {
        assert(fr[j]);
        let t = choose|t: int| 0 <= t < free.len() && free[t] == j;
        assert(w[free[t] as int] == vals[t]);
    }
    if forall|t: int| 0 <= t < vals.len() ==> #[trigger] vals[t] == 1 {
        assert(w =~= ones(m));
    }
}

/// A candidate of the search: a positive solution of the rows `e` whose
/// pivot entries are found within `i128`.
pub open spec fn candidate(e: Seq<Vec<i128>>, piv: Seq<usize>, fr: Seq<bool>, v: Seq<i128>, m: int) -> bool {
    &&& v.len() == m
    &&& forall|k: int| 0 <= k < m ==> #[trigger] v[k] > 0
    &&& solves(e, ints(v))
    &&& fits(e, piv, fr, v, m)
}

/// The free values of `v` lie in `1..=bound`, and from `level` on they are
/// those of `vals`.
pub open spec fn in_box(free: Seq<usize>, vals: Seq<i128>, v: Seq<i128>, level: int, bound: int) -> bool {
    forall|t: int|
        0 <= t < free.len() ==> 1 <= #[trigger] v[free[t] as int] <= bound && (level <= t ==> v[free[t] as int]
            == vals[t])
}

/// The entries of the vector held, if one is.
pub open spec fn held(b: Option<Vec<i128>>) -> Option<Seq<i128>> {
    match b {
        Some(v) => Some(v@),
        None => None,
    }
}

/// `new` is `old` or beats it (anything improves on nothing).
pub open spec fn improves(old: Option<Seq<i128>>, new: Option<Seq<i128>>) -> bool {
    match old {
        None => true,
        Some(o) => match new {
            Some(n) => n == o || beats(n, o),
            None => false,
        },
    }
}

proof fn lemma_improves_trans(a: Option<Seq<i128>>, b: Option<Seq<i128>>, c: Option<Seq<i128>>, m: int)
    requires
        improves(a, b),
        improves(b, c),
        a matches Some(x) ==> x.len() == m,
        b matches Some(x) ==> x.len() == m,
        c matches Some(x) ==> x.len() == m,
    ensures
        improves(a, c),
{
    if a is Some && b is Some && c is Some {
        lemma_beats_order(c->0, b->0, a->0);
    }
}

/// What nothing held beat, nothing held later beats.
proof fn lemma_unbeaten_kept(v: Seq<i128>, b: Option<Seq<i128>>, c: Option<Seq<i128>>, m: int)
    requires
        b matches Some(x) && !beats(v, x),
        improves(b, c),
        v.len() == m,
        b matches Some(x) ==> x.len() == m,
        c matches Some(x) ==> x.len() == m,
    ensures
        c matches Some(x) && !beats(v, x),
{
    lemma_beats_order(v, c->0, b->0);
}

/// The bounded search over the free variables `vals[..level]` (each from
/// 1 to `bound`), keeping in `best` the best positive solution. With no
/// pivot columns every candidate is positive and the first, all ones, is
/// best.
fn search(
    eqs: &Vec<Vec<i128>>,
    pivots: &Vec<usize>,
    free: &Vec<usize>,
    fr: &Vec<bool>,
    m: usize,
    bound: i128,
    vals: &mut Vec<i128>,
    level: usize,
    best: &mut Option<Vec<i128>>,
)
    requires
        echelon(eqs@, pivots@, m as int, m as int),
        free_columns(pivots@, free@, fr@, m as int),
        old(vals).len() == free.len(),
        level <= free.len(),
        1 <= bound <= 32,
        *old(best) matches Some(b) ==> good_solution(eqs@, b@, m as int),
        forall|t: int| 0 <= t < old(vals).len() ==> #[trigger] old(vals)@[t] >= 1,
        lists_free(free@, fr@, m as int),
        forall|t: int| 0 <= t < old(vals).len() ==> #[trigger] old(vals)@[t] <= bound,
        *old(best) matches Some(b) ==> candidate(eqs@, pivots@, fr@, b@, m as int) && in_box(free@, old(vals)@, b@, free.len() as int, bound as int),
    ensures
        final(vals).len() == old(vals).len(),
        *final(best) matches Some(b) ==> good_solution(eqs@, b@, m as int),
        forall|t: int| 0 <= t < final(vals).len() ==> #[trigger] final(vals)@[t] >= 1,
        forall|t: int| 0 <= t < final(vals).len() ==> #[trigger] final(vals)@[t] <= bound,
        *final(best) matches Some(b) ==> candidate(eqs@, pivots@, fr@, b@, m as int) && in_box(free@, old(vals)@, b@, free.len() as int, bound as int),
        improves(held(*old(best)), held(*final(best))),
        forall|v: Seq<i128>|
            #[trigger] candidate(eqs@, pivots@, fr@, v, m as int) && in_box(free@, old(vals)@, v, level as int, bound as int)
                ==> (*final(best) matches Some(b) && !beats(v, b@)),
        forall|t: int| level <= t < old(vals).len() ==> #[trigger] final(vals)@[t] == old(vals)@[t],
        pivots@.len() == 0 && lists_free(free@, fr@, m as int) && ((*old(best) matches Some(b) && b@ == ones(m as int)) || (
        *old(best) is None && forall|t: int| level <= t < old(vals).len() ==> #[trigger] old(vals)@[t] == 1)) ==> (
        *final(best) matches Some(b) && b@ == ones(m as int)),
    decreases level,
{
    let ghost special = pivots@.len() == 0 && lists_free(free@, fr@, m as int);
    if level == 0 {
        if let Some(w) = solve_with(eqs, pivots, free, fr, m, vals) {
            let mut positive = true;
            let mut k: usize = 0;
            while k < w.len()
                invariant
                    k <= w.len(),
                    positive == forall|t: int| 0 <= t < k ==> #[trigger] w@[t] > 0,
                decreases w.len() - k,
            {
                if w[k] <= 0 {
                    positive = false;
                }
                k += 1;
            }
            proof {
                if special {
                    lemma_no_pivots(w@, vals@, pivots@, free@, fr@, m as int);
                }
            }
            let ghost b0 = held(*best);
            if positive {
                let replace = match best {
                    None => true,
                    Some(b) => better(&w, b),
                };
                proof {
                    assert(in_box(free@, vals@, w@, free.len() as int, bound as int));
                    lemma_beats_order(w@, w@, w@);
                    assert forall|v: Seq<i128>|
                        #[trigger] candidate(eqs@, pivots@, fr@, v, m as int) && in_box(free@, vals@, v, level as int, bound as int)
                            implies v == w@ && (replace || (b0 matches Some(b) && !beats(v, b))) by {
                        assert(solution_with(eqs@, free@, vals@, v, m as int));
                    }
                }
                proof {
                    let cur = *best;
                    if special && replace && (cur matches Some(b) && b@ == ones(m as int)) {
                        lemma_sum_ones(m as int, m as int);
                        lemma_sum_of_ones(w@, m as int);
                        assert(w@ =~= ones(m as int));
                    }
                }
                if replace {
                    *best = Some(w);
                }
            } else {
                proof {
                    if special {
                        assert(w@[0] > 0);
                    }
                    assert forall|v: Seq<i128>|
                        #[trigger] candidate(eqs@, pivots@, fr@, v, m as int) && in_box(free@, vals@, v, level as int, bound as int)
                            implies false by {
                        assert(solution_with(eqs@, free@, vals@, v, m as int));
                        let k = choose|k: int| 0 <= k < w.len() && !(w@[k] > 0);
                        assert(v[k] > 0);
                    }
                }
            }
        } else {
            proof {
                assert(!special);
                assert forall|v: Seq<i128>|
                    #[trigger] candidate(eqs@, pivots@, fr@, v, m as int) && in_box(free@, vals@, v, level as int, bound as int)
                        implies false by {
                    assert(solution_with(eqs@, free@, vals@, v, m as int));
                }
            }
        }
        return;
    }
    let ghost best0 = *best;
    let ghost vals0 = vals@;
    let ghost entry = (best0 matches Some(b) && b@ == ones(m as int)) || (best0 is None && forall|t: int|
        level <= t < vals0.len() ==> #[trigger] vals0[t] == 1);
    let mut v: i128 = 1;
    while v <= bound
        invariant
            1 <= v <= bound + 1,
            bound <= 32,
            1 <= level <= free.len(),
            vals.len() == free.len(),
            vals0.len() == free.len(),
            echelon(eqs@, pivots@, m as int, m as int),
            free_columns(pivots@, free@, fr@, m as int),
            *best matches Some(b) ==> good_solution(eqs@, b@, m as int),
            forall|t: int| 0 <= t < vals.len() ==> #[trigger] vals@[t] >= 1,
            forall|t: int| level <= t < vals.len() ==> #[trigger] vals@[t] == vals0[t],
            special == (pivots@.len() == 0 && lists_free(free@, fr@, m as int)),
            entry == ((best0 matches Some(b) && b@ == ones(m as int)) || (best0 is None && forall|t: int|
                level <= t < vals0.len() ==> #[trigger] vals0[t] == 1)),
            special && entry ==> (*best matches Some(b) && b@ == ones(m as int)) || (v == 1 && *best is None && (forall|
                t: int| level <= t < vals0.len() ==> #[trigger] vals0[t] == 1)),
            lists_free(free@, fr@, m as int),
            forall|t: int| 0 <= t < vals.len() ==> #[trigger] vals@[t] <= bound,
            *best matches Some(b) ==> candidate(eqs@, pivots@, fr@, b@, m as int) && in_box(free@, vals0, b@, free.len() as int, bound as int),
            best0 matches Some(b) ==> b@.len() == m,
            improves(held(best0), held(*best)),
            forall|u: Seq<i128>|
                #[trigger] candidate(eqs@, pivots@, fr@, u, m as int) && in_box(free@, vals0, u, level as int, bound as int)
                    && u[free@[level - 1] as int] < v ==> (*best matches Some(b) && !beats(u, b@)),
        decreases bound + 1 - v,
    {
        let ghost bprev = held(*best);
        vals.set(level - 1, v);
        proof {
            if special && entry && *best is None {
                assert forall|t: int| level - 1 <= t < vals.len() implies #[trigger] vals@[t] == 1 by {
                    if t >= level {
                        assert(vals0[t] == 1);
                    }
                }
            }
        }
        let ghost vals1 = vals@;
        search(eqs, pivots, free, fr, m, bound, vals, level - 1, best);
        proof {
            lemma_improves_trans(held(best0), bprev, held(*best), m as int);
            assert forall|u: Seq<i128>|
                #[trigger] candidate(eqs@, pivots@, fr@, u, m as int) && in_box(free@, vals0, u, level as int, bound as int)
                    && u[free@[level - 1] as int] < v + 1 implies (*best matches Some(b) && !beats(u, b@)) by {
                if u[free@[level - 1] as int] < v {
                    lemma_unbeaten_kept(u, bprev, held(*best), m as int);
                } else {
                    assert(in_box(free@, vals1, u, level - 1, bound as int));
                }
            }
        }
        v += 1;
    }
    proof {
        assert forall|u: Seq<i128>|
            #[trigger] candidate(eqs@, pivots@, fr@, u, m as int) && in_box(free@, vals0, u, level as int, bound as int)
                implies (*best matches Some(b) && !beats(u, b@)) by {
            assert(u[free@[level - 1] as int] <= bound);
        }
    }
}

/// `b^f` is at most `2^16`, with `f` taken as a 32-bit exponent.
pub open spec fn small_power(b: int, f: usize) -> bool {
    pow(b, (f as u32) as nat) <= 65536
}

/// The largest `b <= 32` with `b^f <= 2^16` (so that the search over `f`
/// free variables stays small).
fn search_bound(f: usize) -> (b: i128)
    ensures
        1 <= b <= 32,
        b == 1 || small_power(b as int, f),
        forall|c: int| b < c <= 32 ==> !#[trigger] small_power(c, f),
{
    let e = f as u32;
    let mut b: i128 = 32;
    while b > 1
        invariant
            1 <= b <= 32,
            e == f as u32,
            forall|c: int| b < c <= 32 ==> !#[trigger] small_power(c, f),
        decreases b,
    {
        let mut t: i128 = 1;
        let mut k: u32 = 0;
        let mut fits = true;
        proof {
            reveal(pow);
        }
        while k < e
            invariant_except_break
                fits,
            invariant
                1 <= t <= 65536,
                2 <= b <= 32,
                k <= e,
                t == pow(b as int, k as nat),
            ensures
                fits ==> t == pow(b as int, e as nat),
                !fits ==> pow(b as int, e as nat) > 65536,
            decreases e - k,
        {
            assert(1 <= t * b <= 65536 * 32) by (nonlinear_arith)
                requires
                    1 <= t <= 65536,
                    2 <= b <= 32,
            ;
            let u = t * b;
            proof {
                reveal(pow);
                assert(pow(b as int, (k + 1) as nat) == b * pow(b as int, k as nat));
            }
            if u > 65536 {
                proof {
                    lemma_pow_increases(b as nat, (k + 1) as nat, e as nat);
                }
                fits = false;
                break;
            }
            t = u;
            k += 1;
        }
        if fits {
            return b;
        }
        b -= 1;
    }
    1
}

/// Whether all the weights are positive.
fn all_positive(w: &Vec<u64>) -> (b: bool)
    ensures
        b == forall|k: int| 0 <= k < w.len() ==> #[trigger] w@[k] > 0,
{
    let mut k: usize = 0;
    while k < w.len()
        invariant
            k <= w.len(),
            forall|t: int| 0 <= t < k ==> #[trigger] w@[t] > 0,
        decreases w.len() - k,
    {
        if w[k] == 0 {
            return false;
        }
        k += 1;
    }
    true
}

/// `a` and `b` are proportional: all their cross products agree.
pub open spec fn proportional(a: Seq<int>, b: Seq<int>) -> bool {
    forall|i: int, j: int| 0 <= i < a.len() && 0 <= j < a.len() ==> #[trigger] (a[i] * b[j]) == #[trigger] (a[j] * b[i])
}

/// The integer solutions of `eqs` in `m` variables lie on one line through
/// 0: any two are proportional.
pub open spec fn single_ray(eqs: Seq<Vec<i128>>, m: int) -> bool {
    forall|v1: Seq<int>, v2: Seq<int>|
        v1.len() == m && v2.len() == m && #[trigger] solves(eqs, v1) && #[trigger] solves(eqs, v2) ==> proportional(v1, v2)
}

/// `d` divides all the entries of `w`.
pub open spec fn divides_all(d: int, w: Seq<u64>) -> bool {
    forall|j: int| 0 <= j < w.len() ==> #[trigger] ((w[j] as int) % d) == 0
}

/// No integer above 1 divides all the entries of `w`.
pub open spec fn primitive(w: Seq<u64>) -> bool {
    forall|d: int| d > 1 ==> !#[trigger] divides_all(d, w)
}

/// The product of the pivot entries of the first `k` rows, but row `skip`.
pub open spec fn pivot_product(e: Seq<Vec<i128>>, piv: Seq<usize>, k: int, skip: int) -> int
    decreases k,
{
    if k <= 0 {
        1
    } else if k - 1 == skip {
        pivot_product(e, piv, k - 1, skip)
    } else {
        pivot_product(e, piv, k - 1, skip) * e[k - 1]@[piv[k - 1] as int]
    }
}

/// The product of the pivot entries is non-zero, and it is the pivot entry
/// of row `skip` times the product of the others.
proof fn lemma_pivot_product(e: Seq<Vec<i128>>, piv: Seq<usize>, m: int, k: int, skip: int)
    requires
        echelon(e, piv, m, m),
        0 <= k <= piv.len(),
    ensures
        pivot_product(e, piv, k, -1) != 0,
        0 <= skip < k ==> pivot_product(e, piv, k, -1) == e[skip]@[piv[skip] as int] * pivot_product(e, piv, k, skip),
        k <= skip ==> pivot_product(e, piv, k, skip) == pivot_product(e, piv, k, -1),
    decreases k,
{
    if k > 0 {
        lemma_pivot_product(e, piv, m, k - 1, skip);
        let (p, x) = (pivot_product(e, piv, k - 1, -1), e[k - 1]@[piv[k - 1] as int] as int);
        assert(x != 0);
        assert(p * x != 0) by (nonlinear_arith)
            requires
                p != 0,
                x != 0,
        ;
        if 0 <= skip < k - 1 {
            let (y, q) = (e[skip]@[piv[skip] as int] as int, pivot_product(e, piv, k - 1, skip));
            assert(p * x == y * (q * x)) by (nonlinear_arith)
                requires
                    p == y * q,
            ;
        }
    }
}

/// `dot` of a row whose only terms are in columns `c` and `f`.
proof fn lemma_dot_two(a: Seq<i128>, u: Seq<int>, c: int, f: int, k: int)
    requires
        0 <= k,
        c != f,
        forall|j: int| 0 <= j < k && j != c && j != f ==> #[trigger] (a[j] * u[j]) == 0,
    ensures
        dot(a, u, k) == (if 0 <= c < k { a[c] * u[c] } else { 0 }) + (if 0 <= f < k { a[f] * u[f] } else { 0 }),
    decreases k,
{
    if k > 0 {
        lemma_dot_two(a, u, c, f, k - 1);
        if k - 1 != c && k - 1 != f {
            assert(a[k - 1] * u[k - 1] == 0);
        }
    }
}

/// For a free column `f` of rows in reduced echelon form, a solution that
/// is non-zero in `f` and zero in the other free columns.
proof fn lemma_free_solution(e: Seq<Vec<i128>>, piv: Seq<usize>, fr: Seq<bool>, m: int, f: int) -> (u: Seq<int>)
    requires
        echelon(e, piv, m, m),
        fr.len() == m,
        forall|j: int| 0 <= j < m ==> (#[trigger] fr[j] <==> !is_pivot(piv, j)),
        0 <= f < m,
        fr[f],
    ensures
        u.len() == m,
        solves(e, u),
        u[f] != 0,
        forall|j: int| 0 <= j < m && fr[j] && j != f ==> #[trigger] u[j] == 0,
{
    let n = piv.len() as int;
    let l = pivot_product(e, piv, n, -1);
    lemma_pivot_product(e, piv, m, n, -1);
    let u = Seq::new(
        m as nat,
        |j: int|
            if fr[j] {
                if j == f {
                    l
                } else {
                    0
                }
            } else {
                let r = choose|r: int| 0 <= r < piv.len() && piv[r] == j;
                -(e[r]@[f] as int) * pivot_product(e, piv, n, r)
            },
    );
    assert forall|i: int| 0 <= i < e.len() implies dot(#[trigger] e[i]@, u, u.len() as int) == 0 by {
        if i < piv.len() {
            let c = piv[i] as int;
            assert(!fr[c]) by {
                assert(is_pivot(piv, c));
            }
            assert forall|j: int| 0 <= j < m && j != c && j != f implies #[trigger] (e[i]@[j] * u[j]) == 0 by {
                if fr[j] {
                    assert(u[j] == 0);
                } else {
                    assert(is_pivot(piv, j));
                    let r = choose|r: int| 0 <= r < piv.len() && piv[r] == j;
                    assert(r != i);
                    assert(e[i]@[piv[r] as int] == 0);
                }
                assert(e[i]@[j] * u[j] == 0) by (nonlinear_arith)
                    requires
                        e[i]@[j] == 0 || u[j] == 0,
                ;
            }
            lemma_dot_two(e[i]@, u, c, f, m);
            let r = choose|r: int| 0 <= r < piv.len() && piv[r] == c;
            assert(r == i) by {
                if r < i {
                    assert(piv[r] < piv[i]);
                } else if r > i {
                    assert(piv[i] < piv[r]);
                }
            }
            let x = e[i]@[c] as int;
            lemma_pivot_product(e, piv, m, n, i);
            let q = pivot_product(e, piv, n, i);
            assert(u[c] == -(e[i]@[f] as int) * q);
            assert(x * u[c] + (e[i]@[f] as int) * l == 0) by (nonlinear_arith)
                requires
                    u[c] == -(e[i]@[f] as int) * q,
                    l == x * q,
            ;
            assert(u[f] == l);
        } else {
            assert forall|j: int| 0 <= j < m implies e[i]@[j] == 0 by {
                if fr[j] {
                    assert(forall|k: int| 0 <= k < piv.len() ==> piv[k] != j);
                } else {
                    assert(is_pivot(piv, j));
                    let r = choose|r: int| 0 <= r < piv.len() && piv[r] == j;
                    assert(e[i]@[piv[r] as int] == 0);
                }
            }
            lemma_dot_zero(e[i]@, u, m);
        }
    }
    u
}

/// With two free columns, the solutions do not lie on one ray.
proof fn lemma_two_free_columns(
    e: Seq<Vec<i128>>,
    orig: Seq<Vec<i128>>,
    piv: Seq<usize>,
    free: Seq<usize>,
    fr: Seq<bool>,
    m: int,
)
    requires
        echelon(e, piv, m, m),
        free_columns(piv, free, fr, m),
        keeps_solutions(e, orig, m),
        free.len() >= 2,
    ensures
        !single_ray(orig, m),
{
    let (f1, f2) = (free[0] as int, free[1] as int);
    assert(f1 < f2);
    let u1 = lemma_free_solution(e, piv, fr, m, f1);
    let u2 = lemma_free_solution(e, piv, fr, m, f2);
    assert(solves(orig, u1));
    assert(solves(orig, u2));
    assert(u1[f2] == 0);
    assert(u2[f1] == 0);
    assert(u1[f1] * u2[f2] != u1[f2] * u2[f1]) by (nonlinear_arith)
        requires
            u1[f1] != 0,
            u2[f2] != 0,
            u1[f2] == 0,
    ;
    assert(!proportional(u1, u2));
}

/// The rows `e` with the pivot columns `piv` are a reduced echelon form of
/// `eqs` in `m` variables (each pivot the first possible column), with the
/// same solutions; `fr` marks the other,
/// free, columns and `free` lists them in order.
pub open spec fn reduced_form(
    eqs: Seq<Vec<i128>>,
    m: int,
    e: Seq<Vec<i128>>,
    piv: Seq<usize>,
    fr: Seq<bool>,
    free: Seq<usize>,
) -> bool {
    &&& echelon(e, piv, m, m)
    &&& leading(e, piv)
    &&& keeps_solutions(e, eqs, m)
    &&& keeps_solutions(eqs, e, m)
    &&& free_columns(piv, free, fr, m)
    &&& lists_free(free, fr, m)
}

/// `b` is the bound of the search over `f` free values: the largest
/// `b <= 32` with `b^f <= 2^16`, else 1.
pub open spec fn is_search_bound(b: int, f: usize) -> bool {
    &&& 1 <= b <= 32
    &&& b == 1 || small_power(b, f)
    &&& forall|c: int| b < c <= 32 ==> !#[trigger] small_power(c, f)
}

/// `b` is the best candidate with free values in `1..=bound`: no other
/// such candidate beats it.
pub open spec fn best_in_box(
    e: Seq<Vec<i128>>,
    piv: Seq<usize>,
    fr: Seq<bool>,
    free: Seq<usize>,
    m: int,
    bound: int,
    b: Seq<i128>,
) -> bool {
    &&& candidate(e, piv, fr, b, m)
    &&& in_box(free, seq![], b, free.len() as int, bound)
    &&& forall|v: Seq<i128>|
        #[trigger] candidate(e, piv, fr, v, m) && in_box(free, seq![], v, free.len() as int, bound) ==> !beats(v, b)
}

/// One step of the multiple of the pivot entries that the ray needs: `l`
/// times what `|a| / gcd(|a|, |b|)` adds to it.
pub open spec fn ray_step(l: nat, a: i128, b: i128) -> nat {
    let q = abs(a as int) / gcd(abs(a as int), abs(b as int));
    (l / gcd(l, q)) * q
}

/// The value of the free variable on the ray: the least common multiple of
/// `|a| / gcd(|a|, |b|)` over the pivot entries `a` and free entries `b` of
/// the first `k` rows.
pub open spec fn ray_value(e: Seq<Vec<i128>>, piv: Seq<usize>, f: int, k: int) -> nat
    decreases k,
{
    if k <= 0 {
        1
    } else {
        ray_step(ray_value(e, piv, f, k - 1), e[k - 1]@[piv[k - 1] as int], e[k - 1]@[f])
    }
}

/// `g` is the gcd of the entries of `w` (0 when all are 0).
pub open spec fn is_gcd(w: Seq<i128>, g: int) -> bool {
    &&& g >= 0
    &&& g == 0 ==> forall|j: int| 0 <= j < w.len() ==> w[j] == 0
    &&& g > 0 ==> forall|j: int| 0 <= j < w.len() ==> (abs(#[trigger] w[j] as int) as int) % g == 0
    &&& forall|d: int|
        d > 0 && (forall|j: int| 0 <= j < w.len() ==> (abs(#[trigger] w[j] as int) as int) % d == 0) ==> #[trigger] (g % d)
            == 0
}

/// The outcome on a single ray: with `L` the ray value, the solution `W`
/// with free value `L` divided by the gcd of its entries, as words; `None`
/// when `L` exceeds `i128`, no such `W` is found within `i128`, or an entry
/// of the quotient is not a positive word.
pub open spec fn ray_outcome(
    e: Seq<Vec<i128>>,
    piv: Seq<usize>,
    fr: Seq<bool>,
    free: Seq<usize>,
    m: int,
    w: Option<Seq<u64>>,
) -> bool {
    let l = ray_value(e, piv, free[0] as int, piv.len() as int);
    if l > i128::MAX {
        w is None
    } else {
        match w {
            Some(w) => exists|ww: Seq<i128>, g: int|
                #[trigger] solution_with(e, free, seq![l as i128], ww, m) && fits(e, piv, fr, ww, m) && #[trigger] is_gcd(
                    ww,
                    g,
                ) && g > 0 && w.len() == m && forall|t: int| 0 <= t < m ==> (#[trigger] w[t] as int) * g == ww[t],
            None => forall|ww: Seq<i128>|
                #[trigger] solution_with(e, free, seq![l as i128], ww, m) && fits(e, piv, fr, ww, m) ==> exists|g: int|
                    #[trigger] is_gcd(ww, g) && (g == 0 || exists|t: int| 0 <= t < m && !(0 < (#[trigger] ww[t] as int) / g <= u64::MAX)),
        }
    }
}

proof fn lemma_ray_step_grows(l: nat, a: i128, b: i128)
    requires
        l >= 1,
        a != 0,
    ensures
        ray_step(l, a, b) >= l,
{
    let (x, y) = (abs(a as int), abs(b as int));
    lemma_gcd_divides(x, y);
    let h = gcd(x, y);
    lemma_divisor_le(x, h);
    lemma_fundamental_div_mod(x as int, h as int);
    let q = x / h;
    assert(q >= 1) by (nonlinear_arith)
        requires
            x == h * q + x % h,
            x % h == 0,
            x >= 1,
            h >= 1,
    ;
    lemma_gcd_divides(l, q);
    let k = gcd(l, q);
    lemma_divisor_le(q, k);
    lemma_fundamental_div_mod(l as int, k as int);
    assert((l / k) * q >= l) by (nonlinear_arith)
        requires
            l == k * (l / k) + l % k,
            l % k == 0,
            q >= k,
            k >= 1,
    ;
}

proof fn lemma_ray_value_grows(e: Seq<Vec<i128>>, piv: Seq<usize>, m: int, f: int, j: int, k: int)
    requires
        echelon(e, piv, m, m),
        0 <= j <= k <= piv.len(),
    ensures
        ray_value(e, piv, f, j) <= ray_value(e, piv, f, k),
        ray_value(e, piv, f, k) >= 1,
    decreases k,
{
    if k > 0 {
        if j < k {
            lemma_ray_value_grows(e, piv, m, f, j, k - 1);
        } else {
            lemma_ray_value_grows(e, piv, m, f, k - 1, k - 1);
        }
        lemma_ray_step_grows(ray_value(e, piv, f, k - 1), e[k - 1]@[piv[k - 1] as int], e[k - 1]@[f]);
    }
}

/// The outcome of the search over the reduced form: the words of the best
/// candidate with free values in `1..=bound`, or `None` when there is no
/// candidate or the best has an entry that is 0 as a word.
pub open spec fn searched(
    e: Seq<Vec<i128>>,
    piv: Seq<usize>,
    fr: Seq<bool>,
    free: Seq<usize>,
    m: int,
    w: Option<Seq<u64>>,
) -> bool {
    forall|bound: int|
        #[trigger] is_search_bound(bound, free.len() as usize) ==> match w {
            Some(w) => exists|b: Seq<i128>| #[trigger] best_in_box(e, piv, fr, free, m, bound, b) && word_weights(w, ints(b)),
            None => (forall|v: Seq<i128>|
                !(#[trigger] candidate(e, piv, fr, v, m) && in_box(free, seq![], v, free.len() as int, bound))) || exists|
                b: Seq<i128>|
                #[trigger] best_in_box(e, piv, fr, free, m, bound, b) && exists|k: int| 0 <= k < m && b[k] > u64::MAX,
        }
}

/// The weights as a sequence, if any.
pub open spec fn held_words(w: Option<Vec<u64>>) -> Option<Seq<u64>> {
    match w {
        Some(v) => Some(v@),
        None => None,
    }
}

/// What `linked_weights` gives for `eqs`, through the reduced form `e`: the
/// form of a single equation is the equation itself; with no free column
/// there are no weights; with one, those of the ray; with two or more,
/// those of the search.
pub open spec fn outcome(
    eqs: Seq<Vec<i128>>,
    m: int,
    e: Seq<Vec<i128>>,
    piv: Seq<usize>,
    fr: Seq<bool>,
    free: Seq<usize>,
    w: Option<Seq<u64>>,
) -> bool {
    &&& reduced_form(eqs, m, e, piv, fr, free)
    &&& eqs.len() <= 1 ==> e == eqs
    &&& free.len() == 0 ==> w is None
    &&& free.len() == 1 ==> ray_outcome(e, piv, fr, free, m, w)
    &&& free.len() >= 2 ==> searched(e, piv, fr, free, m, w)
}

proof fn lemma_search_bound_unique(b1: int, b2: int, f: usize)
    requires
        is_search_bound(b1, f),
        is_search_bound(b2, f),
    ensures
        b1 == b2,
{
    if b1 < b2 {
        assert(!small_power(b2, f));
    } else if b2 < b1 {
        assert(!small_power(b1, f));
    }
}

/// The weights of `homogeneous_weights` for one set of `m` linked variables
/// with the equations `eqs`, through their reduced echelon form (`outcome`):
/// on a single ray its primitive vector, if positive; with two or more free
/// columns the candidate (positive, integral, free values in `1..=bound`)
/// that no other candidate `beats`: the least sum, then the least largest
/// weight, then the later variables the heavier. `None` if there is no free
/// column, the ray's vector is not positive, the search finds no candidate,
/// a weight does not fit a machine word, or an entry overflows; the elimination overflows only where two or more
/// equations have entries whose `growth` over the `m` columns passes the
/// `i128` range.
pub fn linked_weights(eqs: Vec<Vec<i128>>, m: usize) -> (w: Option<Vec<u64>>)
    requires
        forall|i: int| 0 <= i < eqs.len() ==> (#[trigger] eqs@[i]).len() == m,
    ensures
        w matches Some(w) ==> {
            &&& w.len() == m
            &&& forall|k: int| 0 <= k < m ==> #[trigger] w@[k] > 0
            &&& exists|v: Seq<int>| #[trigger] positive_solution(eqs@, v, m as int) && word_weights(w@, v)
        },
        w matches Some(w) ==> (single_ray(eqs@, m as int) ==> primitive(w@)),
        eqs@.len() == 0 && m >= 1 ==> (w matches Some(w) && w@ == Seq::new(m as nat, |k: int| 1u64)),
        w is Some || eqs@.len() <= 1 || growth(max_entry(eqs@, eqs@.len() as int, m as int), m as nat) <= i128::MAX
            ==> exists|e: Seq<Vec<i128>>, piv: Seq<usize>, fr: Seq<bool>, free: Seq<usize>|
            #[trigger] outcome(eqs@, m as int, e, piv, fr, free, held_words(w)),
{
    let ghost orig = eqs@;
    let mut eqs = eqs;
    let pivots = match reduce(&mut eqs, m) {
        Some(p) => p,
        None => return None,
    };
    // The free columns.
    let mut fr: Vec<bool> = Vec::with_capacity(m);
    let mut free: Vec<usize> = Vec::new();
    let mut c: usize = 0;
    while c < m
        invariant
            c <= m,
            fr.len() == c,
            forall|j: int| 0 <= j < c ==> (#[trigger] fr@[j] <==> !is_pivot(pivots@, j)),
            forall|t: int| 0 <= t < free.len() ==> #[trigger] free@[t] < c && fr@[free@[t] as int],
            forall|t: int, u: int| 0 <= t < u < free.len() ==> free@[t] < free@[u],
            forall|j: int| 0 <= j < c && #[trigger] fr@[j] ==> exists|t: int| 0 <= t < free.len() && free@[t] == j,
        decreases m - c,
    {
        let mut piv = false;
        let mut k: usize = 0;
        while k < pivots.len()
            invariant
                k <= pivots.len(),
                piv == exists|l: int| 0 <= l < k && pivots@[l] == c,
            decreases pivots.len() - k,
        {
            if pivots[k] == c {
                piv = true;
            }
            k += 1;
        }
        let ghost free0 = free@;
        fr.push(!piv);
        if !piv {
            free.push(c);
        }
        proof {
            assert forall|j: int| 0 <= j < c + 1 && #[trigger] fr@[j] implies exists|t: int|
                0 <= t < free.len() && free@[t] == j by {
                if j < c {
                    let t = choose|t: int| 0 <= t < free0.len() && free0[t] == j;
                    assert(free@[t] == j);
                } else {
                    assert(free@[free.len() - 1] == c);
                }
            }
        }
        c += 1;
    }
    let ghost reduced = eqs@;
    assert(reduced_form(orig, m as int, reduced, pivots@, fr@, free@));
    proof {
        // With no equations every column is free.
        if orig.len() == 0 && m >= 1 {
            assert(pivots@.len() == 0);
            assert forall|j: int| 0 <= j < m implies #[trigger] fr@[j] by {
                assert(!is_pivot(pivots@, j));
            }
            assert(fr@[0]);
            let t0 = choose|t: int| 0 <= t < free.len() && free@[t] == 0;
            if m >= 2 {
                assert(fr@[1]);
                let t1 = choose|t: int| 0 <= t < free.len() && free@[t] == 1;
                assert(t0 != t1);
            } else if free.len() >= 2 {
                assert(free@[0] < free@[1]);
            }
        }
    }
    assert(orig.len() == 0 && m >= 2 ==> free.len() >= 2);
    assert(orig.len() == 0 && m == 1 ==> free.len() == 1 && free@[0] == 0);
    if free.len() == 0 {
        proof {
            assert(outcome(orig, m as int, reduced, pivots@, fr@, free@, None));
        }
        return None;
    }
    if free.len() == 1 {
        // A single ray: its primitive vector, if positive.
        let mut l: u128 = 1;
        let mut r: usize = 0;
        #[verifier::loop_isolation(false)]
        while r < pivots.len()
            invariant
                r <= pivots.len(),
                l >= 1,
                r == 0 ==> l == 1,
                l == ray_value(reduced, pivots@, free@[0] as int, r as int),
                orig.len() == 0 ==> pivots.len() == 0,
                free.len() == 1,
                echelon(eqs@, pivots@, m as int, m as int),
                free_columns(pivots@, free@, fr@, m as int),
            decreases pivots.len() - r,
        {
            let e = magnitude(eqs[r][pivots[r]]);
            let f = magnitude(eqs[r][free[0]]);
            let h = gcd_of(e, f);
            proof {
                lemma_gcd_divides(e as nat, f as nat);
                lemma_divisor_le(e as nat, h as nat);
            }
            let q = e / h;
            let k = gcd_of(l, q);
            proof {
                lemma_fundamental_div_mod(e as int, h as int);
                assert(q >= 1) by (nonlinear_arith)
                    requires
                        e == h * q + e % h,
                        e % h == 0,
                        e >= 1,
                        h >= 1,
                ;
                lemma_gcd_divides(l as nat, q as nat);
                lemma_divisor_le(l as nat, k as nat);
                lemma_fundamental_div_mod(l as int, k as int);
                assert(l / k >= 1) by (nonlinear_arith)
                    requires
                        l == k * (l / k) + l % k,
                        l % k == 0,
                        l >= 1,
                        k >= 1,
                ;
            }
            let lk = l / k;
            proof {
                assert(e as nat == abs(eqs@[r as int]@[pivots@[r as int] as int] as int));
                assert(eqs@[r as int]@[pivots@[r as int] as int] != 0);
            }
            let nl = match lk.checked_mul(q) {
                Some(t) => t,
                None => {
                    proof {
                        lemma_ray_value_grows(reduced, pivots@, m as int, free@[0] as int, r + 1, pivots@.len() as int);
                        assert(ray_value(reduced, pivots@, free@[0] as int, r + 1) == (lk as nat) * (q as nat));
                        assert(outcome(orig, m as int, reduced, pivots@, fr@, free@, None));
                    }
                    return None;
                },
            };
            assert(nl >= 1) by (nonlinear_arith)
                requires
                    nl == lk * q,
                    lk >= 1,
                    q >= 1,
            ;
            l = nl;
            r += 1;
        }
        if l > i128::MAX as u128 {
            proof {
                assert(outcome(orig, m as int, reduced, pivots@, fr@, free@, None));
            }
            return None;
        }
        let vals: Vec<i128> = vec![l as i128];
        let ghost lv = ray_value(reduced, pivots@, free@[0] as int, pivots@.len() as int);
        assert(vals@ == seq![lv as i128]);
        let w = match solve_with(&eqs, &pivots, &free, &fr, m, &vals) {
            Some(w) => w,
            None => {
                proof {
                    assert(outcome(orig, m as int, reduced, pivots@, fr@, free@, None));
                }
                return None;
            },
        };
        assert(w@[free@[0] as int] == vals@[0]);
        let g = row_gcd(&w);
        proof {
            if orig.len() == 0 {
                assert(w@[0] == 1);
                if g > 0 {
                    lemma_divisor_le(1, g as nat);
                }
            }
        }
        if g == 0 {
            assert(w@[free@[0] as int] == 0);
            proof {
                assert(outcome(orig, m as int, reduced, pivots@, fr@, free@, None));
            }
            return None;
        }
        let v = if g > 1 {
            divide_row(&w, g)
        } else {
            w.clone()
        };
        let ghost gi: int = if g > 1 { g as int } else { 1 };
        assert forall|j: int| 0 <= j < m implies w@[j] == gi * #[trigger] v@[j] by {
            if g <= 1 {
                assert(v@[j] == w@[j]);
            }
        }
        let mut out: Vec<u64> = Vec::with_capacity(m);
        let mut k: usize = 0;
        while k < m
            invariant
                k <= m,
                v.len() == m,
                out.len() == k,
                forall|t: int| 0 <= t < k ==> #[trigger] out@[t] == if 0 <= v@[t] <= u64::MAX {
                    v@[t] as u64
                } else {
                    0
                },
            decreases m - k,
        {
            let x = v[k];
            out.push(if 0 <= x && x <= u64::MAX as i128 { x as u64 } else { 0 });
            k += 1;
        }
        proof {
            assert(g as int == gi);
            assert(is_gcd(w@, g as int));
            assert(solution_with(reduced, free@, seq![lv as i128], w@, m as int));
        }
        if !all_positive(&out) {
            proof {
                let t0 = choose|t: int| 0 <= t < out.len() && !(out@[t] > 0);
                lemma_div_multiples_vanish(v@[t0] as int, gi);
                assert((w@[t0] as int) / gi == v@[t0]);
                assert forall|ww: Seq<i128>|
                    #[trigger] solution_with(reduced, free@, seq![lv as i128], ww, m as int) && fits(reduced, pivots@, fr@, ww, m as int)
                        implies exists|g2: int|
                        #[trigger] is_gcd(ww, g2) && (g2 == 0 || exists|t: int| 0 <= t < m && !(0 < (#[trigger] ww[t] as int) / g2 <= u64::MAX)) by {
                    assert(ww == w@);
                    assert(!(0 < (ww[t0] as int) / (g as int) <= u64::MAX));
                }
                assert(ray_outcome(reduced, pivots@, fr@, free@, m as int, None));
                assert(outcome(orig, m as int, reduced, pivots@, fr@, free@, None));
            }
            return None;
        }
        proof {
            assert forall|t: int| 0 <= t < m implies (#[trigger] out@[t] as int) * (g as int) == w@[t] by {
                assert(out@[t] > 0);
                assert(out@[t] as int == v@[t]);
                assert(w@[t] == gi * v@[t]);
                assert((v@[t] as int) * gi == gi * v@[t]) by (nonlinear_arith);
            }
            assert(ray_outcome(reduced, pivots@, fr@, free@, m as int, Some(out@)));
        }
        proof {
            let vi = ints(v@);
            lemma_dot_combo(w@, v@, v@, vi, gi, 0, m as int);
            assert forall|i: int| 0 <= i < reduced.len() implies dot(#[trigger] reduced[i]@, vi, vi.len() as int) == 0 by {
                assert(dot(reduced[i]@, ints(w@), m as int) == 0);
                lemma_dot_scale_back(reduced[i]@, w@, v@, gi, m as int);
            }
            assert(solves(reduced, vi));
            assert(positive_solution(orig, vi, m as int)) by {
                assert forall|t: int| 0 <= t < m implies #[trigger] vi[t] > 0 by {
                    assert(out@[t] > 0);
                }
            }
            assert(word_weights(out@, vi)) by {
                assert forall|t: int| 0 <= t < out.len() implies #[trigger] out@[t] == (vi[t] as u64) by {
                    assert(out@[t] > 0);
                }
            }
            // Divided by the gcd of its entries, the vector is primitive.
            assert forall|d: int| d > 1 implies !#[trigger] divides_all(d, out@) by {
                if divides_all(d, out@) {
                    assert(d * gi > 0) by (nonlinear_arith)
                        requires
                            d > 1,
                            gi > 0,
                    ;
                    assert forall|j: int| 0 <= j < w.len() implies (abs(#[trigger] w@[j] as int) as int) % (d * gi) == 0 by {
                        assert(out@[j] > 0);
                        assert(out@[j] as int == v@[j]);
                        assert((out@[j] as int) % d == 0);
                        lemma_fundamental_div_mod(v@[j] as int, d);
                        let k = (v@[j] as int) / d;
                        assert(w@[j] == gi * v@[j]);
                        assert(abs(w@[j] as int) as int == k * (d * gi)) by (nonlinear_arith)
                            requires
                                w@[j] == gi * v@[j],
                                v@[j] as int == d * k + 0,
                                v@[j] > 0,
                                gi > 0,
                        ;
                        lemma_mod_multiples_basic(k, d * gi);
                    }
                    assert((g as int) % (d * gi) == 0);
                    assert(g < d * gi) by (nonlinear_arith)
                        requires
                            d > 1,
                            gi > 0,
                            g >= 1,
                            g <= gi,
                    ;
                    lemma_small_mod(g as nat, (d * gi) as nat);
                }
            }
            if orig.len() == 0 {
                assert(v@[0] == 1);
                assert(out@ =~= Seq::new(m as nat, |k: int| 1u64));
            }
        }
        proof {
            assert(outcome(orig, m as int, reduced, pivots@, fr@, free@, Some(out@)));
        }
        return Some(out);
    }
    // A bounded search over the free variables.
    let bound = search_bound(free.len());
    let mut vals: Vec<i128> = Vec::with_capacity(free.len());
    let mut t: usize = 0;
    while t < free.len()
        invariant
            t <= free.len(),
            vals.len() == t,
            forall|u: int| 0 <= u < t ==> #[trigger] vals@[u] == 1,
        decreases free.len() - t,
    {
        vals.push(1);
        t += 1;
    }
    let mut best: Option<Vec<i128>> = None;
    let ghost vals_init = vals@;
    search(&eqs, &pivots, &free, &fr, m, bound, &mut vals, free.len(), &mut best);
    proof {
        assert forall|v: Seq<i128>|
            in_box(free@, vals_init, v, free.len() as int, bound as int) == in_box(free@, seq![], v, free.len() as int, bound as int) by {}
        assert forall|bd: int| #[trigger] is_search_bound(bd, free.len()) implies bd == bound by {
            lemma_search_bound_unique(bd, bound as int, free.len());
        }
    }
    let b = match best {
        Some(b) => b,
        None => {
            proof {
                assert forall|v: Seq<i128>|
                    !(#[trigger] candidate(reduced, pivots@, fr@, v, m as int) && in_box(free@, seq![], v, free.len() as int, bound as int)) by {
                    if candidate(reduced, pivots@, fr@, v, m as int) && in_box(free@, seq![], v, free.len() as int, bound as int) {
                        assert(in_box(free@, vals_init, v, free.len() as int, bound as int));
                    }
                }
                assert(searched(reduced, pivots@, fr@, free@, m as int, None));
                assert(outcome(orig, m as int, reduced, pivots@, fr@, free@, None));
            }
            return None;
        },
    };
    proof {
        assert forall|v: Seq<i128>|
            #[trigger] candidate(reduced, pivots@, fr@, v, m as int) && in_box(free@, seq![], v, free.len() as int, bound as int)
                implies !beats(v, b@) by {
            assert(in_box(free@, vals_init, v, free.len() as int, bound as int));
        }
        assert(best_in_box(reduced, pivots@, fr@, free@, m as int, bound as int, b@));
    }
    if !all_words(&b) {
        proof {
            assert(candidate(reduced, pivots@, fr@, b@, m as int));
            assert(searched(reduced, pivots@, fr@, free@, m as int, None));
            assert(outcome(orig, m as int, reduced, pivots@, fr@, free@, None));
        }
        return None;
    }
    proof {
        assert(candidate(reduced, pivots@, fr@, b@, m as int));
    }
    let mut out: Vec<u64> = Vec::with_capacity(m);
    let mut k: usize = 0;
    while k < m
        invariant
            k <= m,
            b.len() == m,
            out.len() == k,
            forall|t: int| 0 <= t < m ==> 0 <= #[trigger] b@[t] <= u64::MAX,
            forall|t: int| 0 <= t < k ==> #[trigger] out@[t] == b@[t],
        decreases m - k,
    {
        out.push(b[k] as u64);
        k += 1;
    }
    proof {
        let vi = ints(b@);
        assert(solves(reduced, vi));
        assert(positive_solution(orig, vi, m as int));
        assert(word_weights(out@, vi));
        lemma_two_free_columns(reduced, orig, pivots@, free@, fr@, m as int);
        if orig.len() == 0 {
            assert(out@ =~= Seq::new(m as nat, |k: int| 1u64));
        }
        assert(searched(reduced, pivots@, fr@, free@, m as int, Some(out@)));
        assert(outcome(orig, m as int, reduced, pivots@, fr@, free@, Some(out@)));
    }
    Some(out)
}

/// A row that vanishes on `w = g v` (with `g` non-zero) vanishes on `v`.
proof fn lemma_dot_scale_back(a: Seq<i128>, w: Seq<i128>, v: Seq<i128>, g: int, m: int)
    requires
        0 <= m,
        g != 0,
        w.len() == m,
        v.len() == m,
        forall|j: int| 0 <= j < m ==> w[j] == g * v[j],
        dot(a, ints(w), m) == 0,
    ensures
        dot(a, ints(v), m) == 0,
{
    lemma_dot_scale_vec(a, ints(w), ints(v), g, m);
    let (p, q) = (dot(a, ints(w), m), dot(a, ints(v), m));
    assert(q == 0) by (nonlinear_arith)
        requires
            p == g * q,
            p == 0,
            g != 0,
    ;
}

/// `dot` is linear in the vector.
proof fn lemma_dot_scale_vec(a: Seq<i128>, w: Seq<int>, v: Seq<int>, g: int, k: int)
    requires
        0 <= k <= w.len(),
        k <= v.len(),
        forall|j: int| 0 <= j < k ==> w[j] == g * v[j],
    ensures
        dot(a, w, k) == g * dot(a, v, k),
    decreases k,
{
    if k > 0 {
        lemma_dot_scale_vec(a, w, v, g, k - 1);
        let (aj, vj, d) = (a[k - 1] as int, v[k - 1], dot(a, v, k - 1));
        assert(g * d + aj * (g * vj) == g * (d + aj * vj)) by (nonlinear_arith);
    }
}

// ----- the equations of homogeneity -------------------------------------------

/// The monomial `e` is not constant.
pub open spec fn nonconstant(e: Seq<u64>) -> bool {
    exists|k: int| 0 <= k < e.len() && #[trigger] e[k] > 0
}

/// No exponent of `e` is beyond `2^20`.
pub open spec fn small_exponents(e: Seq<u64>) -> bool {
    forall|k: int| 0 <= k < e.len() ==> #[trigger] e[k] <= 0x100000
}

/// `row` is `e - f`.
pub open spec fn is_difference(row: Seq<i128>, e: Seq<u64>, f: Seq<u64>, n: int) -> bool {
    &&& row.len() == n
    &&& forall|k: int| 0 <= k < n ==> #[trigger] row[k] == e[k] - f[k]
}

/// Some polynomial has two non-constant terms and an exponent beyond
/// `2^20` in one of its non-constant terms.
pub open spec fn exponent_too_large(polys: Seq<Vec<Vec<u64>>>) -> bool {
    exists|a: int, t: int, u: int|
        0 <= a < polys.len() && 0 <= t < polys[a].len() && 0 <= u < polys[a].len() && t != u
            && nonconstant(#[trigger] polys[a]@[t]@) && nonconstant(#[trigger] polys[a]@[u]@) && !small_exponents(
            polys[a]@[t]@)
}

/// The first non-constant term of each polynomial with one, and the
/// differences of the others from it that are not zero: the rows cover
/// each such difference.
pub open spec fn covers(rows: Seq<Vec<i128>>, polys: Seq<Vec<Vec<u64>>>, n: int, upto: int) -> bool {
    forall|a: int, t: int, u: int|
        0 <= a < upto && 0 <= t < polys[a].len() && 0 <= u < polys[a].len() && nonconstant(
            #[trigger] polys[a]@[t]@) && nonconstant(#[trigger] polys[a]@[u]@) ==> exists|f: Seq<u64>|
            #[trigger] difference_covered(rows, polys[a]@[t]@, f, n) && difference_covered(rows, polys[a]@[u]@, f, n)
}

/// `e - f` is zero or one of the rows.
pub open spec fn difference_covered(rows: Seq<Vec<i128>>, e: Seq<u64>, f: Seq<u64>, n: int) -> bool {
    ||| forall|k: int| 0 <= k < n ==> #[trigger] e[k] == f[k]
    ||| exists|i: int| 0 <= i < rows.len() && is_difference(#[trigger] rows[i]@, e, f, n)
}

/// `row` is the difference of two non-constant terms of one polynomial.
pub open spec fn row_of_polys(row: Seq<i128>, polys: Seq<Vec<Vec<u64>>>, n: int) -> bool {
    exists|a: int, t: int, u: int|
        0 <= a < polys.len() && 0 <= t < polys[a].len() && 0 <= u < polys[a].len() && nonconstant(
            #[trigger] polys[a]@[t]@) && nonconstant(#[trigger] polys[a]@[u]@) && is_difference(row, polys[a]@[t]@, polys[a]@[u]@, n)
}

/// Variable `j` has one exponent in all the non-constant terms of each
/// polynomial: no equation links it.
pub open spec fn unlinked(polys: Seq<Vec<Vec<u64>>>, j: int) -> bool {
    forall|a: int, t: int, u: int|
        0 <= a < polys.len() && 0 <= t < polys[a].len() && 0 <= u < polys[a].len() && nonconstant(
            #[trigger] polys[a]@[t]@) && nonconstant(#[trigger] polys[a]@[u]@) ==> polys[a]@[t]@[j] == polys[a]@[u]@[j]
}

/// The index of the first non-constant term from `k` on (the length if
/// none).
pub open spec fn first_from(p: Seq<Vec<u64>>, k: int) -> int
    decreases p.len() - k,
{
    if k >= p.len() {
        p.len() as int
    } else if nonconstant(p[k]@) {
        k
    } else {
        first_from(p, k + 1)
    }
}

/// `e - f` in the first `n` entries.
pub open spec fn diff_of(e: Seq<u64>, f: Seq<u64>, n: int) -> Seq<i128> {
    Seq::new(n as nat, |k: int| (e[k] - f[k]) as i128)
}

/// The equation that term `t` gives against the first non-constant term
/// `e0`: their difference, if the term is not constant and differs.
#[verifier::opaque]
pub open spec fn row_item(p: Seq<Vec<u64>>, e0: Seq<u64>, t: int, n: int) -> Seq<Seq<i128>> {
    if nonconstant(p[t]@) && nonzero_row(diff_of(p[t]@, e0, n), n) {
        seq![diff_of(p[t]@, e0, n)]
    } else {
        seq![]
    }
}

/// The equations of the terms `lo..hi`, in order.
#[verifier::opaque]
pub open spec fn rows_upto(p: Seq<Vec<u64>>, e0: Seq<u64>, lo: int, hi: int, n: int) -> Seq<Seq<i128>>
    decreases hi - lo,
{
    if hi <= lo {
        seq![]
    } else {
        rows_upto(p, e0, lo, hi - 1, n) + row_item(p, e0, hi - 1, n)
    }
}

/// The equations of one polynomial: each later non-constant term against
/// the first.
pub open spec fn poly_rows(p: Seq<Vec<u64>>, n: int) -> Seq<Seq<i128>> {
    let t0 = first_from(p, 0);
    if t0 >= p.len() {
        seq![]
    } else {
        rows_upto(p, p[t0]@, t0 + 1, p.len() as int, n)
    }
}

/// The equations of the first `k` polynomials, in order.
#[verifier::opaque]
pub open spec fn diff_rows(polys: Seq<Vec<Vec<u64>>>, n: int, k: int) -> Seq<Seq<i128>>
    decreases k,
{
    if k <= 0 {
        seq![]
    } else {
        diff_rows(polys, n, k - 1) + poly_rows(polys[k - 1]@, n)
    }
}

/// The entries of the rows.
#[verifier::opaque]
pub open spec fn row_views(rows: Seq<Vec<i128>>) -> Seq<Seq<i128>> {
    rows.map_values(|r: Vec<i128>| r@)
}

proof fn lemma_rows_upto_step(p: Seq<Vec<u64>>, e0: Seq<u64>, lo: int, hi: int, n: int)
    requires
        lo <= hi,
    ensures
        rows_upto(p, e0, lo, hi + 1, n) == rows_upto(p, e0, lo, hi, n) + row_item(p, e0, hi, n),
        rows_upto(p, e0, lo, lo, n) == Seq::<Seq<i128>>::empty(),
{
    reveal(rows_upto);
}

proof fn lemma_diff_rows_step(polys: Seq<Vec<Vec<u64>>>, n: int, k: int)
    requires
        0 <= k,
    ensures
        diff_rows(polys, n, k + 1) == diff_rows(polys, n, k) + poly_rows(polys[k]@, n),
        diff_rows(polys, n, 0) == Seq::<Seq<i128>>::empty(),
{
    reveal(diff_rows);
}

proof fn lemma_row_views_push(rows: Seq<Vec<i128>>, r: Vec<i128>)
    ensures
        row_views(rows.push(r)) == row_views(rows).push(r@),
{
    reveal(row_views);
    assert(row_views(rows.push(r)) =~= row_views(rows).push(r@));
}

proof fn lemma_row_views_empty()
    ensures
        row_views(Seq::<Vec<i128>>::empty()) == Seq::<Seq<i128>>::empty(),
{
    reveal(row_views);
    assert(row_views(Seq::<Vec<i128>>::empty()) =~= Seq::<Seq<i128>>::empty());
}

proof fn lemma_row_item(p: Seq<Vec<u64>>, e0: Seq<u64>, t: int, n: int)
    ensures
        row_item(p, e0, t, n) == (if nonconstant(p[t]@) && nonzero_row(diff_of(p[t]@, e0, n), n) {
            seq![diff_of(p[t]@, e0, n)]
        } else {
            Seq::<Seq<i128>>::empty()
        }),
{
    reveal(row_item);
}

proof fn lemma_first_from(p: Seq<Vec<u64>>, k: int, t0: int)
    requires
        0 <= k <= t0 <= p.len(),
        forall|t: int| k <= t < t0 ==> !nonconstant(#[trigger] p[t]@),
        t0 < p.len() ==> nonconstant(p[t0]@),
    ensures
        first_from(p, k) == t0,
    decreases t0 - k,
{
    if k < t0 {
        lemma_first_from(p, k + 1, t0);
    }
}

/// The rows: the differences (as long as all exponents are at most `2^20`)
/// of the non-constant terms of each polynomial from its first non-constant
/// term, but zeros.
#[verifier::rlimit(100)]
#[verifier::spinoff_prover]
fn equations(n: usize, polys: &[Vec<Vec<u64>>]) -> (rows: Option<Vec<Vec<i128>>>)
    requires
        forall|a: int, t: int| 0 <= a < polys.len() && 0 <= t < polys@[a].len() ==> (#[trigger] polys@[a]@[t]).len() == n,
    ensures
        rows is None <==> exponent_too_large(polys@),
        rows matches Some(rows) ==> {
            &&& single_terms(polys@, polys.len() as int) ==> rows.len() == 0
            &&& covers(rows@, polys@, n as int, polys.len() as int)
            &&& forall|i: int| 0 <= i < rows.len() ==> (#[trigger] rows@[i]).len() == n
            &&& forall|i: int| 0 <= i < rows.len() ==> nonzero_row(#[trigger] rows@[i]@, n as int)
            &&& forall|i: int| 0 <= i < rows.len() ==> row_of_polys(#[trigger] rows@[i]@, polys@, n as int)
            &&& row_views(rows@) == diff_rows(polys@, n as int, polys.len() as int)
        },
{
    let mut rows: Vec<Vec<i128>> = Vec::new();
    proof {
        lemma_diff_rows_step(polys@, n as int, 0);
        lemma_row_views_empty();
    }
    let mut a: usize = 0;
    while a < polys.len()
        invariant
            a <= polys.len(),
            forall|x: int, t: int| 0 <= x < polys.len() && 0 <= t < polys@[x].len() ==> (#[trigger] polys@[x]@[t]).len() == n,
            !exponent_too_large(polys@.take(a as int)),
            single_terms(polys@, a as int) ==> rows.len() == 0,
            covers(rows@, polys@, n as int, a as int),
            forall|i: int| 0 <= i < rows.len() ==> (#[trigger] rows@[i]).len() == n,
            forall|i: int| 0 <= i < rows.len() ==> nonzero_row(#[trigger] rows@[i]@, n as int),
            forall|i: int| 0 <= i < rows.len() ==> row_of_polys(#[trigger] rows@[i]@, polys@, n as int),
            row_views(rows@) == diff_rows(polys@, n as int, a as int),
        decreases polys.len() - a,
    {
        let p = &polys[a];
        // The first non-constant term.
        let mut t0: usize = 0;
        while t0 < p.len() && !has_positive(&p[t0])
            invariant
                t0 <= p.len(),
                forall|t: int| 0 <= t < t0 ==> !nonconstant(#[trigger] p@[t]@),
            decreases p.len() - t0,
        {
            t0 += 1;
        }
        let ghost rows0 = rows@;
        if t0 < p.len() {
            let e0 = &p[t0];
            let mut t: usize = t0 + 1;
            let mut checked0 = false;
            proof {
                lemma_rows_upto_step(p@, e0@, t0 + 1, t0 + 1, n as int);
                assert(row_views(rows@) =~= row_views(rows0) + rows_upto(p@, e0@, t0 + 1, t as int, n as int));
            }
            while t < p.len()
                invariant
                    t0 < t <= p.len(),
                    a < polys.len(),
                    p == polys@[a as int],
                    e0 == p@[t0 as int],
                    nonconstant(e0@),
                    e0.len() == n,
                    forall|x: int, u: int| 0 <= x < polys.len() && 0 <= u < polys@[x].len() ==> (#[trigger] polys@[x]@[u]).len() == n,
                    forall|u: int| 0 <= u < t0 ==> !nonconstant(#[trigger] p@[u]@),
                    checked0 ==> small_exponents(e0@),
                    checked0 <==> exists|u: int| t0 < u < t && nonconstant(#[trigger] p@[u]@),
                    forall|u: int| t0 < u < t && nonconstant(#[trigger] p@[u]@) ==> small_exponents(p@[u]@),
                    forall|u: int| t0 <= u < t && nonconstant(#[trigger] p@[u]@) ==> difference_covered(rows@, p@[u]@, e0@, n as int),
                    rows0.len() <= rows.len(),
                    rows.len() > rows0.len() ==> checked0,
                    single_terms(polys@, a as int) ==> rows0.len() == 0,
                    forall|i: int| 0 <= i < rows0.len() ==> rows@[i] == rows0[i],
                    forall|i: int| 0 <= i < rows.len() ==> (#[trigger] rows@[i]).len() == n,
                    forall|i: int| 0 <= i < rows.len() ==> nonzero_row(#[trigger] rows@[i]@, n as int),
                    forall|i: int| 0 <= i < rows.len() ==> row_of_polys(#[trigger] rows@[i]@, polys@, n as int),
                    row_views(rows0) == diff_rows(polys@, n as int, a as int),
                    row_views(rows@) == row_views(rows0) + rows_upto(p@, e0@, t0 + 1, t as int, n as int),
                decreases p.len() - t,
            {
                let ghost rb = rows@;
                let e = &p[t];
                if has_positive(e) {
                    if !all_small(e) {
                        proof {
                            assert(exponent_too_large(polys@)) by {
                                assert(polys@[a as int]@[t as int] == e);
                                assert(nonconstant(polys@[a as int]@[t0 as int]@));
                                assert(nonconstant(polys@[a as int]@[t as int]@));
                                assert(!small_exponents(polys@[a as int]@[t as int]@));
                                assert(t as int != t0 as int);
                            }
                        }
                        return None;
                    }
                    if !checked0 {
                        if !all_small(e0) {
                            proof {
                                assert(exponent_too_large(polys@)) by {
                                    assert(polys@[a as int]@[t as int] == e);
                                    assert(polys@[a as int]@[t0 as int] == e0);
                                    assert(nonconstant(polys@[a as int]@[t as int]@));
                                    assert(nonconstant(polys@[a as int]@[t0 as int]@));
                                    assert(!small_exponents(polys@[a as int]@[t0 as int]@));
                                    assert(t as int != t0 as int);
                                }
                            }
                            return None;
                        }
                        checked0 = true;
                    }
                    let row = difference(e, e0, n);
                    proof {
                        assert(row@ =~= diff_of(e@, e0@, n as int));
                        assert(p@[t as int] == e);
                    }
                    if is_nonzero(&row) {
                        rows.push(row);
                        proof {
                            lemma_row_item(p@, e0@, t as int, n as int);
                            lemma_row_views_push(rb, row);
                        }
                        proof {
                            let i = rows.len() - 1;
                            assert(is_difference(rows@[i]@, e@, e0@, n as int));
                            assert(polys@[a as int]@[t as int] == e);
                            assert(polys@[a as int]@[t0 as int] == e0);
                            assert(nonconstant(polys@[a as int]@[t as int]@));
                            assert(row_of_polys(rows@[i]@, polys@, n as int));
                            assert forall|x: int| 0 <= x < rows.len() implies row_of_polys(#[trigger] rows@[x]@, polys@, n as int) by {
                                if x < i {
                                    assert(rows@[x] == rb[x]);
                                }
                            }
                        }
                    } else {
                        assert forall|k: int| 0 <= k < n implies #[trigger] e@[k] == e0@[k] by {
                            assert(row@[k] == 0);
                        }
                        proof {
                            lemma_row_item(p@, e0@, t as int, n as int);
                        }
                    }
                } else {
                    proof {
                        assert(p@[t as int] == e);
                        lemma_row_item(p@, e0@, t as int, n as int);
                    }
                }
                proof {
                    lemma_rows_upto_step(p@, e0@, t0 + 1, t as int, n as int);
                    assert(row_views(rows@) =~= row_views(rows0) + rows_upto(p@, e0@, t0 + 1, t + 1, n as int));
                }
                proof {
                    assert forall|u: int| t0 <= u < t + 1 && nonconstant(#[trigger] p@[u]@) implies difference_covered(
                        rows@,
                        p@[u]@,
                        e0@,
                        n as int,
                    ) by {
                        if u == t0 {
                        } else if u < t {
                            lemma_covered_grows(rb, rows@, p@[u]@, e0@, n as int);
                        }
                    }
                }
                t += 1;
            }
            proof {
                let pa = polys@[a as int];
                lemma_first_from(p@, 0, t0 as int);
                assert(pa@ == p@);
                lemma_diff_rows_step(polys@, n as int, a as int);
                assert(row_views(rows@) =~= diff_rows(polys@, n as int, a + 1));
                assert forall|x: int, u: int, v: int|
                    0 <= x < a + 1 && 0 <= u < polys@[x].len() && 0 <= v < polys@[x].len() && nonconstant(
                        #[trigger] polys@[x]@[u]@) && nonconstant(#[trigger] polys@[x]@[v]@) implies exists|f: Seq<u64>|
                    #[trigger] difference_covered(rows@, polys@[x]@[u]@, f, n as int) && difference_covered(
                        rows@,
                        polys@[x]@[v]@,
                        f,
                        n as int,
                    ) by {
                    if x < a {
                        let f = choose|f: Seq<u64>|
                            #[trigger] difference_covered(rows0, polys@[x]@[u]@, f, n as int) && difference_covered(
                                rows0,
                                polys@[x]@[v]@,
                                f,
                                n as int,
                            );
                        lemma_covered_grows(rows0, rows@, polys@[x]@[u]@, f, n as int);
                        lemma_covered_grows(rows0, rows@, polys@[x]@[v]@, f, n as int);
                    } else {
                        assert(difference_covered(rows@, pa@[u]@, e0@, n as int));
                        assert(difference_covered(rows@, pa@[v]@, e0@, n as int));
                    }
                }
                assert(!exponent_too_large(polys@.take(a + 1))) by {
                    let q = polys@.take(a + 1);
                    if exponent_too_large(q) {
                        let (x, u, v) = choose|x: int, u: int, v: int|
                            0 <= x < q.len() && 0 <= u < q[x].len() && 0 <= v < q[x].len() && u != v && nonconstant(
                                #[trigger] q[x]@[u]@) && nonconstant(#[trigger] q[x]@[v]@) && !small_exponents(q[x]@[u]@);
                        if x < a {
                            assert(polys@.take(a as int)[x] == q[x]);
                            assert(exponent_too_large(polys@.take(a as int)));
                        } else {
                            assert(q[x] == pa);
                            if u == t0 as int {
                                assert(t0 < v);
                                assert(checked0);
                            }
                        }
                    }
                }
                if single_terms(polys@, a + 1) && rows.len() > 0 {
                    assert(checked0);
                    let u = choose|u: int| t0 < u < p.len() && nonconstant(#[trigger] p@[u]@);
                    assert(nonconstant(polys@[a as int]@[u]@));
                    assert(nonconstant(polys@[a as int]@[t0 as int]@));
                    assert(false);
                }
            }
        } else {
            proof {
                lemma_first_from(p@, 0, t0 as int);
                assert(polys@[a as int]@ == p@);
                lemma_diff_rows_step(polys@, n as int, a as int);
                assert(diff_rows(polys@, n as int, a + 1) =~= diff_rows(polys@, n as int, a as int));
                assert forall|x: int, u: int, v: int|
                    0 <= x < a + 1 && 0 <= u < polys@[x].len() && 0 <= v < polys@[x].len() && nonconstant(
                        #[trigger] polys@[x]@[u]@) && nonconstant(#[trigger] polys@[x]@[v]@) implies exists|f: Seq<u64>|
                    #[trigger] difference_covered(rows@, polys@[x]@[u]@, f, n as int) && difference_covered(
                        rows@,
                        polys@[x]@[v]@,
                        f,
                        n as int,
                    ) by {
                    if x == a {
                        assert(polys@[x] == p);
                        assert(!nonconstant(p@[u]@));
                    }
                }
                assert(!exponent_too_large(polys@.take(a + 1))) by {
                    let q = polys@.take(a + 1);
                    if exponent_too_large(q) {
                        let (x, u, v) = choose|x: int, u: int, v: int|
                            0 <= x < q.len() && 0 <= u < q[x].len() && 0 <= v < q[x].len() && u != v && nonconstant(
                                #[trigger] q[x]@[u]@) && nonconstant(#[trigger] q[x]@[v]@) && !small_exponents(q[x]@[u]@);
                        if x < a {
                            assert(polys@.take(a as int)[x] == q[x]);
                            assert(exponent_too_large(polys@.take(a as int)));
                        } else {
                            assert(q[x] == p);
                        }
                    }
                }
            }
        }
        a += 1;
    }
    assert(polys@.take(polys.len() as int) =~= polys@);
    Some(rows)
}

/// What rows cover stays covered when rows are added at the end.
proof fn lemma_covered_grows(rows0: Seq<Vec<i128>>, rows: Seq<Vec<i128>>, e: Seq<u64>, f: Seq<u64>, n: int)
    requires
        rows0.len() <= rows.len(),
        forall|i: int| 0 <= i < rows0.len() ==> rows[i] == rows0[i],
        difference_covered(rows0, e, f, n),
    ensures
        difference_covered(rows, e, f, n),
{
    if !(forall|k: int| 0 <= k < n ==> #[trigger] e[k] == f[k]) {
        let i = choose|i: int| 0 <= i < rows0.len() && is_difference(#[trigger] rows0[i]@, e, f, n);
        assert(rows[i] == rows0[i]);
    }
}

/// Whether some exponent is positive.
fn has_positive(e: &Vec<u64>) -> (b: bool)
    ensures
        b == nonconstant(e@),
{
    let mut k: usize = 0;
    while k < e.len()
        invariant
            k <= e.len(),
            forall|j: int| 0 <= j < k ==> e@[j] == 0,
        decreases e.len() - k,
    {
        if e[k] > 0 {
            return true;
        }
        k += 1;
    }
    false
}

/// Whether all exponents are at most `2^20`.
fn all_small(e: &Vec<u64>) -> (b: bool)
    ensures
        b == small_exponents(e@),
{
    let mut k: usize = 0;
    while k < e.len()
        invariant
            k <= e.len(),
            forall|j: int| 0 <= j < k ==> #[trigger] e@[j] <= 0x100000,
        decreases e.len() - k,
    {
        if e[k] > 0x100000 {
            return false;
        }
        k += 1;
    }
    true
}

/// `e - f` for exponents of at most `2^20`.
fn difference(e: &Vec<u64>, f: &Vec<u64>, n: usize) -> (row: Vec<i128>)
    requires
        e.len() == n,
        f.len() == n,
        small_exponents(e@),
        small_exponents(f@),
    ensures
        is_difference(row@, e@, f@, n as int),
{
    let mut row: Vec<i128> = Vec::with_capacity(n);
    let mut k: usize = 0;
    while k < n
        invariant
            k <= n,
            e.len() == n,
            f.len() == n,
            small_exponents(e@),
            small_exponents(f@),
            row.len() == k,
            forall|j: int| 0 <= j < k ==> #[trigger] row@[j] == e@[j] - f@[j],
        decreases n - k,
    {
        row.push(e[k] as i128 - f[k] as i128);
        k += 1;
    }
    row
}

/// Some entry of the first `n` is not zero.
pub open spec fn nonzero_row(row: Seq<i128>, n: int) -> bool {
    exists|k: int| 0 <= k < n && #[trigger] row[k] != 0
}

/// Whether some entry is not zero.
fn is_nonzero(row: &Vec<i128>) -> (b: bool)
    ensures
        b == nonzero_row(row@, row.len() as int),
{
    let mut k: usize = 0;
    while k < row.len()
        invariant
            k <= row.len(),
            forall|j: int| 0 <= j < k ==> row@[j] == 0,
        decreases row.len() - k,
    {
        if row[k] != 0 {
            return true;
        }
        k += 1;
    }
    false
}

// ----- the sets of variables that the equations link --------------------------

/// A union-find forest: `link[i]` leads toward `rep[i]`, the representative
/// (a root) of the set of `i`, and `dist` decreases along the links.
pub open spec fn forest(link: Seq<usize>, rep: Seq<int>, dist: Seq<nat>) -> bool {
    &&& rep.len() == link.len()
    &&& dist.len() == link.len()
    &&& forall|i: int| 0 <= i < link.len() ==> (#[trigger] link[i]) < link.len()
    &&& forall|i: int| 0 <= i < link.len() ==> 0 <= #[trigger] rep[i] < link.len() && link[rep[i]] == rep[i]
    &&& forall|i: int| 0 <= i < link.len() && #[trigger] link[i] == i ==> rep[i] == i && dist[i] == 0
    &&& forall|i: int|
        0 <= i < link.len() && #[trigger] link[i] != i ==> rep[link[i] as int] == rep[i] && dist[link[i] as int]
            < dist[i]
}

/// The root of the set of `i`, halving the path to it.
fn root(link: &mut Vec<usize>, i: usize, Ghost(rep): Ghost<Seq<int>>, Ghost(dist): Ghost<Seq<nat>>) -> (r: usize)
    requires
        forest(old(link)@, rep, dist),
        i < old(link).len(),
    ensures
        forest(final(link)@, rep, dist),
        final(link).len() == old(link).len(),
        r == rep[i as int],
{
    let ghost i0 = i;
    let mut i = i;
    while link[i] != i
        invariant
            forest(link@, rep, dist),
            i < link.len(),
            i0 < link.len(),
            link.len() == old(link).len(),
            rep[i as int] == rep[i0 as int],
        decreases dist[i as int],
    {
        let p = link[i];
        let pp = link[p];
        proof {
            assert(rep[p as int] == rep[i as int]);
            if link@[p as int] != p {
                assert(dist[pp as int] < dist[p as int]);
            }
            assert(dist[pp as int] < dist[i as int]);
            assert(rep[pp as int] == rep[i as int]);
        }
        link.set(i, pp);
        i = pp;
    }
    i
}

/// Each row's non-zero variables are in one set.
pub open spec fn rows_linked(rows: Seq<Vec<i128>>, rep: Seq<int>, upto: int) -> bool {
    forall|i: int, j: int, k: int|
        0 <= i < upto && 0 <= j < rep.len() && 0 <= k < rep.len() && #[trigger] rows[i]@[j] != 0
            && #[trigger] rows[i]@[k] != 0 ==> rep[j] == rep[k]
}

/// `rep` joins no more than it must: any labelling `rp` of the variables
/// that keeps each of the first `upto` rows in one set joins whatever `rep`
/// joins. With `rows_linked`, the sets of `rep` are those the rows link.
pub open spec fn finest(rows: Seq<Vec<i128>>, rep: Seq<int>, upto: int) -> bool {
    forall|rp: Seq<int>|
        rp.len() == rep.len() && #[trigger] rows_linked(rows, rp, upto) ==> forall|x: int, y: int|
            #![trigger rp[x], rp[y]]
            0 <= x < rep.len() && 0 <= y < rep.len() && rep[x] == rep[y] ==> rp[x] == rp[y]
}

/// Variable `k` is 0 in the first `upto` rows.
pub open spec fn untouched(rows: Seq<Vec<i128>>, k: int, upto: int) -> bool {
    forall|i: int| 0 <= i < upto ==> #[trigger] rows[i]@[k] == 0
}

/// A variable untouched by the first `upto` rows is alone in its set.
pub open spec fn alone(rows: Seq<Vec<i128>>, rep: Seq<int>, upto: int) -> bool {
    forall|k: int|
        0 <= k < rep.len() && #[trigger] untouched(rows, k, upto) ==> rep[k] == k && forall|y: int|
            0 <= y < rep.len() && rep[y] == k ==> y == k
}

/// Link the variables of each row: each variable with the next one that
/// the row has.
fn link_sets(n: usize, rows: &Vec<Vec<i128>>) -> (res: (Vec<usize>, Ghost<Seq<int>>, Ghost<Seq<nat>>))
    requires
        forall|i: int| 0 <= i < rows.len() ==> (#[trigger] rows@[i]).len() == n,
    ensures
        res.0.len() == n,
        forest(res.0@, res.1@, res.2@),
        rows_linked(rows@, res.1@, rows.len() as int),
        alone(rows@, res.1@, rows.len() as int),
        finest(rows@, res.1@, rows.len() as int),
{
    let mut link: Vec<usize> = Vec::with_capacity(n);
    let mut i: usize = 0;
    while i < n
        invariant
            i <= n,
            link.len() == i,
            forall|j: int| 0 <= j < i ==> #[trigger] link@[j] == j,
        decreases n - i,
    {
        link.push(i);
        i += 1;
    }
    let ghost mut rep: Seq<int> = Seq::new(n as nat, |j: int| j);
    let ghost mut dist: Seq<nat> = Seq::new(n as nat, |j: int| 0nat);
    let mut r: usize = 0;
    while r < rows.len()
        invariant
            r <= rows.len(),
            link.len() == n,
            forall|i: int| 0 <= i < rows.len() ==> (#[trigger] rows@[i]).len() == n,
            forest(link@, rep, dist),
            rows_linked(rows@, rep, r as int),
            alone(rows@, rep, r as int),
            finest(rows@, rep, rows.len() as int),
        decreases rows.len() - r,
    {
        let row = &rows[r];
        let mut prev: usize = 0;
        let mut seen = false;
        proof {
            assert forall|k: int| 0 <= k < n && #[trigger] untouched(rows@, k, r + 1) implies rep[k] == k && forall|y: int|
                0 <= y < n && rep[y] == k ==> y == k by {
                assert(untouched(rows@, k, r as int));
            }
        }
        let mut j: usize = 0;
        while j < n
            invariant
                j <= n,
                r < rows.len(),
                row == rows@[r as int],
                row.len() == n,
                link.len() == n,
                forest(link@, rep, dist),
                rows_linked(rows@, rep, r as int),
                seen ==> prev < j && row@[prev as int] != 0,
                forall|k: int| 0 <= k < j && #[trigger] row@[k] != 0 ==> seen && rep[k] == rep[prev as int],
                alone(rows@, rep, r + 1),
                finest(rows@, rep, rows.len() as int),
            decreases n - j,
        {
            if row[j] != 0 {
                if seen {
                    let a = root(&mut link, prev, Ghost(rep), Ghost(dist));
                    let b = root(&mut link, j, Ghost(rep), Ghost(dist));
                    let ghost old_link = link@;
                    link.set(a, b);
                    proof {
                        if a != b {
                            let rep2 = Seq::new(n as nat, |k: int| if rep[k] == a { b as int } else { rep[k] });
                            let dist2 = Seq::new(n as nat, |k: int| if rep[k] == a { dist[k] + 1 } else { dist[k] });
                            let l = link@;
                            assert(old_link[a as int] == a);
                            assert(old_link[b as int] == b);
                            assert forall|k: int| 0 <= k < n implies 0 <= #[trigger] rep2[k] < n && l[rep2[k]] == rep2[k] by {
                                assert(old_link[rep[k]] == rep[k]);
                            }
                            assert forall|k: int| 0 <= k < n && #[trigger] l[k] == k implies rep2[k] == k && dist2[k] == 0 by {
                                assert(k != a);
                                assert(old_link[k] == k);
                            }
                            assert forall|k: int| 0 <= k < n && #[trigger] l[k] != k implies rep2[l[k] as int] == rep2[k]
                                && dist2[l[k] as int] < dist2[k] by {
                                if k == a {
                                    assert(rep[b as int] == b);
                                    assert(dist[b as int] == 0);
                                } else {
                                    assert(old_link[k] != k);
                                }
                            }
                            assert forall|x: int, y: int, z: int|
                                0 <= x < r && 0 <= y < n && 0 <= z < n && #[trigger] rows@[x]@[y] != 0
                                    && #[trigger] rows@[x]@[z] != 0 implies rep2[y] == rep2[z] by {
                                assert(rep[y] == rep[z]);
                            }
                            assert forall|k: int| 0 <= k < n && #[trigger] untouched(rows@, k, r + 1) implies rep2[k] == k && forall|y: int|
                                0 <= y < n && rep2[y] == k ==> y == k by {
                                assert(rows@[r as int]@[k] == 0);
                                assert(rep[k] == k);
                                assert(k != prev);
                                assert(k != j);
                                assert(rep[k] != a) by {
                                    if rep[k] == a {
                                        assert(rep[prev as int] == k);
                                    }
                                }
                                assert(b != k) by {
                                    if b == k {
                                        assert(rep[j as int] == k);
                                    }
                                }
                                assert forall|y: int| 0 <= y < n && rep2[y] == k implies y == k by {
                                    if rep[y] == a {
                                        assert(rep2[y] == b);
                                    }
                                }
                            }
                            assert forall|rp: Seq<int>| rp.len() == n && #[trigger] rows_linked(
                                rows@,
                                rp,
                                rows.len() as int,
                            ) implies forall|x: int, y: int|
                                #![trigger rp[x], rp[y]]
                                0 <= x < n && 0 <= y < n && rep2[x] == rep2[y] ==> rp[x] == rp[y] by {
                                assert(rows@[r as int]@[prev as int] != 0 && rows@[r as int]@[j as int] != 0);
                                assert(rp[prev as int] == rp[j as int]);
                                assert forall|x: int, y: int|
                                    #![trigger rp[x], rp[y]]
                                    0 <= x < n && 0 <= y < n && rep2[x] == rep2[y] implies rp[x] == rp[y] by {
                                    if rep[x] == a {
                                        assert(rp[x] == rp[prev as int]);
                                    }
                                    if rep[y] == a {
                                        assert(rp[y] == rp[prev as int]);
                                    }
                                    if rep[x] == b {
                                        assert(rp[x] == rp[j as int]);
                                    }
                                    if rep[y] == b {
                                        assert(rp[y] == rp[j as int]);
                                    }
                                    if rep[x] != a && rep[y] != a {
                                        assert(rep[x] == rep[y]);
                                    }
                                }
                            }
                            rep = rep2;
                            dist = dist2;
                        }
                    }
                }
                prev = j;
                seen = true;
            }
            j += 1;
        }
        proof {
            assert forall|x: int, y: int, z: int|
                0 <= x < r + 1 && 0 <= y < n && 0 <= z < n && #[trigger] rows@[x]@[y] != 0 && #[trigger] rows@[x]@[z]
                    != 0 implies rep[y] == rep[z] by {
                if x == r {
                    assert(row@[y] != 0 && row@[z] != 0);
                }
            }
        }
        r += 1;
    }
    (link, Ghost(rep), Ghost(dist))
}

// ----- homogeneous weights ----------------------------------------------------

/// The weighted degree `V[0] e[0] + ... + V[k-1] e[k-1]` for integer weights.
pub open spec fn wdeg_int(V: Seq<int>, e: Seq<u64>, k: int) -> int
    decreases k,
{
    if k <= 0 {
        0
    } else {
        wdeg_int(V, e, k - 1) + V[k - 1] * e[k - 1]
    }
}

/// `V` gives each of the `n` variables a positive weight under which the
/// non-constant terms of each of the polynomials `polys` have one weighted
/// degree.
pub open spec fn makes_homogeneous(polys: Seq<Vec<Vec<u64>>>, V: Seq<int>, n: int) -> bool {
    &&& V.len() == n
    &&& forall|k: int| 0 <= k < n ==> #[trigger] V[k] > 0
    &&& forall|a: int, t: int, u: int|
        0 <= a < polys.len() && 0 <= t < polys[a].len() && 0 <= u < polys[a].len() && nonconstant(
            #[trigger] polys[a]@[t]@) && nonconstant(#[trigger] polys[a]@[u]@) ==> wdeg_int(V, polys[a]@[t]@, n)
            == wdeg_int(V, polys[a]@[u]@, n)
}

/// Each polynomial has at most one non-constant term.
pub open spec fn single_terms(polys: Seq<Vec<Vec<u64>>>, upto: int) -> bool {
    forall|a: int, t: int, u: int|
        0 <= a < upto && 0 <= t < polys[a].len() && 0 <= u < polys[a].len() && nonconstant(
            #[trigger] polys[a]@[t]@) && nonconstant(#[trigger] polys[a]@[u]@) ==> t == u
}

proof fn lemma_dot_difference(row: Seq<i128>, e: Seq<u64>, f: Seq<u64>, V: Seq<int>, k: int)
    requires
        0 <= k <= row.len(),
        forall|j: int| 0 <= j < k ==> row[j] == e[j] - f[j],
    ensures
        dot(row, V, k) == wdeg_int(V, e, k) - wdeg_int(V, f, k),
    decreases k,
{
    if k > 0 {
        lemma_dot_difference(row, e, f, V, k - 1);
        let (r, a, b, v) = (row[k - 1] as int, e[k - 1] as int, f[k - 1] as int, V[k - 1]);
        assert(r * v == v * a - v * b) by (nonlinear_arith)
            requires
                r == a - b,
        ;
    }
}

proof fn lemma_wdeg_ext(V: Seq<int>, e: Seq<u64>, f: Seq<u64>, k: int)
    requires
        0 <= k,
        forall|j: int| 0 <= j < k ==> e[j] == f[j],
    ensures
        wdeg_int(V, e, k) == wdeg_int(V, f, k),
    decreases k,
{
    if k > 0 {
        lemma_wdeg_ext(V, e, f, k - 1);
    }
}

/// Weights that agree wherever the row is not zero give one `dot`.
proof fn lemma_dot_agree(a: Seq<i128>, V: Seq<int>, W: Seq<int>, k: int)
    requires
        0 <= k,
        forall|j: int| 0 <= j < k ==> a[j] == 0 || V[j] == W[j],
    ensures
        dot(a, V, k) == dot(a, W, k),
    decreases k,
{
    if k > 0 {
        lemma_dot_agree(a, V, W, k - 1);
        if a[k - 1] == 0 {
            assert(a[k - 1] * V[k - 1] == 0 && a[k - 1] * W[k - 1] == 0) by (nonlinear_arith)
                requires
                    a[k - 1] == 0,
            ;
        }
    }
}

/// The row `row` restricted to the variables `vars`.
pub open spec fn projection(row: Seq<i128>, vars: Seq<usize>) -> Seq<i128> {
    Seq::new(vars.len(), |q: int| row[vars[q] as int])
}

/// Some listed variable is not zero in the row.
pub open spec fn touches(row: Seq<i128>, vars: Seq<usize>) -> bool {
    exists|q: int| 0 <= q < vars.len() && #[trigger] row[vars[q] as int] != 0
}

/// The equations on the set of variables `vars`: those of the first `r`
/// rows that touch it, projected onto it, in order.
#[verifier::opaque]
pub open spec fn class_eqs(rows: Seq<Vec<i128>>, vars: Seq<usize>, r: int) -> Seq<Seq<i128>>
    decreases r,
{
    if r <= 0 {
        seq![]
    } else {
        class_eqs(rows, vars, r - 1) + (if touches(rows[r - 1]@, vars) {
            seq![projection(rows[r - 1]@, vars)]
        } else {
            seq![]
        })
    }
}

proof fn lemma_class_eqs_step(rows: Seq<Vec<i128>>, vars: Seq<usize>, r: int)
    requires
        0 <= r,
    ensures
        class_eqs(rows, vars, r + 1) == class_eqs(rows, vars, r) + (if touches(rows[r]@, vars) {
            seq![projection(rows[r]@, vars)]
        } else {
            Seq::<Seq<i128>>::empty()
        }),
        class_eqs(rows, vars, 0) == Seq::<Seq<i128>>::empty(),
{
    reveal(class_eqs);
}

/// `vars` lists, in increasing order, the variables `x < n` in the set `c`
/// of `rep`.
pub open spec fn set_vars(rep: Seq<int>, c: int, vars: Seq<usize>, n: int) -> bool {
    &&& rep.len() == n
    &&& forall|q: int| 0 <= q < vars.len() ==> #[trigger] vars[q] < n && rep[vars[q] as int] == c
    &&& forall|q: int, r: int| 0 <= q < r < vars.len() ==> vars[q] < vars[r]
    &&& forall|x: int| 0 <= x < n && rep[x] == c ==> exists|q: int| 0 <= q < vars.len() && #[trigger] vars[q] == x
}

/// `rep` labels the sets of the `n` variables that the rows link.
pub open spec fn linked_sets(rows: Seq<Vec<i128>>, rep: Seq<int>, n: int) -> bool {
    &&& rep.len() == n
    &&& rows_linked(rows, rep, rows.len() as int)
    &&& finest(rows, rep, rows.len() as int)
}

/// `linked_weights` may answer `None` to the equations `eqs` on `m`
/// variables: their `outcome` is `None`, or there are two or more whose
/// elimination may overflow.
pub open spec fn may_fail(eqs: Seq<Vec<i128>>, m: int) -> bool {
    ||| eqs.len() >= 2 && growth(max_entry(eqs, eqs.len() as int, m), m as nat) > i128::MAX
    ||| exists|e: Seq<Vec<i128>>, piv: Seq<usize>, fr: Seq<bool>, free: Seq<usize>|
        #[trigger] outcome(eqs, m, e, piv, fr, free, None)
}

/// The set `c` of linked variables `vars`, with the equations `eqs` on it,
/// of the polynomials `polys` (with the equations `rows`), is one that
/// `linked_weights` may answer `None`.
pub open spec fn failing_set(
    polys: Seq<Vec<Vec<u64>>>,
    n: int,
    rows: Seq<Vec<i128>>,
    rep: Seq<int>,
    c: int,
    vars: Seq<usize>,
    eqs: Seq<Vec<i128>>,
) -> bool {
    &&& row_views(rows) == diff_rows(polys, n, polys.len() as int)
    &&& linked_sets(rows, rep, n)
    &&& set_vars(rep, c, vars, n)
    &&& row_views(eqs) == class_eqs(rows, vars, rows.len() as int)
    &&& eqs.len() > 0
    &&& may_fail(eqs, vars.len() as int)
}

/// The weights `w` of the listed variables.
pub open spec fn project_w(w: Seq<u64>, vars: Seq<usize>) -> Seq<u64> {
    Seq::new(vars.len(), |q: int| w[vars[q] as int])
}

/// On the set of linked variables `vars`, whose equations `eqs` are those
/// of `rows` on it, the weights `w` are what `linked_weights` answers to
/// them (through their `outcome`), if there are any.
pub open spec fn set_weights(rows: Seq<Vec<i128>>, vars: Seq<usize>, w: Seq<u64>) -> bool {
    exists|eqs: Seq<Vec<i128>>|
        #[trigger] row_views(eqs) == class_eqs(rows, vars, rows.len() as int) && (eqs.len() > 0 ==> exists|
            e: Seq<Vec<i128>>,
            piv: Seq<usize>,
            fr: Seq<bool>,
            free: Seq<usize>,
        | #[trigger] outcome(eqs, vars.len() as int, e, piv, fr, free, Some(project_w(w, vars))))
}

proof fn lemma_set_vars_prefix(rep: Seq<int>, c: int, v1: Seq<usize>, v2: Seq<usize>, n: int, q: int)
    requires
        set_vars(rep, c, v1, n),
        set_vars(rep, c, v2, n),
        0 <= q,
    ensures
        forall|i: int| 0 <= i < q && i < v1.len() && i < v2.len() ==> v1[i] == v2[i],
    decreases q,
{
    if q > 0 {
        lemma_set_vars_prefix(rep, c, v1, v2, n, q - 1);
        let i = q - 1;
        if i < v1.len() && i < v2.len() {
            let x1 = v1[i] as int;
            assert(v1[i] < n && rep[x1] == c);
            let p = choose|p: int| 0 <= p < v2.len() && #[trigger] v2[p] == x1;
            if p < i {
                assert(v2[p] == v1[p]);
                assert(v1[p] < v1[i]);
            }
            if p > i {
                assert(v2[i] < v2[p]);
            }
            let x2 = v2[i] as int;
            assert(v2[i] < n && rep[x2] == c);
            let p2 = choose|p: int| 0 <= p < v1.len() && #[trigger] v1[p] == x2;
            if p2 < i {
                assert(v1[p2] == v2[p2]);
                assert(v2[p2] < v2[i]);
            }
            if p2 > i {
                assert(v1[i] < v1[p2]);
            }
        }
    }
}

/// A set has one increasing listing.
proof fn lemma_set_vars_unique(rep: Seq<int>, c: int, v1: Seq<usize>, v2: Seq<usize>, n: int)
    requires
        set_vars(rep, c, v1, n),
        set_vars(rep, c, v2, n),
    ensures
        v1 == v2,
{
    let q = if v1.len() > v2.len() { v1.len() as int } else { v2.len() as int };
    lemma_set_vars_prefix(rep, c, v1, v2, n, q);
    if v1.len() > v2.len() {
        let i = v2.len() as int;
        let x = v1[i] as int;
        assert(v1[i] < n && rep[x] == c);
        let p = choose|p: int| 0 <= p < v2.len() && #[trigger] v2[p] == x;
        assert(v1[p] == v2[p]);
        assert(v1[p] < v1[i]);
    }
    if v2.len() > v1.len() {
        let i = v1.len() as int;
        let x = v2[i] as int;
        assert(v2[i] < n && rep[x] == c);
        let p = choose|p: int| 0 <= p < v1.len() && #[trigger] v1[p] == x;
        assert(v1[p] == v2[p]);
        assert(v2[p] < v2[i]);
    }
    assert(v1 =~= v2);
}

/// `vars` lists the variables `x < n` with `mem[x]` in increasing order;
/// `at[x]` is the number of them below `x`.
pub open spec fn listing(vars: Seq<usize>, mem: Seq<bool>, at: Seq<int>, n: int) -> bool {
    &&& mem.len() == n
    &&& at.len() == n + 1
    &&& at[0] == 0
    &&& at[n] == vars.len()
    &&& forall|x: int| 0 <= x < n && #[trigger] mem[x] ==> 0 <= at[x] < vars.len() && vars[at[x]] == x && at[x + 1] == at[x]
        + 1
    &&& forall|x: int| 0 <= x < n && !#[trigger] mem[x] ==> at[x + 1] == at[x]
    &&& forall|q: int| 0 <= q < vars.len() ==> #[trigger] vars[q] < n && mem[vars[q] as int]
    &&& forall|q: int, r: int| 0 <= q < r < vars.len() ==> vars[q] < vars[r]
}

/// A row that is zero outside the listed variables has the `dot` of its
/// projection with the weights of the listed variables.
proof fn lemma_dot_project(
    row: Seq<i128>,
    V: Seq<int>,
    vc: Seq<int>,
    vars: Seq<usize>,
    mem: Seq<bool>,
    at: Seq<int>,
    n: int,
    k: int,
)
    requires
        0 <= k <= n,
        listing(vars, mem, at, n),
        forall|x: int| 0 <= x < n && !mem[x] ==> row[x] == 0,
        forall|q: int| 0 <= q < vars.len() ==> vc[q] == V[vars[q] as int],
    ensures
        0 <= at[k] <= vars.len(),
        dot(row, V, k) == dot(projection(row, vars), vc, at[k]),
    decreases k,
{
    if k > 0 {
        lemma_dot_project(row, V, vc, vars, mem, at, n, k - 1);
        let x = k - 1;
        if mem[x] {
            let t = at[x];
            assert(projection(row, vars)[t] == row[x]);
            assert(vc[t] == V[x]);
        } else {
            assert(row[x] * V[x] == 0) by (nonlinear_arith)
                requires
                    row[x] == 0,
            ;
        }
    }
}

/// Positive weights of the `n` variables in which the terms of each of the
/// polynomials `polys` (as the exponents of their terms) but its constant
/// term have one weighted degree, as Magma chooses them for the easy order:
/// on each set of variables that the polynomials link, the weights with the
/// least sum, then with the least largest weight, the later variables the
/// heavier on a tie. None if there are none; where the weights are not
/// unique the search is bounded.
///
/// The equations are `diff_rows`: each later non-constant term of a
/// polynomial against its first. On each set of variables that they link
/// (`linked_sets`, `set_vars`) the weights are what `linked_weights` gives
/// for the equations on that set (`set_weights`); a variable in no equation
/// weighs 1. `None` comes only from an exponent above `2^20` or from a set
/// on which `linked_weights` gives `None` (`failing_set`).
#[verifier::rlimit(100)]
#[verifier::spinoff_prover]
pub fn homogeneous_weights(n: usize, polys: &[Vec<Vec<u64>>]) -> (w: Option<Vec<u64>>)
    requires
        forall|a: int, t: int| 0 <= a < polys.len() && 0 <= t < polys@[a].len() ==> (#[trigger] polys@[a]@[t]).len() == n,
    ensures
        exponent_too_large(polys@) ==> w is None,
        w matches Some(w) ==> {
            &&& w.len() == n
            &&& forall|k: int| 0 <= k < n ==> #[trigger] w@[k] > 0
            &&& exists|V: Seq<int>| #[trigger] makes_homogeneous(polys@, V, n as int) && word_weights(w@, V)
        },
        single_terms(polys@, polys.len() as int) ==> (w matches Some(w) && w@ == Seq::new(n as nat, |k: int| 1u64)),
        w matches Some(w) ==> forall|j: int| 0 <= j < n && #[trigger] unlinked(polys@, j) ==> w@[j] == 1,
        w is None ==> exponent_too_large(polys@) || exists|
            rows: Seq<Vec<i128>>,
            rep: Seq<int>,
            c: int,
            vars: Seq<usize>,
            eqs: Seq<Vec<i128>>,
        | #[trigger] failing_set(polys@, n as int, rows, rep, c, vars, eqs),
        w matches Some(w) ==> exists|rows: Seq<Vec<i128>>, rep: Seq<int>|
            #[trigger] linked_sets(rows, rep, n as int) && row_views(rows) == diff_rows(
                polys@,
                n as int,
                polys.len() as int,
            ) && forall|c: int, vars: Seq<usize>|
                #[trigger] set_vars(rep, c, vars, n as int) && vars.len() > 0 ==> set_weights(rows, vars, w@),
{
    // The equations: the differences of the exponents of the terms.
    let rows = match equations(n, polys) {
        Some(rows) => rows,
        None => return None,
    };
    proof {
        assert forall|j: int| 0 <= j < n && #[trigger] unlinked(polys@, j) implies untouched(rows@, j, rows.len() as int) by {
            assert forall|i: int| 0 <= i < rows.len() implies #[trigger] rows@[i]@[j] == 0 by {
                assert(row_of_polys(rows@[i]@, polys@, n as int));
                let (a, t, u) = choose|a: int, t: int, u: int|
                    0 <= a < polys@.len() && 0 <= t < polys@[a].len() && 0 <= u < polys@[a].len() && nonconstant(
                        #[trigger] polys@[a]@[t]@) && nonconstant(#[trigger] polys@[a]@[u]@) && is_difference(
                        rows@[i]@,
                        polys@[a]@[t]@,
                        polys@[a]@[u]@,
                        n as int,
                    );
                assert(polys@[a]@[t]@[j] == polys@[a]@[u]@[j]);
            }
        }
    }
    // The sets of variables that the equations link.
    let (mut link, Ghost(rep), Ghost(dist)) = link_sets(n, &rows);
    let mut weights: Vec<u64> = Vec::with_capacity(n);
    let mut i: usize = 0;
    while i < n
        invariant
            i <= n,
            weights.len() == i,
            forall|k: int| 0 <= k < i ==> #[trigger] weights@[k] == 1,
        decreases n - i,
    {
        weights.push(1);
        i += 1;
    }
    let ghost mut V: Seq<int> = Seq::new(n as nat, |k: int| 1int);
    let mut c: usize = 0;
    while c < n
        invariant
            c <= n,
            link.len() == n,
            forest(link@, rep, dist),
            rows_linked(rows@, rep, rows.len() as int),
            finest(rows@, rep, rows.len() as int),
            row_views(rows@) == diff_rows(polys@, n as int, polys.len() as int),
            forall|c2: int, vars2: Seq<usize>|
                0 <= c2 < c && #[trigger] set_vars(rep, c2, vars2, n as int) && vars2.len() > 0 ==> set_weights(
                    rows@,
                    vars2,
                    weights@,
                ),
            forall|i: int| 0 <= i < rows.len() ==> (#[trigger] rows@[i]).len() == n,
            weights.len() == n,
            V.len() == n,
            forall|k: int| 0 <= k < n ==> #[trigger] V[k] > 0,
            word_weights(weights@, V),
            forall|i: int, j: int|
                0 <= i < rows.len() && 0 <= j < n && #[trigger] rows@[i]@[j] != 0 && rep[j] < c ==> dot(
                    rows@[i]@,
                    V,
                    n as int,
                ) == 0,
            rows.len() == 0 ==> weights@ == Seq::new(n as nat, |k: int| 1u64),
            single_terms(polys@, polys.len() as int) ==> rows.len() == 0,
            forall|k: int| 0 <= k < n ==> #[trigger] weights@[k] > 0,
            alone(rows@, rep, rows.len() as int),
            forall|j: int| 0 <= j < n && untouched(rows@, j, rows.len() as int) ==> #[trigger] weights@[j] == 1,
            forall|j: int| 0 <= j < n && #[trigger] unlinked(polys@, j) ==> untouched(rows@, j, rows.len() as int),
        decreases n - c,
    {
        if root(&mut link, c, Ghost(rep), Ghost(dist)) != c {
            proof {
                assert forall|i: int, j: int|
                    0 <= i < rows.len() && 0 <= j < n && #[trigger] rows@[i]@[j] != 0 && rep[j] < c + 1 implies dot(
                        rows@[i]@,
                        V,
                        n as int,
                    ) == 0 by {
                    if rep[j] == c {
                        assert(link@[rep[j]] == rep[j]);
                    }
                }
                assert forall|c2: int, vars2: Seq<usize>|
                    0 <= c2 < c + 1 && #[trigger] set_vars(rep, c2, vars2, n as int) && vars2.len() > 0 implies set_weights(
                    rows@,
                    vars2,
                    weights@,
                ) by {
                    if c2 == c {
                        let x = vars2[0] as int;
                        assert(vars2[0] < n && rep[x] == c2);
                        assert(link@[rep[x]] == rep[x]);
                    }
                }
            }
            c += 1;
            continue;
        }
        // The variables of the set.
        let mut vars: Vec<usize> = Vec::new();
        let ghost mem: Seq<bool> = Seq::new(n as nat, |x: int| rep[x] == c);
        let ghost mut at: Seq<int> = seq![0int];
        let mut x: usize = 0;
        while x < n
            invariant
                x <= n,
                link.len() == n,
                forest(link@, rep, dist),
                mem == Seq::new(n as nat, |y: int| rep[y] == c),
                at.len() == x + 1,
                at[0] == 0,
                at[x as int] == vars.len(),
                forall|y: int| 0 <= y < x && #[trigger] mem[y] ==> 0 <= at[y] < vars.len() && vars@[at[y]] == y && at[y + 1]
                    == at[y] + 1,
                forall|y: int| 0 <= y < x && !#[trigger] mem[y] ==> at[y + 1] == at[y],
                forall|q: int| 0 <= q < vars.len() ==> #[trigger] vars@[q] < x && mem[vars@[q] as int],
                forall|q: int, r: int| 0 <= q < r < vars.len() ==> vars@[q] < vars@[r],
            decreases n - x,
        {
            if root(&mut link, x, Ghost(rep), Ghost(dist)) == c {
                vars.push(x);
            }
            proof {
                at = at.push(vars.len() as int);
            }
            x += 1;
        }
        assert(listing(vars@, mem, at, n as int));
        assert(set_vars(rep, c as int, vars@, n as int)) by {
            assert forall|x: int| 0 <= x < n && rep[x] == c implies exists|q: int|
                0 <= q < vars.len() && #[trigger] vars@[q] == x by {
                assert(mem[x]);
                assert(vars@[at[x]] == x);
            }
        }
        // The equations on them.
        let mut eqs: Vec<Vec<i128>> = Vec::new();
        proof {
            lemma_class_eqs_step(rows@, vars@, 0);
            lemma_row_views_empty();
        }
        let mut r: usize = 0;
        while r < rows.len()
            invariant
                r <= rows.len(),
                row_views(eqs@) == class_eqs(rows@, vars@, r as int),
                forall|i: int| 0 <= i < rows.len() ==> (#[trigger] rows@[i]).len() == n,
                link.len() == n,
                forest(link@, rep, dist),
                listing(vars@, mem, at, n as int),
                mem == Seq::new(n as nat, |y: int| rep[y] == c),
                forall|q: int| 0 <= q < eqs.len() ==> (#[trigger] eqs@[q]).len() == vars.len(),
                forall|i: int, j: int|
                    0 <= i < r && 0 <= j < n && #[trigger] rows@[i]@[j] != 0 && rep[j] == c ==> exists|q: int|
                        0 <= q < eqs.len() && #[trigger] eqs@[q]@ == projection(rows@[i]@, vars@),
                rows.len() == 0 ==> eqs.len() == 0,
                (forall|q: int| 0 <= q < vars.len() ==> #[trigger] untouched(rows@, vars@[q] as int, rows.len() as int))
                    ==> eqs.len() == 0,
            decreases rows.len() - r,
        {
            let row = &rows[r];
            let ghost eb = eqs@;
            proof {
                lemma_class_eqs_step(rows@, vars@, r as int);
            }
            let mut any = false;
            let mut k: usize = 0;
            while k < vars.len()
                invariant
                    k <= vars.len(),
                    row.len() == n,
                    listing(vars@, mem, at, n as int),
                    any == exists|q: int| 0 <= q < k && #[trigger] row@[vars@[q] as int] != 0,
                decreases vars.len() - k,
            {
                if row[vars[k]] != 0 {
                    any = true;
                }
                k += 1;
            }
            if any {
                let mut proj: Vec<i128> = Vec::with_capacity(vars.len());
                let mut k: usize = 0;
                while k < vars.len()
                    invariant
                        k <= vars.len(),
                        row.len() == n,
                        listing(vars@, mem, at, n as int),
                        proj.len() == k,
                        forall|q: int| 0 <= q < k ==> #[trigger] proj@[q] == row@[vars@[q] as int],
                    decreases vars.len() - k,
                {
                    proj.push(row[vars[k]]);
                    k += 1;
                }
                assert(proj@ =~= projection(row@, vars@));
                proof {
                    lemma_row_views_push(eb, proj);
                }
                eqs.push(proj);
                proof {
                    let q = choose|q: int| 0 <= q < vars.len() && #[trigger] row@[vars@[q] as int] != 0;
                    assert(rows@[r as int]@[vars@[q] as int] != 0);
                    assert(!untouched(rows@, vars@[q] as int, rows.len() as int));
                }
            }
            proof {
                assert forall|i: int, j: int|
                    0 <= i < r + 1 && 0 <= j < n && #[trigger] rows@[i]@[j] != 0 && rep[j] == c implies exists|q: int|
                        0 <= q < eqs.len() && #[trigger] eqs@[q]@ == projection(rows@[i]@, vars@) by {
                    if i == r {
                        assert(rows@[i] == *row);
                        assert(mem[j]);
                        let q0 = at[j];
                        assert(row@[vars@[q0] as int] != 0);
                        assert(any);
                        assert(eqs@[eqs.len() - 1]@ == projection(rows@[i]@, vars@));
                    } else {
                        let q = choose|q: int| 0 <= q < eb.len() && #[trigger] eb[q]@ == projection(rows@[i]@, vars@);
                        assert(eqs@[q] == eb[q]);
                    }
                }
            }
            r += 1;
        }
        if eqs.len() == 0 {
            proof {
                assert forall|i: int, j: int|
                    0 <= i < rows.len() && 0 <= j < n && #[trigger] rows@[i]@[j] != 0 && rep[j] < c + 1 implies dot(
                        rows@[i]@,
                        V,
                        n as int,
                    ) == 0 by {
                    if rep[j] == c {
                        let q = choose|q: int| 0 <= q < eqs.len() && #[trigger] eqs@[q]@ == projection(rows@[i]@, vars@);
                    }
                }
                assert forall|c2: int, vars2: Seq<usize>|
                    0 <= c2 < c + 1 && #[trigger] set_vars(rep, c2, vars2, n as int) && vars2.len() > 0 implies set_weights(
                    rows@,
                    vars2,
                    weights@,
                ) by {
                    if c2 == c {
                        lemma_set_vars_unique(rep, c as int, vars2, vars@, n as int);
                        assert(row_views(eqs@) == class_eqs(rows@, vars2, rows.len() as int));
                    }
                }
            }
            c += 1;
            continue;
        }
        let ghost eqs_v = eqs@;
        proof {
            assert forall|j: int| 0 <= j < n && untouched(rows@, j, rows.len() as int) implies !mem[j] by {
                if mem[j] {
                    assert(untouched(rows@, j, rows.len() as int));
                    assert(rep[j] == j);
                    assert forall|q: int| 0 <= q < vars.len() implies #[trigger] untouched(rows@, vars@[q] as int, rows.len() as int) by {
                        assert(mem[vars@[q] as int]);
                        assert(vars@[q] as int == j);
                    }
                }
            }
        }
        let ghost W0 = weights@;
        assert(forall|c2: int, vars2: Seq<usize>|
            0 <= c2 < c && #[trigger] set_vars(rep, c2, vars2, n as int) && vars2.len() > 0 ==> set_weights(
                rows@,
                vars2,
                W0,
            ));
        let nv = vars.len();
        let ws = match linked_weights(eqs, nv) {
            Some(ws) => ws,
            None => {
                proof {
                    if eqs_v.len() <= 1 || growth(max_entry(eqs_v, eqs_v.len() as int, nv as int), nv as nat) <= i128::MAX {
                        let (e, piv, fr, free) = choose|e: Seq<Vec<i128>>, piv: Seq<usize>, fr: Seq<bool>, free: Seq<usize>|
                            #[trigger] outcome(eqs_v, nv as int, e, piv, fr, free, held_words(None));
                        assert(outcome(eqs_v, nv as int, e, piv, fr, free, None));
                    }
                    assert(failing_set(polys@, n as int, rows@, rep, c as int, vars@, eqs_v));
                }
                return None;
            },
        };
        let ghost vc = choose|v: Seq<int>| #[trigger] positive_solution(eqs_v, v, nv as int) && word_weights(ws@, v);
        assert(exists|e: Seq<Vec<i128>>, piv: Seq<usize>, fr: Seq<bool>, free: Seq<usize>|
            #[trigger] outcome(eqs_v, nv as int, e, piv, fr, free, Some(ws@)));
        let ghost V0 = V;
        let mut k: usize = 0;
        while k < nv
            invariant
                k <= nv,
                nv == vars.len(),
                ws.len() == nv,
                listing(vars@, mem, at, n as int),
                positive_solution(eqs_v, vc, nv as int),
                word_weights(ws@, vc),
                weights.len() == n,
                V.len() == n,
                V0.len() == n,
                forall|y: int| 0 <= y < n ==> #[trigger] V[y] > 0,
                forall|y: int| 0 <= y < n ==> #[trigger] weights@[y] > 0,
                forall|y: int| 0 <= y < nv ==> #[trigger] ws@[y] > 0,
                word_weights(weights@, V),
                forall|q: int| 0 <= q < k ==> #[trigger] V[vars@[q] as int] == vc[q],
                forall|y: int| 0 <= y < n && (forall|q: int| 0 <= q < k ==> vars@[q] != y) ==> #[trigger] V[y] == V0[y],
                W0.len() == n,
                forall|y: int| 0 <= y < n && !mem[y] ==> #[trigger] weights@[y] == W0[y],
            decreases nv - k,
        {
            weights.set(vars[k], ws[k]);
            proof {
                let y = vars@[k as int] as int;
                V = V.update(y, vc[k as int]);
                assert forall|q: int| 0 <= q < k + 1 implies #[trigger] V[vars@[q] as int] == vc[q] by {
                    if q < k {
                        assert(vars@[q] < vars@[k as int]);
                    }
                }
                assert(word_weights(weights@, V)) by {
                    assert forall|z: int| 0 <= z < weights.len() implies #[trigger] weights@[z] == (V[z] as u64) by {
                        if z == y {
                            assert(ws@[k as int] == (vc[k as int] as u64));
                        }
                    }
                }
                assert forall|z: int| 0 <= z < n && (forall|q: int| 0 <= q < k + 1 ==> vars@[q] != z) implies #[trigger] V[z]
                    == V0[z] by {
                    assert(vars@[k as int] != z);
                }
            }
            k += 1;
        }
        proof {
            assert forall|i: int, j: int|
                0 <= i < rows.len() && 0 <= j < n && #[trigger] rows@[i]@[j] != 0 && rep[j] < c + 1 implies dot(
                    rows@[i]@,
                    V,
                    n as int,
                ) == 0 by {
                let row = rows@[i]@;
                if rep[j] == c {
                    assert forall|x: int| 0 <= x < n && !mem[x] implies row[x] == 0 by {
                        if row[x] != 0 {
                            assert(rep[x] == rep[j]);
                        }
                    }
                    lemma_dot_project(row, V, vc, vars@, mem, at, n as int, n as int);
                    let q = choose|q: int| 0 <= q < eqs_v.len() && #[trigger] eqs_v[q]@ == projection(rows@[i]@, vars@);
                    assert(dot(eqs_v[q]@, vc, vc.len() as int) == 0);
                } else {
                    assert forall|x: int| 0 <= x < n implies row[x] == 0 || V[x] == V0[x] by {
                        if row[x] != 0 {
                            assert(rep[x] == rep[j]);
                            assert forall|q: int| 0 <= q < nv implies vars@[q] != x by {
                                assert(mem[vars@[q] as int]);
                            }
                        }
                    }
                    lemma_dot_agree(row, V, V0, n as int);
                }
            }
            assert(project_w(weights@, vars@) =~= ws@) by {
                assert forall|q: int| 0 <= q < nv implies #[trigger] weights@[vars@[q] as int] == ws@[q] by {
                    assert(vars@[q] < n);
                    assert(weights@[vars@[q] as int] == (V[vars@[q] as int] as u64));
                    assert(ws@[q] == (vc[q] as u64));
                }
            }
            assert forall|c2: int, vars2: Seq<usize>|
                0 <= c2 < c + 1 && #[trigger] set_vars(rep, c2, vars2, n as int) && vars2.len() > 0 implies set_weights(
                rows@,
                vars2,
                weights@,
            ) by {
                if c2 == c {
                    lemma_set_vars_unique(rep, c as int, vars2, vars@, n as int);
                    assert(row_views(eqs_v) == class_eqs(rows@, vars2, rows.len() as int));
                    let (e, piv, fr, free) = choose|e: Seq<Vec<i128>>, piv: Seq<usize>, fr: Seq<bool>, free: Seq<usize>|
                        #[trigger] outcome(eqs_v, nv as int, e, piv, fr, free, Some(ws@));
                    assert(outcome(eqs_v, vars2.len() as int, e, piv, fr, free, Some(project_w(weights@, vars2))));
                } else {
                    assert(set_weights(rows@, vars2, W0));
                    assert(project_w(weights@, vars2) =~= project_w(W0, vars2)) by {
                        assert forall|q: int| 0 <= q < vars2.len() implies #[trigger] weights@[vars2[q] as int] == W0[vars2[q] as int] by {
                            assert(vars2[q] < n && rep[vars2[q] as int] == c2);
                            assert(!mem[vars2[q] as int]);
                        }
                    }
                }
            }
        }
        c += 1;
    }
    proof {
        assert forall|i: int| 0 <= i < rows.len() implies dot(#[trigger] rows@[i]@, V, V.len() as int) == 0 by {
            assert(nonzero_row(rows@[i]@, n as int));
            let j = choose|j: int| 0 <= j < n && #[trigger] rows@[i]@[j] != 0;
            assert(0 <= rep[j] < n);
        }
        assert(makes_homogeneous(polys@, V, n as int)) by {
            assert forall|a: int, t: int, u: int|
                0 <= a < polys@.len() && 0 <= t < polys@[a].len() && 0 <= u < polys@[a].len() && nonconstant(
                    #[trigger] polys@[a]@[t]@) && nonconstant(#[trigger] polys@[a]@[u]@) implies wdeg_int(
                V,
                polys@[a]@[t]@,
                n as int,
            ) == wdeg_int(V, polys@[a]@[u]@, n as int) by {
                let f = choose|f: Seq<u64>|
                    #[trigger] difference_covered(rows@, polys@[a]@[t]@, f, n as int) && difference_covered(
                        rows@,
                        polys@[a]@[u]@,
                        f,
                        n as int,
                    );
                lemma_covered_level(rows@, polys@[a]@[t]@, f, V, n as int);
                lemma_covered_level(rows@, polys@[a]@[u]@, f, V, n as int);
            }
        }
        assert(linked_sets(rows@, rep, n as int));
        assert forall|c2: int, vars2: Seq<usize>| #[trigger] set_vars(rep, c2, vars2, n as int) && vars2.len() > 0 implies set_weights(
            rows@,
            vars2,
            weights@,
        ) by {
            let x = vars2[0] as int;
            assert(vars2[0] < n && rep[x] == c2);
            assert(0 <= rep[x] < n);
        }
    }
    Some(weights)
}

/// A covered difference vanishes under weights that solve all rows.
proof fn lemma_covered_level(rows: Seq<Vec<i128>>, e: Seq<u64>, f: Seq<u64>, V: Seq<int>, n: int)
    requires
        0 <= n,
        V.len() == n,
        difference_covered(rows, e, f, n),
        solves(rows, V),
    ensures
        wdeg_int(V, e, n) == wdeg_int(V, f, n),
{
    if forall|k: int| 0 <= k < n ==> #[trigger] e[k] == f[k] {
        lemma_wdeg_ext(V, e, f, n);
    } else {
        let i = choose|i: int| 0 <= i < rows.len() && is_difference(#[trigger] rows[i]@, e, f, n);
        assert(dot(rows[i]@, V, n) == 0);
        lemma_dot_difference(rows[i]@, e, f, V, n);
    }
}

} // verus!
