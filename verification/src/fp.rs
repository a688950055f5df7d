//! Linear algebra over prime fields, for the maps between finite fields:
//! embeddings, restrictions to subfields and changes of basis.
//!
//! Elements of finite fields are handled through their coordinates in the
//! power basis of the generator. This module holds the word-sized case:
//! characteristics below `2^64`, with `u64` arithmetic.

use vstd::prelude::*;
use vstd::arithmetic::div_mod::*;
use crate::nmod::{Nmod, lemma_prime_units};
use crate::perms::is_prime;
use crate::weights::listing;

verus! {

// ----- matrices over the integers, read modulo p ------------------------------

/// `a[0] x[0] + ... + a[k-1] x[k-1]`.
pub open spec fn dotz(a: Seq<int>, x: Seq<int>, k: int) -> int
    decreases k,
{
    if k <= 0 {
        0
    } else {
        dotz(a, x, k - 1) + a[k - 1] * x[k - 1]
    }
}

/// Column `j` of the matrix `m` (given by its rows).
pub open spec fn col(m: Seq<Seq<int>>, j: int) -> Seq<int> {
    Seq::new(m.len(), |i: int| m[i][j])
}

/// The word entries as integers.
pub open spec fn ints(v: Seq<u64>) -> Seq<int> {
    v.map_values(|x: u64| x as int)
}

/// The rows of words as rows of integers.
pub open spec fn int_rows(m: Seq<Vec<u64>>) -> Seq<Seq<int>> {
    m.map_values(|r: Vec<u64>| ints(r@))
}

/// `b` times `a` is the identity modulo `p`: `b` is a left inverse of the
/// `n` columns of `a` (with `n` rows of `b`).
pub open spec fn left_inverse_of(b: Seq<Seq<int>>, a: Seq<Seq<int>>, n: int, p: int) -> bool {
    forall|i: int, j: int|
        0 <= i < b.len() && 0 <= j < n ==> #[trigger] (dotz(b[i], col(a, j), a.len() as int) % p) == if i == j {
            1int
        } else {
            0
        }
}

/// `a x = b` modulo `p`.
pub open spec fn solves_mod(a: Seq<Seq<int>>, x: Seq<int>, b: Seq<int>, p: int) -> bool {
    forall|i: int| 0 <= i < a.len() ==> #[trigger] (dotz(a[i], x, x.len() as int) % p) == b[i] % p
}

/// Rows that agree modulo `p` with `u a + v b` have that `dotz` modulo `p`.
proof fn lemma_dotz_combo(a2: Seq<int>, a: Seq<int>, b: Seq<int>, x: Seq<int>, u: int, v: int, p: int, k: int)
    requires
        p > 0,
        0 <= k,
        forall|j: int| 0 <= j < k ==> #[trigger] (a2[j] % p) == (u * a[j] + v * b[j]) % p,
    ensures
        dotz(a2, x, k) % p == (u * dotz(a, x, k) + v * dotz(b, x, k)) % p,
    decreases k,
{
    if k > 0 {
        lemma_dotz_combo(a2, a, b, x, u, v, p, k - 1);
        let (d2, da, db) = (dotz(a2, x, k - 1), dotz(a, x, k - 1), dotz(b, x, k - 1));
        let (e2, ea, eb, xj) = (a2[k - 1], a[k - 1], b[k - 1], x[k - 1]);
        assert(e2 % p == (u * ea + v * eb) % p);
        // (d2 + e2 x) = (u da + v db) + (u ea + v eb) x  (mod p)
        lemma_add_mod_noop(d2, e2 * xj, p);
        lemma_mul_mod_noop_left(e2, xj, p);
        lemma_mul_mod_noop_left(u * ea + v * eb, xj, p);
        lemma_add_mod_noop(u * da + v * db, (u * ea + v * eb) * xj, p);
        assert((u * ea + v * eb) * xj == u * (ea * xj) + v * (eb * xj)) by (nonlinear_arith);
        assert(u * (da + ea * xj) == u * da + u * (ea * xj)) by (nonlinear_arith);
        assert(v * (db + eb * xj) == v * db + v * (eb * xj)) by (nonlinear_arith);
    }
}

/// The `i`-th unit row picks an entry.
proof fn lemma_dotz_unit(e: Seq<int>, x: Seq<int>, i: int, k: int)
    requires
        0 <= k,
        forall|j: int| 0 <= j < k ==> #[trigger] e[j] == if j == i { 1int } else { 0 },
    ensures
        dotz(e, x, k) == if 0 <= i < k {
            x[i]
        } else {
            0
        },
    decreases k,
{
    if k > 0 {
        lemma_dotz_unit(e, x, i, k - 1);
    }
}

/// `dotz` only reads the first `k` entries of both.
proof fn lemma_dotz_ext(a: Seq<int>, b: Seq<int>, x: Seq<int>, y: Seq<int>, k: int)
    requires
        0 <= k,
        forall|j: int| 0 <= j < k ==> a[j] == b[j] && x[j] == y[j],
    ensures
        dotz(a, x, k) == dotz(b, y, k),
    decreases k,
{
    if k > 0 {
        lemma_dotz_ext(a, b, x, y, k - 1);
    }
}

// ----- square matrices: one-sided inverses are two-sided ----------------------

/// The vectors of `n` residues modulo `p`.
pub open spec fn residue_vectors(n: nat, p: int) -> Set<Seq<int>> {
    Set::new(|x: Seq<int>| x.len() == n && forall|k: int| 0 <= k < n ==> 0 <= #[trigger] x[k] < p)
}

/// `a x` modulo `p`, for `n` rows.
pub open spec fn apply_mod(a: Seq<Seq<int>>, x: Seq<int>, n: int, p: int) -> Seq<int> {
    Seq::new(n as nat, |i: int| dotz(a[i], x, n) % p)
}

/// There are finitely many vectors of residues.
proof fn lemma_residue_vectors_finite(n: nat, p: int)
    requires
        p >= 1,
    ensures
        residue_vectors(n, p).finite(),
    decreases n,
{
    if n == 0 {
        assert forall|x: Seq<int>| #[trigger] residue_vectors(0, p).contains(x) implies set![Seq::<int>::empty()].contains(x) by {
            assert(x =~= Seq::<int>::empty());
        }
        vstd::set_lib::lemma_len_subset(residue_vectors(0, p), set![Seq::<int>::empty()]);
    } else {
        lemma_residue_vectors_finite((n - 1) as nat, p);
        let prev = residue_vectors((n - 1) as nat, p);
        let digits = vstd::set_lib::set_int_range(0, p);
        vstd::set_lib::lemma_int_range(0, p);
        let ext = |v: Seq<int>| digits.map(|c: int| v.push(c));
        let big = prev.map(ext).flatten();
        prev.lemma_map_finite(ext);
        assert forall|s: Set<Seq<int>>| prev.map(ext).contains(s) implies #[trigger] s.finite() by {
            let v = choose|v: Seq<int>| prev.contains(v) && ext(v) == s;
            digits.lemma_map_finite(|c: int| v.push(c));
        }
        prev.map(ext).lemma_flatten_finite();
        assert forall|x: Seq<int>| #[trigger] residue_vectors(n, p).contains(x) implies big.contains(x) by {
            let v = x.drop_last();
            let c = x.last();
            assert(prev.contains(v));
            assert(digits.contains(c));
            assert(v.push(c) =~= x);
            assert(ext(v).contains(x));
            assert(prev.map(ext).contains(ext(v)));
        }
        vstd::set_lib::lemma_len_subset(residue_vectors(n, p), big);
    }
}

/// With a left inverse `l`, `a x` (mod `p`) gives back `x`: `l (a x) = x`.
proof fn lemma_left_inverse_recovers(l: Seq<Seq<int>>, a: Seq<Seq<int>>, x: Seq<int>, n: int, p: int, i: int)
    requires
        p >= 2,
        0 <= i < n,
        a.len() == n,
        l.len() == n,
        forall|k: int| 0 <= k < n ==> (#[trigger] a[k]).len() == n,
        forall|k: int| 0 <= k < n ==> (#[trigger] l[k]).len() == n,
        left_inverse_of(l, a, n, p),
        residue_vectors(n as nat, p).contains(x),
    ensures
        dotz(l[i], apply_mod(a, x, n, p), n) % p == x[i],
{
    let y = apply_mod(a, x, n, p);
    let ax = Seq::new(n as nat, |k: int| dotz(a[k], x, n));
    assert forall|k: int| 0 <= k < n implies #[trigger] (y[k] % p) == ax[k] % p by {
        lemma_mod_twice(ax[k], p);
    }
    lemma_dotz_congr(l[i], y, ax, p, n);
    lemma_dotz_assoc(l[i], a, x, n, n);
    let u = Seq::new(n as nat, |j: int| dotz(l[i], col(a, j), n));
    let e = Seq::new(n as nat, |j: int| if j == i { 1int } else { 0 });
    assert forall|j: int| 0 <= j < n implies #[trigger] (u[j] % p) == e[j] % p by {
        assert(dotz(l[i], col(a, j), a.len() as int) % p == if i == j { 1int } else { 0 });
        lemma_small_mod(1, p as nat);
        lemma_small_mod(0, p as nat);
    }
    lemma_dotz_congr_left(u, e, x, p, n);
    lemma_dotz_unit(e, x, i, n);
    lemma_small_mod(x[i] as nat, p as nat);
}

/// For square matrices modulo `p`, a left inverse is a right inverse too:
/// `l a = 1` gives `a l = 1`. (The map `x -> a x` of the finitely many
/// residue vectors is one-to-one, so onto.)
pub proof fn lemma_left_inverse_is_right(l: Seq<Seq<int>>, a: Seq<Seq<int>>, n: int, p: int)
    requires
        p >= 2,
        n >= 0,
        a.len() == n,
        l.len() == n,
        forall|k: int| 0 <= k < n ==> (#[trigger] a[k]).len() == n,
        forall|k: int| 0 <= k < n ==> (#[trigger] l[k]).len() == n,
        left_inverse_of(l, a, n, p),
    ensures
        left_inverse_of(a, l, n, p),
{
    let v = residue_vectors(n as nat, p);
    let f = |x: Seq<int>| apply_mod(a, x, n, p);
    lemma_residue_vectors_finite(n as nat, p);
    assert(vstd::relations::injective_on(f, v)) by {
        assert forall|x: Seq<int>, y: Seq<int>| v.contains(x) && v.contains(y) && #[trigger] f(x) == #[trigger] f(y) implies x == y by {
            assert forall|i: int| 0 <= i < n implies x[i] == y[i] by {
                lemma_left_inverse_recovers(l, a, x, n, p, i);
                lemma_left_inverse_recovers(l, a, y, n, p, i);
            }
            assert(x =~= y);
        }
    }
    let img = v.map(f);
    vstd::set_lib::lemma_map_size(v, img, f);
    assert(img.subset_of(v)) by {
        assert forall|y: Seq<int>| #[trigger] img.contains(y) implies v.contains(y) by {
            let x = choose|x: Seq<int>| v.contains(x) && f(x) == y;
            assert forall|k: int| 0 <= k < n implies 0 <= #[trigger] y[k] < p by {
                lemma_mod_bound(dotz(a[k], x, n), p);
            }
        }
    }
    vstd::set_lib::lemma_subset_equality(img, v);
    assert forall|i: int, j: int| 0 <= i < a.len() && 0 <= j < n implies #[trigger] (dotz(a[i], col(l, j), l.len() as int) % p)
        == if i == j { 1int } else { 0 } by {
        // The unit vector e_j is a x for some x, which is column j of l.
        let e = Seq::new(n as nat, |k: int| if k == j { 1int } else { 0 });
        assert(v.contains(e));
        assert(img.contains(e));
        let x = choose|x: Seq<int>| v.contains(x) && f(x) == e;
        assert forall|k: int| 0 <= k < n implies #[trigger] (x[k] % p) == col(l, j)[k] % p by {
            lemma_left_inverse_recovers(l, a, x, n, p, k);
            lemma_dotz_comm(l[k], e, n);
            lemma_dotz_unit(e, l[k], j, n);
            lemma_small_mod(x[k] as nat, p as nat);
        }
        lemma_dotz_congr(a[i], x, col(l, j), p, n);
        assert(f(x)[i] == dotz(a[i], x, n) % p);
        lemma_small_mod(1, p as nat);
        lemma_small_mod(0, p as nat);
    }
}

// ----- dense matrices -------------------------------------------------------

/// A dense matrix over `F_p`, stored by rows.
#[derive(Clone)]
pub struct Dense {
    rows: usize,
    cols: usize,
    a: Vec<Vec<u64>>,
}

impl Dense {
    /// The entries, by rows.
    pub closed spec fn matrix(&self) -> Seq<Seq<int>> {
        int_rows(self.a@)
    }

    /// The number of rows and columns.
    pub closed spec fn shape(&self) -> (int, int) {
        (self.rows as int, self.cols as int)
    }

    /// The shape is what it says and all entries are residues modulo `p`.
    pub closed spec fn wf(&self, p: int) -> bool {
        &&& self.a.len() == self.rows
        &&& forall|i: int| 0 <= i < self.rows ==> (#[trigger] self.a@[i]).len() == self.cols
        &&& forall|i: int, j: int| 0 <= i < self.rows && 0 <= j < self.cols ==> #[trigger] self.a@[i]@[j] < p
    }

    pub proof fn lemma_matrix_shape(&self, p: int)
        requires
            self.wf(p),
        ensures
            self.matrix().len() == self.shape().0,
            forall|i: int| 0 <= i < self.shape().0 ==> (#[trigger] self.matrix()[i]).len() == self.shape().1,
            forall|i: int, j: int| 0 <= i < self.shape().0 && 0 <= j < self.shape().1 ==> 0 <= #[trigger] self.matrix()[i][j] < p,
    {
    }

    /// The matrix with the given columns, each cut or padded with zeros to
    /// `rows` entries.
    pub fn from_columns(cols: &[Vec<u64>], rows: usize, p: u64) -> (d: Dense)
        requires
            p >= 1,
            forall|j: int, i: int| 0 <= j < cols.len() && 0 <= i < cols@[j].len() ==> #[trigger] cols@[j]@[i] < p,
        ensures
            d.wf(p as int),
            d.shape() == (rows as int, cols.len() as int),
            forall|i: int, j: int| 0 <= i < rows && 0 <= j < cols.len() ==> #[trigger] d.matrix()[i][j] == if i
                < cols@[j].len() {
                cols@[j]@[i] as int
            } else {
                0
            },
    {
        let mut a: Vec<Vec<u64>> = Vec::with_capacity(rows);
        let mut i: usize = 0;
        while i < rows
            invariant
                i <= rows,
                a.len() == i,
                forall|j: int, x: int| 0 <= j < cols.len() && 0 <= x < cols@[j].len() ==> #[trigger] cols@[j]@[x] < p,
                forall|r: int| 0 <= r < i ==> (#[trigger] a@[r]).len() == cols.len(),
                forall|r: int, j: int| 0 <= r < i && 0 <= j < cols.len() ==> #[trigger] a@[r]@[j] == if r < cols@[j].len() {
                    cols@[j]@[r]
                } else {
                    0
                },
                p >= 1,
            decreases rows - i,
        {
            let mut row: Vec<u64> = Vec::with_capacity(cols.len());
            let mut j: usize = 0;
            while j < cols.len()
                invariant
                    j <= cols.len(),
                    row.len() == j,
                    forall|t: int| 0 <= t < j ==> #[trigger] row@[t] == if i < cols@[t].len() {
                        cols@[t]@[i as int]
                    } else {
                        0
                    },
                decreases cols.len() - j,
            {
                row.push(if i < cols[j].len() { cols[j][i] } else { 0 });
                j += 1;
            }
            a.push(row);
            i += 1;
        }
        Dense { rows, cols: cols.len(), a }
    }
}

// ----- Gauss-Jordan elimination -----------------------------------------------

/// The row `row` of `[L | R]` (with `n` columns each) has `R a = L` modulo
/// `p`: its right half times `a` is its left half.
pub open spec fn row_ok(row: Seq<u64>, a: Seq<Seq<int>>, p: int, n: int) -> bool {
    forall|j: int| 0 <= j < n ==> #[trigger] (dotz(ints(row).subrange(n, 2 * n), col(a, j), n) % p) == row[j] as int
}

/// The working rows of Gauss-Jordan elimination on `[a | 1]` after `c`
/// columns: residues, each row with `R a = L`, and the first `c` columns of
/// `L` those of the identity.
pub open spec fn gauss_jordan(m: Seq<Vec<u64>>, a: Seq<Seq<int>>, p: int, n: int, c: int) -> bool {
    &&& m.len() == n
    &&& a.len() == n
    &&& forall|i: int| 0 <= i < n ==> (#[trigger] m[i]).len() == 2 * n
    &&& forall|i: int, k: int| 0 <= i < n && 0 <= k < 2 * n ==> #[trigger] m[i]@[k] < p
    &&& forall|i: int| 0 <= i < n ==> row_ok(#[trigger] m[i]@, a, p, n)
    &&& forall|i: int, k: int| 0 <= i < n && 0 <= k < c ==> #[trigger] m[i]@[k] == if i == k { 1u64 } else { 0 }
}

/// Each entry from `from` on times `s`.
fn scale_row(f: &Nmod, row: &mut Vec<u64>, from: usize, s: u64)
    requires
        s < f.n,
        forall|k: int| 0 <= k < old(row).len() ==> #[trigger] old(row)@[k] < f.n,
    ensures
        final(row).len() == old(row).len(),
        forall|k: int| 0 <= k < old(row).len() ==> #[trigger] final(row)@[k] == if k >= from {
            ((old(row)@[k] * s) % (f.n as int)) as u64
        } else {
            old(row)@[k]
        },
        forall|k: int| 0 <= k < old(row).len() ==> #[trigger] final(row)@[k] < f.n,
{
    let mut k = from;
    while k < row.len()
        invariant
            s < f.n,
            from <= k,
            row.len() == old(row).len(),
            forall|t: int| 0 <= t < row.len() ==> #[trigger] row@[t] < f.n,
            forall|t: int| 0 <= t < row.len() ==> #[trigger] row@[t] == if from <= t < k {
                ((old(row)@[t] * s) % (f.n as int)) as u64
            } else {
                old(row)@[t]
            },
        decreases row.len() - k,
    {
        let x = f.mul(row[k], s);
        row.set(k, x);
        k += 1;
    }
}

/// Subtract `t` times `piv` from the entries from `from` on (where `piv`
/// is not zero).
fn eliminate_row(f: &Nmod, row: &mut Vec<u64>, piv: &Vec<u64>, from: usize, t: u64)
    requires
        t < f.n,
        old(row).len() == piv.len(),
        forall|k: int| 0 <= k < old(row).len() ==> #[trigger] old(row)@[k] < f.n,
        forall|k: int| 0 <= k < piv.len() ==> #[trigger] piv@[k] < f.n,
    ensures
        final(row).len() == old(row).len(),
        forall|k: int| 0 <= k < old(row).len() ==> #[trigger] final(row)@[k] == if k >= from && piv@[k] != 0 {
            ((old(row)@[k] - (t * piv@[k]) % (f.n as int)) % (f.n as int)) as u64
        } else {
            old(row)@[k]
        },
        forall|k: int| 0 <= k < old(row).len() ==> #[trigger] final(row)@[k] < f.n,
{
    let mut k = from;
    while k < row.len()
        invariant
            t < f.n,
            from <= k,
            row.len() == old(row).len(),
            row.len() == piv.len(),
            forall|x: int| 0 <= x < piv.len() ==> #[trigger] piv@[x] < f.n,
            forall|x: int| 0 <= x < row.len() ==> #[trigger] row@[x] < f.n,
            forall|x: int| 0 <= x < row.len() ==> #[trigger] row@[x] == if from <= x < k && piv@[x] != 0 {
                ((old(row)@[x] - (t * piv@[x]) % (f.n as int)) % (f.n as int)) as u64
            } else {
                old(row)@[x]
            },
        decreases row.len() - k,
    {
        if piv[k] != 0 {
            let y = f.mul(t, piv[k]);
            let x = f.sub(row[k], y);
            row.set(k, x);
        }
        k += 1;
    }
}

/// Scaling a row keeps `R a = L` for it.
proof fn lemma_scaled_row(old_row: Seq<u64>, row: Seq<u64>, a: Seq<Seq<int>>, p: int, n: int, s: int)
    requires
        p >= 1,
        0 <= n,
        old_row.len() == 2 * n,
        row.len() == 2 * n,
        row_ok(old_row, a, p, n),
        forall|k: int| 0 <= k < 2 * n ==> #[trigger] (row[k] as int) == ((old_row[k] * s) % p),
    ensures
        row_ok(row, a, p, n),
{
    let (ro, rn) = (ints(old_row).subrange(n, 2 * n), ints(row).subrange(n, 2 * n));
    assert forall|j: int| 0 <= j < n implies #[trigger] (dotz(rn, col(a, j), n) % p) == row[j] as int by {
        assert forall|k: int| 0 <= k < n implies #[trigger] (rn[k] % p) == (s * ro[k] + 0 * ro[k]) % p by {
            assert(rn[k] == row[n + k] as int);
            lemma_mod_twice(old_row[n + k] * s, p);
            assert(old_row[n + k] * s == s * ro[k] + 0 * ro[k]) by (nonlinear_arith)
                requires
                    ro[k] == old_row[n + k],
            ;
        }
        lemma_dotz_combo(rn, ro, ro, col(a, j), s, 0, p, n);
        let d = dotz(ro, col(a, j), n);
        assert(d % p == old_row[j] as int);
        lemma_mul_mod_noop_right(s, d, p);
        assert(s * d + 0 * d == s * d) by (nonlinear_arith);
        assert(s * (old_row[j] as int) == old_row[j] * s) by (nonlinear_arith);
    }
}

/// Subtracting `t` times a row with `R a = L` from another keeps it.
proof fn lemma_eliminated_row(
    old_row: Seq<u64>,
    piv: Seq<u64>,
    row: Seq<u64>,
    a: Seq<Seq<int>>,
    p: int,
    n: int,
    t: int,
)
    requires
        p >= 1,
        0 <= n,
        old_row.len() == 2 * n,
        piv.len() == 2 * n,
        row.len() == 2 * n,
        row_ok(old_row, a, p, n),
        row_ok(piv, a, p, n),
        forall|k: int| 0 <= k < 2 * n ==> #[trigger] old_row[k] < p,
        forall|k: int| 0 <= k < 2 * n ==> #[trigger] (row[k] as int) == ((old_row[k] - t * piv[k]) % p),
    ensures
        row_ok(row, a, p, n),
{
    let (ro, rp, rn) = (ints(old_row).subrange(n, 2 * n), ints(piv).subrange(n, 2 * n), ints(row).subrange(n, 2 * n));
    assert forall|j: int| 0 <= j < n implies #[trigger] (dotz(rn, col(a, j), n) % p) == row[j] as int by {
        assert forall|k: int| 0 <= k < n implies #[trigger] (rn[k] % p) == (1 * ro[k] + (-t) * rp[k]) % p by {
            assert(rn[k] == row[n + k] as int);
            lemma_mod_twice(old_row[n + k] - t * piv[n + k], p);
            assert(old_row[n + k] - t * piv[n + k] == 1 * ro[k] + (-t) * rp[k]) by (nonlinear_arith)
                requires
                    ro[k] == old_row[n + k],
                    rp[k] == piv[n + k],
            ;
        }
        lemma_dotz_combo(rn, ro, rp, col(a, j), 1, -t, p, n);
        let (d, e) = (dotz(ro, col(a, j), n), dotz(rp, col(a, j), n));
        assert(d % p == old_row[j] as int);
        assert(e % p == piv[j] as int);
        assert(1 * d + (-t) * e == d - t * e) by (nonlinear_arith);
        lemma_sub_mod_noop(d, t * e, p);
        lemma_mul_mod_noop_right(t, e, p);
        lemma_sub_mod_noop(old_row[j] as int, t * piv[j], p);
        lemma_small_mod(old_row[j] as nat, p as nat);
    }
}

impl Dense {
    /// `M v` (over the first columns, as many as `v` has entries).
    pub fn mul_vec(&self, f: &Nmod, v: &[u64]) -> (out: Vec<u64>)
        requires
            self.wf(f.n as int),
            f.n >= 1,
            forall|j: int| 0 <= j < v.len() ==> #[trigger] v@[j] < f.n,
        ensures
            out.len() == self.shape().0,
            forall|i: int| 0 <= i < out.len() ==> #[trigger] out@[i] == dotz(
                self.matrix()[i],
                ints(v@),
                if self.shape().1 < v.len() { self.shape().1 } else { v.len() as int },
            ) % (f.n as int),
    {
        let p = f.n;
        let k = if self.cols < v.len() { self.cols } else { v.len() };
        let mut out: Vec<u64> = Vec::with_capacity(self.rows);
        let mut i: usize = 0;
        while i < self.rows
            invariant
                self.wf(p as int),
                p == f.n,
                p >= 1,
                k <= self.cols,
                k <= v.len(),
                k == (if self.cols < v.len() { self.cols } else { v.len() }),
                forall|j: int| 0 <= j < v.len() ==> #[trigger] v@[j] < p,
                i <= self.rows,
                out.len() == i,
                forall|r: int| 0 <= r < i ==> #[trigger] out@[r] == dotz(self.matrix()[r], ints(v@), k as int) % (p as int),
            decreases self.rows - i,
        {
            let row = &self.a[i];
            let mut s: u64 = 0;
            let mut j: usize = 0;
            proof {
                lemma_small_mod(0, p as nat);
            }
            while j < k
                invariant
                    self.wf(p as int),
                    p == f.n,
                    p >= 1,
                    i < self.rows,
                    *row == self.a@[i as int],
                    k <= self.cols,
                    k <= v.len(),
                    forall|t: int| 0 <= t < v.len() ==> #[trigger] v@[t] < p,
                    j <= k,
                    s < p,
                    s == dotz(self.matrix()[i as int], ints(v@), j as int) % (p as int),
                decreases k - j,
            {
                let (x, y) = (row[j], v[j]);
                let ghost d = dotz(self.matrix()[i as int], ints(v@), j as int);
                assert(self.matrix()[i as int][j as int] == x);
                if x != 0 && y != 0 {
                    let m = f.mul(x, y);
                    proof {
                        lemma_add_mod_noop(d, x * y, p as int);
                        lemma_mod_twice(x * y, p as int);
                        lemma_mod_twice(d, p as int);
                    }
                    s = f.add(s, m);
                } else {
                    assert(x * y == 0) by (nonlinear_arith)
                        requires
                            x == 0 || y == 0,
                    ;
                }
                j += 1;
            }
            out.push(s);
            i += 1;
        }
        out
    }
}

/// The row `[a_i | e_i]` has `R a = L`.
proof fn lemma_start_row(row: Seq<u64>, a: Seq<Seq<int>>, p: int, n: int, i: int)
    requires
        p >= 2,
        0 <= i < n,
        a.len() == n,
        forall|x: int| 0 <= x < n ==> (#[trigger] a[x]).len() == n,
        forall|x: int, y: int| 0 <= x < n && 0 <= y < n ==> 0 <= #[trigger] a[x][y] < p,
        row.len() == 2 * n,
        forall|k: int| 0 <= k < n ==> #[trigger] row[k] as int == a[i][k],
        forall|k: int| 0 <= k < n ==> #[trigger] row[n + k] == if k == i { 1u64 } else { 0 },
    ensures
        row_ok(row, a, p, n),
{
    let r = ints(row).subrange(n, 2 * n);
    assert forall|j: int| 0 <= j < n implies #[trigger] (dotz(r, col(a, j), n) % p) == row[j] as int by {
        assert forall|k: int| 0 <= k < n implies #[trigger] r[k] == if k == i { 1int } else { 0 } by {
            assert(r[k] == row[n + k] as int);
        }
        lemma_dotz_unit(r, col(a, j), i, n);
        lemma_small_mod(a[i][j] as nat, p as nat);
    }
}

impl Dense {
    /// The inverse of a square matrix: `None` if a column has no pivot.
    pub fn inverse(&self, f: &Nmod) -> (r: Option<Dense>)
        requires
            self.wf(f.n as int),
            self.shape().0 == self.shape().1,
            is_prime(f.n as nat),
            2 * self.shape().0 <= usize::MAX,
        ensures
            r matches Some(b) ==> b.wf(f.n as int) && b.shape() == self.shape() && left_inverse_of(
                b.matrix(),
                self.matrix(),
                self.shape().0,
                f.n as int,
            ) && left_inverse_of(self.matrix(), b.matrix(), self.shape().0, f.n as int),
            r is None ==> forall|l: Seq<Seq<int>>| l.len() == self.shape().0 ==> !#[trigger] left_inverse_of(
                l,
                self.matrix(),
                self.shape().0,
                f.n as int,
            ),
    {
        let n = self.rows;
        let p = f.n;
        let w = 2 * n;
        let ghost a = self.matrix();
        let ghost d = 2 * n - 1;
        let ghost ab = Seq::new(
            n as nat,
            |x: int| Seq::new(w as nat, |k: int| if k < n { a[x][k] } else if k - n == x { 1int } else { 0 }),
        );
        // [A | 1]
        let mut m: Vec<Vec<u64>> = Vec::with_capacity(n);
        let mut i: usize = 0;
        while i < n
            invariant
                self.wf(p as int),
                n == self.rows,
                n == self.cols,
                w == 2 * n,
                p == f.n,
                p >= 2,
                a == self.matrix(),
                i <= n,
                m.len() == i,
                forall|x: int| 0 <= x < i ==> (#[trigger] m@[x]).len() == w,
                forall|x: int, k: int| 0 <= x < i && 0 <= k < w ==> #[trigger] m@[x]@[k] < p,
                forall|x: int| 0 <= x < i ==> row_ok(#[trigger] m@[x]@, a, p as int, n as int),
                ab == Seq::new(
                    n as nat,
                    |x: int| Seq::new(w as nat, |k: int| if k < n { a[x][k] } else if k - n == x { 1int } else { 0 }),
                ),
                forall|x: int, k: int| 0 <= x < i && 0 <= k < w ==> #[trigger] m@[x]@[k] as int == ab[x][k],
            decreases n - i,
        {
            let mut row: Vec<u64> = Vec::with_capacity(w);
            let mut k: usize = 0;
            while k < n
                invariant
                    self.wf(p as int),
                    n == self.cols,
                    i < self.rows,
                    a == self.matrix(),
                    k <= n,
                    row.len() == k,
                    forall|t: int| 0 <= t < k ==> #[trigger] row@[t] == self.a@[i as int]@[t],
                decreases n - k,
            {
                row.push(self.a[i][k]);
                k += 1;
            }
            let mut k: usize = 0;
            while k < n
                invariant
                    k <= n,
                    i < n,
                    self.wf(p as int),
                    n == self.rows,
                    n == self.cols,
                    row.len() == n + k,
                    forall|t: int| 0 <= t < n ==> #[trigger] row@[t] == self.a@[i as int]@[t],
                    forall|t: int| 0 <= t < k ==> #[trigger] row@[n + t] == if t == i { 1u64 } else { 0 },
                decreases n - k,
            {
                row.push(if k == i { 1 } else { 0 });
                k += 1;
            }
            proof {
                self.lemma_matrix_shape(p as int);
                assert forall|k: int| 0 <= k < n implies #[trigger] row@[k] as int == a[i as int][k] by {
                    assert(a[i as int][k] == self.a@[i as int]@[k] as int);
                }
                lemma_start_row(row@, a, p as int, n as int, i as int);
                assert forall|k: int| 0 <= k < w implies #[trigger] row@[k] < p by {
                    if k < n {
                        assert(self.a@[i as int]@[k] < p);
                    } else {
                        assert(row@[n + (k - n)] == row@[k]);
                    }
                }
                assert forall|k: int| 0 <= k < w implies #[trigger] row@[k] as int == ab[i as int][k] by {
                    if k >= n {
                        assert(row@[n + (k - n)] == row@[k]);
                    }
                }
            }
            m.push(row);
            i += 1;
        }
        let ghost mut rr: Seq<Seq<int>> = identity(n as int);
        let ghost mut ff: Seq<Seq<int>> = identity(n as int);
        let ghost mut piv: Seq<usize> = Seq::empty();
        proof {
            if n > 0 {
                let mi = int_rows(m@);
                assert forall|x: int, j: int| 0 <= x < n && 0 <= j <= d implies #[trigger] (dotz(rr[x], col(ab, j), n as int)
                    % (p as int)) == m@[x]@[j] as int by {
                    lemma_dotz_unit(rr[x], col(ab, j), x, n as int);
                    lemma_small_mod(m@[x]@[j] as nat, p as nat);
                }
                assert forall|x: int, j: int| 0 <= x < n && 0 <= j <= d implies #[trigger] ab[x][j] == dotz(
                    ff[x],
                    col(mi, j),
                    n as int,
                ) % (p as int) by {
                    lemma_dotz_unit(ff[x], col(mi, j), x, n as int);
                    lemma_small_mod(m@[x]@[j] as nat, p as nat);
                }
                assert(solve_state(m@, ab, rr, ff, piv, 0, p as int, n as int, d));
            }
        }
        let mut c: usize = 0;
        while c < n
            invariant
                n == self.rows,
                n == self.cols,
                self.wf(p as int),
                w == 2 * n,
                d == 2 * n - 1,
                p == f.n,
                is_prime(p as nat),
                a == self.matrix(),
                c <= n,
                gauss_jordan(m@, a, p as int, n as int, c as int),
                forall|x: int, j: int| 0 <= x < n && 0 <= j < n ==> #[trigger] ab[x][j] == a[x][j],
                n > 0 ==> solve_state(m@, ab, rr, ff, piv, c as int, p as int, n as int, d),
                piv.len() == c,
                forall|k: int| 0 <= k < c ==> #[trigger] piv[k] == k,
            decreases n - c,
        {
            // The pivot row.
            let mut r = c;
            while r < n && m[r][c] == 0
                invariant
                    c <= r <= n,
                    c < n,
                    gauss_jordan(m@, a, p as int, n as int, c as int),
                    forall|i: int| c <= i < r ==> #[trigger] m@[i]@[c as int] == 0,
                decreases n - r,
            {
                r += 1;
            }
            if r == n {
                proof {
                    self.lemma_matrix_shape(p as int);
                    lemma_singular(m@, a, ab, rr, ff, piv, c as int, p as int, n as int);
                }
                return None;
            }
            if r != c {
                let ghost before = m@;
                let mut tmp: Vec<u64> = Vec::new();
                m.set_and_swap(r, &mut tmp);
                m.set_and_swap(c, &mut tmp);
                m.set_and_swap(r, &mut tmp);
                proof {
                    assert(m@ =~= before.update(r as int, before[c as int]).update(c as int, before[r as int]));
                    assert forall|i: int, k: int| 0 <= i < n && 0 <= k < c implies #[trigger] m@[i]@[k] == if i == k {
                        1u64
                    } else {
                        0
                    } by {
                        if i == r {
                            assert(m@[i] == before[c as int]);
                        } else if i == c {
                            assert(m@[i] == before[r as int]);
                        } else {
                            assert(m@[i] == before[i]);
                        }
                    }
                    assert forall|i: int| 0 <= i < n implies row_ok(#[trigger] m@[i]@, a, p as int, n as int) by {
                        if i == r {
                            assert(m@[i] == before[c as int]);
                        } else if i == c {
                            assert(m@[i] == before[r as int]);
                        } else {
                            assert(m@[i] == before[i]);
                        }
                    }
                    assert forall|i: int| 0 <= i < n implies (#[trigger] m@[i]).len() == w by {
                        if i == r {
                            assert(m@[i] == before[c as int]);
                        } else if i == c {
                            assert(m@[i] == before[r as int]);
                        } else {
                            assert(m@[i] == before[i]);
                        }
                    }
                    assert forall|i: int, k: int| 0 <= i < n && 0 <= k < w implies #[trigger] m@[i]@[k] < p by {
                        if i == r {
                            assert(m@[i] == before[c as int]);
                        } else if i == c {
                            assert(m@[i] == before[r as int]);
                        } else {
                            assert(m@[i] == before[i]);
                        }
                    }
                    lemma_swap_state(before, m@, ab, rr, ff, piv, c as int, p as int, n as int, d, r as int, c as int);
                    rr = rr.update(r as int, rr[c as int]).update(c as int, rr[r as int]);
                    ff = swap_cols(ff, r as int, c as int);
                }
            }
            let x = m[c][c];
            proof {
                lemma_prime_units(p as nat, x as nat);
            }
            let inv = match f.inv(x) {
                Some(inv) => inv,
                None => {
                    proof {
                        assert(false);
                    }
                    return None;
                },
            };
            // Scale the pivot row to 1.
            let ghost before = m@;
            let mut rowc: Vec<u64> = Vec::new();
            m.set_and_swap(c, &mut rowc);
            let ghost old_c = rowc@;
            scale_row(f, &mut rowc, c, inv);
            proof {
                assert forall|k: int| 0 <= k < 2 * n implies #[trigger] (rowc@[k] as int) == ((old_c[k] * inv) % (p as int)) by {
                    if k < c {
                        assert(before[c as int]@[k] == 0);
                        assert(old_c[k] == 0);
                        assert(rowc@[k] == old_c[k]);
                        assert(old_c[k] * inv == 0) by (nonlinear_arith)
                            requires
                                old_c[k] == 0,
                        ;
                        lemma_small_mod(0, p as nat);
                    } else {
                        lemma_mod_bound(old_c[k] * inv, p as int);
                    }
                }
                lemma_scaled_row(old_c, rowc@, a, p as int, n as int, inv as int);
                assert((x * inv) % (p as int) == 1) by {
                    lemma_small_mod(1, p as nat);
                }
            }
            m.set_and_swap(c, &mut rowc);
            proof {
                assert(m@ =~= before.update(c as int, m@[c as int]));
                lemma_scale_state(before, m@, ab, rr, ff, piv, c as int, p as int, n as int, d, c as int, x as int, inv as int);
                rr = rr.update(c as int, Seq::new(n as nat, |k: int| rr[c as int][k] * inv));
                ff = Seq::new(n as nat, |i: int| ff[i].update(c as int, ff[i][c as int] * x));
            }
            // Clear the column in the other rows.
            let ghost pivot = m@[c as int];
            let mut r: usize = 0;
            while r < n
                invariant
                    n == self.rows,
                    w == 2 * n,
                    p == f.n,
                    p >= 2,
                    c < n,
                    r <= n,
                    m.len() == n,
                    m@[c as int] == pivot,
                    pivot@[c as int] == 1,
                    forall|i: int| 0 <= i < n ==> (#[trigger] m@[i]).len() == w,
                    forall|i: int, k: int| 0 <= i < n && 0 <= k < w ==> #[trigger] m@[i]@[k] < p,
                    forall|i: int| 0 <= i < n ==> row_ok(#[trigger] m@[i]@, a, p as int, n as int),
                    forall|i: int, k: int| 0 <= i < n && 0 <= k < c ==> #[trigger] m@[i]@[k] == if i == k {
                        1u64
                    } else {
                        0
                    },
                    forall|i: int| 0 <= i < r && i != c ==> #[trigger] m@[i]@[c as int] == 0,
                    d == 2 * n - 1,
                    solve_state(m@, ab, rr, ff, piv, c as int, p as int, n as int, d),
                    piv.len() == c,
                decreases n - r,
            {
                if r != c && m[r][c] != 0 {
                    let t = m[r][c];
                    let ghost before = m@;
                    let mut rowr: Vec<u64> = Vec::new();
                    m.set_and_swap(r, &mut rowr);
                    let ghost old_r = rowr@;
                    eliminate_row(f, &mut rowr, &m[c], c, t);
                    proof {
                        assert forall|k: int| 0 <= k < 2 * n implies #[trigger] (rowr@[k] as int) == ((old_r[k] - t
                            * pivot@[k]) % (p as int)) by {
                            if k >= c && pivot@[k] != 0 {
                                lemma_mod_twice(t * pivot@[k], p as int);
                                lemma_sub_mod_noop(old_r[k] as int, t * pivot@[k], p as int);
                                lemma_mod_twice(old_r[k] as int, p as int);
                                lemma_small_mod(old_r[k] as nat, p as nat);
                            } else {
                                if k < c {
                                    assert(pivot@[k] == 0);
                                }
                                assert(t * pivot@[k] == 0) by (nonlinear_arith)
                                    requires
                                        pivot@[k] == 0,
                                ;
                                lemma_small_mod(old_r[k] as nat, p as nat);
                            }
                        }
                        lemma_eliminated_row(old_r, pivot@, rowr@, a, p as int, n as int, t as int);
                        assert(rowr@[c as int] == 0) by {
                            assert(t * pivot@[c as int] == t);
                            lemma_small_mod(0, p as nat);
                        }
                    }
                    m.set_and_swap(r, &mut rowr);
                    proof {
                        assert(m@ =~= before.update(r as int, m@[r as int]));
                        lemma_elim_state(before, m@, ab, rr, ff, piv, c as int, p as int, n as int, d, c as int, r as int, t as int);
                        rr = rr.update(r as int, Seq::new(n as nat, |k: int| rr[r as int][k] - t * rr[c as int][k]));
                        ff = Seq::new(n as nat, |i: int| ff[i].update(c as int, ff[i][c as int] + t * ff[i][r as int]));
                    }
                }
                r += 1;
            }
            proof {
                lemma_pivot_done(m@, ab, rr, ff, piv, c as int, p as int, n as int, d);
                piv = piv.push(c as usize);
            }
            c += 1;
        }
        // The right half is the inverse.
        let mut b: Vec<Vec<u64>> = Vec::with_capacity(n);
        let mut i: usize = 0;
        while i < n
            invariant
                w == 2 * n,
                p == f.n,
                gauss_jordan(m@, a, p as int, n as int, n as int),
                i <= n,
                b.len() == i,
                forall|x: int| 0 <= x < i ==> (#[trigger] b@[x]).len() == n,
                forall|x: int| 0 <= x < i ==> ints(#[trigger] b@[x]@) == ints(m@[x]@).subrange(n as int, 2 * n),
            decreases n - i,
        {
            let mut row: Vec<u64> = Vec::with_capacity(n);
            let mut k: usize = 0;
            while k < n
                invariant
                    w == 2 * n,
                    i < n,
                    m.len() == n,
                    m@[i as int].len() == w,
                    k <= n,
                    row.len() == k,
                    forall|t: int| 0 <= t < k ==> #[trigger] row@[t] == m@[i as int]@[n + t],
                decreases n - k,
            {
                row.push(m[i][n + k]);
                k += 1;
            }
            assert(ints(row@) =~= ints(m@[i as int]@).subrange(n as int, 2 * n));
            b.push(row);
            i += 1;
        }
        let d = Dense { rows: n, cols: n, a: b };
        proof {
            assert forall|x: int, y: int| 0 <= x < n && 0 <= y < n implies #[trigger] d.a@[x]@[y] < p by {
                assert(ints(d.a@[x]@)[y] == ints(m@[x]@)[n + y]);
            }
            assert forall|x: int, j: int| 0 <= x < d.matrix().len() && 0 <= j < n implies #[trigger] (dotz(
                d.matrix()[x],
                col(a, j),
                a.len() as int,
            ) % (p as int)) == if x == j { 1int } else { 0 } by {
                assert(d.matrix()[x] == ints(m@[x]@).subrange(n as int, 2 * n));
                assert(row_ok(m@[x]@, a, p as int, n as int));
            }
            self.lemma_matrix_shape(p as int);
            d.lemma_matrix_shape(p as int);
            lemma_left_inverse_is_right(d.matrix(), a, n as int, p as int);
        }
        Some(d)
    }
}

// ----- solving linear systems -------------------------------------------------

proof fn lemma_dotz_comm(a: Seq<int>, x: Seq<int>, k: int)
    requires
        0 <= k,
    ensures
        dotz(a, x, k) == dotz(x, a, k),
    decreases k,
{
    if k > 0 {
        lemma_dotz_comm(a, x, k - 1);
        assert(a[k - 1] * x[k - 1] == x[k - 1] * a[k - 1]) by (nonlinear_arith);
    }
}

/// Vectors that agree modulo `p` have one `dotz` modulo `p`.
proof fn lemma_dotz_congr(a: Seq<int>, x: Seq<int>, x2: Seq<int>, p: int, k: int)
    requires
        p > 0,
        0 <= k,
        forall|j: int| 0 <= j < k ==> #[trigger] (x[j] % p) == x2[j] % p,
    ensures
        dotz(a, x, k) % p == dotz(a, x2, k) % p,
{
    lemma_dotz_comm(a, x, k);
    lemma_dotz_comm(a, x2, k);
    assert forall|j: int| 0 <= j < k implies #[trigger] (x[j] % p) == (1 * x2[j] + 0 * x2[j]) % p by {
        assert(1 * x2[j] + 0 * x2[j] == x2[j]);
    }
    lemma_dotz_combo(x, x2, x2, a, 1, 0, p, k);
    assert(1 * dotz(x2, a, k) + 0 * dotz(x2, a, k) == dotz(x2, a, k));
}

/// Changing entry `r` of both sequences changes `dotz` by the difference of
/// the products there.
proof fn lemma_dotz_update2(f: Seq<int>, g: Seq<int>, r: int, x: int, y: int, k: int)
    requires
        0 <= r < k,
        k <= f.len(),
        k <= g.len(),
    ensures
        dotz(f.update(r, x), g.update(r, y), k) == dotz(f, g, k) - f[r] * g[r] + x * y,
    decreases k,
{
    if k - 1 > r {
        lemma_dotz_update2(f, g, r, x, y, k - 1);
    } else {
        lemma_dotz_ext(f.update(r, x), f, g.update(r, y), g, k - 1);
    }
}

/// `f (G x) = (f G) x`.
proof fn lemma_dotz_assoc(f: Seq<int>, g: Seq<Seq<int>>, x: Seq<int>, n: int, d: int)
    requires
        0 <= n,
        0 <= d <= x.len(),
        g.len() == n,
        forall|k: int| 0 <= k < n ==> (#[trigger] g[k]).len() >= d,
    ensures
        dotz(Seq::new(d as nat, |j: int| dotz(f, col(g, j), n)), x, d) == dotz(
            f,
            Seq::new(n as nat, |k: int| dotz(g[k], x, d)),
            n,
        ),
    decreases d,
{
    if d > 0 {
        lemma_dotz_assoc(f, g, x, n, d - 1);
        let lhs = Seq::new(d as nat, |j: int| dotz(f, col(g, j), n));
        let lhs1 = Seq::new((d - 1) as nat, |j: int| dotz(f, col(g, j), n));
        lemma_dotz_ext(lhs, lhs1, x, x, d - 1);
        let inner = Seq::new(n as nat, |k: int| dotz(g[k], x, d));
        let inner1 = Seq::new(n as nat, |k: int| dotz(g[k], x, d - 1));
        let c = col(g, d - 1);
        let xd = x[d - 1];
        // inner = inner1 + xd c, so f inner = f inner1 + xd (f c).
        assert forall|k: int| 0 <= k < n implies #[trigger] inner[k] == inner1[k] + xd * c[k] by {
            assert(g[k][d - 1] * xd == xd * c[k]) by (nonlinear_arith)
                requires
                    c[k] == g[k][d - 1],
            ;
        }
        lemma_dotz_sum(f, inner, inner1, c, xd, n);
        assert(lhs[d - 1] == dotz(f, c, n));
        assert(dotz(f, c, n) * xd == xd * dotz(f, c, n)) by (nonlinear_arith);
        assert(dotz(lhs1, x, d - 1) == dotz(f, inner1, n));
        assert(dotz(lhs, x, d) == dotz(lhs, x, d - 1) + lhs[d - 1] * x[d - 1]);
        assert(dotz(lhs, x, d) == dotz(f, inner1, n) + xd * dotz(f, c, n));
    } else {
        lemma_dotz_zero_vec(f, Seq::new(n as nat, |k: int| dotz(g[k], x, d)), n);
    }
}

/// A zero vector has `dotz` 0.
proof fn lemma_dotz_zero_vec(f: Seq<int>, z: Seq<int>, n: int)
    requires
        0 <= n,
        forall|k: int| 0 <= k < n ==> #[trigger] z[k] == 0,
    ensures
        dotz(f, z, n) == 0,
    decreases n,
{
    if n > 0 {
        lemma_dotz_zero_vec(f, z, n - 1);
        assert(f[n - 1] * z[n - 1] == 0) by (nonlinear_arith)
            requires
                z[n - 1] == 0,
        ;
    }
}

/// `f (u + s c) = f u + s (f c)`.
proof fn lemma_dotz_sum(f: Seq<int>, w: Seq<int>, u: Seq<int>, c: Seq<int>, s: int, n: int)
    requires
        0 <= n,
        forall|k: int| 0 <= k < n ==> #[trigger] w[k] == u[k] + s * c[k],
    ensures
        dotz(f, w, n) == dotz(f, u, n) + s * dotz(f, c, n),
    decreases n,
{
    if n > 0 {
        lemma_dotz_sum(f, w, u, c, s, n - 1);
        let (fk, uk, ck) = (f[n - 1], u[n - 1], c[n - 1]);
        let (du, dc) = (dotz(f, u, n - 1), dotz(f, c, n - 1));
        assert(fk * (uk + s * ck) == fk * uk + s * (fk * ck)) by (nonlinear_arith);
        assert(s * (dc + fk * ck) == s * dc + s * (fk * ck)) by (nonlinear_arith);
    }
}

/// The rows `ab` of the system `[A | b]` (with `n` rows and `d` unknowns).
pub open spec fn augmented(a: Seq<Seq<int>>, b: Seq<u64>, n: int, d: int) -> Seq<Seq<int>> {
    Seq::new(n as nat, |i: int| Seq::new((d + 1) as nat, |j: int| if j < d { a[i][j] } else { b[i] as int }))
}

/// Column `j` of `F` swapped at `r` and `c`.
pub open spec fn swap_cols(f: Seq<Seq<int>>, r: int, c: int) -> Seq<Seq<int>> {
    Seq::new(f.len(), |i: int| f[i].update(r, f[i][c]).update(c, f[i][r]))
}

/// The state of the elimination on `[A | b]` after `c` columns: the working
/// rows `m` are `R ab` modulo `p`, `ab` is `F m` modulo `p`, and `m` is in
/// reduced echelon form with the pivots `piv` (each a 1).
pub open spec fn solve_state(
    m: Seq<Vec<u64>>,
    ab: Seq<Seq<int>>,
    r: Seq<Seq<int>>,
    f: Seq<Seq<int>>,
    piv: Seq<usize>,
    c: int,
    p: int,
    n: int,
    d: int,
) -> bool {
    &&& m.len() == n
    &&& ab.len() == n
    &&& r.len() == n
    &&& f.len() == n
    &&& forall|i: int| 0 <= i < n ==> (#[trigger] m[i]).len() == d + 1
    &&& forall|i: int| 0 <= i < n ==> (#[trigger] ab[i]).len() == d + 1
    &&& forall|i: int| 0 <= i < n ==> (#[trigger] r[i]).len() == n
    &&& forall|i: int| 0 <= i < n ==> (#[trigger] f[i]).len() == n
    &&& forall|i: int, k: int| 0 <= i < n && 0 <= k <= d ==> #[trigger] m[i]@[k] < p
    &&& forall|i: int, j: int| 0 <= i < n && 0 <= j <= d ==> #[trigger] (dotz(r[i], col(ab, j), n) % p) == m[i]@[j] as int
    &&& forall|i: int, j: int| 0 <= i < n && 0 <= j <= d ==> #[trigger] ab[i][j] == dotz(f[i], col(int_rows(m), j), n) % p
    &&& piv.len() <= n
    &&& forall|k: int, l: int| 0 <= k < l < piv.len() ==> piv[k] < piv[l]
    &&& forall|k: int| 0 <= k < piv.len() ==> #[trigger] piv[k] < c
    &&& c <= d
    &&& forall|k: int| 0 <= k < piv.len() ==> m[k]@[#[trigger] piv[k] as int] == 1
    &&& forall|k: int, i: int| 0 <= k < piv.len() && 0 <= i < n && i != k ==> #[trigger] m[i]@[piv[k] as int] == 0
    &&& forall|j: int, i: int|
        0 <= j < c && (forall|k: int| 0 <= k < piv.len() ==> piv[k] != j) && piv.len() <= i < n ==> #[trigger] m[i]@[j]
            == 0
}

/// Swapping rows `r` and `c` of `m` and of `R`, and columns `r` and `c` of
/// `F`, keeps the state.
proof fn lemma_swap_state(
    m: Seq<Vec<u64>>,
    m2: Seq<Vec<u64>>,
    ab: Seq<Seq<int>>,
    r: Seq<Seq<int>>,
    f: Seq<Seq<int>>,
    piv: Seq<usize>,
    c: int,
    p: int,
    n: int,
    d: int,
    x: int,
    y: int,
)
    requires
        p > 1,
        solve_state(m, ab, r, f, piv, c, p, n, d),
        piv.len() <= x < n,
        piv.len() <= y < n,
        x != y,
        m2 == m.update(x, m[y]).update(y, m[x]),
    ensures
        solve_state(
            m2,
            ab,
            r.update(x, r[y]).update(y, r[x]),
            swap_cols(f, x, y),
            piv,
            c,
            p,
            n,
            d,
        ),
{
    let r2 = r.update(x, r[y]).update(y, r[x]);
    let f2 = swap_cols(f, x, y);
    let mi = int_rows(m);
    let mi2 = int_rows(m2);
    assert forall|i: int, j: int| 0 <= i < n && 0 <= j <= d implies #[trigger] ab[i][j] == dotz(
        f2[i],
        col(mi2, j),
        n,
    ) % p by {
        let g = col(mi, j);
        let g1 = g.update(x, g[y]);
        assert(col(mi2, j) =~= g1.update(y, g[x]));
        let f1 = f[i].update(x, f[i][y]);
        lemma_dotz_update2(f[i], g, x, f[i][y], g[y], n);
        lemma_dotz_update2(f1, g1, y, f[i][x], g[x], n);
    }
    assert forall|i: int, k: int| 0 <= i < n && 0 <= k <= d implies #[trigger] m2[i]@[k] < p by {
        if i == x {
            assert(m2[i] == m[y]);
        } else if i == y {
            assert(m2[i] == m[x]);
        } else {
            assert(m2[i] == m[i]);
        }
    }
    assert forall|i: int, j: int| 0 <= i < n && 0 <= j <= d implies #[trigger] (dotz(r2[i], col(ab, j), n) % p)
        == m2[i]@[j] as int by {
        if i == x {
            assert(m2[i] == m[y]);
        } else if i == y {
            assert(m2[i] == m[x]);
        } else {
            assert(m2[i] == m[i]);
        }
    }
    assert forall|i: int| 0 <= i < n implies (#[trigger] m2[i]).len() == d + 1 by {
        if i == x {
            assert(m2[i] == m[y]);
        } else if i == y {
            assert(m2[i] == m[x]);
        } else {
            assert(m2[i] == m[i]);
        }
    }
    assert forall|k: int| 0 <= k < piv.len() implies m2[k]@[#[trigger] piv[k] as int] == 1 by {
        assert(m2[k] == m[k]);
    }
    assert forall|k: int, i: int| 0 <= k < piv.len() && 0 <= i < n && i != k implies #[trigger] m2[i]@[piv[k] as int]
        == 0 by {
        if i == x {
            assert(m2[i] == m[y]);
        } else if i == y {
            assert(m2[i] == m[x]);
        } else {
            assert(m2[i] == m[i]);
        }
    }
    assert forall|j: int, i: int|
        0 <= j < c && (forall|k: int| 0 <= k < piv.len() ==> piv[k] != j) && piv.len() <= i < n implies #[trigger] m2[i]@[j]
        == 0 by {
        if i == x {
            assert(m2[i] == m[y]);
        } else if i == y {
            assert(m2[i] == m[x]);
        } else {
            assert(m2[i] == m[i]);
        }
    }
    assert forall|i: int| 0 <= i < n implies (#[trigger] f2[i]).len() == n by {}
    assert forall|i: int| 0 <= i < n implies (#[trigger] r2[i]).len() == n by {}
}

/// `(c + a) % p == (c + b) % p` when `a` and `b` agree modulo `p`.
proof fn lemma_add_congr(c: int, a: int, b: int, p: int)
    requires
        p > 0,
        a % p == b % p,
    ensures
        (c + a) % p == (c + b) % p,
{
    lemma_add_mod_noop(c, a, p);
    lemma_add_mod_noop(c, b, p);
}

/// Scaling the pivot row (number `row`, with `v` in column `c`) by `s`, the
/// inverse of `v`, keeps the state, with the row of `R` scaled by `s` and
/// the column of `F` by `v`.
proof fn lemma_scale_state(
    m: Seq<Vec<u64>>,
    m2: Seq<Vec<u64>>,
    ab: Seq<Seq<int>>,
    r: Seq<Seq<int>>,
    f: Seq<Seq<int>>,
    piv: Seq<usize>,
    c: int,
    p: int,
    n: int,
    d: int,
    row: int,
    v: int,
    s: int,
)
    requires
        p > 1,
        solve_state(m, ab, r, f, piv, c, p, n, d),
        row == piv.len(),
        row < n,
        0 <= c < d,
        v == m[row]@[c] as int,
        (v * s) % p == 1,
        m2.len() == n,
        m2[row].len() == d + 1,
        forall|i: int| 0 <= i < n && i != row ==> #[trigger] m2[i] == m[i],
        forall|k: int| 0 <= k <= d ==> #[trigger] (m2[row]@[k] as int) == (m[row]@[k] * s) % p,
    ensures
        solve_state(
            m2,
            ab,
            r.update(row, Seq::new(n as nat, |k: int| r[row][k] * s)),
            Seq::new(n as nat, |i: int| f[i].update(row, f[i][row] * v)),
            piv,
            c,
            p,
            n,
            d,
        ),
        m2[row]@[c] == 1,
{
    let r2 = r.update(row, Seq::new(n as nat, |k: int| r[row][k] * s));
    let f2 = Seq::new(n as nat, |i: int| f[i].update(row, f[i][row] * v));
    let (mi, mi2) = (int_rows(m), int_rows(m2));
    assert forall|i: int, k: int| 0 <= i < n && 0 <= k <= d implies #[trigger] m2[i]@[k] < p by {
        if i == row {
            lemma_mod_bound(m[row]@[k] * s, p);
        }
    }
    assert forall|i: int, j: int| 0 <= i < n && 0 <= j <= d implies #[trigger] (dotz(r2[i], col(ab, j), n) % p)
        == m2[i]@[j] as int by {
        if i == row {
            assert forall|k: int| 0 <= k < n implies #[trigger] (r2[i][k] % p) == (s * r[row][k] + 0 * r[row][k]) % p by {
                assert(r2[i][k] == r[row][k] * s);
                assert(r[row][k] * s == s * r[row][k] + 0 * r[row][k]) by (nonlinear_arith);
            }
            lemma_dotz_combo(r2[i], r[row], r[row], col(ab, j), s, 0, p, n);
            let e = dotz(r[row], col(ab, j), n);
            assert(s * e + 0 * e == s * e) by (nonlinear_arith);
            lemma_mul_mod_noop_right(s, e, p);
            assert(s * (m[row]@[j] as int) == m[row]@[j] * s) by (nonlinear_arith);
        }
    }
    assert forall|i: int, j: int| 0 <= i < n && 0 <= j <= d implies #[trigger] ab[i][j] == dotz(
        f2[i],
        col(mi2, j),
        n,
    ) % p by {
        let g = col(mi, j);
        assert(col(mi2, j) =~= g.update(row, (m[row]@[j] * s) % p));
        lemma_dotz_update2(f[i], g, row, f[i][row] * v, (m[row]@[j] * s) % p, n);
        let (fr, gr) = (f[i][row], g[row]);
        assert(gr == m[row]@[j] as int);
        // f v ((g s) mod p) = f g (v s) = f g (mod p)
        lemma_mul_mod_noop_right(fr * v, gr * s, p);
        assert((fr * v) * (gr * s) == (fr * gr) * (v * s)) by (nonlinear_arith);
        lemma_mul_mod_noop_right(fr * gr, v * s, p);
        assert((fr * gr) * 1 == fr * gr);
        lemma_add_congr(dotz(f[i], g, n) - fr * gr, (fr * v) * ((gr * s) % p), fr * gr, p);
    }
    assert forall|k: int| 0 <= k < piv.len() implies m2[k]@[#[trigger] piv[k] as int] == 1 by {
        assert(m2[k] == m[k]);
    }
    assert forall|k: int, i: int| 0 <= k < piv.len() && 0 <= i < n && i != k implies #[trigger] m2[i]@[piv[k] as int]
        == 0 by {
        if i == row {
            assert(m[row]@[piv[k] as int] == 0);
            assert(m[row]@[piv[k] as int] * s == 0);
            lemma_small_mod(0, p as nat);
        }
    }
    assert forall|j: int, i: int|
        0 <= j < c && (forall|k: int| 0 <= k < piv.len() ==> piv[k] != j) && piv.len() <= i < n implies #[trigger] m2[i]@[j]
        == 0 by {
        if i == row {
            assert(m[row]@[j] == 0);
            assert(m[row]@[j] * s == 0);
            lemma_small_mod(0, p as nat);
        }
    }
    assert forall|i: int| 0 <= i < n implies (#[trigger] m2[i]).len() == d + 1 by {}
    assert forall|i: int| 0 <= i < n implies (#[trigger] r2[i]).len() == n by {}
    assert forall|i: int| 0 <= i < n implies (#[trigger] f2[i]).len() == n by {}
    assert(m2[row]@[c] == 1) by {
        assert((m2[row]@[c] as int) == (m[row]@[c] * s) % p);
    }
}

/// Subtracting `t` times the pivot row (number `row`) from row `rr` keeps
/// the state, with the same done to `R` and the pivot column of `F` grown by
/// `t` times column `rr`.
proof fn lemma_elim_state(
    m: Seq<Vec<u64>>,
    m2: Seq<Vec<u64>>,
    ab: Seq<Seq<int>>,
    r: Seq<Seq<int>>,
    f: Seq<Seq<int>>,
    piv: Seq<usize>,
    c: int,
    p: int,
    n: int,
    d: int,
    row: int,
    rr: int,
    t: int,
)
    requires
        p > 1,
        solve_state(m, ab, r, f, piv, c, p, n, d),
        row == piv.len(),
        row < n,
        c < d,
        0 <= rr < n,
        rr != row,
        m2.len() == n,
        m2[rr].len() == d + 1,
        forall|i: int| 0 <= i < n && i != rr ==> #[trigger] m2[i] == m[i],
        forall|k: int| 0 <= k <= d ==> #[trigger] (m2[rr]@[k] as int) == (m[rr]@[k] - t * m[row]@[k]) % p,
    ensures
        solve_state(
            m2,
            ab,
            r.update(rr, Seq::new(n as nat, |k: int| r[rr][k] - t * r[row][k])),
            Seq::new(n as nat, |i: int| f[i].update(row, f[i][row] + t * f[i][rr])),
            piv,
            c,
            p,
            n,
            d,
        ),
{
    let r2 = r.update(rr, Seq::new(n as nat, |k: int| r[rr][k] - t * r[row][k]));
    let f2 = Seq::new(n as nat, |i: int| f[i].update(row, f[i][row] + t * f[i][rr]));
    let (mi, mi2) = (int_rows(m), int_rows(m2));
    assert forall|i: int, k: int| 0 <= i < n && 0 <= k <= d implies #[trigger] m2[i]@[k] < p by {
        if i == rr {
            lemma_mod_bound(m[rr]@[k] - t * m[row]@[k], p);
        }
    }
    assert forall|i: int, j: int| 0 <= i < n && 0 <= j <= d implies #[trigger] (dotz(r2[i], col(ab, j), n) % p)
        == m2[i]@[j] as int by {
        if i == rr {
            assert forall|k: int| 0 <= k < n implies #[trigger] (r2[i][k] % p) == (1 * r[rr][k] + (-t) * r[row][k]) % p by {
                assert(r2[i][k] == r[rr][k] - t * r[row][k]);
                assert(r[rr][k] - t * r[row][k] == 1 * r[rr][k] + (-t) * r[row][k]) by (nonlinear_arith);
            }
            lemma_dotz_combo(r2[i], r[rr], r[row], col(ab, j), 1, -t, p, n);
            let (e, g) = (dotz(r[rr], col(ab, j), n), dotz(r[row], col(ab, j), n));
            assert(1 * e + (-t) * g == e - t * g) by (nonlinear_arith);
            lemma_sub_mod_noop(e, t * g, p);
            lemma_mul_mod_noop_right(t, g, p);
            lemma_sub_mod_noop(m[rr]@[j] as int, t * m[row]@[j], p);
            lemma_small_mod(m[rr]@[j] as nat, p as nat);
        }
    }
    assert forall|i: int, j: int| 0 <= i < n && 0 <= j <= d implies #[trigger] ab[i][j] == dotz(
        f2[i],
        col(mi2, j),
        n,
    ) % p by {
        let g = col(mi, j);
        let (fr, fw) = (f[i][rr], f[i][row]);
        let (gr, gw) = (g[rr], g[row]);
        assert(gr == m[rr]@[j] as int);
        assert(gw == m[row]@[j] as int);
        let y = (gr - t * gw) % p;
        let g1 = g.update(rr, y);
        assert(col(mi2, j) =~= g1);
        lemma_dotz_update2(f[i], g, rr, fr, y, n);
        assert(f[i].update(rr, fr) =~= f[i]);
        let dd = dotz(f[i], g, n);
        assert(dotz(f[i], g1, n) == dd - fr * gr + fr * y);
        lemma_dotz_update2(f[i], g1, row, fw + t * fr, gw, n);
        assert(f2[i] =~= f[i].update(row, fw + t * fr));
        assert(g1.update(row, gw) =~= g1);
        let tt = dotz(f2[i], g1, n);
        assert(tt == dd - fr * gr + fr * y - fw * gw + (fw + t * fr) * gw);
        let q = (t * fr) * gw;
        assert((fw + t * fr) * gw == fw * gw + q) by (nonlinear_arith)
            requires
                q == (t * fr) * gw,
        ;
        assert(fr * (gr - t * gw) == fr * gr - q) by (nonlinear_arith)
            requires
                q == (t * fr) * gw,
        ;
        lemma_mul_mod_noop_right(fr, gr - t * gw, p);
        let cc = dd - fr * gr + q;
        assert(tt == cc + fr * y);
        lemma_add_congr(cc, fr * y, fr * (gr - t * gw), p);
        assert(cc + fr * (gr - t * gw) == dd);
    }
    assert forall|k: int| 0 <= k < piv.len() implies m2[k]@[#[trigger] piv[k] as int] == 1 by {
        if k == rr {
            assert(m[row]@[piv[k] as int] == 0);
            assert(t * m[row]@[piv[k] as int] == 0) by (nonlinear_arith)
                requires
                    m[row]@[piv[k] as int] == 0,
            ;
            lemma_small_mod(1, p as nat);
        }
    }
    assert forall|k: int, i: int| 0 <= k < piv.len() && 0 <= i < n && i != k implies #[trigger] m2[i]@[piv[k] as int]
        == 0 by {
        if i == rr {
            assert(m[row]@[piv[k] as int] == 0);
            assert(t * m[row]@[piv[k] as int] == 0) by (nonlinear_arith)
                requires
                    m[row]@[piv[k] as int] == 0,
            ;
            lemma_small_mod(0, p as nat);
        }
    }
    assert forall|j: int, i: int|
        0 <= j < c && (forall|k: int| 0 <= k < piv.len() ==> piv[k] != j) && piv.len() <= i < n implies #[trigger] m2[i]@[j]
        == 0 by {
        if i == rr {
            assert(m[row]@[j] == 0);
            assert(t * m[row]@[j] == 0) by (nonlinear_arith)
                requires
                    m[row]@[j] == 0,
            ;
            lemma_small_mod(0, p as nat);
        }
    }
    assert forall|i: int| 0 <= i < n implies (#[trigger] m2[i]).len() == d + 1 by {}
    assert forall|i: int| 0 <= i < n implies (#[trigger] r2[i]).len() == n by {}
    assert forall|i: int| 0 <= i < n implies (#[trigger] f2[i]).len() == n by {}
}

/// A column with a pivot in row `piv.len()` (1 there, 0 elsewhere) joins
/// the pivots.
proof fn lemma_pivot_done(
    m: Seq<Vec<u64>>,
    ab: Seq<Seq<int>>,
    r: Seq<Seq<int>>,
    f: Seq<Seq<int>>,
    piv: Seq<usize>,
    c: int,
    p: int,
    n: int,
    d: int,
)
    requires
        solve_state(m, ab, r, f, piv, c, p, n, d),
        0 <= c < d,
        piv.len() < n,
        m[piv.len() as int]@[c] == 1,
        forall|i: int| 0 <= i < n && i != piv.len() ==> #[trigger] m[i]@[c] == 0,
    ensures
        solve_state(m, ab, r, f, piv.push(c as usize), c + 1, p, n, d),
{
    let piv2 = piv.push(c as usize);
    assert forall|k: int, i: int| 0 <= k < piv2.len() && 0 <= i < n && i != k implies #[trigger] m[i]@[piv2[k] as int]
        == 0 by {
        if k < piv.len() {
            assert(piv2[k] == piv[k]);
        }
    }
    assert forall|j: int, i: int|
        0 <= j < c + 1 && (forall|k: int| 0 <= k < piv2.len() ==> piv2[k] != j) && piv2.len() <= i < n implies #[trigger] m[i]@[j]
        == 0 by {
        assert(piv2[piv.len() as int] == c);
        assert forall|k: int| 0 <= k < piv.len() implies piv[k] != j by {
            assert(piv2[k] == piv[k]);
        }
    }
    assert forall|k: int| 0 <= k < piv2.len() implies m[k]@[#[trigger] piv2[k] as int] == 1 by {
        if k < piv.len() {
            assert(piv2[k] == piv[k]);
        }
    }
}

/// A column without a pivot below the pivot rows is passed over.
proof fn lemma_no_pivot(
    m: Seq<Vec<u64>>,
    ab: Seq<Seq<int>>,
    r: Seq<Seq<int>>,
    f: Seq<Seq<int>>,
    piv: Seq<usize>,
    c: int,
    p: int,
    n: int,
    d: int,
)
    requires
        solve_state(m, ab, r, f, piv, c, p, n, d),
        0 <= c < d,
        forall|i: int| piv.len() <= i < n ==> #[trigger] m[i]@[c] == 0,
    ensures
        solve_state(m, ab, r, f, piv, c + 1, p, n, d),
{
}

/// `a` agrees with `a2` modulo `p`, and so does its `dotz`.
proof fn lemma_dotz_congr_left(a: Seq<int>, a2: Seq<int>, x: Seq<int>, p: int, k: int)
    requires
        p > 0,
        0 <= k,
        forall|j: int| 0 <= j < k ==> #[trigger] (a[j] % p) == a2[j] % p,
    ensures
        dotz(a, x, k) % p == dotz(a2, x, k) % p,
{
    assert forall|j: int| 0 <= j < k implies #[trigger] (a[j] % p) == (1 * a2[j] + 0 * a2[j]) % p by {
        assert(1 * a2[j] + 0 * a2[j] == a2[j]);
    }
    lemma_dotz_combo(a, a2, a2, x, 1, 0, p, k);
    assert(1 * dotz(a2, x, k) + 0 * dotz(a2, x, k) == dotz(a2, x, k));
}

/// A sum with one term `q` that may not be zero.
proof fn lemma_dotz_single(a: Seq<int>, x: Seq<int>, q: int, k: int)
    requires
        0 <= q < k,
        forall|j: int| 0 <= j < k && j != q ==> #[trigger] (a[j] * x[j]) == 0,
    ensures
        dotz(a, x, k) == a[q] * x[q],
    decreases k,
{
    if k - 1 > q {
        lemma_dotz_single(a, x, q, k - 1);
    } else {
        assert forall|j: int| 0 <= j < k - 1 implies #[trigger] (a[j] * x[j]) == 0 by {}
        lemma_dotz_zero_terms(a, x, k - 1);
    }
}

/// A sum of zero terms.
proof fn lemma_dotz_zero_terms(a: Seq<int>, x: Seq<int>, k: int)
    requires
        0 <= k,
        forall|j: int| 0 <= j < k ==> #[trigger] (a[j] * x[j]) == 0,
    ensures
        dotz(a, x, k) == 0,
    decreases k,
{
    if k > 0 {
        lemma_dotz_zero_terms(a, x, k - 1);
    }
}

/// A sum with two terms `q1 != q2` that may not be zero.
proof fn lemma_dotz_pair(a: Seq<int>, x: Seq<int>, q1: int, q2: int, k: int)
    requires
        0 <= q1 < k,
        0 <= q2 < k,
        q1 != q2,
        forall|j: int| 0 <= j < k && j != q1 && j != q2 ==> #[trigger] (a[j] * x[j]) == 0,
    ensures
        dotz(a, x, k) == a[q1] * x[q1] + a[q2] * x[q2],
    decreases k,
{
    if k - 1 != q1 && k - 1 != q2 {
        lemma_dotz_pair(a, x, q1, q2, k - 1);
    } else if k - 1 == q1 {
        lemma_dotz_single(a, x, q2, k - 1);
    } else {
        lemma_dotz_single(a, x, q1, k - 1);
    }
}

/// The elimination on `[A | 1]` finding no pivot in column `c` (the first
/// `c` columns done, each with its pivot in its own row) shows that `A`
/// has no left inverse: a combination `v` of the first `c + 1` columns,
/// with a 1 at `c`, has `A v = 0`.
proof fn lemma_singular(
    m: Seq<Vec<u64>>,
    a: Seq<Seq<int>>,
    ab: Seq<Seq<int>>,
    r: Seq<Seq<int>>,
    f: Seq<Seq<int>>,
    piv: Seq<usize>,
    c: int,
    p: int,
    n: int,
)
    requires
        p > 1,
        0 <= c < n,
        a.len() == n,
        forall|k: int| 0 <= k < n ==> (#[trigger] a[k]).len() == n,
        forall|i: int, j: int| 0 <= i < n && 0 <= j < n ==> #[trigger] ab[i][j] == a[i][j],
        solve_state(m, ab, r, f, piv, c, p, n, 2 * n - 1),
        piv.len() == c,
        forall|k: int| 0 <= k < c ==> #[trigger] piv[k] == k,
        forall|i: int| c <= i < n ==> #[trigger] m[i]@[c] == 0,
    ensures
        forall|l: Seq<Seq<int>>| l.len() == n ==> !#[trigger] left_inverse_of(l, a, n, p),
{
    let mi = int_rows(m);
    let v = Seq::new(n as nat, |k: int| if k == c { 1int } else if k < c { -(m[k]@[c] as int) } else { 0 });
    // M v = 0, row by row.
    assert forall|i: int| 0 <= i < n implies #[trigger] dotz(mi[i], v, n) == 0 by {
        assert(m[i].len() == 2 * n);
        assert(mi[i] == ints(m[i]@));
        assert forall|j: int| 0 <= j < 2 * n implies #[trigger] mi[i][j] == m[i]@[j] as int by {}
        assert forall|j: int| 0 <= j < n && j != i && j != c implies #[trigger] (mi[i][j] * v[j]) == 0 by {
            if j < c {
                assert(m[i]@[piv[j] as int] == 0);
                assert(mi[i][j] == 0);
                assert(mi[i][j] * v[j] == 0) by (nonlinear_arith)
                    requires
                        mi[i][j] == 0,
                ;
            } else {
                assert(v[j] == 0);
                assert(mi[i][j] * v[j] == 0) by (nonlinear_arith)
                    requires
                        v[j] == 0,
                ;
            }
        }
        if i < c {
            assert(m[i]@[piv[i] as int] == 1);
            lemma_dotz_pair(mi[i], v, i, c, n);
            assert(mi[i][i] == 1);
            assert(v[i] == -(m[i]@[c] as int));
            assert(v[c] == 1);
            assert(mi[i][c] == m[i]@[c] as int);
            assert(mi[i][i] * v[i] + mi[i][c] * v[c] == 0) by (nonlinear_arith)
                requires
                    mi[i][i] == 1,
                    v[c] == 1,
                    v[i] == -mi[i][c],
            ;
        } else {
            assert(mi[i][c] == 0);
            assert(mi[i][i] * v[i] == 0) by (nonlinear_arith)
                requires
                    i >= c,
                    i > c ==> v[i] == 0,
                    i == c ==> mi[i][i] == 0,
            ;
            assert(mi[i][c] * v[c] == 0) by (nonlinear_arith)
                requires
                    mi[i][c] == 0,
            ;
            assert forall|j: int| 0 <= j < n implies #[trigger] (mi[i][j] * v[j]) == 0 by {
                if j != i && j != c {
                    assert(mi[i][j] * v[j] == 0);
                }
            }
            lemma_dotz_zero_terms(mi[i], v, n);
        }
    }
    // A v = F (M v) = 0 modulo p.
    let av = Seq::new(n as nat, |i: int| dotz(a[i], v, n));
    assert forall|i: int| 0 <= i < n implies #[trigger] (av[i] % p) == 0 by {
        let fm = Seq::new(n as nat, |j: int| dotz(f[i], col(mi, j), n));
        assert forall|j: int| 0 <= j < n implies #[trigger] (a[i][j] % p) == fm[j] % p by {
            assert(ab[i][j] == dotz(f[i], col(mi, j), n) % p);
            lemma_mod_twice(fm[j], p);
        }
        lemma_dotz_congr_left(a[i], fm, v, p, n);
        lemma_dotz_assoc(f[i], mi, v, n, n);
        let z = Seq::new(n as nat, |k: int| dotz(mi[k], v, n));
        lemma_dotz_zero_vec(f[i], z, n);
        lemma_small_mod(0, p as nat);
    }
    assert forall|l: Seq<Seq<int>>| l.len() == n implies !#[trigger] left_inverse_of(l, a, n, p) by {
        if left_inverse_of(l, a, n, p) {
            // (L A) v = v, whose entry c is 1; L (A v) = 0.
            lemma_dotz_assoc(l[c], a, v, n, n);
            let la = Seq::new(n as nat, |j: int| dotz(l[c], col(a, j), n));
            let e = Seq::new(n as nat, |j: int| if j == c { 1int } else { 0 });
            assert forall|j: int| 0 <= j < n implies #[trigger] (la[j] % p) == e[j] % p by {
                assert(dotz(l[c], col(a, j), a.len() as int) % p == if c == j { 1int } else { 0 });
                lemma_small_mod(1, p as nat);
                lemma_small_mod(0, p as nat);
            }
            lemma_dotz_congr_left(la, e, v, p, n);
            lemma_dotz_unit(e, v, c, n);
            let z = Seq::new(n as nat, |k: int| 0int);
            assert forall|k: int| 0 <= k < n implies #[trigger] (av[k] % p) == z[k] % p by {
                lemma_small_mod(0, p as nat);
            }
            lemma_dotz_congr(l[c], av, z, p, n);
            lemma_dotz_zero_vec(l[c], z, n);
            lemma_small_mod(1, p as nat);
            lemma_small_mod(0, p as nat);
        }
    }
}

/// Column `j` of `a` (with `n` rows) is, modulo `p`, a combination of the
/// columns before it.
pub open spec fn in_span_before(a: Seq<Seq<int>>, j: int, n: int, p: int) -> bool {
    exists|y: Seq<int>|
        y.len() == j && forall|i: int| 0 <= i < n ==> #[trigger] (dotz(a[i], y, j) % p) == a[i][j] % p
}

/// A column that gets a pivot row (with zeros in all earlier columns) is no
/// combination of the earlier columns.
proof fn lemma_pivot_independent(
    m: Seq<Vec<u64>>,
    a: Seq<Seq<int>>,
    b: Seq<u64>,
    r: Seq<Seq<int>>,
    f: Seq<Seq<int>>,
    piv: Seq<usize>,
    c: int,
    p: int,
    n: int,
    d: int,
    row: int,
)
    requires
        p > 1,
        a.len() == n,
        b.len() >= n,
        forall|k: int| 0 <= k < n ==> (#[trigger] a[k]).len() == d,
        solve_state(m, augmented(a, b, n, d), r, f, piv, c, p, n, d),
        row == piv.len(),
        row < n,
        0 <= c < d,
        m[row]@[c] != 0,
    ensures
        !in_span_before(a, c, n, p),
{
    let ab = augmented(a, b, n, d);
    if in_span_before(a, c, n, p) {
        let y = choose|y: Seq<int>|
            y.len() == c && forall|i: int| 0 <= i < n ==> #[trigger] (dotz(a[i], y, c) % p) == a[i][c] % p;
        // R[row] (A y) = sum over j < c of y_j m[row][j] = 0.
        lemma_dotz_assoc(r[row], ab, y, n, c);
        let rm = Seq::new(c as nat, |j: int| dotz(r[row], col(ab, j), n));
        let z = Seq::new(c as nat, |j: int| 0int);
        assert forall|j: int| 0 <= j < c implies #[trigger] (rm[j] % p) == (0 * rm[j] + 0 * z[j]) % p by {
            assert(dotz(r[row], col(ab, j), n) % p == m[row]@[j] as int);
            if exists|k: int| 0 <= k < piv.len() && piv[k] == j {
                let k = choose|k: int| 0 <= k < piv.len() && piv[k] == j;
                assert(m[row]@[piv[k] as int] == 0);
            } else {
                assert(m[row]@[j] == 0);
            }
            lemma_small_mod(0, p as nat);
        }
        lemma_dotz_combo(rm, rm, z, y, 0, 0, p, c);
        // ... and it is R[row] times column c, m[row][c].
        let ay = Seq::new(n as nat, |k: int| dotz(ab[k], y, c));
        assert forall|k: int| 0 <= k < n implies #[trigger] (ay[k] % p) == col(ab, c)[k] % p by {
            lemma_dotz_ext(ab[k], a[k], y, y, c);
        }
        lemma_dotz_congr(r[row], ay, col(ab, c), p, n);
        assert(dotz(r[row], col(ab, c), n) % p == m[row]@[c] as int);
        assert(0 * dotz(rm, y, c) + 0 * dotz(z, y, c) == 0);
        lemma_small_mod(0, p as nat);
    }
}

/// Every residue but 0 has an inverse modulo a prime.
proof fn lemma_prime_inverse(y: int, p: int) -> (s: int)
    requires
        is_prime(p as nat),
        0 < y < p,
    ensures
        (s * y) % p == 1,
{
    lemma_prime_units(p as nat, y as nat);
    lemma_small_mod(y as nat, p as nat);
    lemma_mod_self_0(p);
    assert(crate::weights::gcd(y as nat, p as nat) == crate::weights::gcd(p as nat, (y % p) as nat));
    assert(0 * y == 0);
    assert(1 * y == y);
    crate::arith::lemma_classic_xgcd(y as nat, p as nat, 1, 0, y, p);
    lemma_small_mod(1, p as nat);
    crate::arith::classic_xgcd(y as nat, p as nat, 1, 0).1
}

/// `dotz` with the entries of `x` zero from `j` on stops at `j`.
proof fn lemma_dotz_stop(a: Seq<int>, x: Seq<int>, j: int, k: int)
    requires
        0 <= j <= k,
        forall|t: int| j <= t < k ==> #[trigger] x[t] == 0,
    ensures
        dotz(a, x, k) == dotz(a, x, j),
    decreases k - j,
{
    if k > j {
        lemma_dotz_stop(a, x, j, k - 1);
        assert(a[k - 1] * x[k - 1] == 0) by (nonlinear_arith)
            requires
                x[k - 1] == 0,
        ;
    }
}

/// `dotz` is linear in its second argument: `a (u x + v y) = u (a x) + v (a y)`.
proof fn lemma_dotz_linear(a: Seq<int>, x: Seq<int>, y: Seq<int>, z: Seq<int>, u: int, v: int, k: int)
    requires
        0 <= k,
        forall|t: int| 0 <= t < k ==> #[trigger] z[t] == u * x[t] + v * y[t],
    ensures
        dotz(a, z, k) == u * dotz(a, x, k) + v * dotz(a, y, k),
    decreases k,
{
    if k > 0 {
        lemma_dotz_linear(a, x, y, z, u, v, k - 1);
        let (at, xt, yt) = (a[k - 1], x[k - 1], y[k - 1]);
        assert(at * (u * xt + v * yt) == u * (at * xt) + v * (at * yt)) by (nonlinear_arith);
        assert(u * (dotz(a, x, k - 1) + at * xt) == u * dotz(a, x, k - 1) + u * (at * xt)) by (nonlinear_arith);
        assert(v * (dotz(a, y, k - 1) + at * yt) == v * dotz(a, y, k - 1) + v * (at * yt)) by (nonlinear_arith);
    }
}

/// The last place where two sequences of one length differ.
proof fn lemma_last_difference(x: Seq<int>, y: Seq<int>, k: int) -> (j: int)
    requires
        0 <= k <= x.len(),
        x.len() == y.len(),
        exists|t: int| 0 <= t < k && x[t] != y[t],
    ensures
        0 <= j < k,
        x[j] != y[j],
        forall|t: int| j < t < k ==> #[trigger] x[t] == y[t],
    decreases k,
{
    if x[k - 1] != y[k - 1] {
        k - 1
    } else {
        let j = lemma_last_difference(x, y, k - 1);
        j
    }
}

/// One row of the argument for `lemma_independent_solution_unique`: with
/// `a x = a y = b` (mod p) and `x - y` ending at `j` with the unit `e`
/// there (inverse `s`), `a_j` is `a` times `-s (x - y)` before `j`.
#[verifier::spinoff_prover]
proof fn lemma_unique_row(
    a: Seq<int>,
    x: Seq<int>,
    y: Seq<int>,
    dl: Seq<int>,
    w: Seq<int>,
    b: int,
    s: int,
    e: int,
    d: int,
    j: int,
    p: int,
)
    requires
        p > 1,
        0 <= j < d,
        dl.len() == d,
        forall|t: int| 0 <= t < d ==> #[trigger] dl[t] == x[t] - y[t],
        forall|t: int| j < t < d ==> #[trigger] dl[t] == 0,
        w.len() == j,
        forall|t: int| 0 <= t < j ==> #[trigger] w[t] == (-s) * dl[t],
        dotz(a, x, d) % p == b % p,
        dotz(a, y, d) % p == b % p,
        e % p == dl[j] % p,
        (s * e) % p == 1,
    ensures
        dotz(a, w, j) % p == a[j] % p,
{
    let (dx, dy) = (dotz(a, x, d), dotz(a, y, d));
    // a dl = a x - a y = 0 (mod p).
    lemma_dotz_linear(a, x, y, dl, 1, -1, d);
    assert(dotz(a, dl, d) == dx - dy);
    lemma_sub_mod_noop(dx, dy, p);
    lemma_small_mod(0, p as nat);
    assert((dx - dy) % p == 0);
    // dl stops after j.
    lemma_dotz_stop(a, dl, j + 1, d);
    let t0 = dotz(a, dl, j);
    let q = a[j] * dl[j];
    assert(dotz(a, dl, j + 1) == t0 + q);
    assert((t0 + q) % p == 0);
    // a w = -s t0.
    lemma_dotz_linear(a, dl, dl, w, -s, 0, j);
    assert(dotz(a, w, j) == (-s) * t0);
    // s (t0 + q) = s t0 + a_j (s dl_j), and s dl_j = 1 (mod p).
    assert(s * (t0 + q) == s * t0 + a[j] * (s * dl[j])) by (nonlinear_arith)
        requires
            q == a[j] * dl[j],
    ;
    lemma_mul_mod_noop_right(s, t0 + q, p);
    assert(s * 0 == 0);
    assert((s * (t0 + q)) % p == 0);
    lemma_mul_mod_noop_right(s, dl[j], p);
    lemma_mul_mod_noop_right(s, e, p);
    assert((s * dl[j]) % p == 1);
    lemma_mul_mod_noop_right(a[j], s * dl[j], p);
    assert(a[j] * 1 == a[j]);
    assert((a[j] * (s * dl[j])) % p == a[j] % p);
    lemma_add_mod_noop(s * t0, a[j] * (s * dl[j]), p);
    lemma_add_mod_noop(s * t0, a[j], p);
    lemma_mod_twice(a[j], p);
    let big = s * t0 + a[j];
    assert(big % p == 0);
    // -s t0 = a_j - big.
    assert((-s) * t0 == a[j] - big) by (nonlinear_arith)
        requires
            big == s * t0 + a[j],
    ;
    lemma_sub_mod_noop(a[j], big, p);
    assert((a[j] % p) - (big % p) == a[j] % p);
}

/// Over a prime field, a solution of `a x = b` that is zero outside the
/// columns that are no combination of the earlier ones is the only one:
/// the solution that `solve` gives is determined.
pub proof fn lemma_independent_solution_unique(a: Seq<Seq<int>>, b: Seq<int>, x: Seq<int>, y: Seq<int>, n: int, d: int, p: int)
    requires
        is_prime(p as nat),
        a.len() == n,
        b.len() == n,
        forall|i: int| 0 <= i < n ==> (#[trigger] a[i]).len() == d,
        x.len() == d,
        y.len() == d,
        forall|t: int| 0 <= t < d ==> 0 <= #[trigger] x[t] < p,
        forall|t: int| 0 <= t < d ==> 0 <= #[trigger] y[t] < p,
        solves_mod(a, x, b, p),
        solves_mod(a, y, b, p),
        forall|t: int| 0 <= t < d && x[t] != 0 ==> !#[trigger] in_span_before(a, t, n, p),
        forall|t: int| 0 <= t < d && y[t] != 0 ==> !#[trigger] in_span_before(a, t, n, p),
    ensures
        x == y,
{
    if exists|t: int| 0 <= t < d && x[t] != y[t] {
        let j = lemma_last_difference(x, y, d);
        let dl = Seq::new(d as nat, |t: int| x[t] - y[t]);
        assert(!in_span_before(a, j, n, p));
        // dl_j is a unit; its inverse s.
        let e = if dl[j] > 0 { dl[j] } else { dl[j] + p };
        lemma_small_mod(e as nat, p as nat);
        assert(e % p == dl[j] % p) by {
            if dl[j] < 0 {
                lemma_mod_add_multiples_vanish(dl[j], p);
            }
        }
        let s = lemma_prime_inverse(e, p);
        let w = Seq::new(j as nat, |t: int| (-s) * dl[t]);
        assert forall|i: int| 0 <= i < n implies #[trigger] (dotz(a[i], w, j) % p) == a[i][j] % p by {
            lemma_unique_row(a[i], x, y, dl, w, b[i], s, e, d, j, p);
        }
        assert(w.len() == j);
        assert(in_span_before(a, j, n, p));
    }
    assert(x =~= y);
}

// ----- rows as combinations of chosen rows -----------------------------------

/// `r` is, modulo `p`, the combination with the coefficients `c` of the
/// first `k` rows of `s`, in `d` columns.
pub open spec fn combo_of(r: Seq<int>, c: Seq<int>, s: Seq<Seq<int>>, k: int, d: int, p: int) -> bool {
    forall|j: int| 0 <= j < d ==> #[trigger] (r[j] % p) == dotz(c, col(s, j), k) % p
}

/// A combination stays one when a row is added with coefficient 0.
proof fn lemma_combo_grow(r: Seq<int>, c: Seq<int>, s: Seq<Seq<int>>, row: Seq<int>, k: int, d: int, p: int)
    requires
        s.len() == k,
        0 <= k,
        c[k] == 0,
        combo_of(r, c, s, k, d, p),
    ensures
        combo_of(r, c, s.push(row), k + 1, d, p),
{
    let s2 = s.push(row);
    assert forall|j: int| 0 <= j < d implies #[trigger] (r[j] % p) == dotz(c, col(s2, j), k + 1) % p by {
        lemma_dotz_ext(c, c, col(s2, j), col(s, j), k);
        assert(c[k] * col(s2, j)[k] == 0) by (nonlinear_arith)
            requires
                c[k] == 0,
        ;
    }
}

/// `u + t b` of combinations `u` and `b` is the combination with the
/// coefficients `cu + t cb`.
proof fn lemma_combo_add(
    u: Seq<int>,
    cu: Seq<int>,
    b: Seq<int>,
    cb: Seq<int>,
    u2: Seq<int>,
    c2: Seq<int>,
    t: int,
    s: Seq<Seq<int>>,
    k: int,
    d: int,
    p: int,
)
    requires
        p > 0,
        0 <= k,
        combo_of(u, cu, s, k, d, p),
        combo_of(b, cb, s, k, d, p),
        forall|j: int| 0 <= j < d ==> #[trigger] (u2[j] % p) == (u[j] + t * b[j]) % p,
        forall|x: int| 0 <= x < k ==> #[trigger] c2[x] == cu[x] + t * cb[x],
    ensures
        combo_of(u2, c2, s, k, d, p),
{
    assert forall|j: int| 0 <= j < d implies #[trigger] (u2[j] % p) == dotz(c2, col(s, j), k) % p by {
        assert forall|x: int| 0 <= x < k implies #[trigger] (c2[x] % p) == (1 * cu[x] + t * cb[x]) % p by {}
        lemma_dotz_combo(c2, cu, cb, col(s, j), 1, t, p, k);
        let (du, db) = (dotz(cu, col(s, j), k), dotz(cb, col(s, j), k));
        // u + t b = du + t db (mod p)
        lemma_add_mod_noop(u[j], t * b[j], p);
        lemma_mul_mod_noop_right(t, b[j], p);
        lemma_mul_mod_noop_right(t, db, p);
        lemma_add_mod_noop(du, t * db, p);
        assert(1 * du + t * db == du + t * db);
    }
}

/// With its rows all combinations of fewer than `d` rows, a matrix of `d`
/// columns has no left inverse.
proof fn lemma_few_rows_no_left_inverse(
    a: Seq<Seq<int>>,
    s: Seq<Seq<int>>,
    cc: Seq<Seq<int>>,
    k: int,
    n: int,
    d: int,
    p: int,
)
    requires
        p > 1,
        0 <= k < d,
        a.len() == n,
        s.len() == k,
        cc.len() == n,
        forall|y: int| 0 <= y < n ==> (#[trigger] a[y]).len() == d,
        forall|t: int| 0 <= t < k ==> (#[trigger] s[t]).len() == d,
        forall|y: int| 0 <= y < n ==> (#[trigger] cc[y]).len() == d,
        forall|y: int| 0 <= y < n ==> combo_of(#[trigger] a[y], cc[y], s, k, d, p),
    ensures
        forall|l: Seq<Seq<int>>| l.len() == d ==> !#[trigger] left_inverse_of(l, a, d, p),
{
    assert forall|l: Seq<Seq<int>>| l.len() == d implies !#[trigger] left_inverse_of(l, a, d, p) by {
        if left_inverse_of(l, a, d, p) {
            let zero = Seq::new(d as nat, |j: int| 0int);
            let x = Seq::new(
                d as nat,
                |i: int| Seq::new(d as nat, |t: int| if t < k { dotz(l[i], col(cc, t), n) } else { 0 }),
            );
            let s2 = Seq::new(d as nat, |t: int| if t < k { s[t] } else { zero });
            assert forall|i: int, j: int| 0 <= i < x.len() && 0 <= j < d implies #[trigger] (dotz(
                x[i],
                col(s2, j),
                s2.len() as int,
            ) % p) == if i == j { 1int } else { 0 } by {
                assert forall|t: int| k <= t < d implies #[trigger] col(s2, j)[t] == 0 by {}
                lemma_dotz_stop(x[i], col(s2, j), k, d);
                let xi = Seq::new(k as nat, |t: int| dotz(l[i], col(cc, t), n));
                lemma_dotz_ext(x[i], xi, col(s2, j), col(s, j), k);
                lemma_dotz_assoc(l[i], cc, col(s, j), n, k);
                let cs = Seq::new(n as nat, |y: int| dotz(cc[y], col(s, j), k));
                assert forall|y: int| 0 <= y < n implies #[trigger] (cs[y] % p) == col(a, j)[y] % p by {
                    assert(combo_of(a[y], cc[y], s, k, d, p));
                }
                lemma_dotz_congr(l[i], cs, col(a, j), p, n);
                assert(dotz(l[i], col(a, j), a.len() as int) % p == if i == j { 1int } else { 0 });
            }
            lemma_left_inverse_is_right(x, s2, d, p);
            // Row d - 1 of s2 is zero, yet s2 x has a 1 there.
            assert(dotz(s2[d - 1], col(x, d - 1), x.len() as int) % p == 1);
            assert forall|t: int| 0 <= t < d implies #[trigger] (s2[d - 1][t] * col(x, d - 1)[t]) == 0 by {
                assert(s2[d - 1][t] == 0);
            }
            lemma_dotz_zero_terms(s2[d - 1], col(x, d - 1), d);
            lemma_small_mod(0, p as nat);
        }
    }
}

/// `d` distinct places below `d` are all of them.
proof fn lemma_distinct_onto(piv: Seq<int>, d: int, j: int)
    requires
        piv.len() == d,
        forall|q: int| 0 <= q < d ==> 0 <= #[trigger] piv[q] < d,
        forall|q: int, r: int| 0 <= q < d && 0 <= r < d && q != r ==> #[trigger] piv[q] != #[trigger] piv[r],
        0 <= j < d,
    ensures
        exists|q: int| 0 <= q < d && piv[q] == j,
{
    let dom = vstd::set_lib::set_int_range(0, d);
    let f = |q: int| piv[q];
    let img = dom.map(f);
    vstd::set_lib::lemma_int_range(0, d);
    assert(vstd::relations::injective_on(f, dom)) by {
        assert forall|a: int, b: int| dom.contains(a) && dom.contains(b) && #[trigger] f(a) == #[trigger] f(b) implies a == b by {
            if a != b {
                assert(piv[a] != piv[b]);
            }
        }
    }
    vstd::set_lib::lemma_map_size(dom, img, f);
    assert(img.subset_of(dom)) by {
        assert forall|x: int| #[trigger] img.contains(x) implies dom.contains(x) by {
            let q = choose|q: int| dom.contains(q) && f(q) == x;
        }
    }
    vstd::set_lib::lemma_subset_equality(img, dom);
    assert(dom.contains(j));
    assert(img.contains(j));
    let q = choose|q: int| dom.contains(q) && f(q) == j;
    assert(0 <= q < d && piv[q] == j);
}

/// Rows in echelon form with a pivot in every column have no kernel: a
/// residue vector they all send to 0 is 0 (from the last pivot back).
proof fn lemma_echelon_kernel(b: Seq<Seq<int>>, piv: Seq<int>, x: Seq<int>, d: int, p: int, m: int)
    requires
        p > 1,
        0 <= m <= d,
        b.len() == d,
        piv.len() == d,
        x.len() == d,
        forall|t: int| 0 <= t < d ==> 0 <= #[trigger] x[t] < p,
        forall|q: int| 0 <= q < d ==> 0 <= #[trigger] piv[q] < d,
        forall|q: int, r: int| 0 <= q < d && 0 <= r < d && q != r ==> #[trigger] piv[q] != #[trigger] piv[r],
        forall|q: int| 0 <= q < d ==> #[trigger] b[q][piv[q]] == 1,
        forall|q: int, r: int| 0 <= r < q < d ==> #[trigger] b[q][piv[r]] == 0,
        forall|q: int| 0 <= q < d ==> #[trigger] (dotz(b[q], x, d) % p) == 0,
    ensures
        forall|q: int| m <= q < d ==> #[trigger] x[piv[q]] == 0,
    decreases d - m,
{
    if m < d {
        lemma_echelon_kernel(b, piv, x, d, p, m + 1);
        // Row m: its pivot term alone survives.
        assert forall|j: int| 0 <= j < d && j != piv[m] implies #[trigger] (b[m][j] * x[j]) == 0 by {
            lemma_distinct_onto(piv, d, j);
            let r = choose|r: int| 0 <= r < d && piv[r] == j;
            if r < m {
                assert(b[m][piv[r]] == 0);
                assert(b[m][j] * x[j] == 0) by (nonlinear_arith)
                    requires
                        b[m][j] == 0,
                ;
            } else {
                assert(r != m);
                assert(x[piv[r]] == 0);
                assert(b[m][j] * x[j] == 0) by (nonlinear_arith)
                    requires
                        x[j] == 0,
                ;
            }
        }
        lemma_dotz_single(b[m], x, piv[m], d);
        assert(b[m][piv[m]] * x[piv[m]] == x[piv[m]]);
        lemma_small_mod(x[piv[m]] as nat, p as nat);
    }
}

/// A square matrix that sends no non-zero residue vector to 0 has a left
/// inverse. (As a map of the finitely many residue vectors it is one-to-one,
/// so onto; the preimages of the unit vectors form a right inverse, which
/// is a left inverse too.)
proof fn lemma_kernel_left_inverse(s: Seq<Seq<int>>, d: int, p: int)
    requires
        p > 1,
        d >= 0,
        s.len() == d,
        forall|i: int| 0 <= i < d ==> (#[trigger] s[i]).len() == d,
        forall|x: Seq<int>|
            #[trigger] residue_vectors(d as nat, p).contains(x) && (forall|i: int| 0 <= i < d ==> (dotz(s[i], x, d)
                % p) == 0) ==> (forall|t: int| 0 <= t < d ==> x[t] == 0),
    ensures
        exists|l: Seq<Seq<int>>|
            l.len() == d && (forall|i: int| 0 <= i < d ==> (#[trigger] l[i]).len() == d) && left_inverse_of(l, s, d, p),
{
    let v = residue_vectors(d as nat, p);
    let f = |x: Seq<int>| apply_mod(s, x, d, p);
    lemma_residue_vectors_finite(d as nat, p);
    assert(vstd::relations::injective_on(f, v)) by {
        assert forall|x: Seq<int>, y: Seq<int>| v.contains(x) && v.contains(y) && #[trigger] f(x) == #[trigger] f(y) implies x == y by {
            let z = Seq::new(d as nat, |t: int| (x[t] - y[t]) % p);
            assert forall|t: int| 0 <= t < d implies 0 <= #[trigger] z[t] < p by {
                lemma_mod_bound(x[t] - y[t], p);
            }
            assert(v.contains(z));
            assert forall|i: int| 0 <= i < d implies (dotz(s[i], z, d) % p) == 0 by {
                let dl = Seq::new(d as nat, |t: int| x[t] - y[t]);
                lemma_dotz_linear(s[i], x, y, dl, 1, -1, d);
                assert forall|t: int| 0 <= t < d implies #[trigger] (z[t] % p) == dl[t] % p by {
                    lemma_mod_twice(dl[t], p);
                }
                lemma_dotz_congr(s[i], z, dl, p, d);
                assert(f(x)[i] == f(y)[i]);
                assert(dotz(s[i], x, d) % p == dotz(s[i], y, d) % p);
                lemma_sub_mod_noop(dotz(s[i], x, d), dotz(s[i], y, d), p);
                assert(1 * dotz(s[i], x, d) + (-1) * dotz(s[i], y, d) == dotz(s[i], x, d) - dotz(s[i], y, d));
                lemma_small_mod(0, p as nat);
            }
            assert forall|t: int| 0 <= t < d implies x[t] == y[t] by {
                assert(z[t] == 0);
                lemma_fundamental_div_mod(x[t] - y[t], p);
                lemma_small_mod(x[t] as nat, p as nat);
                if x[t] != y[t] {
                    assert(((x[t] - y[t]) / p) * p == x[t] - y[t]) by {
                        lemma_fundamental_div_mod(x[t] - y[t], p);
                    }
                    let q = (x[t] - y[t]) / p;
                    assert(q != 0);
                    assert(q * p >= p || q * p <= -p) by (nonlinear_arith)
                        requires
                            q != 0,
                            p > 1,
                    ;
                }
            }
            assert(x =~= y);
        }
    }
    let img = v.map(f);
    vstd::set_lib::lemma_map_size(v, img, f);
    assert(img.subset_of(v)) by {
        assert forall|y: Seq<int>| #[trigger] img.contains(y) implies v.contains(y) by {
            let x = choose|x: Seq<int>| v.contains(x) && f(x) == y;
            assert forall|k: int| 0 <= k < d implies 0 <= #[trigger] y[k] < p by {
                lemma_mod_bound(dotz(s[k], x, d), p);
            }
        }
    }
    vstd::set_lib::lemma_subset_equality(img, v);
    // The preimages of the unit vectors, as the columns of y.
    let pre = Seq::new(
        d as nat,
        |j: int| choose|x: Seq<int>| v.contains(x) && f(x) == Seq::new(d as nat, |k: int| if k == j { 1int } else { 0 }),
    );
    assert forall|j: int| 0 <= j < d implies #[trigger] v.contains(pre[j]) && f(pre[j]) == Seq::new(
        d as nat,
        |k: int| if k == j { 1int } else { 0 },
    ) by {
        let e = Seq::new(d as nat, |k: int| if k == j { 1int } else { 0 });
        assert(v.contains(e));
        assert(img.contains(e));
    }
    let y = Seq::new(d as nat, |i: int| Seq::new(d as nat, |j: int| pre[j][i]));
    assert forall|i: int, j: int| 0 <= i < s.len() && 0 <= j < d implies #[trigger] (dotz(s[i], col(y, j), y.len() as int)
        % p) == if i == j { 1int } else { 0 } by {
        assert(v.contains(pre[j]));
        lemma_dotz_ext(s[i], s[i], col(y, j), pre[j], d);
        assert(f(pre[j])[i] == dotz(s[i], pre[j], d) % p);
    }
    lemma_left_inverse_is_right(s, y, d, p);
    assert(y.len() == d && (forall|i: int| 0 <= i < d ==> (#[trigger] y[i]).len() == d) && left_inverse_of(y, s, d, p));
}

/// A new chosen row `am_i` whose reduction `r` (with `am_i - r` the
/// combination `cr` of the chosen rows) is scaled by `inv`: the result is a
/// combination of the chosen rows with `am_i` added.
proof fn lemma_combo_new_row(
    diff: Seq<int>,
    cr: Seq<int>,
    r: Seq<int>,
    am_i: Seq<int>,
    b: Seq<int>,
    c_new: Seq<int>,
    inv: int,
    s: Seq<Seq<int>>,
    k: int,
    d: int,
    p: int,
)
    requires
        p > 0,
        0 <= k,
        s.len() == k,
        am_i.len() == d,
        combo_of(diff, cr, s, k, d, p),
        forall|j: int| 0 <= j < d ==> #[trigger] diff[j] == am_i[j] - r[j],
        forall|j: int| 0 <= j < d ==> #[trigger] b[j] == (r[j] * inv) % p,
        forall|t: int| 0 <= t < k ==> #[trigger] c_new[t] == (-inv) * cr[t],
        c_new[k] == inv,
    ensures
        combo_of(b, c_new, s.push(am_i), k + 1, d, p),
{
    let s2 = s.push(am_i);
    assert forall|j: int| 0 <= j < d implies #[trigger] (b[j] % p) == dotz(c_new, col(s2, j), k + 1) % p by {
        lemma_dotz_ext(c_new, c_new, col(s2, j), col(s, j), k);
        assert(col(s2, j)[k] == am_i[j]);
        let dc = dotz(cr, col(s, j), k);
        assert forall|t: int| 0 <= t < k implies #[trigger] (c_new[t] % p) == ((-inv) * cr[t] + 0 * cr[t]) % p by {}
        lemma_dotz_combo(c_new, cr, cr, col(s, j), -inv, 0, p, k);
        let dn = dotz(c_new, col(s, j), k);
        assert((-inv) * dc + 0 * dc == (-inv) * dc);
        // dn = -inv dc = -inv diff_j (mod p), and the total is inv (am_i_j - diff_j) = inv r_j.
        lemma_mul_mod_noop_right(-inv, dc, p);
        lemma_mul_mod_noop_right(-inv, diff[j], p);
        assert(dn % p == ((-inv) * diff[j]) % p);
        lemma_add_mod_noop(dn, inv * am_i[j], p);
        lemma_add_mod_noop((-inv) * diff[j], inv * am_i[j], p);
        assert((-inv) * diff[j] + inv * am_i[j] == r[j] * inv) by (nonlinear_arith)
            requires
                diff[j] == am_i[j] - r[j],
        ;
        assert(dotz(c_new, col(s2, j), k + 1) == dn + c_new[k] * col(s2, j)[k]);
        lemma_mod_twice(r[j] * inv, p);
    }
}

/// Rows in echelon form with a pivot in each of the `d` columns, each a
/// combination of the rows `s`: then `s` has a left inverse.
proof fn lemma_basis_left_inverse(s: Seq<Seq<int>>, bm: Seq<Seq<int>>, tco: Seq<Seq<int>>, piv: Seq<int>, d: int, p: int)
    requires
        p > 1,
        d >= 0,
        s.len() == d,
        bm.len() == d,
        tco.len() == d,
        piv.len() == d,
        forall|i: int| 0 <= i < d ==> (#[trigger] s[i]).len() == d,
        forall|i: int| 0 <= i < d ==> (#[trigger] bm[i]).len() == d,
        forall|i: int| 0 <= i < d ==> (#[trigger] tco[i]).len() == d,
        forall|q: int| 0 <= q < d ==> combo_of(#[trigger] bm[q], tco[q], s, d, d, p),
        forall|q: int| 0 <= q < d ==> 0 <= #[trigger] piv[q] < d,
        forall|q: int, r: int| 0 <= q < d && 0 <= r < d && q != r ==> #[trigger] piv[q] != #[trigger] piv[r],
        forall|q: int| 0 <= q < d ==> #[trigger] bm[q][piv[q]] == 1,
        forall|q: int, r: int| 0 <= r < q < d ==> #[trigger] bm[q][piv[r]] == 0,
    ensures
        exists|l: Seq<Seq<int>>|
            l.len() == d && (forall|i: int| 0 <= i < d ==> (#[trigger] l[i]).len() == d) && left_inverse_of(l, s, d, p),
{
    assert forall|x: Seq<int>|
        #[trigger] residue_vectors(d as nat, p).contains(x) && (forall|i: int| 0 <= i < d ==> (dotz(s[i], x, d) % p) == 0)
            implies (forall|t: int| 0 <= t < d ==> x[t] == 0) by {
        // The echelon rows send x to 0 too.
        assert forall|q: int| 0 <= q < d implies #[trigger] (dotz(bm[q], x, d) % p) == 0 by {
            let ts = Seq::new(d as nat, |j: int| dotz(tco[q], col(s, j), d));
            assert forall|j: int| 0 <= j < d implies #[trigger] (bm[q][j] % p) == ts[j] % p by {
                assert(combo_of(bm[q], tco[q], s, d, d, p));
                lemma_mod_twice(ts[j], p);
            }
            lemma_dotz_congr_left(bm[q], ts, x, p, d);
            lemma_dotz_assoc(tco[q], s, x, d, d);
            let sx = Seq::new(d as nat, |t: int| dotz(s[t], x, d));
            let z = Seq::new(d as nat, |t: int| 0int);
            assert forall|t: int| 0 <= t < d implies #[trigger] (sx[t] % p) == z[t] % p by {
                lemma_small_mod(0, p as nat);
            }
            lemma_dotz_congr(tco[q], sx, z, p, d);
            lemma_dotz_zero_vec(tco[q], z, d);
            lemma_small_mod(0, p as nat);
        }
        lemma_echelon_kernel(bm, piv, x, d, p, 0);
        assert forall|t: int| 0 <= t < d implies x[t] == 0 by {
            lemma_distinct_onto(piv, d, t);
            let q = choose|q: int| 0 <= q < d && piv[q] == t;
            assert(x[piv[q]] == 0);
        }
    }
    lemma_kernel_left_inverse(s, d, p);
}

/// After all columns, a row of zeros with a non-zero right-hand side makes
/// the system unsolvable.
proof fn lemma_solve_none(
    m: Seq<Vec<u64>>,
    a: Seq<Seq<int>>,
    b: Seq<u64>,
    r: Seq<Seq<int>>,
    f: Seq<Seq<int>>,
    piv: Seq<usize>,
    p: int,
    n: int,
    d: int,
    i: int,
)
    requires
        p > 1,
        0 <= d,
        b.len() >= n,
        a.len() == n,
        forall|k: int| 0 <= k < n ==> (#[trigger] a[k]).len() == d,
        solve_state(m, augmented(a, b, n, d), r, f, piv, d, p, n, d),
        piv.len() <= i < n,
        m[i]@[d] != 0,
    ensures
        forall|x: Seq<int>| x.len() == d ==> !#[trigger] solves_mod(a, x, ints(b), p),
{
    let ab = augmented(a, b, n, d);
    assert forall|x: Seq<int>| x.len() == d implies !#[trigger] solves_mod(a, x, ints(b), p) by {
        if solves_mod(a, x, ints(b), p) {
            let mi = int_rows(m);
            // The row is zero on the left.
            assert forall|j: int| 0 <= j < d implies #[trigger] (mi[i][j] * x[j]) == 0 by {
                if exists|k: int| 0 <= k < piv.len() && piv[k] == j {
                    let k = choose|k: int| 0 <= k < piv.len() && piv[k] == j;
                    assert(m[i]@[piv[k] as int] == 0);
                } else {
                    assert(m[i]@[j] == 0);
                }
                assert(mi[i][j] == 0);
            }
            lemma_dotz_zero_terms(mi[i], x, d);
            // ... and R times the system on the left.
            let rs = Seq::new(d as nat, |j: int| dotz(r[i], col(ab, j), n));
            assert forall|j: int| 0 <= j < d implies #[trigger] (mi[i][j] % p) == rs[j] % p by {
                assert(mi[i][j] == m[i]@[j] as int);
                lemma_mod_twice(rs[j], p);
                lemma_small_mod(m[i]@[j] as nat, p as nat);
            }
            lemma_dotz_congr_left(mi[i], rs, x, p, d);
            lemma_dotz_assoc(r[i], ab, x, n, d);
            let u = Seq::new(n as nat, |k: int| dotz(ab[k], x, d));
            assert forall|k: int| 0 <= k < n implies #[trigger] (u[k] % p) == col(ab, d)[k] % p by {
                lemma_dotz_ext(ab[k], a[k], x, x, d);
                assert(dotz(a[k], x, x.len() as int) % p == ints(b)[k] % p);
            }
            lemma_dotz_congr(r[i], u, col(ab, d), p, n);
            assert(dotz(r[i], col(ab, d), n) % p == m[i]@[d] as int);
            lemma_small_mod(0, p as nat);
        }
    }
}

/// The solution with the right-hand sides at the pivots and zeros for the
/// free variables solves the system.
proof fn lemma_solve_some(
    m: Seq<Vec<u64>>,
    a: Seq<Seq<int>>,
    b: Seq<u64>,
    r: Seq<Seq<int>>,
    f: Seq<Seq<int>>,
    piv: Seq<usize>,
    c: int,
    p: int,
    n: int,
    d: int,
    x: Seq<int>,
)
    requires
        p > 1,
        0 <= d,
        b.len() >= n,
        a.len() == n,
        forall|k: int| 0 <= k < n ==> (#[trigger] a[k]).len() == d,
        solve_state(m, augmented(a, b, n, d), r, f, piv, c, p, n, d),
        c == d || piv.len() == n,
        forall|i: int| piv.len() <= i < n ==> #[trigger] m[i]@[d] == 0,
        x.len() == d,
        forall|l: int| 0 <= l < piv.len() ==> x[#[trigger] piv[l] as int] == m[l]@[d] as int,
        forall|j: int| 0 <= j < d && !(exists|l: int| 0 <= l < piv.len() && piv[l] == j) ==> #[trigger] x[j] == 0,
    ensures
        solves_mod(a, x, ints(b), p),
{
    let ab = augmented(a, b, n, d);
    let mi = int_rows(m);
    // Each row of m gives its right-hand side.
    assert forall|i: int| 0 <= i < n implies #[trigger] dotz(mi[i], x, d) == mi[i][d] by {
        if i < piv.len() {
            let q = piv[i] as int;
            assert forall|j: int| 0 <= j < d && j != q implies #[trigger] (mi[i][j] * x[j]) == 0 by {
                if exists|l: int| 0 <= l < piv.len() && piv[l] == j {
                    let l = choose|l: int| 0 <= l < piv.len() && piv[l] == j;
                    assert(m[i]@[piv[l] as int] == 0);
                    assert(mi[i][j] == 0);
                } else {
                    assert(x[j] == 0);
                }
            }
            lemma_dotz_single(mi[i], x, q, d);
            assert(mi[i][q] == 1);
            assert(x[q] == m[i]@[d] as int);
            assert(mi[i][d] == m[i]@[d] as int);
            assert(mi[i][q] * x[q] == x[q]) by (nonlinear_arith)
                requires
                    mi[i][q] == 1,
            ;
        } else {
            assert(c == d);
            assert forall|j: int| 0 <= j < d implies #[trigger] (mi[i][j] * x[j]) == 0 by {
                if exists|l: int| 0 <= l < piv.len() && piv[l] == j {
                    let l = choose|l: int| 0 <= l < piv.len() && piv[l] == j;
                    assert(m[i]@[piv[l] as int] == 0);
                } else {
                    assert(m[i]@[j] == 0);
                }
                assert(mi[i][j] == 0);
            }
            lemma_dotz_zero_terms(mi[i], x, d);
        }
    }
    assert forall|k: int| 0 <= k < a.len() implies #[trigger] (dotz(a[k], x, x.len() as int) % p) == ints(b)[k] % p by {
        let fs = Seq::new(d as nat, |j: int| dotz(f[k], col(mi, j), n));
        assert forall|j: int| 0 <= j < d implies #[trigger] (a[k][j] % p) == fs[j] % p by {
            assert(ab[k][j] == a[k][j]);
            lemma_mod_twice(fs[j], p);
            lemma_small_mod(0, p as nat);
            assert(a[k][j] == fs[j] % p);
            lemma_mod_bound(fs[j], p);
            lemma_small_mod((fs[j] % p) as nat, p as nat);
        }
        lemma_dotz_congr_left(a[k], fs, x, p, d);
        lemma_dotz_assoc(f[k], mi, x, n, d);
        let u = Seq::new(n as nat, |i: int| dotz(mi[i], x, d));
        lemma_dotz_ext(f[k], f[k], u, col(mi, d), n);
        assert(ab[k][d] == b[k] as int);
        lemma_small_mod(b[k] as nat, p as nat);
    }
}

/// The identity matrix with `n` rows.
pub open spec fn identity(n: int) -> Seq<Seq<int>> {
    Seq::new(n as nat, |i: int| Seq::new(n as nat, |k: int| if k == i { 1int } else { 0 }))
}

impl Dense {
    /// A solution of `M x = b` whose free variables are zero, pivoting on
    /// the first columns possible, if there is one.
    pub fn solve(&self, f: &Nmod, b: &[u64]) -> (r: Option<Vec<u64>>)
        requires
            self.wf(f.n as int),
            is_prime(f.n as nat),
            b.len() >= self.shape().0,
            forall|i: int| 0 <= i < b.len() ==> #[trigger] b@[i] < f.n,
            self.shape().1 < usize::MAX,
        ensures
            r matches Some(x) ==> x.len() == self.shape().1 && solves_mod(self.matrix(), ints(x@), ints(b@), f.n as int),
            r matches Some(x) ==> forall|j: int| 0 <= j < x.len() ==> #[trigger] x@[j] < f.n,
            r is None ==> forall|x: Seq<int>| x.len() == self.shape().1 ==> !#[trigger] solves_mod(
                self.matrix(),
                x,
                ints(b@),
                f.n as int,
            ),
            r matches Some(x) ==> forall|j: int| 0 <= j < x.len() && x@[j] != 0 ==> !#[trigger] in_span_before(
                self.matrix(),
                j,
                self.shape().0,
                f.n as int,
            ),
    {
        let (n, d) = (self.rows, self.cols);
        let p = f.n;
        let ghost a = self.matrix();
        let ghost ab = augmented(a, b@, n as int, d as int);
        proof {
            self.lemma_matrix_shape(p as int);
        }
        // [A | b]
        let mut m: Vec<Vec<u64>> = Vec::with_capacity(n);
        let mut i: usize = 0;
        while i < n
            invariant
                self.wf(p as int),
                n == self.rows,
                d == self.cols,
                d < usize::MAX,
                p == f.n,
                b.len() >= n,
                a == self.matrix(),
                ab == augmented(a, b@, n as int, d as int),
                i <= n,
                m.len() == i,
                forall|x: int| 0 <= x < i ==> (#[trigger] m@[x]).len() == d + 1,
                forall|x: int, k: int| 0 <= x < i && 0 <= k <= d ==> #[trigger] m@[x]@[k] as int == ab[x][k],
            decreases n - i,
        {
            let mut row: Vec<u64> = Vec::with_capacity(d + 1);
            let mut k: usize = 0;
            while k < d
                invariant
                    self.wf(p as int),
                    n == self.rows,
                    d == self.cols,
                    i < n,
                    k <= d,
                    row.len() == k,
                    forall|t: int| 0 <= t < k ==> #[trigger] row@[t] == self.a@[i as int]@[t],
                decreases d - k,
            {
                row.push(self.a[i][k]);
                k += 1;
            }
            row.push(b[i]);
            proof {
                assert forall|k: int| 0 <= k <= d implies #[trigger] row@[k] as int == ab[i as int][k] by {
                    if k < d {
                        assert(a[i as int][k] == self.a@[i as int]@[k] as int);
                    }
                }
            }
            m.push(row);
            i += 1;
        }
        let ghost mut rr: Seq<Seq<int>> = identity(n as int);
        let ghost mut ff: Seq<Seq<int>> = identity(n as int);
        proof {
            let mi = int_rows(m@);
            assert forall|x: int, k: int| 0 <= x < n && 0 <= k <= d implies #[trigger] m@[x]@[k] < p by {
                assert(m@[x]@[k] as int == ab[x][k]);
                if k < d {
                    assert(self.a@[x]@[k] < p);
                }
            }
            assert forall|x: int, j: int| 0 <= x < n && 0 <= j <= d implies #[trigger] (dotz(rr[x], col(ab, j), n as int)
                % (p as int)) == m@[x]@[j] as int by {
                lemma_dotz_unit(rr[x], col(ab, j), x, n as int);
                lemma_small_mod(m@[x]@[j] as nat, p as nat);
            }
            assert forall|x: int, j: int| 0 <= x < n && 0 <= j <= d implies #[trigger] ab[x][j] == dotz(
                ff[x],
                col(mi, j),
                n as int,
            ) % (p as int) by {
                lemma_dotz_unit(ff[x], col(mi, j), x, n as int);
                lemma_small_mod(m@[x]@[j] as nat, p as nat);
            }
            assert(solve_state(m@, ab, rr, ff, Seq::<usize>::empty(), 0, p as int, n as int, d as int));
        }
        let mut pivots: Vec<usize> = Vec::new();
        let mut c: usize = 0;
        while c < d && pivots.len() < n
            invariant
                n == self.rows,
                d == self.cols,
                d < usize::MAX,
                p == f.n,
                is_prime(p as nat),
                b.len() >= n,
                a == self.matrix(),
                ab == augmented(a, b@, n as int, d as int),
                c <= d,
                solve_state(m@, ab, rr, ff, pivots@, c as int, p as int, n as int, d as int),
                self.wf(p as int),
                forall|k: int| 0 <= k < pivots@.len() ==> !#[trigger] in_span_before(a, pivots@[k] as int, n as int, p as int),
            decreases d - c,
        {
            let row = pivots.len();
            let mut r = row;
            while r < n && m[r][c] == 0
                invariant
                    row <= r <= n,
                    row == pivots.len(),
                    c < d,
                    solve_state(m@, ab, rr, ff, pivots@, c as int, p as int, n as int, d as int),
                    forall|i: int| row <= i < r ==> #[trigger] m@[i]@[c as int] == 0,
                decreases n - r,
            {
                r += 1;
            }
            if r == n {
                proof {
                    lemma_no_pivot(m@, ab, rr, ff, pivots@, c as int, p as int, n as int, d as int);
                }
                c += 1;
                continue;
            }
            if r != row {
                let ghost before = m@;
                let mut tmp: Vec<u64> = Vec::new();
                m.set_and_swap(r, &mut tmp);
                m.set_and_swap(row, &mut tmp);
                m.set_and_swap(r, &mut tmp);
                proof {
                    assert(m@ =~= before.update(r as int, before[row as int]).update(row as int, before[r as int]));
                    lemma_swap_state(before, m@, ab, rr, ff, pivots@, c as int, p as int, n as int, d as int, r as int, row as int);
                    rr = rr.update(r as int, rr[row as int]).update(row as int, rr[r as int]);
                    ff = swap_cols(ff, r as int, row as int);
                }
            }
            // Scale the pivot row to 1.
            let v = m[row][c];
            proof {
                lemma_prime_units(p as nat, v as nat);
                self.lemma_matrix_shape(p as int);
                lemma_pivot_independent(m@, a, b@, rr, ff, pivots@, c as int, p as int, n as int, d as int, row as int);
            }
            let inv = match f.inv(v) {
                Some(inv) => inv,
                None => return None,
            };
            let ghost before = m@;
            let mut rowc: Vec<u64> = Vec::new();
            m.set_and_swap(row, &mut rowc);
            let ghost old_c = rowc@;
            scale_row(f, &mut rowc, c, inv);
            proof {
                assert forall|k: int| 0 <= k <= d implies #[trigger] (rowc@[k] as int) == (old_c[k] * inv) % (p as int) by {
                    if k < c {
                        if exists|l: int| 0 <= l < pivots@.len() && pivots@[l] == k {
                            let l = choose|l: int| 0 <= l < pivots@.len() && pivots@[l] == k;
                            assert(before[row as int]@[pivots@[l] as int] == 0);
                        } else {
                            assert(before[row as int]@[k] == 0);
                        }
                        assert(old_c[k] * inv == 0) by (nonlinear_arith)
                            requires
                                old_c[k] == 0,
                        ;
                        lemma_small_mod(0, p as nat);
                    } else {
                        lemma_mod_bound(old_c[k] * inv, p as int);
                    }
                }
                assert((v * inv) % (p as int) == 1) by {
                    lemma_small_mod(1, p as nat);
                }
            }
            m.set_and_swap(row, &mut rowc);
            proof {
                lemma_scale_state(before, m@, ab, rr, ff, pivots@, c as int, p as int, n as int, d as int, row as int, v as int, inv as int);
                rr = rr.update(row as int, Seq::new(n as nat, |k: int| rr[row as int][k] * inv));
                ff = Seq::new(n as nat, |i: int| ff[i].update(row as int, ff[i][row as int] * v));
            }
            // Clear the column in the other rows.
            let ghost pivot = m@[row as int];
            let mut x: usize = 0;
            while x < n
                invariant
                    n == self.rows,
                    d == self.cols,
                    p == f.n,
                    p >= 2,
                    c < d,
                    row == pivots.len(),
                    row < n,
                    x <= n,
                    m@[row as int] == pivot,
                    pivot@[c as int] == 1,
                    solve_state(m@, ab, rr, ff, pivots@, c as int, p as int, n as int, d as int),
                    forall|i: int| 0 <= i < x && i != row ==> #[trigger] m@[i]@[c as int] == 0,
                decreases n - x,
            {
                if x != row && m[x][c] != 0 {
                    let t = m[x][c];
                    let ghost before = m@;
                    let mut rowx: Vec<u64> = Vec::new();
                    m.set_and_swap(x, &mut rowx);
                    let ghost old_x = rowx@;
                    eliminate_row(f, &mut rowx, &m[row], c, t);
                    proof {
                        assert forall|k: int| 0 <= k <= d implies #[trigger] (rowx@[k] as int) == (old_x[k] - t * pivot@[k])
                            % (p as int) by {
                            if k >= c && pivot@[k] != 0 {
                                lemma_mod_twice(t * pivot@[k], p as int);
                                lemma_sub_mod_noop(old_x[k] as int, t * pivot@[k], p as int);
                                lemma_mod_twice(old_x[k] as int, p as int);
                                lemma_small_mod(old_x[k] as nat, p as nat);
                            } else {
                                if k < c {
                                    if exists|l: int| 0 <= l < pivots@.len() && pivots@[l] == k {
                                        let l = choose|l: int| 0 <= l < pivots@.len() && pivots@[l] == k;
                                        assert(before[row as int]@[pivots@[l] as int] == 0);
                                    } else {
                                        assert(before[row as int]@[k] == 0);
                                    }
                                }
                                assert(t * pivot@[k] == 0) by (nonlinear_arith)
                                    requires
                                        pivot@[k] == 0,
                                ;
                                lemma_small_mod(old_x[k] as nat, p as nat);
                            }
                        }
                    }
                    m.set_and_swap(x, &mut rowx);
                    proof {
                        lemma_elim_state(before, m@, ab, rr, ff, pivots@, c as int, p as int, n as int, d as int, row as int, x as int, t as int);
                        rr = rr.update(x as int, Seq::new(n as nat, |k: int| rr[x as int][k] - t * rr[row as int][k]));
                        ff = Seq::new(n as nat, |i: int| ff[i].update(row as int, ff[i][row as int] + t * ff[i][x as int]));
                        assert(m@[x as int]@[c as int] == 0) by {
                            assert((m@[x as int]@[c as int] as int) == (old_x[c as int] - t * pivot@[c as int]) % (p as int));
                            lemma_small_mod(0, p as nat);
                        }
                    }
                }
                x += 1;
            }
            proof {
                lemma_pivot_done(m@, ab, rr, ff, pivots@, c as int, p as int, n as int, d as int);
            }
            pivots.push(c);
            proof {
                assert forall|k: int| 0 <= k < pivots@.len() implies !#[trigger] in_span_before(a, pivots@[k] as int, n as int, p as int) by {
                    if k == pivots@.len() - 1 {
                        assert(pivots@[k] == c);
                    }
                }
            }
            c += 1;
        }
        // The system is solvable if the rows below the pivots have no
        // right-hand side.
        let mut i = pivots.len();
        while i < n
            invariant
                self.wf(p as int),
                n == self.rows,
                d == self.cols,
                p == f.n,
                p >= 2,
                b.len() >= n,
                a == self.matrix(),
                ab == augmented(a, b@, n as int, d as int),
                c == d || pivots.len() == n,
                solve_state(m@, ab, rr, ff, pivots@, c as int, p as int, n as int, d as int),
                pivots.len() <= i <= n,
                forall|k: int| pivots.len() <= k < i ==> #[trigger] m@[k]@[d as int] == 0,
            decreases n - i,
        {
            if m[i][d] != 0 {
                proof {
                    self.lemma_matrix_shape(p as int);
                    lemma_solve_none(m@, a, b@, rr, ff, pivots@, p as int, n as int, d as int, i as int);
                }
                return None;
            }
            i += 1;
        }
        let mut x: Vec<u64> = Vec::with_capacity(d);
        let mut j: usize = 0;
        while j < d
            invariant
                j <= d,
                x.len() == j,
                forall|t: int| 0 <= t < j ==> #[trigger] x@[t] == 0,
            decreases d - j,
        {
            x.push(0);
            j += 1;
        }
        let mut l: usize = 0;
        while l < pivots.len()
            invariant
                n == self.rows,
                d == self.cols,
                l <= pivots.len(),
                x.len() == d,
                solve_state(m@, ab, rr, ff, pivots@, c as int, p as int, n as int, d as int),
                forall|k: int| 0 <= k < l ==> x@[#[trigger] pivots@[k] as int] == m@[k]@[d as int],
                forall|t: int| 0 <= t < d && !(exists|k: int| 0 <= k < l && pivots@[k] == t) ==> #[trigger] x@[t] == 0,
                forall|t: int| 0 <= t < d ==> #[trigger] x@[t] < p,
            decreases pivots.len() - l,
        {
            let v = m[l][d];
            x.set(pivots[l], v);
            assert(v < p);
            proof {
                assert forall|k: int| 0 <= k < l + 1 implies x@[#[trigger] pivots@[k] as int] == m@[k]@[d as int] by {
                    if k < l {
                        assert(pivots@[k] < pivots@[l as int]);
                    }
                }
                assert forall|t: int| 0 <= t < d && !(exists|k: int| 0 <= k < l + 1 && pivots@[k] == t) implies #[trigger] x@[t]
                    == 0 by {
                    assert(pivots@[l as int] != t);
                }
            }
            l += 1;
        }
        proof {
            self.lemma_matrix_shape(p as int);
            let xi = ints(x@);
            assert forall|k: int| 0 <= k < pivots@.len() implies xi[#[trigger] pivots@[k] as int] == m@[k]@[d as int] as int by {}
            assert forall|t: int| 0 <= t < d && !(exists|k: int| 0 <= k < pivots@.len() && pivots@[k] == t) implies #[trigger] xi[t]
                == 0 by {}
            lemma_solve_some(m@, a, b@, rr, ff, pivots@, c as int, p as int, n as int, d as int, xi);
        }
        Some(x)
    }
}

/// A row that is zero outside the listed columns has the `dotz` of its
/// listed entries.
proof fn lemma_dotz_sparse(
    lrow: Seq<int>,
    g: Seq<int>,
    srow: Seq<int>,
    h: Seq<int>,
    chosen: Seq<usize>,
    mem: Seq<bool>,
    at: Seq<int>,
    n: int,
    k: int,
)
    requires
        0 <= k <= n,
        listing(chosen, mem, at, n),
        forall|x: int| 0 <= x < n && !mem[x] ==> lrow[x] == 0,
        forall|q: int| 0 <= q < chosen.len() ==> lrow[chosen[q] as int] == srow[q] && g[chosen[q] as int] == h[q],
    ensures
        0 <= at[k] <= chosen.len(),
        dotz(lrow, g, k) == dotz(srow, h, at[k]),
    decreases k,
{
    if k > 0 {
        lemma_dotz_sparse(lrow, g, srow, h, chosen, mem, at, n, k - 1);
        let x = k - 1;
        if mem[x] {
            let t = at[x];
            assert(chosen[t] == x);
        } else {
            assert(lrow[x] * g[x] == 0) by (nonlinear_arith)
                requires
                    lrow[x] == 0,
            ;
        }
    }
}

// ----- choosing independent rows ----------------------------------------------

/// The rows of `am` at the places `chosen`, in that order.
pub open spec fn picked(am: Seq<Seq<int>>, chosen: Seq<usize>) -> Seq<Seq<int>> {
    Seq::new(chosen.len(), |t: int| am[chosen[t] as int])
}

/// `a - b`, entry by entry.
pub open spec fn minus(a: Seq<int>, b: Seq<int>) -> Seq<int> {
    Seq::new(a.len(), |j: int| a[j] - b[j])
}

/// The reduced rows, as rows of integers.
pub open spec fn basis_rows(basis: Seq<(usize, Vec<u64>)>) -> Seq<Seq<int>> {
    Seq::new(basis.len(), |q: int| ints(basis[q].1@))
}

/// Rows of `d` residues in echelon form: each has a 1 at its pivot and a 0
/// at the pivots of the rows before it.
pub open spec fn echelon(basis: Seq<(usize, Vec<u64>)>, d: int, p: int) -> bool {
    &&& forall|q: int| 0 <= q < basis.len() ==> (#[trigger] basis[q]).1.len() == d && basis[q].0 < d
    &&& forall|q: int, j: int| 0 <= q < basis.len() && 0 <= j < d ==> #[trigger] basis[q].1@[j] < p
    &&& forall|q: int| 0 <= q < basis.len() ==> #[trigger] basis[q].1@[basis[q].0 as int] == 1
    &&& forall|q: int, r: int| 0 <= r < q < basis.len() ==> #[trigger] basis[q].1@[basis[r].0 as int] == 0
}

/// Each of `rows` is the combination `co[q]` of the first `k` rows of `s`,
/// with no coefficient from `k` on.
pub open spec fn combos(rows: Seq<Seq<int>>, co: Seq<Seq<int>>, s: Seq<Seq<int>>, k: int, d: int, p: int) -> bool {
    &&& co.len() == rows.len()
    &&& forall|q: int| 0 <= q < co.len() ==> (#[trigger] co[q]).len() == d
    &&& forall|q: int| 0 <= q < co.len() ==> combo_of(#[trigger] rows[q], co[q], s, k, d, p)
    &&& forall|q: int, x: int| 0 <= q < co.len() && k <= x < d ==> #[trigger] co[q][x] == 0
}

/// Combinations of the first `k` rows stay combinations when a row is added.
proof fn lemma_combos_grow(rows: Seq<Seq<int>>, co: Seq<Seq<int>>, s: Seq<Seq<int>>, row: Seq<int>, k: int, d: int, p: int)
    requires
        s.len() == k,
        0 <= k < d,
        combos(rows, co, s, k, d, p),
    ensures
        combos(rows, co, s.push(row), k + 1, d, p),
{
    assert forall|q: int| 0 <= q < co.len() implies combo_of(#[trigger] rows[q], co[q], s.push(row), k + 1, d, p) by {
        assert(co[q][k] == 0);
        lemma_combo_grow(rows[q], co[q], s, row, k, d, p);
    }
}

/// Row `y` of `a` is not, modulo `p`, a combination of the rows before it
/// (in `d` columns).
pub open spec fn row_independent(a: Seq<Seq<int>>, y: int, d: int, p: int) -> bool {
    !exists|c: Seq<int>| #[trigger] combo_of(a[y], c, a, y, d, p)
}

/// A combination of rows that are themselves combinations of `s` is one of
/// `s`, with the composed coefficients.
proof fn lemma_combo_compose(
    r: Seq<int>,
    cv: Seq<int>,
    a: Seq<Seq<int>>,
    cc: Seq<Seq<int>>,
    s: Seq<Seq<int>>,
    n: int,
    k: int,
    d: int,
    p: int,
)
    requires
        p > 0,
        0 <= n <= a.len(),
        0 <= k <= s.len(),
        cc.len() == n,
        forall|y: int| 0 <= y < n ==> (#[trigger] cc[y]).len() >= k,
        combo_of(r, cv, a, n, d, p),
        forall|y: int| 0 <= y < n ==> combo_of(#[trigger] a[y], cc[y], s, k, d, p),
    ensures
        combo_of(r, Seq::new(k as nat, |t: int| dotz(cv, col(cc, t), n)), s, k, d, p),
{
    let c2 = Seq::new(k as nat, |t: int| dotz(cv, col(cc, t), n));
    assert forall|j: int| 0 <= j < d implies #[trigger] (r[j] % p) == dotz(c2, col(s, j), k) % p by {
        let xs = Seq::new(n as nat, |y: int| dotz(cc[y], col(s, j), k));
        assert forall|y: int| 0 <= y < n implies #[trigger] (col(a, j)[y] % p) == xs[y] % p by {
            assert(combo_of(a[y], cc[y], s, k, d, p));
        }
        lemma_dotz_congr(cv, col(a, j), xs, p, n);
        lemma_dotz_assoc(cv, cc, col(s, j), n, k);
    }
}

/// A combination of rows in echelon form that is 0 at all their pivots has
/// all its coefficients 0, so it is 0 (all modulo `p`).
proof fn lemma_echelon_combo_zero(r: Seq<int>, f: Seq<int>, bm: Seq<Seq<int>>, piv: Seq<int>, k: int, d: int, p: int, m: int)
    requires
        p > 1,
        0 <= m <= k,
        bm.len() == k,
        piv.len() == k,
        forall|q: int| 0 <= q < k ==> 0 <= #[trigger] piv[q] < d,
        forall|q: int| 0 <= q < k ==> #[trigger] bm[q][piv[q]] == 1,
        forall|q: int, t: int| 0 <= t < q < k ==> #[trigger] bm[q][piv[t]] == 0,
        combo_of(r, f, bm, k, d, p),
        forall|q: int| 0 <= q < k ==> #[trigger] r[piv[q]] == 0,
    ensures
        forall|q: int| 0 <= q < m ==> #[trigger] (f[q] % p) == 0,
    decreases m,
{
    if m > 0 {
        lemma_echelon_combo_zero(r, f, bm, piv, k, d, p, m - 1);
        let q = m - 1;
        let c = piv[q];
        let f2 = Seq::new(k as nat, |t: int| if t < q { 0 } else { f[t] });
        assert forall|t: int| 0 <= t < k implies #[trigger] (f[t] % p) == f2[t] % p by {
            if t < q {
                lemma_small_mod(0, p as nat);
            }
        }
        lemma_dotz_congr_left(f, f2, col(bm, c), p, k);
        assert forall|t: int| 0 <= t < k && t != q implies #[trigger] (f2[t] * col(bm, c)[t]) == 0 by {
            if t > q {
                assert(bm[t][piv[q]] == 0);
            }
        }
        lemma_dotz_single(f2, col(bm, c), q, k);
        assert(r[c] % p == dotz(f, col(bm, c), k) % p);
        lemma_small_mod(0, p as nat);
    }
}

/// `a = (a - r) + r` with `r = r_c b` modulo `p`, where `b = r inv` and
/// `r_c inv = 1`.
proof fn lemma_scaled_back(a: int, r: int, rc: int, inv: int, b: int, dd: int, p: int)
    requires
        p > 0,
        (rc * inv) % p == 1,
        b == (r * inv) % p,
        (a - r) % p == dd % p,
    ensures
        a % p == (dd + rc * b) % p,
{
    lemma_mul_mod_noop_right(rc, r * inv, p);
    assert(rc * (r * inv) == r * (rc * inv)) by (nonlinear_arith);
    lemma_mul_mod_noop_right(r, rc * inv, p);
    assert((rc * b) % p == r % p);
    lemma_add_mod_noop(dd, rc * b, p);
    lemma_add_mod_noop(a - r, r, p);
}

/// The row chosen next is independent of the rows before it: were it a
/// combination of them, it would be one of the chosen rows, so of the
/// echelon rows, and its reduction, 0 at all their pivots, would be 0.
proof fn lemma_chosen_independent(
    am: Seq<Seq<int>>,
    i: int,
    s: Seq<Seq<int>>,
    cc: Seq<Seq<int>>,
    sco: Seq<Seq<int>>,
    bm: Seq<Seq<int>>,
    piv: Seq<int>,
    r0: Seq<int>,
    cr: Seq<int>,
    k: int,
    d: int,
    p: int,
    c: int,
)
    requires
        p > 1,
        0 <= k < d,
        0 <= i < am.len(),
        am[i].len() == d,
        s.len() == k,
        bm.len() == k,
        piv.len() == k,
        combos(am.take(i), cc, s, k, d, p),
        combos(s, sco, bm, k, d, p),
        forall|q: int| 0 <= q < k ==> 0 <= #[trigger] piv[q] < d,
        forall|q: int| 0 <= q < k ==> #[trigger] bm[q][piv[q]] == 1,
        forall|q: int, t: int| 0 <= t < q < k ==> #[trigger] bm[q][piv[t]] == 0,
        r0.len() == d,
        forall|j: int| 0 <= j < d ==> 0 <= #[trigger] r0[j] < p,
        combo_of(minus(am[i], r0), cr, s, k, d, p),
        forall|q: int| 0 <= q < k ==> #[trigger] r0[piv[q]] == 0,
        0 <= c < d,
        r0[c] != 0,
    ensures
        row_independent(am, i, d, p),
{
    if exists|cv: Seq<int>| #[trigger] combo_of(am[i], cv, am, i, d, p) {
        let cv = choose|cv: Seq<int>| #[trigger] combo_of(am[i], cv, am, i, d, p);
        // Row i as a combination of the chosen rows.
        assert forall|y: int| 0 <= y < i implies combo_of(#[trigger] am[y], cc[y], s, k, d, p) by {
            assert(am.take(i)[y] == am[y]);
        }
        lemma_combo_compose(am[i], cv, am, cc, s, i, k, d, p);
        let cs = Seq::new(k as nat, |t: int| dotz(cv, col(cc, t), i));
        // Its reduction as a combination of the chosen rows.
        let e = Seq::new(k as nat, |t: int| cs[t] + (-1) * cr[t]);
        lemma_combo_add(am[i], cs, minus(am[i], r0), cr, r0, e, -1, s, k, d, p);
        // ... and of the echelon rows.
        lemma_combo_compose(r0, e, s, sco, bm, k, k, d, p);
        let f = Seq::new(k as nat, |t: int| dotz(e, col(sco, t), k));
        lemma_echelon_combo_zero(r0, f, bm, piv, k, d, p, k);
        // So the reduction is 0 modulo p at c.
        let z = Seq::new(k as nat, |t: int| 0int);
        assert forall|t: int| 0 <= t < k implies #[trigger] (f[t] % p) == z[t] % p by {
            lemma_small_mod(0, p as nat);
        }
        lemma_dotz_congr_left(f, z, col(bm, c), p, k);
        assert forall|t: int| 0 <= t < k implies #[trigger] (z[t] * col(bm, c)[t]) == 0 by {
            assert(z[t] == 0);
            assert(z[t] * col(bm, c)[t] == 0) by (nonlinear_arith)
                requires
                    z[t] == 0,
            ;
        }
        lemma_dotz_zero_terms(z, col(bm, c), k);
        lemma_small_mod(0, p as nat);
        lemma_small_mod(r0[c] as nat, p as nat);
        assert(false);
    }
}

/// The chosen rows stay combinations of the echelon rows when row `am_i`
/// is chosen and its scaled reduction `b` joins the echelon rows.
proof fn lemma_chosen_span(
    s: Seq<Seq<int>>,
    sco: Seq<Seq<int>>,
    bm: Seq<Seq<int>>,
    am_i: Seq<int>,
    r0: Seq<int>,
    cr: Seq<int>,
    b: Seq<int>,
    inv: int,
    c: int,
    k: int,
    d: int,
    p: int,
) -> (dn: Seq<int>)
    requires
        p > 0,
        0 <= k < d,
        s.len() == k,
        bm.len() == k,
        combos(s, sco, bm, k, d, p),
        am_i.len() == d,
        r0.len() == d,
        combo_of(minus(am_i, r0), cr, s, k, d, p),
        0 <= c < d,
        (r0[c] * inv) % p == 1,
        b.len() == d,
        forall|j: int| 0 <= j < d ==> #[trigger] b[j] == (r0[j] * inv) % p,
    ensures
        combos(s.push(am_i), sco.push(dn), bm.push(b), k + 1, d, p),
{
    lemma_combo_compose(minus(am_i, r0), cr, s, sco, bm, k, k, d, p);
    let dd = Seq::new(k as nat, |t: int| dotz(cr, col(sco, t), k));
    let dn = Seq::new(d as nat, |q: int| if q < k { dd[q] } else if q == k { r0[c] } else { 0 });
    let bm2 = bm.push(b);
    assert forall|j: int| 0 <= j < d implies #[trigger] (am_i[j] % p) == dotz(dn, col(bm2, j), k + 1) % p by {
        lemma_dotz_ext(dn, dd, col(bm2, j), col(bm, j), k);
        assert(col(bm2, j)[k] == b[j]);
        assert((minus(am_i, r0)[j] % p) == dotz(dd, col(bm, j), k) % p);
        lemma_scaled_back(am_i[j], r0[j], r0[c], inv, b[j], dotz(dd, col(bm, j), k), p);
    }
    lemma_combos_grow(s, sco, bm, b, k, d, p);
    let s2 = s.push(am_i);
    let co2 = sco.push(dn);
    assert forall|q: int| 0 <= q < co2.len() implies combo_of(#[trigger] s2[q], co2[q], bm2, k + 1, d, p) by {
        if q < k {
            assert(s2[q] == s[q] && co2[q] == sco[q]);
        }
    }
    assert forall|q: int, x: int| 0 <= q < co2.len() && k + 1 <= x < d implies #[trigger] co2[q][x] == 0 by {
        if q < k {
            assert(co2[q] == sco[q]);
        }
    }
    dn
}

/// `(a - (r - y % p) % p) % p == (a - r + y) % p`.
proof fn lemma_mod_sub_sub(a: int, r: int, y: int, p: int)
    requires
        p > 0,
    ensures
        (a - (r - y % p) % p) % p == (a - r + y) % p,
{
    lemma_sub_mod_noop_right(a, r - y % p, p);
    assert(a - (r - y % p) == (a - r) + y % p);
    lemma_add_mod_noop_right(a - r, y, p);
}

/// `r - t b`, entry by entry, modulo `p`.
fn sub_multiple(f: &Nmod, r: &mut Vec<u64>, b: &Vec<u64>, t: u64)
    requires
        old(r).len() == b.len(),
        t < f.n,
        forall|x: int| 0 <= x < b.len() ==> #[trigger] old(r)@[x] < f.n,
        forall|x: int| 0 <= x < b.len() ==> #[trigger] b@[x] < f.n,
    ensures
        final(r).len() == old(r).len(),
        forall|x: int| 0 <= x < b.len() ==> #[trigger] final(r)@[x] == (old(r)@[x] - (t * b@[x]) % (f.n as int)) % (
        f.n as int) && final(r)@[x] < f.n,
{
    let ghost r0 = r@;
    let d = b.len();
    let mut k: usize = 0;
    while k < d
        invariant
            t < f.n,
            d == b.len(),
            r.len() == d,
            r0.len() == d,
            k <= d,
            forall|x: int| 0 <= x < d ==> #[trigger] r0[x] < f.n,
            forall|x: int| 0 <= x < d ==> #[trigger] b@[x] < f.n,
            forall|x: int| 0 <= x < d ==> #[trigger] r@[x] == if x < k {
                (r0[x] - (t * b@[x]) % (f.n as int)) % (f.n as int)
            } else {
                r0[x] as int
            },
            forall|x: int| 0 <= x < d ==> #[trigger] r@[x] < f.n,
        decreases d - k,
    {
        let y = f.mul(t, b[k]);
        let z = f.sub(r[k], y);
        proof {
            lemma_mod_bound(r[k as int] - y, f.n as int);
        }
        r.set(k, z);
        k += 1;
    }
}

/// Reduces `row` by the echelon rows in turn, so that it is 0 at all their
/// pivots. What was taken off is the combination returned beside it.
fn reduce_row(
    f: &Nmod,
    basis: &Vec<(usize, Vec<u64>)>,
    row: &Vec<u64>,
    Ghost(tco): Ghost<Seq<Seq<int>>>,
    Ghost(s): Ghost<Seq<Seq<int>>>,
    Ghost(k): Ghost<int>,
) -> (res: (Vec<u64>, Ghost<Seq<int>>))
    requires
        f.n >= 2,
        0 <= k <= row.len(),
        s.len() == k,
        forall|j: int| 0 <= j < row.len() ==> #[trigger] row@[j] < f.n,
        echelon(basis@, row.len() as int, f.n as int),
        combos(basis_rows(basis@), tco, s, k, row.len() as int, f.n as int),
    ensures
        res.0.len() == row.len(),
        forall|j: int| 0 <= j < row.len() ==> #[trigger] res.0@[j] < f.n,
        forall|q: int| 0 <= q < basis.len() ==> #[trigger] res.0@[basis@[q].0 as int] == 0,
        res.1@.len() == row.len(),
        forall|x: int| k <= x < row.len() ==> #[trigger] res.1@[x] == 0,
        combo_of(minus(ints(row@), ints(res.0@)), res.1@, s, k, row.len() as int, f.n as int),
{
    let d = row.len();
    let p = f.n;
    let ghost pi = p as int;
    let ghost am_i = ints(row@);
    let mut r: Vec<u64> = row.clone();
    let ghost mut cr: Seq<int> = Seq::new(d as nat, |x: int| 0int);
    proof {
        assert(r@ =~= row@);
        assert(minus(am_i, ints(r@)) =~= cr);
        assert forall|j: int| 0 <= j < d implies #[trigger] (minus(am_i, ints(r@))[j] % pi) == dotz(cr, col(s, j), k) % pi by {
            lemma_dotz_comm(cr, col(s, j), k);
            lemma_dotz_zero_vec(col(s, j), cr, k);
        }
    }
    let mut q: usize = 0;
    while q < basis.len()
        invariant
            d == row.len(),
            p == f.n,
            pi == p as int,
            p >= 2,
            0 <= k <= d,
            s.len() == k,
            am_i == ints(row@),
            echelon(basis@, d as int, pi),
            combos(basis_rows(basis@), tco, s, k, d as int, pi),
            q <= basis.len(),
            r.len() == d,
            forall|j: int| 0 <= j < d ==> #[trigger] r@[j] < p,
            forall|q2: int| 0 <= q2 < q ==> #[trigger] r@[basis@[q2].0 as int] == 0,
            cr.len() == d,
            forall|x: int| k <= x < d ==> #[trigger] cr[x] == 0,
            combo_of(minus(am_i, ints(r@)), cr, s, k, d as int, pi),
        decreases basis.len() - q,
    {
        let c = basis[q].0;
        if r[c] != 0 {
            let t = r[c];
            let b = &basis[q].1;
            let ghost r0 = r@;
            sub_multiple(f, &mut r, b, t);
            proof {
                let bq = basis_rows(basis@)[q as int];
                assert(bq == ints(b@));
                let c2 = Seq::new(d as nat, |x: int| cr[x] + t * tco[q as int][x]);
                assert forall|j: int| 0 <= j < d implies #[trigger] (minus(am_i, ints(r@))[j] % pi) == (minus(
                    am_i,
                    ints(r0),
                )[j] + t * bq[j]) % pi by {
                    lemma_mod_sub_sub(am_i[j], r0[j] as int, t * b@[j], pi);
                }
                assert(combo_of(bq, tco[q as int], s, k, d as int, pi));
                lemma_combo_add(minus(am_i, ints(r0)), cr, bq, tco[q as int], minus(am_i, ints(r@)), c2, t as int, s, k, d as int, pi);
                assert forall|x: int| k <= x < d implies #[trigger] c2[x] == 0 by {
                    assert(tco[q as int][x] == 0);
                }
                cr = c2;
                assert forall|q2: int| 0 <= q2 < q + 1 implies #[trigger] r@[basis@[q2].0 as int] == 0 by {
                    let j = basis@[q2].0 as int;
                    assert(0 <= j < d);
                    assert(r@[j] == (r0[j] - (t * b@[j]) % pi) % pi);
                    if q2 < q {
                        assert(b@[j] == 0);
                        assert(r0[j] == 0);
                        lemma_small_mod(0, pi as nat);
                    } else {
                        assert(b@[j] == 1);
                        assert(r0[j] == t);
                        lemma_small_mod(t as nat, pi as nat);
                        lemma_small_mod(0, pi as nat);
                    }
                }
            }
        }
        q += 1;
    }
    (r, Ghost(cr))
}

impl Dense {
    /// For a matrix of full column rank, a left inverse `L` (`L M = 1`) that
    /// reads only `cols` of the rows: the first rows that are independent of
    /// those before them. `None` when the rank is smaller, so that no left
    /// inverse exists.
    pub fn left_inverse(&self, f: &Nmod) -> (r: Option<Dense>)
        requires
            self.wf(f.n as int),
            is_prime(f.n as nat),
            2 * self.shape().1 <= usize::MAX,
        ensures
            r matches Some(l) ==> l.wf(f.n as int) && l.shape() == (self.shape().1, self.shape().0) && left_inverse_of(
                l.matrix(),
                self.matrix(),
                self.shape().1,
                f.n as int,
            ),
            r is None ==> forall|l: Seq<Seq<int>>| l.len() == self.shape().1 ==> !#[trigger] left_inverse_of(
                l,
                self.matrix(),
                self.shape().1,
                f.n as int,
            ),
            r matches Some(l) ==> forall|x: int, y: int|
                0 <= x < l.shape().0 && 0 <= y < self.shape().0 && #[trigger] l.matrix()[x][y] != 0 ==> row_independent(
                    self.matrix(),
                    y,
                    self.shape().1,
                    f.n as int,
                ),
    {
        let (n, d) = (self.rows, self.cols);
        let p = f.n;
        let ghost pi = p as int;
        let ghost am = self.matrix();
        proof {
            self.lemma_matrix_shape(pi);
        }
        // Choose independent rows greedily by elimination on the rows.
        let mut basis: Vec<(usize, Vec<u64>)> = Vec::new();
        let mut chosen: Vec<usize> = Vec::new();
        let ghost mut mem: Seq<bool> = Seq::empty();
        let ghost mut at: Seq<int> = seq![0int];
        // The reduced rows, and every row so far, as combinations of the chosen rows.
        let ghost mut tco: Seq<Seq<int>> = Seq::empty();
        let ghost mut cc: Seq<Seq<int>> = Seq::empty();
        // The chosen rows as combinations of the echelon rows.
        let ghost mut sco: Seq<Seq<int>> = Seq::empty();
        let mut i: usize = 0;
        while i < n && chosen.len() < d
            invariant
                self.wf(pi),
                am == self.matrix(),
                am.len() == n,
                forall|y: int| 0 <= y < n ==> (#[trigger] am[y]).len() == d,
                n == self.rows,
                d == self.cols,
                p == f.n,
                pi == p as int,
                is_prime(p as nat),
                i <= n,
                chosen.len() <= d,
                mem.len() == i,
                at.len() == i + 1,
                at[0] == 0,
                at[i as int] == chosen.len(),
                forall|y: int| 0 <= y < i && #[trigger] mem[y] ==> 0 <= at[y] < chosen.len() && chosen@[at[y]] == y && at[y
                    + 1] == at[y] + 1,
                forall|y: int| 0 <= y < i && !#[trigger] mem[y] ==> at[y + 1] == at[y],
                forall|q: int| 0 <= q < chosen.len() ==> #[trigger] chosen@[q] < i && mem[chosen@[q] as int],
                forall|q: int, t: int| 0 <= q < t < chosen.len() ==> chosen@[q] < chosen@[t],
                basis.len() == chosen.len(),
                echelon(basis@, d as int, pi),
                combos(basis_rows(basis@), tco, picked(am, chosen@), chosen.len() as int, d as int, pi),
                combos(am.take(i as int), cc, picked(am, chosen@), chosen.len() as int, d as int, pi),
                combos(picked(am, chosen@), sco, basis_rows(basis@), chosen.len() as int, d as int, pi),
                forall|q: int| 0 <= q < chosen.len() ==> row_independent(am, #[trigger] chosen@[q] as int, d as int, pi),
            decreases n - i,
        {
            let ghost k = chosen.len() as int;
            let ghost s = picked(am, chosen@);
            let ghost am_i = am[i as int];
            proof {
                assert(am_i == ints(self.a@[i as int]@));
                assert forall|j: int| 0 <= j < self.a@[i as int].len() implies #[trigger] self.a@[i as int]@[j] < p by {}
            }
            let (mut r, Ghost(cr)) = reduce_row(f, &basis, &self.a[i], Ghost(tco), Ghost(s), Ghost(k));
            // The first non-zero entry, made 1.
            let mut c: usize = 0;
            while c < d && r[c] == 0
                invariant
                    c <= d,
                    r.len() == d,
                    forall|x: int| 0 <= x < c ==> #[trigger] r@[x] == 0,
                decreases d - c,
            {
                c += 1;
            }
            if c < d {
                proof {
                    lemma_prime_units(p as nat, r[c as int] as nat);
                }
                let inv = match f.inv(r[c]) {
                    Some(inv) => inv,
                    None => return None,
                };
                let ghost r0 = r@;
                let mut k2: usize = 0;
                while k2 < d
                    invariant
                        p == f.n,
                        inv < p,
                        r.len() == d,
                        r0.len() == d,
                        k2 <= d,
                        forall|x: int| 0 <= x < d ==> #[trigger] r0[x] < p,
                        forall|x: int| 0 <= x < d ==> #[trigger] r@[x] == if x < k2 {
                            (r0[x] * inv) % (p as int)
                        } else {
                            r0[x] as int
                        },
                        forall|x: int| 0 <= x < d ==> #[trigger] r@[x] < p,
                    decreases d - k2,
                {
                    let z = f.mul(r[k2], inv);
                    proof {
                        lemma_mod_bound(r[k2 as int] * inv, p as int);
                    }
                    r.set(k2, z);
                    k2 += 1;
                }
                let ghost old_basis = basis@;
                basis.push((c, r));
                chosen.push(i);
                proof {
                    mem = mem.push(true);
                    at = at.push(chosen.len() as int);
                    assert forall|q: int, t: int| 0 <= q < t < chosen.len() implies chosen@[q] < chosen@[t] by {
                        if t == chosen.len() - 1 {
                            assert(chosen@[q] < i);
                        }
                    }
                    let s2 = picked(am, chosen@);
                    assert(s2 =~= s.push(am_i));
                    // Row i is independent of the rows before it.
                    let bm_old = basis_rows(old_basis);
                    let piv_old = Seq::new(k as nat, |q: int| old_basis[q].0 as int);
                    assert forall|q: int| 0 <= q < k implies 0 <= #[trigger] piv_old[q] < d by {}
                    assert forall|q: int| 0 <= q < k implies #[trigger] bm_old[q][piv_old[q]] == 1 by {}
                    assert forall|q: int, t: int| 0 <= t < q < k implies #[trigger] bm_old[q][piv_old[t]] == 0 by {}
                    assert forall|q: int| 0 <= q < k implies #[trigger] ints(r0)[piv_old[q]] == 0 by {}
                    assert forall|j: int| 0 <= j < d implies 0 <= #[trigger] ints(r0)[j] < p by {}
                    lemma_chosen_independent(am, i as int, s, cc, sco, bm_old, piv_old, ints(r0), cr, k, d as int, pi, c as int);
                    assert(chosen@[k] == i);
                    // The chosen rows stay combinations of the echelon rows.
                    lemma_small_mod(1, pi as nat);
                    let dn = lemma_chosen_span(s, sco, bm_old, am_i, ints(r0), cr, ints(r@), inv as int, c as int, k, d as int, pi);
                    sco = sco.push(dn);
                    // The new row is in echelon form with the others.
                    lemma_small_mod(1, pi as nat);
                    assert(basis@[k as int].1@[c as int] == 1);
                    assert forall|q: int| 0 <= q < k implies #[trigger] basis@[k as int].1@[basis@[q].0 as int] == 0 by {
                        assert(old_basis[q] == basis@[q]);
                        assert(r0[basis@[q].0 as int] == 0);
                        lemma_small_mod(0, pi as nat);
                    }
                    assert(echelon(basis@, d as int, pi)) by {
                        assert forall|q: int| 0 <= q < basis.len() implies #[trigger] basis@[q].1@[basis@[q].0 as int] == 1 by {
                            if q < k {
                                assert(old_basis[q] == basis@[q]);
                            }
                        }
                        assert forall|q: int, t: int| 0 <= t < q < basis.len() implies #[trigger] basis@[q].1@[basis@[t].0 as int] == 0 by {
                            if q < k {
                                assert(old_basis[q] == basis@[q]);
                                assert(old_basis[t] == basis@[t]);
                            }
                        }
                    }
                    // Its combination: inv times the reduced row, whose difference from row i is cr.
                    let c_new = Seq::new(d as nat, |x: int| if x < k { (-inv) * cr[x] } else if x == k { inv as int } else { 0 });
                    lemma_combo_new_row(
                        minus(am_i, ints(r0)),
                        cr,
                        ints(r0),
                        am_i,
                        ints(r@),
                        c_new,
                        inv as int,
                        s,
                        k,
                        d as int,
                        pi,
                    );
                    lemma_combos_grow(basis_rows(old_basis), tco, s, am_i, k, d as int, pi);
                    assert(basis_rows(basis@) =~= basis_rows(old_basis).push(ints(r@)));
                    tco = tco.push(c_new);
                    // Row i is the new chosen row itself.
                    let e = Seq::new(d as nat, |x: int| if x == k { 1int } else { 0 });
                    assert forall|j: int| 0 <= j < d implies #[trigger] (am_i[j] % pi) == dotz(e, col(s2, j), k + 1) % pi by {
                        lemma_dotz_unit(e, col(s2, j), k, k + 1);
                    }
                    lemma_combos_grow(am.take(i as int), cc, s, am_i, k, d as int, pi);
                    assert(am.take(i + 1) =~= am.take(i as int).push(am_i));
                    cc = cc.push(e);
                }
            } else {
                proof {
                    mem = mem.push(false);
                    at = at.push(chosen.len() as int);
                    assert(minus(am_i, ints(r@)) =~= am_i);
                    assert(am.take(i + 1) =~= am.take(i as int).push(am_i));
                    cc = cc.push(cr);
                }
            }
            i += 1;
        }
        if chosen.len() < d {
            proof {
                assert(am.take(n as int) =~= am);
                lemma_few_rows_no_left_inverse(am, picked(am, chosen@), cc, chosen.len() as int, n as int, d as int, pi);
            }
            return None;
        }
        // The chosen rows are independent: they have a left inverse.
        proof {
            let s = picked(am, chosen@);
            let bm = basis_rows(basis@);
            let piv = Seq::new(d as nat, |q: int| basis@[q].0 as int);
            assert forall|q: int, t: int| 0 <= q < d && 0 <= t < d && q != t implies #[trigger] piv[q] != #[trigger] piv[t] by {
                if q < t {
                    assert(basis@[t].1@[basis@[q].0 as int] == 0);
                } else {
                    assert(basis@[q].1@[basis@[t].0 as int] == 0);
                }
            }
            assert forall|q: int| 0 <= q < d implies #[trigger] bm[q][piv[q]] == 1 by {}
            assert forall|q: int, t: int| 0 <= t < q < d implies #[trigger] bm[q][piv[t]] == 0 by {}
            assert forall|q: int| 0 <= q < d implies combo_of(#[trigger] bm[q], tco[q], s, d as int, d as int, pi) by {}
            lemma_basis_left_inverse(s, bm, tco, piv, d as int, pi);
        }
        // The chosen rows, and the inverse of the square matrix they make.
        let mut rows: Vec<Vec<u64>> = Vec::with_capacity(d);
        let mut k: usize = 0;
        while k < d
            invariant
                self.wf(p as int),
                n == self.rows,
                d == self.cols,
                chosen.len() == d,
                forall|q: int| 0 <= q < chosen.len() ==> #[trigger] chosen@[q] < n,
                k <= d,
                rows.len() == k,
                forall|q: int| 0 <= q < k ==> #[trigger] rows@[q]@ == self.a@[chosen@[q] as int]@,
            decreases d - k,
        {
            let row = self.a[chosen[k]].clone();
            proof {
                assert(row@ =~= self.a@[chosen@[k as int] as int]@);
            }
            rows.push(row);
            k += 1;
        }
        let sub = Dense { rows: d, cols: d, a: rows };
        proof {
            assert forall|q: int, j: int| 0 <= q < d && 0 <= j < d implies #[trigger] sub.a@[q]@[j] < p by {
                assert(sub.a@[q]@ == self.a@[chosen@[q] as int]@);
            }
            assert(sub.matrix() =~= picked(am, chosen@)) by {
                assert forall|q: int| 0 <= q < d implies #[trigger] sub.matrix()[q] == picked(am, chosen@)[q] by {
                    assert(sub.a@[q]@ == self.a@[chosen@[q] as int]@);
                }
            }
        }
        let s = match sub.inverse(f) {
            Some(s) => s,
            None => {
                proof {
                    let l = choose|l: Seq<Seq<int>>|
                        l.len() == d && (forall|i: int| 0 <= i < d ==> (#[trigger] l[i]).len() == d) && left_inverse_of(
                            l,
                            picked(am, chosen@),
                            d as int,
                            pi,
                        );
                    assert(left_inverse_of(l, sub.matrix(), sub.shape().0, pi));
                }
                return None;
            },
        };
        // Spread the columns of the inverse over the chosen rows.
        let mut a: Vec<Vec<u64>> = Vec::with_capacity(d);
        let ghost mem_all = mem + Seq::new((n - i) as nat, |y: int| false);
        let ghost at_all = at + Seq::new((n - i) as nat, |y: int| d as int);
        proof {
            assert(listing(chosen@, mem_all, at_all, n as int)) by {
                assert forall|y: int| 0 <= y < n && #[trigger] mem_all[y] implies 0 <= at_all[y] < chosen@.len()
                    && chosen@[at_all[y]] == y && at_all[y + 1] == at_all[y] + 1 by {
                    assert(y < i);
                }
                assert forall|y: int| 0 <= y < n && !#[trigger] mem_all[y] implies at_all[y + 1] == at_all[y] by {
                    if y < i {
                        assert(!mem[y]);
                    }
                }
                assert forall|q: int| 0 <= q < chosen@.len() implies #[trigger] chosen@[q] < n && mem_all[chosen@[q] as int] by {}
            }
        }
        let mut r: usize = 0;
        while r < d
            invariant
                n == self.rows,
                d == self.cols,
                p == f.n,
                s.wf(p as int),
                s.shape() == (d as int, d as int),
                chosen.len() == d,
                listing(chosen@, mem_all, at_all, n as int),
                r <= d,
                a.len() == r,
                forall|x: int| 0 <= x < r ==> (#[trigger] a@[x]).len() == n,
                forall|x: int, y: int| 0 <= x < r && 0 <= y < n ==> #[trigger] a@[x]@[y] == if mem_all[y] {
                    s.a@[x]@[at_all[y]]
                } else {
                    0
                },
            decreases d - r,
        {
            let mut row: Vec<u64> = Vec::with_capacity(n);
            let mut y: usize = 0;
            while y < n
                invariant
                    n == self.rows,
                    y <= n,
                    row.len() == y,
                    forall|t: int| 0 <= t < y ==> #[trigger] row@[t] == 0,
                decreases n - y,
            {
                row.push(0);
                y += 1;
            }
            let mut k: usize = 0;
            while k < d
                invariant
                    n == self.rows,
                    d == self.cols,
                    s.wf(p as int),
                    s.shape() == (d as int, d as int),
                    chosen.len() == d,
                    listing(chosen@, mem_all, at_all, n as int),
                    r < d,
                    k <= d,
                    row.len() == n,
                    forall|t: int| 0 <= t < n ==> #[trigger] row@[t] == if mem_all[t] && at_all[t] < k {
                        s.a@[r as int]@[at_all[t]]
                    } else {
                        0
                    },
                decreases d - k,
            {
                let x = chosen[k];
                row.set(x, s.a[r][k]);
                proof {
                    assert(mem_all[x as int] && at_all[x as int] == k);
                    assert forall|t: int| 0 <= t < n implies #[trigger] row@[t] == if mem_all[t] && at_all[t] < k + 1 {
                        s.a@[r as int]@[at_all[t]]
                    } else {
                        0
                    } by {
                        if t != x && mem_all[t] && at_all[t] == k {
                            assert(chosen@[at_all[t]] == t);
                        }
                    }
                }
                k += 1;
            }
            a.push(row);
            r += 1;
        }
        let l = Dense { rows: d, cols: n, a };
        proof {
            self.lemma_matrix_shape(p as int);
            s.lemma_matrix_shape(p as int);
            assert forall|x: int, y: int| 0 <= x < d && 0 <= y < n implies #[trigger] l.a@[x]@[y] < p by {
                if mem_all[y] {
                    assert(s.a@[x]@[at_all[y]] < p);
                }
            }
            let am = self.matrix();
            let sm = s.matrix();
            let subm = sub.matrix();
            assert forall|x: int, j: int| 0 <= x < l.matrix().len() && 0 <= j < d implies #[trigger] (dotz(
                l.matrix()[x],
                col(am, j),
                am.len() as int,
            ) % (p as int)) == if x == j { 1int } else { 0 } by {
                let lrow = l.matrix()[x];
                assert forall|y: int| 0 <= y < n && !mem_all[y] implies lrow[y] == 0 by {}
                assert forall|q: int| 0 <= q < chosen@.len() implies lrow[chosen@[q] as int] == sm[x][q] && col(am, j)[chosen@[q] as int]
                    == col(subm, j)[q] by {
                    assert(at_all[chosen@[q] as int] == q) by {
                        let y = chosen@[q] as int;
                        assert(mem_all[y]);
                        assert(chosen@[at_all[y]] == y);
                        if at_all[y] < q {
                            assert(chosen@[at_all[y]] < chosen@[q]);
                        } else if at_all[y] > q {
                            assert(chosen@[q] < chosen@[at_all[y]]);
                        }
                    }
                    assert(subm[q] == ints(sub.a@[q]@));
                }
                lemma_dotz_sparse(lrow, col(am, j), sm[x], col(subm, j), chosen@, mem_all, at_all, n as int, n as int);
            }
            // It reads only the chosen rows, each independent of those before it.
            assert forall|x: int, y: int| 0 <= x < d && 0 <= y < n && #[trigger] l.matrix()[x][y] != 0 implies row_independent(
                am,
                y,
                d as int,
                pi,
            ) by {
                assert(l.matrix()[x][y] == l.a@[x]@[y] as int);
                assert(mem_all[y]);
                assert(chosen@[at_all[y]] == y);
            }
        }
        Some(l)
    }
}

// ----- coordinates and linear maps ---------------------------------------------

/// Coordinates over `F_p` for a word-sized `p`.
#[derive(Clone, Debug, PartialEq)]
pub enum Coords {
    W(Vec<u64>),
}

impl Coords {
    /// The coordinates.
    pub open spec fn entries(&self) -> Seq<u64> {
        match self {
            Coords::W(v) => v@,
        }
    }

    pub fn len(&self) -> (n: usize)
        ensures
            n == self.entries().len(),
    {
        match self {
            Coords::W(v) => v.len(),
        }
    }

    pub fn is_empty(&self) -> (b: bool)
        ensures
            b == (self.entries().len() == 0),
    {
        self.len() == 0
    }

    pub fn is_zero(&self) -> (b: bool)
        ensures
            b == forall|k: int| 0 <= k < self.entries().len() ==> #[trigger] self.entries()[k] == 0,
    {
        match self {
            Coords::W(v) => {
                let mut k: usize = 0;
                while k < v.len()
                    invariant
                        k <= v.len(),
                        self.entries() == v@,
                        forall|t: int| 0 <= t < k ==> #[trigger] v@[t] == 0,
                    decreases v.len() - k,
                {
                    if v[k] != 0 {
                        assert(self.entries()[k as int] != 0);
                        return false;
                    }
                    k += 1;
                }
                true
            },
        }
    }

    /// Coordinates `[i*d, (i+1)*d)`.
    pub fn chunk(&self, i: usize, d: usize) -> (c: Coords)
        requires
            (i + 1) * d <= self.entries().len(),
        ensures
            c.entries() == self.entries().subrange(i * d, (i + 1) * d),
    {
        match self {
            Coords::W(v) => {
                assert(self.entries() == v@);
                assert(i * d + d == (i + 1) * d) by (nonlinear_arith);
                assert(i * d <= (i + 1) * d) by (nonlinear_arith)
                    requires
                        i * d + d == (i + 1) * d,
                        d >= 0,
                ;
                assert(i * d + d <= v.len());
                let lo = i * d;
                let hi = lo + d;
                let mut w: Vec<u64> = Vec::with_capacity(d);
                let mut k = lo;
                while k < hi
                    invariant
                        lo <= k <= hi,
                        hi <= v.len(),
                        w@ == v@.subrange(lo as int, k as int),
                    decreases hi - k,
                {
                    w.push(v[k]);
                    k += 1;
                    assert(w@ =~= v@.subrange(lo as int, k as int));
                }
                Coords::W(w)
            },
        }
    }

    /// The concatenation of coordinate vectors.
    pub fn concat(parts: &[Coords]) -> (c: Coords)
        ensures
            c.entries() == parts@.fold_left(Seq::<u64>::empty(), |acc: Seq<u64>, x: Coords| acc + x.entries()),
    {
        let mut w: Vec<u64> = Vec::new();
        let mut t: usize = 0;
        while t < parts.len()
            invariant
                t <= parts.len(),
                w@ == parts@.take(t as int).fold_left(Seq::<u64>::empty(), |acc: Seq<u64>, x: Coords| acc + x.entries()),
            decreases parts.len() - t,
        {
            let ghost before = w@;
            match &parts[t] {
                Coords::W(v) => {
                    let mut k: usize = 0;
                    while k < v.len()
                        invariant
                            k <= v.len(),
                            w@ == before + v@.take(k as int),
                        decreases v.len() - k,
                    {
                        w.push(v[k]);
                        k += 1;
                        assert(w@ =~= before + v@.take(k as int));
                    }
                    assert(v@.take(v.len() as int) =~= v@);
                },
            }
            proof {
                let q = parts@.take(t + 1);
                assert(q.drop_last() =~= parts@.take(t as int));
                assert(q.last() == parts@[t as int]);
            }
            t += 1;
        }
        assert(parts@.take(parts.len() as int) =~= parts@);
        Coords::W(w)
    }
}

/// A linear map between coordinate spaces over `F_p` for a word-sized `p`.
#[derive(Clone)]
pub enum LinMap {
    W(Nmod, Dense),
}

impl LinMap {
    /// The modulus.
    pub open spec fn modulus(&self) -> int {
        match self {
            LinMap::W(f, _) => f.n as int,
        }
    }

    /// The matrix.
    pub open spec fn dense(&self) -> Dense {
        match self {
            LinMap::W(_, m) => *m,
        }
    }

    /// The matrix is one over `F_p`.
    pub open spec fn wf(&self) -> bool {
        self.modulus() >= 1 && self.dense().wf(self.modulus())
    }

    /// The matrix with the given columns (cut or padded to `rows`).
    pub fn from_columns(p: u64, cols: &[Coords], rows: usize) -> (l: LinMap)
        requires
            p >= 1,
            forall|j: int, i: int| 0 <= j < cols.len() && 0 <= i < cols@[j].entries().len() ==> #[trigger] cols@[j].entries()[i] < p,
        ensures
            l.wf(),
            l.modulus() == p,
            l.dense().shape() == (rows as int, cols.len() as int),
            forall|i: int, j: int| 0 <= i < rows && 0 <= j < cols.len() ==> #[trigger] l.dense().matrix()[i][j] == if i
                < cols@[j].entries().len() {
                cols@[j].entries()[i] as int
            } else {
                0
            },
    {
        let mut cs: Vec<Vec<u64>> = Vec::with_capacity(cols.len());
        let mut j: usize = 0;
        while j < cols.len()
            invariant
                j <= cols.len(),
                cs.len() == j,
                forall|t: int| 0 <= t < j ==> (#[trigger] cs@[t])@ == cols@[t].entries(),
            decreases cols.len() - j,
        {
            match &cols[j] {
                Coords::W(v) => {
                    let c = v.clone();
                    assert(c@ =~= v@);
                    cs.push(c);
                },
            }
            j += 1;
        }
        LinMap::W(Nmod::new(p), Dense::from_columns(&cs, rows, p))
    }

    /// The image of `v`.
    pub fn apply(&self, v: &Coords) -> (w: Coords)
        requires
            self.wf(),
            forall|k: int| 0 <= k < v.entries().len() ==> #[trigger] v.entries()[k] < self.modulus(),
        ensures
            w.entries().len() == self.dense().shape().0,
            forall|i: int| 0 <= i < w.entries().len() ==> #[trigger] w.entries()[i] == dotz(
                self.dense().matrix()[i],
                ints(v.entries()),
                if self.dense().shape().1 < v.entries().len() { self.dense().shape().1 } else { v.entries().len() as int },
            ) % self.modulus(),
    {
        match (self, v) {
            (LinMap::W(f, m), Coords::W(x)) => {
                assert(v.entries() == x@);
                assert(forall|k: int| 0 <= k < x.len() ==> #[trigger] x@[k] < f.n);
                Coords::W(m.mul_vec(f, x))
            },
        }
    }

    /// The inverse map, if the square matrix has one.
    pub fn inverse(&self) -> (r: Option<LinMap>)
        requires
            self.wf(),
            is_prime(self.modulus() as nat),
            self.dense().shape().0 == self.dense().shape().1,
            2 * self.dense().shape().0 <= usize::MAX,
        ensures
            r matches Some(l) ==> l.wf() && l.modulus() == self.modulus() && l.dense().shape() == self.dense().shape()
                && left_inverse_of(l.dense().matrix(), self.dense().matrix(), self.dense().shape().0, self.modulus())
                && left_inverse_of(self.dense().matrix(), l.dense().matrix(), self.dense().shape().0, self.modulus()),
            r is None ==> forall|l: Seq<Seq<int>>| l.len() == self.dense().shape().0 ==> !#[trigger] left_inverse_of(
                l,
                self.dense().matrix(),
                self.dense().shape().0,
                self.modulus(),
            ),
    {
        match self {
            LinMap::W(f, m) => match m.inverse(f) {
                Some(i) => Some(LinMap::W(*f, i)),
                None => None,
            },
        }
    }

    /// A solution of `M x = b` whose free variables are zero, pivoting on
    /// the first columns possible (so the least solution counting
    /// coordinates from the last), if there is one.
    pub fn solve(&self, b: &Coords) -> (r: Option<Coords>)
        requires
            self.wf(),
            is_prime(self.modulus() as nat),
            b.entries().len() >= self.dense().shape().0,
            self.dense().shape().1 < usize::MAX,
        ensures
            r matches Some(x) ==> x.entries().len() == self.dense().shape().1 && solves_mod(
                self.dense().matrix(),
                ints(x.entries()),
                ints(b.entries()),
                self.modulus(),
            ),
            r is None ==> forall|x: Seq<int>| x.len() == self.dense().shape().1 ==> !#[trigger] solves_mod(
                self.dense().matrix(),
                x,
                ints(b.entries()),
                self.modulus(),
            ),
            r matches Some(x) ==> forall|j: int| 0 <= j < x.entries().len() ==> #[trigger] x.entries()[j] < self.modulus(),
            r matches Some(x) ==> forall|j: int| 0 <= j < x.entries().len() && x.entries()[j] != 0 ==> !#[trigger] in_span_before(
                self.dense().matrix(),
                j,
                self.dense().shape().0,
                self.modulus(),
            ),
    {
        match (self, b) {
            (LinMap::W(f, m), Coords::W(v)) => {
                let mut w: Vec<u64> = Vec::with_capacity(v.len());
                let mut k: usize = 0;
                while k < v.len()
                    invariant
                        f.n >= 1,
                        k <= v.len(),
                        w.len() == k,
                        forall|t: int| 0 <= t < k ==> #[trigger] w@[t] == v@[t] % f.n,
                    decreases v.len() - k,
                {
                    w.push(f.reduce(v[k]));
                    k += 1;
                }
                let ghost p = f.n as int;
                proof {
                    assert forall|t: int| 0 <= t < w.len() implies #[trigger] w@[t] < f.n by {}
                }
                let r = m.solve(f, &w);
                proof {
                    assert forall|i: int| 0 <= i < w.len() implies #[trigger] (ints(w@)[i] % p) == ints(v@)[i] % p by {
                        lemma_mod_twice(v@[i] as int, p);
                    }
                    assert forall|x: Seq<int>| x.len() == m.shape().1 implies (solves_mod(m.matrix(), x, ints(w@), p)
                        <==> #[trigger] solves_mod(m.matrix(), x, ints(v@), p)) by {
                        m.lemma_matrix_shape(p);
                        assert forall|i: int| 0 <= i < m.matrix().len() implies ints(w@)[i] % p == ints(v@)[i] % p by {}
                    }
                }
                match r {
                    Some(x) => Some(Coords::W(x)),
                    None => None,
                }
            },
        }
    }

    /// A left inverse of an injective map, reading only the first
    /// coordinates that are independent of those before them; `None` where
    /// the map is not injective, so that none exists.
    pub fn left_inverse(&self) -> (r: Option<LinMap>)
        requires
            self.wf(),
            is_prime(self.modulus() as nat),
            2 * self.dense().shape().1 <= usize::MAX,
        ensures
            r matches Some(l) ==> l.wf() && l.modulus() == self.modulus() && l.dense().shape() == (
                self.dense().shape().1,
                self.dense().shape().0,
            ) && left_inverse_of(l.dense().matrix(), self.dense().matrix(), self.dense().shape().1, self.modulus()),
            r is None ==> forall|l: Seq<Seq<int>>| l.len() == self.dense().shape().1 ==> !#[trigger] left_inverse_of(
                l,
                self.dense().matrix(),
                self.dense().shape().1,
                self.modulus(),
            ),
            r matches Some(l) ==> forall|x: int, y: int|
                0 <= x < l.dense().shape().0 && 0 <= y < self.dense().shape().0 && #[trigger] l.dense().matrix()[x][y]
                    != 0 ==> row_independent(self.dense().matrix(), y, self.dense().shape().1, self.modulus()),
    {
        match self {
            LinMap::W(f, m) => match m.left_inverse(f) {
                Some(l) => Some(LinMap::W(*f, l)),
                None => None,
            },
        }
    }
}

} // verus!
