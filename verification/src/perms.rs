//! Permutations and the symmetric groups `Sym(n)` they belong to.
//!
//! A permutation acts on `{1, ..., n}` on the right: `i^(p*q) = (i^p)^q`.
//! The symmetric groups are kept in a cache with one `Sym(n)` per degree.
//! Points are stored less one.

use std::rc::Rc;

use rustc_hash::FxHashMap;
use vstd::prelude::*;
use vstd::relations::injective_on;
use vstd::set_lib::*;
use vstd::string::StringExecFns;

use crate::arith::BinOp;
use crate::integer::Integer;
use crate::interp::Interp;
use crate::text::{decimal, decimal_string, push_decimal};

verus! {

// ----- the mathematical model ------------------------------------------------

/// `s` lists the images of `0, ..., n - 1` under a permutation of them.
pub open spec fn is_perm(s: Seq<u32>) -> bool {
    &&& forall|i: int| 0 <= i < s.len() ==> (#[trigger] s[i]) < s.len()
    &&& forall|i: int, j: int|
        0 <= i < s.len() && 0 <= j < s.len() && i != j ==> #[trigger] s[i] != #[trigger] s[j]
}

/// The images of `p * q`: first `p`, then `q`.
pub open spec fn compose(p: Seq<u32>, q: Seq<u32>) -> Seq<u32> {
    Seq::new(p.len(), |i: int| q[p[i] as int])
}

/// The identity of degree `n`.
pub open spec fn identity(n: nat) -> Seq<u32> {
    Seq::new(n, |i: int| i as u32)
}

/// `r` is the inverse of `p`: it sends `p[i]` back to `i`.
pub open spec fn is_inverse(p: Seq<u32>, r: Seq<u32>) -> bool {
    &&& r.len() == p.len()
    &&& forall|i: int| 0 <= i < p.len() ==> #[trigger] r[p[i] as int] == i
}

/// `x` is one of the points of the cycles `cs`.
pub open spec fn in_cycles(cs: Seq<Seq<u32>>, x: u32) -> bool {
    exists|a: int, j: int| 0 <= a < cs.len() && 0 <= j < cs[a].len() && #[trigger] cs[a][j] == x
}

/// `c` is a cycle of `p`, listed from its smallest point.
pub open spec fn is_cycle_of(p: Seq<u32>, c: Seq<u32>) -> bool {
    &&& c.len() > 0
    &&& forall|j: int| 0 <= j < c.len() ==> (#[trigger] c[j]) < p.len()
    &&& forall|j: int| 0 <= j < c.len() ==> #[trigger] p[c[j] as int] == c[(j + 1) % (c.len() as int)]
    &&& forall|j: int| 0 < j < c.len() ==> c[0] < #[trigger] c[j]
}

/// `cs` is the decomposition of `p` into cycles, fixed points included,
/// each starting at its smallest point, ordered by that point: every
/// point in exactly one place.
pub open spec fn cycle_decomposition(p: Seq<u32>, cs: Seq<Seq<u32>>) -> bool {
    &&& forall|a: int| 0 <= a < cs.len() ==> is_cycle_of(p, #[trigger] cs[a])
    &&& forall|a: int, b: int| 0 <= a < b < cs.len() ==> (#[trigger] cs[a])[0] < (#[trigger] cs[b])[0]
    &&& forall|x: u32| x < p.len() ==> in_cycles(cs, x)
    &&& forall|a: int, j: int, b: int, k: int|
        0 <= a < cs.len() && 0 <= j < cs[a].len() && 0 <= b < cs.len() && 0 <= k < cs[b].len()
            && (a != b || j != k) ==> #[trigger] cs[a][j] != #[trigger] cs[b][k]
}

/// The number of transpositions that the cycles `cs` are a product of.
pub open spec fn transpositions(cs: Seq<Seq<u32>>) -> nat
    decreases cs.len(),
{
    if cs.len() == 0 {
        0
    } else {
        transpositions(cs.drop_last()) + (cs.last().len() - 1) as nat
    }
}

/// The sign of a permutation with the cycles `cs`.
pub open spec fn sign_of(cs: Seq<Seq<u32>>) -> i64 {
    if transpositions(cs) % 2 == 0 { 1i64 } else { -1i64 }
}

/// The points that the cycles `cs` list, in order.
pub open spec fn points(cs: Seq<Seq<u32>>) -> Seq<int>
    decreases cs.len(),
{
    if cs.len() == 0 {
        seq![]
    } else {
        points(cs.drop_last()) + cs.last().map_values(|x: u32| x as int)
    }
}

/// Each cycle less one point: the transpositions and the cycles together
/// count the points.
proof fn lemma_transpositions_count(cs: Seq<Seq<u32>>)
    requires
        forall|a: int| 0 <= a < cs.len() ==> (#[trigger] cs[a]).len() > 0,
    ensures
        transpositions(cs) + cs.len() == points(cs).len(),
    decreases cs.len(),
{
    if cs.len() > 0 {
        assert forall|a: int| 0 <= a < cs.len() - 1 implies (#[trigger] cs.drop_last()[a]).len() > 0 by {
            assert(cs.drop_last()[a] == cs[a]);
        }
        lemma_transpositions_count(cs.drop_last());
        assert(cs.last().len() > 0);
    }
}

/// Where the `t`-th listed point comes from: a cycle and a place in it.
proof fn lemma_point_at(cs: Seq<Seq<u32>>, t: int) -> (aj: (int, int))
    requires
        0 <= t < points(cs).len(),
    ensures
        0 <= aj.0 < cs.len(),
        0 <= aj.1 < cs[aj.0].len(),
        points(cs)[t] == cs[aj.0][aj.1] as int,
    decreases cs.len(),
{
    let d = cs.drop_last();
    let l = cs.last().map_values(|x: u32| x as int);
    assert(points(cs) == points(d) + l);
    if t < points(d).len() {
        let aj = lemma_point_at(d, t);
        assert(cs[aj.0] == d[aj.0]);
        aj
    } else {
        let last = cs.len() - 1;
        assert(cs[last] == cs.last());
        (last, t - points(d).len())
    }
}

/// Each point of the cycles is listed.
proof fn lemma_point_listed(cs: Seq<Seq<u32>>, a: int, j: int)
    requires
        0 <= a < cs.len(),
        0 <= j < cs[a].len(),
    ensures
        points(cs).contains(cs[a][j] as int),
    decreases cs.len(),
{
    let d = cs.drop_last();
    let l = cs.last().map_values(|x: u32| x as int);
    assert(points(cs) == points(d) + l);
    if a < cs.len() - 1 {
        assert(d[a] == cs[a]);
        lemma_point_listed(d, a, j);
        let t = choose|t: int| 0 <= t < points(d).len() && points(d)[t] == d[a][j] as int;
        assert(points(cs)[t] == points(d)[t]);
    } else {
        assert(cs[a] == cs.last());
        assert(points(cs)[points(d).len() + j] == l[j]);
    }
}

/// The points of a decomposition into cycles are listed once each.
proof fn lemma_points_distinct(cs: Seq<Seq<u32>>)
    requires
        forall|a: int, j: int, b: int, k: int|
            0 <= a < cs.len() && 0 <= j < cs[a].len() && 0 <= b < cs.len() && 0 <= k < cs[b].len() && (a != b || j
                != k) ==> #[trigger] cs[a][j] != #[trigger] cs[b][k],
    ensures
        points(cs).no_duplicates(),
    decreases cs.len(),
{
    if cs.len() > 0 {
        let d = cs.drop_last();
        let l = cs.last().map_values(|x: u32| x as int);
        assert forall|a: int, j: int, b: int, k: int|
            0 <= a < d.len() && 0 <= j < d[a].len() && 0 <= b < d.len() && 0 <= k < d[b].len() && (a != b || j != k) implies #[trigger] d[a][j]
                != #[trigger] d[b][k] by {
            assert(d[a] == cs[a] && d[b] == cs[b]);
        }
        lemma_points_distinct(d);
        let pc = points(cs);
        assert(pc == points(d) + l);
        let last = cs.len() - 1;
        assert(cs[last] == cs.last());
        assert forall|t: int, u: int| 0 <= t < pc.len() && 0 <= u < pc.len() && t != u implies pc[t] != pc[u] by {
            let pd = points(d);
            if t < pd.len() && u < pd.len() {
                assert(pc[t] == pd[t] && pc[u] == pd[u]);
            } else if t >= pd.len() && u >= pd.len() {
                assert(pc[t] == cs[last][t - pd.len()] as int);
                assert(pc[u] == cs[last][u - pd.len()] as int);
            } else if t < pd.len() {
                let (a, j) = lemma_point_at(d, t);
                assert(pc[t] == pd[t]);
                assert(d[a] == cs[a]);
                assert(pc[u] == cs[last][u - pd.len()] as int);
                assert(cs[a][j] != cs[last][u - pd.len()]);
            } else {
                let (a, j) = lemma_point_at(d, u);
                assert(pc[u] == pd[u]);
                assert(d[a] == cs[a]);
                assert(pc[t] == cs[last][t - pd.len()] as int);
                assert(cs[a][j] != cs[last][t - pd.len()]);
            }
        }
    }
}

/// A decomposition of a permutation of degree `n` into cycles lists `n`
/// points, so it has `n - cs.len()` transpositions.
proof fn lemma_decomposition_transpositions(p: Seq<u32>, cs: Seq<Seq<u32>>)
    requires
        is_perm(p),
        cycle_decomposition(p, cs),
    ensures
        transpositions(cs) + cs.len() == p.len(),
{
    let images = p.map_values(|x: u32| x as int);
    assert(images.no_duplicates()) by {
        assert forall|i: int, j: int| 0 <= i < images.len() && 0 <= j < images.len() && i != j implies images[i]
            != images[j] by {
            assert(p[i] != p[j]);
        }
    }
    images.unique_seq_to_set();
    lemma_int_range(0, 0x1_0000_0000);
    lemma_len_subset(images.to_set(), set_int_range(0, 0x1_0000_0000));
    lemma_transpositions_count(cs);
    lemma_points_distinct(cs);
    let pts = points(cs);
    let n = p.len() as int;
    assert(pts.to_set() =~= set_int_range(0, n)) by {
        assert forall|x: int| pts.to_set().contains(x) implies set_int_range(0, n).contains(x) by {
            let t = choose|t: int| 0 <= t < pts.len() && pts[t] == x;
            let (a, j) = lemma_point_at(cs, t);
            assert(is_cycle_of(p, cs[a]));
        }
        assert forall|x: int| set_int_range(0, n).contains(x) implies pts.to_set().contains(x) by {
            assert(in_cycles(cs, x as u32));
            let (a, j) = choose|a: int, j: int| 0 <= a < cs.len() && 0 <= j < cs[a].len() && #[trigger] cs[a][j] == x as u32;
            lemma_point_listed(cs, a, j);
        }
    }
    pts.unique_seq_to_set();
    lemma_int_range(0, n);
}

/// The first (smallest) points of the cycles.
pub open spec fn firsts(cs: Seq<Seq<u32>>) -> Seq<int> {
    cs.map_values(|c: Seq<u32>| c[0] as int)
}

/// The first point of a cycle of `p` is the first point of a cycle of its
/// inverse `r`: the two cycles hold the same points.
proof fn lemma_first_of_inverse(p: Seq<u32>, r: Seq<u32>, cs: Seq<Seq<u32>>, ds: Seq<Seq<u32>>, a: int)
    requires
        is_perm(p),
        is_inverse(p, r),
        cycle_decomposition(p, cs),
        cycle_decomposition(r, ds),
        0 <= a < cs.len(),
    ensures
        firsts(ds).contains(cs[a][0] as int),
{
    lemma_inverse_is_perm(p, r);
    let c = cs[a];
    assert(is_cycle_of(p, c));
    let x = c[0];
    assert(in_cycles(ds, x));
    let (b, j) = choose|b: int, j: int| 0 <= b < ds.len() && 0 <= j < ds[b].len() && #[trigger] ds[b][j] == x;
    let d = ds[b];
    assert(is_cycle_of(r, d));
    let t = (d.len() - j) as nat;
    lemma_power_on_cycle(r, d, j, t);
    assert((j + t) % (d.len() as int) == 0) by {
        vstd::arithmetic::div_mod::lemma_mod_self_0(d.len() as int);
    }
    lemma_inverse_on_cycle(p, r, c, 0, t);
    let k = (0 - t) % (c.len() as int);
    assert(0 <= k < c.len());
    // The first point of d lies on c, so it is not below x; it is not
    // above x either, which is on d.
    assert(d[0] == c[k]);
    if j != 0 {
        assert(d[0] < d[j]);
        if k != 0 {
            assert(c[0] < c[k]);
        }
        assert(false);
    }
    assert(firsts(ds)[b] == x as int);
}

/// A permutation and its inverse have as many cycles, so one sign.
pub proof fn lemma_sign_inverse(p: Seq<u32>, r: Seq<u32>, cs: Seq<Seq<u32>>, ds: Seq<Seq<u32>>)
    requires
        is_perm(p),
        is_inverse(p, r),
        cycle_decomposition(p, cs),
        cycle_decomposition(r, ds),
    ensures
        cs.len() == ds.len(),
        sign_of(cs) == sign_of(ds),
{
    lemma_inverse_is_perm(p, r);
    assert(is_inverse(r, p)) by {
        assert forall|i: int| 0 <= i < r.len() implies #[trigger] p[r[i] as int] == i by {}
    }
    let fc = firsts(cs);
    let fd = firsts(ds);
    assert(fc.to_set() =~= fd.to_set()) by {
        assert forall|x: int| fc.to_set().contains(x) implies fd.to_set().contains(x) by {
            let a = choose|a: int| 0 <= a < fc.len() && fc[a] == x;
            lemma_first_of_inverse(p, r, cs, ds, a);
        }
        assert forall|x: int| fd.to_set().contains(x) implies fc.to_set().contains(x) by {
            let b = choose|b: int| 0 <= b < fd.len() && fd[b] == x;
            lemma_first_of_inverse(r, p, ds, cs, b);
        }
    }
    assert(fc.no_duplicates()) by {
        assert forall|i: int, j: int| 0 <= i < fc.len() && 0 <= j < fc.len() && i != j implies fc[i] != fc[j] by {
            if i < j {
                assert(cs[i][0] < cs[j][0]);
            } else {
                assert(cs[j][0] < cs[i][0]);
            }
        }
    }
    assert(fd.no_duplicates()) by {
        assert forall|i: int, j: int| 0 <= i < fd.len() && 0 <= j < fd.len() && i != j implies fd[i] != fd[j] by {
            if i < j {
                assert(ds[i][0] < ds[j][0]);
            } else {
                assert(ds[j][0] < ds[i][0]);
            }
        }
    }
    fc.unique_seq_to_set();
    fd.unique_seq_to_set();
    lemma_decomposition_transpositions(p, cs);
    lemma_decomposition_transpositions(r, ds);
}

/// The points of a cycle, each plus one, separated by `", "`.
pub open spec fn points_text(c: Seq<u32>) -> Seq<char>
    decreases c.len(),
{
    if c.len() == 0 {
        seq![]
    } else if c.len() == 1 {
        decimal(c[0] as nat + 1)
    } else {
        points_text(c.drop_last()) + seq![',', ' '] + decimal(c.last() as nat + 1)
    }
}

/// The cycle notation of the cycles `cs`, leaving out fixed points:
/// `(1, 2, 3)(4, 5)`.
pub open spec fn notation(cs: Seq<Seq<u32>>) -> Seq<char>
    decreases cs.len(),
{
    if cs.len() == 0 {
        seq![]
    } else if cs.last().len() > 1 {
        notation(cs.drop_last()) + seq!['('] + points_text(cs.last()) + seq![')']
    } else {
        notation(cs.drop_last())
    }
}

/// Some cycle of `cs` is not a fixed point.
pub open spec fn moves_a_point(cs: Seq<Seq<u32>>) -> bool {
    exists|a: int| 0 <= a < cs.len() && (#[trigger] cs[a]).len() > 1
}

// ----- lemmas ----------------------------------------------------------------

/// A permutation reaches every point: an injective map of `{0, ..., n-1}`
/// into itself is onto.
pub proof fn lemma_perm_onto(s: Seq<u32>, y: int)
    requires
        is_perm(s),
        0 <= y < s.len(),
    ensures
        exists|i: int| 0 <= i < s.len() && s[i] as int == y,
{
    let n = s.len() as int;
    let dom = set_int_range(0, n);
    let f = |i: int| s[i] as int;
    let img = dom.map(f);
    lemma_int_range(0, n);
    assert(injective_on(f, dom)) by {
        assert forall|a: int, b: int| dom.contains(a) && dom.contains(b) && #[trigger] f(a) == #[trigger] f(b) implies a == b by {
            if a != b {
                assert(s[a] != s[b]);
            }
        }
    }
    lemma_map_size(dom, img, f);
    assert(img.subset_of(dom)) by {
        assert forall|x: int| #[trigger] img.contains(x) implies dom.contains(x) by {
            let i = choose|i: int| dom.contains(i) && f(i) == x;
            assert(s[i] < s.len());
        }
    }
    lemma_subset_equality(img, dom);
    assert(dom.contains(y));
    assert(img.contains(y));
    let i = choose|i: int| dom.contains(i) && f(i) == y;
    assert(0 <= i < s.len() && s[i] as int == y);
}

/// A permutation has at most `u32::MAX + 1` points.
pub proof fn lemma_perm_len(s: Seq<u32>)
    requires
        is_perm(s),
    ensures
        s.len() <= u32::MAX + 1,
{
    if s.len() > 0 {
        lemma_perm_onto(s, s.len() - 1);
    }
}

/// The inverse is a permutation, and a two-sided one.
pub proof fn lemma_inverse_is_perm(p: Seq<u32>, r: Seq<u32>)
    requires
        is_perm(p),
        is_inverse(p, r),
    ensures
        is_perm(r),
        forall|y: int| 0 <= y < p.len() ==> #[trigger] p[r[y] as int] == y,
{
    assert forall|y: int| 0 <= y < p.len() implies (#[trigger] r[y]) < r.len() && p[r[y] as int] == y by {
        lemma_perm_onto(p, y);
        let i = choose|i: int| 0 <= i < p.len() && p[i] as int == y;
        assert(r[p[i] as int] == i);
    }
    assert forall|y: int| 0 <= y < p.len() implies #[trigger] p[r[y] as int] == y by {
        assert(r[y] < r.len());
    }
    assert forall|x: int, y: int| 0 <= x < r.len() && 0 <= y < r.len() && x != y implies #[trigger] r[x] != #[trigger] r[y] by {
        assert(r[x] < r.len());
        assert(r[y] < r.len());
        assert(p[r[x] as int] == x);
        assert(p[r[y] as int] == y);
    }
}

/// Products of permutations are permutations.
pub proof fn lemma_compose_is_perm(p: Seq<u32>, q: Seq<u32>)
    requires
        is_perm(p),
        is_perm(q),
        p.len() == q.len(),
    ensures
        is_perm(compose(p, q)),
{
    let c = compose(p, q);
    assert forall|i: int, j: int| 0 <= i < c.len() && 0 <= j < c.len() && i != j implies #[trigger] c[i] != #[trigger] c[j] by {
        assert(p[i] != p[j]);
    }
}

/// The product of permutations is associative: `(p * q) * r = p * (q * r)`.
pub proof fn lemma_mul_associative(p: Seq<u32>, q: Seq<u32>, r: Seq<u32>)
    requires
        is_perm(p),
        is_perm(q),
        is_perm(r),
        p.len() == q.len(),
        q.len() == r.len(),
    ensures
        compose(compose(p, q), r) == compose(p, compose(q, r)),
{
    assert(compose(compose(p, q), r) =~= compose(p, compose(q, r)));
}

/// The identity is neutral on both sides.
pub proof fn lemma_identity_neutral(p: Seq<u32>)
    requires
        is_perm(p),
    ensures
        compose(p, identity(p.len())) == p,
        compose(identity(p.len()), p) == p,
{
    lemma_perm_len(p);
    assert(compose(p, identity(p.len())) =~= p);
    assert(compose(identity(p.len()), p) =~= p);
}

/// A permutation times its inverse is the identity, on either side.
pub proof fn lemma_inverse_cancels(p: Seq<u32>, r: Seq<u32>)
    requires
        is_perm(p),
        is_inverse(p, r),
    ensures
        compose(p, r) == identity(p.len()),
        compose(r, p) == identity(p.len()),
{
    lemma_inverse_is_perm(p, r);
    assert(compose(p, r) =~= identity(p.len()));
    assert(compose(r, p) =~= identity(p.len()));
}

// ----- groups and permutations -----------------------------------------------

/// The symmetric group `Sym(n)` of degree `n`.
#[derive(Debug)]
pub struct SymGroup {
    pub degree: u32,
}

/// A permutation of `{1, ..., n}`, an element of `Sym(n)`.
#[derive(Debug)]
pub struct Perm {
    /// The group `Sym(n)`.
    pub group: Rc<SymGroup>,
    /// The images of `1, ..., n`, each less one.
    pub images: Vec<u32>,
}

impl Perm {
    /// The images form a permutation of the degree of the group.
    pub open spec fn wf(&self) -> bool {
        &&& is_perm(self.images@)
        &&& self.group.degree == self.images.len()
    }

    pub fn degree(&self) -> (n: usize)
        ensures
            n == self.images.len(),
    {
        self.images.len()
    }

    /// Whether every point is fixed.
    pub fn is_identity(&self) -> (b: bool)
        ensures
            b == (forall|k: int| 0 <= k < self.images.len() ==> self.images@[k] == k),
    {
        let n = self.images.len();
        let mut i: usize = 0;
        while i < n
            invariant
                n == self.images.len(),
                i <= n,
                forall|k: int| 0 <= k < i ==> self.images@[k] == k,
            decreases n - i,
        {
            if self.images[i] as usize != i {
                return false;
            }
            i += 1;
        }
        true
    }

    /// The permutation of the same group with the given images.
    fn with(&self, images: Vec<u32>) -> (p: Perm)
        ensures
            p.group == self.group,
            p.images@ == images@,
    {
        Perm { group: self.group.clone(), images }
    }

    /// `self * other`: first `self`, then `other`.
    pub fn mul(&self, other: &Perm) -> (p: Perm)
        requires
            self.wf(),
            self.images.len() <= other.images.len(),
        ensures
            p.images@ == compose(self.images@, other.images@),
            p.group == self.group,
            other.wf() && other.images.len() == self.images.len() ==> p.wf(),
    {
        let n = self.images.len();
        let mut images: Vec<u32> = Vec::with_capacity(n);
        let mut i: usize = 0;
        while i < n
            invariant
                n == self.images.len(),
                self.wf(),
                n <= other.images.len(),
                i <= n,
                images.len() == i,
                forall|k: int| 0 <= k < i ==> images@[k] == other.images@[self.images@[k] as int],
            decreases n - i,
        {
            let x = self.images[i] as usize;
            images.push(other.images[x]);
            i += 1;
        }
        assert(images@ =~= compose(self.images@, other.images@));
        proof {
            if other.wf() && other.images.len() == self.images.len() {
                lemma_compose_is_perm(self.images@, other.images@);
            }
        }
        self.with(images)
    }

    /// The inverse permutation.
    pub fn inverse(&self) -> (r: Perm)
        requires
            self.wf(),
        ensures
            r.wf(),
            r.group == self.group,
            is_inverse(self.images@, r.images@),
    {
        let n = self.images.len();
        proof {
            lemma_perm_len(self.images@);
        }
        let mut inv: Vec<u32> = Vec::with_capacity(n);
        let mut k: usize = 0;
        while k < n
            invariant
                k <= n,
                inv.len() == k,
                forall|j: int| 0 <= j < k ==> inv@[j] == 0,
            decreases n - k,
        {
            inv.push(0);
            k += 1;
        }
        let mut i: usize = 0;
        while i < n
            invariant
                n == self.images.len(),
                n <= u32::MAX + 1,
                self.wf(),
                i <= n,
                inv.len() == n,
                forall|j: int| 0 <= j < i ==> #[trigger] inv@[self.images@[j] as int] == j,
            decreases n - i,
        {
            let x = self.images[i] as usize;
            inv[x] = i as u32;
            assert forall|j: int| 0 <= j < i + 1 implies #[trigger] inv@[self.images@[j] as int] == j by {
                if j < i {
                    assert(self.images@[j] != self.images@[i as int]);
                }
            }
            i += 1;
        }
        proof {
            lemma_inverse_is_perm(self.images@, inv@);
        }
        self.with(inv)
    }

    /// `other^-1 * self * other`
    pub fn conjugate(&self, other: &Perm) -> (r: Perm)
        requires
            self.wf(),
            other.wf(),
            self.images.len() == other.images.len(),
        ensures
            r.wf(),
            exists|oi: Seq<u32>|
                is_inverse(other.images@, oi) && r.images@ == compose(
                    compose(oi, self.images@),
                    other.images@,
                ),
    {
        let oi = other.inverse();
        let a = oi.mul(self);
        let r = a.mul(other);
        assert(is_inverse(other.images@, oi.images@));
        r
    }

    /// All cycles, fixed points included, each starting at its smallest
    /// point, ordered by that point (points less one).
    pub fn cycles(&self) -> (cs: Vec<Vec<u32>>)
        requires
            self.wf(),
        ensures
            cycle_decomposition(self.images@, cs@.map_values(|c: Vec<u32>| c@)),
    {
        let n = self.images.len();
        let ghost p = self.images@;
        proof {
            lemma_perm_len(p);
        }
        let mut seen: Vec<bool> = Vec::with_capacity(n);
        let mut k: usize = 0;
        while k < n
            invariant
                k <= n,
                seen.len() == k,
                forall|j: int| 0 <= j < k ==> !seen@[j],
            decreases n - k,
        {
            seen.push(false);
            k += 1;
        }
        let mut out: Vec<Vec<u32>> = Vec::new();
        let ghost mut cs: Seq<Seq<u32>> = seq![];
        let mut i: usize = 0;
        while i < n
            invariant
                n == self.images.len(),
                p == self.images@,
                is_perm(p),
                n <= u32::MAX + 1,
                i <= n,
                seen.len() == n,
                out.len() == cs.len(),
                forall|a: int| 0 <= a < cs.len() ==> (#[trigger] out@[a])@ == cs[a],
                forall|x: u32| x < n ==> (seen@[x as int] <==> in_cycles(cs, x)),
                forall|x: u32| x < i ==> seen@[x as int],
                forall|a: int| 0 <= a < cs.len() ==> is_cycle_of(p, #[trigger] cs[a]),
                forall|a: int| 0 <= a < cs.len() ==> (#[trigger] cs[a])[0] < i,
                forall|a: int, b: int| 0 <= a < b < cs.len() ==> (#[trigger] cs[a])[0] < (#[trigger] cs[b])[0],
                forall|a: int, j: int, b: int, k: int|
                    0 <= a < cs.len() && 0 <= j < cs[a].len() && 0 <= b < cs.len() && 0 <= k < cs[b].len()
                        && (a != b || j != k) ==> #[trigger] cs[a][j] != #[trigger] cs[b][k],
            decreases n - i,
        {
            if seen[i] {
                i += 1;
                continue;
            }
            let ghost outer_seen = seen@;
            let mut c: Vec<u32> = Vec::new();
            c.push(i as u32);
            seen[i] = true;
            let mut j = self.images[i] as usize;
            proof {
                assert(c@[0] == i as u32);
                assert forall|x: u32| x < n implies (seen@[x as int] <==> (outer_seen[x as int] || c@.contains(x))) by {
                    if x == i as u32 {
                        assert(c@[0] == x);
                    }
                    if c@.contains(x) {
                        let t = choose|t: int| 0 <= t < c@.len() && c@[t] == x;
                        assert(t == 0);
                    }
                }
                if j != i && seen@[j as int] {
                    assert(outer_seen[j as int]);
                    lemma_preimage_in_cycles(p, cs, i as u32, j as u32);
                }
            }
            while j != i
                invariant
                    n == self.images.len(),
                    p == self.images@,
                    is_perm(p),
                    n <= u32::MAX + 1,
                    i < n,
                    j < n,
                    seen.len() == n,
                    !outer_seen[i as int],
                    forall|x: u32| x < n ==> (outer_seen[x as int] <==> in_cycles(cs, x)),
                    forall|x: u32| x < i ==> outer_seen[x as int],
                    c.len() >= 1,
                    c@[0] == i,
                    forall|t: int| 0 <= t < c.len() - 1 ==> #[trigger] p[c@[t] as int] == c@[t + 1],
                    j == p[c@[c.len() - 1] as int],
                    forall|t: int| 0 <= t < c.len() ==> (#[trigger] c@[t]) < n && !outer_seen[c@[t] as int],
                    forall|t: int| 0 < t < c.len() ==> (#[trigger] c@[t]) > i,
                    forall|s: int, t: int| 0 <= s < t < c.len() ==> #[trigger] c@[s] != #[trigger] c@[t],
                    forall|x: u32| x < n ==> (seen@[x as int] <==> (outer_seen[x as int] || c@.contains(x))),
                    j != i ==> !seen@[j as int],
                    forall|a: int| 0 <= a < cs.len() ==> is_cycle_of(p, #[trigger] cs[a]),
                    forall|a: int, s: int, b: int, t: int|
                        0 <= a < cs.len() && 0 <= s < cs[a].len() && 0 <= b < cs.len() && 0 <= t < cs[b].len()
                            && (a != b || s != t) ==> #[trigger] cs[a][s] != #[trigger] cs[b][t],
                decreases count_unseen(seen@),
            {
                let ghost before = seen@;
                proof {
                    lemma_count_unseen_set(before, j as int);
                    // j is not yet in c and not in an earlier cycle.
                    assert(!outer_seen[j as int]);
                    assert(!c@.contains(j as u32));
                    if j <= i {
                        if j < i {
                            assert(outer_seen[j as int]);
                        }
                    }
                }
                let ghost old_c = c@;
                seen[j] = true;
                c.push(j as u32);
                let ghost last = j;
                j = self.images[j] as usize;
                proof {
                    let cv = c@;
                    assert forall|t: int| 0 <= t < cv.len() - 1 implies #[trigger] p[cv[t] as int] == cv[t + 1] by {
                        if t < cv.len() - 2 {
                        } else {
                            assert(cv[t] == c@[c.len() - 2]);
                        }
                    }
                    assert forall|x: u32| x < n implies (seen@[x as int] <==> (outer_seen[x as int] || cv.contains(x))) by {
                        if x == last as u32 {
                            assert(cv[cv.len() - 1] == x);
                        }
                        if cv.contains(x) {
                            let t = choose|t: int| 0 <= t < cv.len() && cv[t] == x;
                            if t < cv.len() - 1 {
                                assert(old_c[t] == x);
                            }
                        }
                        if x != last as u32 && old_c.contains(x) {
                            let t = choose|t: int| 0 <= t < old_c.len() && old_c[t] == x;
                            assert(cv[t] == x);
                        }
                    }
                    if j != i && seen@[j as int] {
                        if outer_seen[j as int] {
                            // j lies in an earlier cycle, and so does its preimage.
                            lemma_preimage_in_cycles(p, cs, last as u32, j as u32);
                        } else {
                            assert(cv.contains(j as u32));
                            let t = choose|t: int| 0 <= t < cv.len() && cv[t] == j as u32;
                            assert(t != 0);
                            assert(p[cv[t - 1] as int] == cv[t]);
                            assert(p[cv[cv.len() - 1] as int] == j);
                            assert(cv[t - 1] == cv[cv.len() - 1]);
                            assert(t - 1 == cv.len() - 1);
                        }
                    }
                }
            }
            proof {
                let cv = c@;
                let len = cv.len() as int;
                assert forall|t: int| 0 <= t < len implies #[trigger] p[cv[t] as int] == cv[(t + 1) % len] by {
                    if t < len - 1 {
                        vstd::arithmetic::div_mod::lemma_small_mod((t + 1) as nat, len as nat);
                    } else {
                        vstd::arithmetic::div_mod::lemma_mod_self_0(len);
                    }
                }
                assert(is_cycle_of(p, cv));
                let ncs = cs.push(cv);
                assert forall|x: u32| x < n implies (seen@[x as int] <==> in_cycles(ncs, x)) by {
                    if seen@[x as int] {
                        if outer_seen[x as int] {
                            let (a, s) = choose|a: int, s: int| 0 <= a < cs.len() && 0 <= s < cs[a].len() && #[trigger] cs[a][s] == x;
                            assert(ncs[a][s] == x);
                        } else {
                            let t = choose|t: int| 0 <= t < cv.len() && cv[t] == x;
                            assert(ncs[cs.len() as int][t] == x);
                        }
                    }
                    if in_cycles(ncs, x) {
                        let (a, s) = choose|a: int, s: int| 0 <= a < ncs.len() && 0 <= s < ncs[a].len() && #[trigger] ncs[a][s] == x;
                        if a < cs.len() {
                            assert(cs[a][s] == x);
                            assert(in_cycles(cs, x));
                        } else {
                            assert(cv[s] == x);
                            assert(cv.contains(x));
                        }
                    }
                }
                assert forall|a: int, s: int, b: int, t: int|
                    0 <= a < ncs.len() && 0 <= s < ncs[a].len() && 0 <= b < ncs.len() && 0 <= t < ncs[b].len()
                        && (a != b || s != t) implies #[trigger] ncs[a][s] != #[trigger] ncs[b][t] by {
                    if a == cs.len() && b < cs.len() {
                        assert(!outer_seen[cv[s] as int]);
                        assert(in_cycles(cs, cs[b][t]));
                    } else if b == cs.len() && a < cs.len() {
                        assert(!outer_seen[cv[t] as int]);
                        assert(in_cycles(cs, cs[a][s]));
                    } else if a == cs.len() && b == cs.len() {
                        if s < t {
                            assert(cv[s] != cv[t]);
                        } else {
                            assert(cv[t] != cv[s]);
                        }
                    }
                }
                assert forall|x: u32| x < i + 1 implies seen@[x as int] by {
                    if x == i as u32 {
                        assert(cv[0] == x);
                        assert(cv.contains(x));
                    } else {
                        assert(outer_seen[x as int]);
                        assert(x < n);
                    }
                }
                cs = ncs;
            }
            out.push(c);
            i += 1;
        }
        proof {
            assert(out@.map_values(|c: Vec<u32>| c@) =~= cs);
            assert forall|x: u32| x < p.len() implies in_cycles(cs, x) by {
                assert(seen@[x as int]);
            }
        }
        out
    }

    /// 1 for even permutations, -1 for odd ones: of a permutation of degree
    /// `n` with `k` cycles, fixed points included, `(-1)^(n - k)`.
    pub fn sign(&self) -> (s: i64)
        requires
            self.wf(),
        ensures
            exists|cs: Seq<Seq<u32>>| cycle_decomposition(self.images@, cs) && s == sign_of(cs),
            exists|cs: Seq<Seq<u32>>|
                #[trigger] cycle_decomposition(self.images@, cs) && (s == 1 <==> (self.images.len() - cs.len()) % 2 == 0)
                    && (s == 1 || s == -1),
    {
        let cs = self.cycles();
        let ghost cv = cs@.map_values(|c: Vec<u32>| c@);
        let mut odd = false;
        let mut a: usize = 0;
        while a < cs.len()
            invariant
                a <= cs.len(),
                cv == cs@.map_values(|c: Vec<u32>| c@),
                cycle_decomposition(self.images@, cv),
                odd == (transpositions(cv.take(a as int)) % 2 == 1),
            decreases cs.len() - a,
        {
            assert(cv.take(a + 1).drop_last() =~= cv.take(a as int));
            assert(cv[a as int] == cs@[a as int]@);
            assert(is_cycle_of(self.images@, cv[a as int]));
            if (cs[a].len() - 1) % 2 == 1 {
                odd = !odd;
            }
            a += 1;
        }
        assert(cv.take(cs.len() as int) =~= cv);
        let s: i64 = if odd { -1 } else { 1 };
        assert(cycle_decomposition(self.images@, cv) && s == sign_of(cv));
        proof {
            lemma_decomposition_transpositions(self.images@, cv);
        }
        s
    }

    /// Cycle notation, `(1, 2, 3)(4, 5)`; `None` for the identity.
    pub fn cycle_notation(&self) -> (r: Option<String>)
        requires
            self.wf(),
        ensures
            exists|cs: Seq<Seq<u32>>|
                cycle_decomposition(self.images@, cs) && match r {
                    Some(s) => moves_a_point(cs) && s@ == notation(cs),
                    None => !moves_a_point(cs),
                },
    {
        let cs = self.cycles();
        let ghost cv = cs@.map_values(|c: Vec<u32>| c@);
        let mut s = String::new();
        let mut any = false;
        let mut a: usize = 0;
        while a < cs.len()
            invariant
                a <= cs.len(),
                cv == cs@.map_values(|c: Vec<u32>| c@),
                s@ == notation(cv.take(a as int)),
                any == moves_a_point(cv.take(a as int)),
            decreases cs.len() - a,
        {
            let c = &cs[a];
            let ghost pre = cv.take(a as int);
            assert(cv.take(a + 1).drop_last() =~= pre);
            assert(cv.take(a + 1).last() == c@);
            if c.len() > 1 {
                proof {
                    reveal_strlit("(");
                    reveal_strlit(")");
                    reveal_strlit(", ");
                }
                s.append("(");
                let mut k: usize = 0;
                while k < c.len()
                    invariant
                        k <= c.len(),
                        c.len() > 1,
                        s@ == notation(pre) + seq!['('] + points_text(c@.take(k as int)),
                    decreases c.len() - k,
                {
                    assert(c@.take(k + 1).drop_last() =~= c@.take(k as int));
                    proof {
                        reveal_strlit(", ");
                    }
                    if k > 0 {
                        s.append(", ");
                    }
                    push_decimal(&mut s, c[k] as u64 + 1);
                    proof {
                        let t = c@.take(k + 1);
                        assert(t.last() == c@[k as int]);
                        if k == 0 {
                            assert(t.len() == 1);
                            assert(points_text(t) == decimal(c@[0] as nat + 1));
                            assert(c@.take(0) =~= Seq::<u32>::empty());
                        } else {
                            assert(points_text(t) == points_text(c@.take(k as int)) + seq![',', ' '] + decimal(c@[k as int] as nat + 1));
                        }
                    }
                    assert(s@ =~= notation(pre) + seq!['('] + points_text(c@.take(k + 1)));
                    k += 1;
                }
                assert(c@.take(c.len() as int) =~= c@);
                s.append(")");
                assert(s@ =~= notation(cv.take(a + 1)));
                proof {
                    assert(cv.take(a + 1)[a as int].len() > 1);
                }
                any = true;
            } else {
                proof {
                    if moves_a_point(cv.take(a + 1)) {
                        let b = choose|b: int| 0 <= b < a + 1 && (#[trigger] cv.take(a + 1)[b]).len() > 1;
                        assert(cv.take(a + 1)[b] == pre[b]);
                    }
                }
            }
            proof {
                if any && moves_a_point(pre) {
                    let b = choose|b: int| 0 <= b < a && (#[trigger] pre[b]).len() > 1;
                    assert(cv.take(a + 1)[b] == pre[b]);
                }
            }
            a += 1;
        }
        assert(cv.take(cs.len() as int) =~= cv);
        if any { Some(s) } else { None }
    }
}

/// The cycles `cs` of `p` are closed under preimages: if `p[x]` is in
/// one of them, so is `x`.
proof fn lemma_preimage_in_cycles(p: Seq<u32>, cs: Seq<Seq<u32>>, x: u32, y: u32)
    requires
        is_perm(p),
        x < p.len(),
        p[x as int] == y,
        in_cycles(cs, y),
        forall|a: int| 0 <= a < cs.len() ==> is_cycle_of(p, #[trigger] cs[a]),
    ensures
        in_cycles(cs, x),
{
    let (a, s) = choose|a: int, s: int| 0 <= a < cs.len() && 0 <= s < cs[a].len() && #[trigger] cs[a][s] == y;
    let c = cs[a];
    let len = c.len() as int;
    let s0 = if s == 0 { len - 1 } else { s - 1 };
    assert(is_cycle_of(p, c));
    assert(p[c[s0] as int] == c[(s0 + 1) % len]);
    assert((s0 + 1) % len == s) by {
        if s == 0 {
            vstd::arithmetic::div_mod::lemma_mod_self_0(len);
        } else {
            vstd::arithmetic::div_mod::lemma_small_mod(s as nat, len as nat);
        }
    }
    assert(c[s0] < p.len());
    if c[s0] != x {
        assert(p[c[s0] as int] != p[x as int]);
    }
    assert(cs[a][s0] == x);
}

/// The number of points not yet seen.
pub open spec fn count_unseen(s: Seq<bool>) -> nat
    decreases s.len(),
{
    if s.len() == 0 {
        0
    } else {
        count_unseen(s.drop_last()) + if s.last() { 0nat } else { 1nat }
    }
}

/// Marking an unseen point seen lowers the count by one.
proof fn lemma_count_unseen_set(s: Seq<bool>, j: int)
    requires
        0 <= j < s.len(),
        !s[j],
    ensures
        count_unseen(s.update(j, true)) + 1 == count_unseen(s),
    decreases s.len(),
{
    let t = s.update(j, true);
    if j == s.len() - 1 {
        assert(t.drop_last() =~= s.drop_last());
    } else {
        assert(t.drop_last() =~= s.drop_last().update(j, true));
        lemma_count_unseen_set(s.drop_last(), j);
    }
}

// ----- the order of Sym(n) ----------------------------------------------------

/// `p` is a prime.
pub open spec fn is_prime(p: nat) -> bool {
    p >= 2 && forall|d: nat| 2 <= d < p ==> #[trigger] (p % d) != 0
}

/// The exponent of the prime `p` in `q!`: `q/p + q/p^2 + ...`.
pub open spec fn legendre(q: nat, p: nat) -> nat
    decreases q,
{
    if p < 2 || q == 0 {
        0
    } else {
        proof {
            lemma_div_smaller(q, p);
        }
        q / p + legendre(q / p, p)
    }
}

/// `p` to the power `e` as Magma prints it in a factorisation.
pub open spec fn power_text(p: nat, e: nat) -> Seq<char> {
    if e == 1 {
        decimal(p)
    } else {
        decimal(p) + seq!['^'] + decimal(e)
    }
}

/// The prime powers of `n!` for the primes up to `k`, in increasing order.
pub open spec fn factor_parts(n: nat, k: nat) -> Seq<Seq<char>>
    decreases k,
{
    if k < 2 {
        seq![]
    } else if is_prime(k) {
        factor_parts(n, (k - 1) as nat).push(power_text(k, legendre(n, k)))
    } else {
        factor_parts(n, (k - 1) as nat)
    }
}

/// Texts joined by `" * "`.
pub open spec fn join_products(parts: Seq<Seq<char>>) -> Seq<char>
    decreases parts.len(),
{
    if parts.len() == 0 {
        seq![]
    } else if parts.len() == 1 {
        parts[0]
    } else {
        join_products(parts.drop_last()) + seq![' ', '*', ' '] + parts.last()
    }
}

/// `n!` as Magma prints a group order's factorisation: `2^3 * 3 * 5`,
/// and `1` when it has no prime factor.
pub open spec fn factorial_text(n: nat) -> Seq<char> {
    if factor_parts(n, n).len() == 0 {
        seq!['1']
    } else {
        join_products(factor_parts(n, n))
    }
}

/// `m` has a divisor `d` with `2 <= d < p` and `d * d <= m`.
pub open spec fn has_small_divisor(m: nat, p: nat) -> bool {
    exists|d: nat| 2 <= d < p && #[trigger] (m % d) == 0 && d * d <= m
}

pub proof fn lemma_div_smaller(q: nat, p: nat)
    requires
        p >= 2,
        q > 0,
    ensures
        q / p < q,
        q / p + q / p <= q,
{
    assert(q / p < q && q / p + q / p <= q) by (nonlinear_arith)
        requires
            p >= 2,
            q > 0,
    {
        assert(p * (q / p) <= q) by {
            vstd::arithmetic::div_mod::lemma_fundamental_div_mod(q as int, p as int);
        }
    }
}

proof fn lemma_legendre_bound(q: nat, p: nat)
    ensures
        legendre(q, p) <= q,
    decreases q,
{
    if p >= 2 && q > 0 {
        lemma_div_smaller(q, p);
        lemma_legendre_bound(q / p, p);
    }
}

/// A number `p >= 2` with no divisor `d`, `2 <= d < p`, `d * d <= p`, is
/// prime; a prime has none.
proof fn lemma_prime_iff_no_small_divisor(p: nat)
    requires
        p >= 2,
    ensures
        is_prime(p) <==> !has_small_divisor(p, p),
{
    if !is_prime(p) {
        let d = choose|d: nat| 2 <= d < p && #[trigger] (p % d) == 0;
        let k = p / d;
        vstd::arithmetic::div_mod::lemma_fundamental_div_mod(p as int, d as int);
        assert(p == d * k);
        if d * d <= p {
            assert(has_small_divisor(p, p));
        } else {
            assert(k < d && k >= 2 && k * k <= p && k < p) by (nonlinear_arith)
                requires
                    p == d * k,
                    d * d > p,
                    2 <= d < p,
            {
                if k <= 1 {
                    assert(d * k <= d);
                }
            }
            assert(p % k == 0) by {
                vstd::arithmetic::div_mod::lemma_mod_multiples_basic(d as int, k as int);
                assert(d * k == k * d) by (nonlinear_arith);
            }
            assert(has_small_divisor(p, p));
        }
    }
}

/// Passing a composite `p` adds no divisor to look for.
proof fn lemma_composite_step(m: nat, p: nat)
    requires
        p >= 2,
        has_small_divisor(p, p),
    ensures
        has_small_divisor(m, p + 1) <==> has_small_divisor(m, p),
{
    if has_small_divisor(m, p + 1) && !has_small_divisor(m, p) {
        let d = choose|d: nat| 2 <= d < p + 1 && #[trigger] (m % d) == 0 && d * d <= m;
        assert(d == p);
        let e = choose|e: nat| 2 <= e < p && #[trigger] (p % e) == 0 && e * e <= p;
        assert(m % e == 0) by {
            vstd::arithmetic::div_mod::lemma_fundamental_div_mod(m as int, p as int);
            vstd::arithmetic::div_mod::lemma_fundamental_div_mod(p as int, e as int);
            let a = m / p;
            let b = p / e;
            assert(m == e * (b * a)) by (nonlinear_arith)
                requires
                    m == p * a,
                    p == e * b,
            ;
            vstd::arithmetic::div_mod::lemma_mod_multiples_basic((b * a) as int, e as int);
            assert(e * (b * a) == (b * a) * e) by (nonlinear_arith);
        }
        assert(e * e <= m) by (nonlinear_arith)
            requires
                e < p,
                p * p <= m,
                e >= 2,
        ;
        assert(has_small_divisor(m, p));
    }
}

/// `n!` as Magma prints a group order's factorisation: `2^3 * 3 * 5`
/// (just the number for 1 and for primes).
pub fn factorial_factorization(n: usize) -> (s: String)
    requires
        n < u32::MAX,
    ensures
        s@ == factorial_text(n as nat),
{
    let mut sieve: Vec<bool> = Vec::with_capacity(n + 1);
    let mut k: usize = 0;
    while k <= n
        invariant
            n < u32::MAX,
            k <= n + 1,
            sieve.len() == k,
            forall|j: int| 0 <= j < k ==> sieve@[j],
        decreases n + 1 - k,
    {
        sieve.push(true);
        k += 1;
    }
    let mut out = String::new();
    let mut any = false;
    let mut p: usize = 2;
    while p <= n
        invariant
            n < u32::MAX,
            2 <= p,
            p <= n + 1 || p == 2,
            sieve.len() == n + 1,
            forall|m: nat| 2 <= m <= n ==> (sieve@[m as int] <==> !has_small_divisor(m, p as nat)),
            out@ == join_products(factor_parts(n as nat, (p - 1) as nat)),
            any == (factor_parts(n as nat, (p - 1) as nat).len() > 0),
        decreases n + 1 - p,
    {
        proof {
            lemma_prime_iff_no_small_divisor(p as nat);
        }
        if !sieve[p] {
            proof {
                assert forall|m: nat| 2 <= m <= n implies (sieve@[m as int] <==> !has_small_divisor(m, (p + 1) as nat)) by {
                    lemma_composite_step(m, p as nat);
                }
                assert(factor_parts(n as nat, p as nat) == factor_parts(n as nat, (p - 1) as nat));
            }
            p += 1;
            continue;
        }
        let ghost old_sieve = sieve@;
        let ghost pn = p as nat;
        assert((p as u64) * (p as u64) <= u64::MAX) by (nonlinear_arith)
            requires
                p < u32::MAX,
        ;
        let mut m: u64 = (p as u64) * (p as u64);
        proof {
            vstd::arithmetic::div_mod::lemma_mod_multiples_basic(p as int, p as int);
        }
        while m <= n as u64
            invariant
                n < u32::MAX,
                2 <= p <= n,
                pn == p,
                sieve.len() == n + 1,
                old_sieve.len() == n + 1,
                (m as nat) % pn == 0,
                m >= pn * pn,
                m <= n + pn || m == pn * pn,
                forall|x: nat| 2 <= x <= n ==> (sieve@[x as int] <==> (#[trigger] old_sieve[x as int] && !(pn * pn <= x < m && x % pn == 0))),
            decreases n + pn - m,
        {
            let ghost cur = m as nat;
            let ghost prev = sieve@;
            sieve[m as usize] = false;
            m = m + p as u64;
            proof {
                assert(sieve@ == prev.update(cur as int, false));
                lemma_sieve_step(old_sieve, prev, sieve@, pn, cur, m as nat, n as nat);
            }
        }
        proof {
            assert forall|m2: nat| 2 <= m2 <= n implies (sieve@[m2 as int] <==> !has_small_divisor(m2, (p + 1) as nat)) by {
                if m2 % pn == 0 && pn * pn <= m2 {
                    assert(has_small_divisor(m2, (p + 1) as nat));
                }
                if has_small_divisor(m2, (p + 1) as nat) && !has_small_divisor(m2, pn) {
                    let d = choose|d: nat| 2 <= d < p + 1 && #[trigger] (m2 % d) == 0 && d * d <= m2;
                    assert(d == p);
                }
                if has_small_divisor(m2, pn) {
                    let d = choose|d: nat| 2 <= d < pn && #[trigger] (m2 % d) == 0 && d * d <= m2;
                    assert(has_small_divisor(m2, (p + 1) as nat));
                }
            }
        }
        let mut e: usize = 0;
        let mut q: usize = n;
        proof {
            lemma_legendre_bound(n as nat, p as nat);
        }
        while q > 0
            invariant
                2 <= p,
                e + legendre(q as nat, p as nat) == legendre(n as nat, p as nat),
                legendre(n as nat, p as nat) <= n,
            decreases q,
        {
            proof {
                lemma_div_smaller(q as nat, p as nat);
            }
            q = q / p;
            e = e + q;
        }
        let ghost before = out@;
        if any {
            proof {
                reveal_strlit(" * ");
            }
            out.append(" * ");
        }
        push_decimal(&mut out, p as u64);
        if e != 1 {
            out.push('^');
            push_decimal(&mut out, e as u64);
        }
        proof {
            let parts = factor_parts(n as nat, (p - 1) as nat);
            let np = factor_parts(n as nat, p as nat);
            assert(np == parts.push(power_text(p as nat, legendre(n as nat, p as nat))));
            assert(np.drop_last() =~= parts);
            if any {
                assert(out@ =~= join_products(np));
            } else {
                assert(parts.len() == 0);
                assert(out@ =~= join_products(np));
            }
        }
        any = true;
        p += 1;
    }
    assert(factor_parts(n as nat, (p - 1) as nat) == factor_parts(n as nat, n as nat));
    if any {
        out
    } else {
        let mut one = String::new();
        one.push('1');
        assert(one@ =~= seq!['1']);
        one
    }
}

// ----- the groups -------------------------------------------------------------

/// The symmetric groups made so far, by degree.
pub type GroupMap = FxHashMap<usize, Rc<SymGroup>>;

/// The degrees of the groups held in a `GroupMap`, by key.
pub uninterp spec fn cached_degrees(m: GroupMap) -> Map<usize, u32>;

/// `FxHashMap::default`: no groups.
#[verifier::external_body]
fn groups_new() -> (fresh: GroupMap)
    ensures
        cached_degrees(fresh).dom().is_empty(),
{
    FxHashMap::default()
}

/// `FxHashMap::get`: the group held under `n`, if any.
#[verifier::external_body]
fn groups_get(m: &GroupMap, n: usize) -> (r: Option<Rc<SymGroup>>)
    ensures
        r is Some <==> cached_degrees(*m).contains_key(n),
        r matches Some(g) ==> g.degree == cached_degrees(*m)[n],
{
    m.get(&n).cloned()
}

/// `FxHashMap::insert`: hold `g` under `n`.
#[verifier::external_body]
fn groups_insert(m: &mut GroupMap, n: usize, g: Rc<SymGroup>)
    ensures
        cached_degrees(*final(m)) == cached_degrees(*old(m)).insert(n, g.degree),
{
    m.insert(n, g);
}

/// The symmetric groups made so far: one per degree.
pub struct GroupCache {
    sym: GroupMap,
}

impl GroupCache {
    /// No groups yet.
    pub fn new() -> (c: GroupCache)
        ensures
            c.degrees().dom().is_empty(),
    {
        GroupCache { sym: groups_new() }
    }

    /// The degrees of the groups held, by key.
    pub closed spec fn degrees(&self) -> Map<usize, u32> {
        cached_degrees(self.sym)
    }

    /// Each group is held under its degree.
    #[verifier::type_invariant]
    closed spec fn wf(&self) -> bool {
        forall|n: usize| #[trigger] self.degrees().contains_key(n) ==> self.degrees()[n] == n
    }
}

impl Clone for Perm {
    fn clone(&self) -> (p: Perm)
        ensures
            p.group == self.group,
            p.images@ == self.images@,
    {
        Perm { group: self.group.clone(), images: self.images.clone() }
    }
}

/// What `Sym(n) ! x` is given: an integer (only 1 coerces), a sequence
/// whose entries are integers that fit a word (`Some`) or anything else
/// (`None`), a permutation, or another value.
pub enum SymSource {
    Int { is_one: bool },
    Sequence(Vec<Option<u64>>),
    Permutation(Perm),
    Other,
}

/// `o` is one of the points `1, ..., n`.
pub open spec fn point_in(o: Option<u64>, n: nat) -> bool {
    match o {
        Some(x) => 1 <= x <= n,
        None => false,
    }
}

/// The images (less one) that the sequence `s` gives, if it is a
/// permutation of `1, ..., n`.
pub open spec fn seq_is_perm(s: Seq<Option<u64>>, n: nat) -> bool {
    &&& s.len() == n
    &&& forall|i: int| 0 <= i < s.len() ==> point_in(#[trigger] s[i], n)
    &&& forall|i: int, j: int|
        0 <= i < s.len() && 0 <= j < s.len() && i != j ==> #[trigger] s[i] != #[trigger] s[j]
}

/// The images (less one) of the sequence `s` if it is a permutation of
/// `1, ..., n`.
pub fn images_from_seq(s: &[Option<u64>], n: usize) -> (r: Option<Vec<u32>>)
    ensures
        r is Some <==> seq_is_perm(s@, n as nat),
        r matches Some(v) ==> v.len() == n && forall|i: int|
            0 <= i < n ==> #[trigger] v@[i] == (s@[i]->0 - 1) as u32,
{
    if s.len() != n {
        return None;
    }
    let mut seen: Vec<bool> = Vec::with_capacity(n);
    let mut k: usize = 0;
    while k < n
        invariant
            k <= n,
            seen.len() == k,
            forall|j: int| 0 <= j < k ==> !seen@[j],
        decreases n - k,
    {
        seen.push(false);
        k += 1;
    }
    let mut images: Vec<u32> = Vec::with_capacity(n);
    let mut i: usize = 0;
    while i < n
        invariant
            s.len() == n,
            i <= n,
            seen.len() == n,
            images.len() == i,
            forall|j: int| 0 <= j < i ==> point_in(#[trigger] s@[j], n as nat),
            forall|j: int| 0 <= j < i ==> #[trigger] images@[j] == (s@[j]->0 - 1) as u32,
            forall|j: int, l: int| 0 <= j < i && 0 <= l < i && j != l ==> #[trigger] s@[j] != #[trigger] s@[l],
            forall|x: int| 0 <= x < n ==> (seen@[x] <==> exists|j: int| 0 <= j < i && #[trigger] s@[j] == Some((x + 1) as u64)),
        decreases n - i,
    {
        let v = s[i];
        let x = match v {
            Some(x) => x,
            None => {
                return None;
            },
        };
        if x == 0 || x > n as u64 || seen[(x - 1) as usize] {
            proof {
                if x != 0 && x <= n as u64 {
                    let j = choose|j: int| 0 <= j < i && #[trigger] s@[j] == Some(((x - 1) + 1) as u64);
                    assert(s@[j] == s@[i as int]);
                }
            }
            return None;
        }
        let ghost before = seen@;
        seen[(x - 1) as usize] = true;
        images.push((x - 1) as u32);
        proof {
            assert forall|y: int| 0 <= y < n implies (seen@[y] <==> exists|j: int| 0 <= j < i + 1 && #[trigger] s@[j] == Some((y + 1) as u64)) by {
                if y == x - 1 {
                    assert(s@[i as int] == Some((y + 1) as u64));
                } else if seen@[y] {
                    assert(before[y]);
                } else {
                    if exists|j: int| 0 <= j < i + 1 && #[trigger] s@[j] == Some((y + 1) as u64) {
                        let j = choose|j: int| 0 <= j < i + 1 && #[trigger] s@[j] == Some((y + 1) as u64);
                        if j < i {
                            assert(before[y]);
                        }
                    }
                }
            }
            assert forall|j: int, l: int| 0 <= j < i + 1 && 0 <= l < i + 1 && j != l implies #[trigger] s@[j] != #[trigger] s@[l] by {
                if j == i && l < i {
                    if s@[l] == s@[j] {
                        assert(before[(x - 1) as int]);
                    }
                } else if l == i && j < i {
                    if s@[l] == s@[j] {
                        assert(before[(x - 1) as int]);
                    }
                }
            }
        }
        i += 1;
    }
    Some(images)
}

impl Interp {
    /// The symmetric group of degree `n ≥ 1`, the same one for each `n`.
    pub fn sym_group(&mut self, n: usize) -> (g: Rc<SymGroup>)
        requires
            n <= u32::MAX,
        ensures
            final(self).default_bits == old(self).default_bits,
            g.degree == n,
            final(self).groups.degrees().contains_key(n),
            old(self).groups.degrees().contains_key(n) ==> final(self).groups.degrees() == old(
                self,
            ).groups.degrees(),
    {
        proof {
            use_type_invariant(&self.groups);
        }
        match groups_get(&self.groups.sym, n) {
            Some(g) => {
                assert(self.groups.degrees().contains_key(n));
                g
            },
            None => {
                let g = Rc::new(SymGroup { degree: n as u32 });
                let ghost before = self.groups.degrees();
                let mut cache = GroupCache::new();
                std::mem::swap(&mut cache, &mut self.groups);
                let mut sym = cache.sym;
                groups_insert(&mut sym, n, g.clone());
                assert(cached_degrees(sym) == before.insert(n, n as u32));
                assert forall|m: usize| #[trigger] cached_degrees(sym).contains_key(m) implies cached_degrees(sym)[m] == m by {
                    if m != n {
                        assert(before.contains_key(m));
                    }
                }
                self.groups = GroupCache { sym };
                g
            },
        }
    }

    /// The permutation with the given images (less one), in the group of
    /// their number (a permutation of degree 1 for none).
    pub fn perm(&mut self, images: Vec<u32>) -> (p: Perm)
        requires
            images.len() <= u32::MAX,
        ensures
            final(self).default_bits == old(self).default_bits,
            p.images@ == (if images.len() == 0 { seq![0u32] } else { images@ }),
            p.group.degree == p.images.len(),
            is_perm(images@) && images.len() > 0 ==> p.wf(),
    {
        let n = if images.len() > 1 { images.len() } else { 1 };
        let group = self.sym_group(n);
        let images = if images.len() == 0 {
            let mut v: Vec<u32> = Vec::new();
            v.push(0);
            v
        } else {
            images
        };
        proof {
            if images.len() == 1 {
                assert(n == 1);
            }
        }
        Perm { group, images }
    }

    /// The identity of `Sym(n)` (of `Sym(1)` for `n = 0`).
    pub fn perm_identity(&mut self, n: usize) -> (p: Perm)
        requires
            n <= u32::MAX,
        ensures
            final(self).default_bits == old(self).default_bits,
            p.wf(),
            p.images@ == identity(if n == 0 { 1 } else { n as nat }),
    {
        let mut images: Vec<u32> = Vec::with_capacity(n);
        let mut i: usize = 0;
        while i < n
            invariant
                i <= n,
                n <= u32::MAX,
                images.len() == i,
                forall|k: int| 0 <= k < i ==> images@[k] == k,
            decreases n - i,
        {
            images.push(i as u32);
            i += 1;
        }
        assert(n > 0 ==> images@ =~= identity(n as nat));
        let p = self.perm(images);
        assert(p.images@ =~= identity(if n == 0 { 1 } else { n as nat }));
        p
    }

    /// `Sym(n) ! x`: from 1, a sequence of images, or a permutation of the
    /// same degree. `Err(None)` where `x` does not coerce, with a message
    /// for a permutation of another degree.
    pub fn coerce_into_sym(&mut self, n: usize, x: &SymSource) -> (r: Result<Perm, Option<String>>)
        requires
            1 <= n <= u32::MAX,
        ensures
            final(self).default_bits == old(self).default_bits,
            match *x {
                SymSource::Int { is_one } => match r {
                    Ok(p) => is_one && p.wf() && p.images@ == identity(n as nat),
                    Err(e) => !is_one && e is None,
                },
                SymSource::Sequence(s) => match r {
                    Ok(p) => seq_is_perm(s@, n as nat) && p.wf() && forall|i: int|
                        0 <= i < n ==> #[trigger] p.images@[i] == (s@[i]->0 - 1) as u32,
                    Err(e) => !seq_is_perm(s@, n as nat) && e is None,
                },
                SymSource::Permutation(q) => match r {
                    Ok(p) => q.images.len() == n && p.images@ == q.images@ && p.group == q.group,
                    Err(e) => q.images.len() != n && e is Some && e->0@
                        == "Could not find a covering group"@,
                },
                SymSource::Other => r == Err::<Perm, Option<String>>(None),
            },
    {
        match x {
            SymSource::Int { is_one } => {
                if *is_one {
                    Ok(self.perm_identity(n))
                } else {
                    Err(None)
                }
            },
            SymSource::Sequence(s) => match images_from_seq(s.as_slice(), n) {
                Some(images) => {
                    proof {
                        assert forall|a: int| 0 <= a < images.len() implies (#[trigger] images@[a]) < images.len() by {
                            assert(point_in(s@[a], n as nat));
                        }
                        assert forall|a: int, b: int| 0 <= a < images.len() && 0 <= b < images.len() && a != b implies #[trigger] images@[a] != #[trigger] images@[b] by {
                            assert(s@[a] != s@[b]);
                            assert(point_in(s@[a], n as nat));
                            assert(point_in(s@[b], n as nat));
                        }
                    }
                    Ok(self.perm(images))
                },
                None => Err(None),
            },
            SymSource::Permutation(q) => {
                if q.degree() == n {
                    Ok(q.clone())
                } else {
                    proof {
                        reveal_strlit("Could not find a covering group");
                    }
                    Err(Some(String::from_str("Could not find a covering group")))
                }
            },
            SymSource::Other => Err(None),
        }
    }

    /// The i-th generator of `Sym(n)`: `(1, 2, ..., n)`, and `(1, 2)` for
    /// `i = 2` (and for `i = 1` when `n = 2`).
    pub fn sym_generator(&mut self, n: usize, i: usize) -> (p: Perm)
        requires
            1 <= n <= u32::MAX,
        ensures
            final(self).default_bits == old(self).default_bits,
            p.images.len() == n,
            p.group.degree == n,
            forall|x: int|
                0 <= x < n ==> #[trigger] p.images@[x] == if (n == 2 && i == 1) || i == 2 {
                    if x < 2 { (1 - x) as u32 } else { x as u32 }
                } else {
                    ((x + 1) % (n as int)) as u32
                },
    {
        let swap = (n == 2 && i == 1) || i == 2;
        let mut images: Vec<u32> = Vec::with_capacity(n);
        let nn = n as u32;
        let mut x: u32 = 0;
        while x < nn
            invariant
                nn == n,
                x <= nn,
                images.len() == x,
                forall|y: int| 0 <= y < x ==> #[trigger] images@[y] == if swap {
                    if y < 2 { (1 - y) as u32 } else { y as u32 }
                } else {
                    ((y + 1) % (n as int)) as u32
                },
            decreases nn - x,
        {
            let v = if swap {
                if x < 2 { 1 - x } else { x }
            } else {
                ((x as u64 + 1) % (nn as u64)) as u32
            };
            images.push(v);
            x += 1;
        }
        self.perm(images)
    }
}

/// Crossing out the multiple `cur` of `pn` (the next one `m`) keeps the
/// sieve the old one less the multiples of `pn` from `pn^2` below `m`.
#[verifier::spinoff_prover]
proof fn lemma_sieve_step(
    old_sieve: Seq<bool>,
    prev: Seq<bool>,
    sieve: Seq<bool>,
    pn: nat,
    cur: nat,
    m: nat,
    n: nat,
)
    requires
        pn >= 2,
        cur % pn == 0,
        cur >= pn * pn,
        m == cur + pn,
        cur <= n,
        prev.len() == n + 1,
        old_sieve.len() == n + 1,
        sieve == prev.update(cur as int, false),
        forall|x: nat| 2 <= x <= n ==> (prev[x as int] <==> (#[trigger] old_sieve[x as int] && !(pn * pn <= x < cur
            && x % pn == 0))),
    ensures
        m % pn == 0,
        forall|x: nat| 2 <= x <= n ==> (sieve[x as int] <==> (#[trigger] old_sieve[x as int] && !(pn * pn <= x < m
            && x % pn == 0))),
{
    vstd::arithmetic::div_mod::lemma_mod_add_multiples_vanish(cur as int, pn as int);
    assert forall|x: nat| 2 <= x <= n implies (sieve[x as int] <==> (#[trigger] old_sieve[x as int] && !(pn * pn <= x
        < m && x % pn == 0))) by {
        if x < cur {
            assert(sieve[x as int] == prev[x as int]);
            assert(prev[x as int] <==> (old_sieve[x as int] && !(pn * pn <= x < cur && x % pn == 0)));
        } else if x == cur {
            assert(!sieve[x as int]);
        } else if x < m {
            assert(sieve[x as int] == prev[x as int]);
            let r = (x - cur) as nat;
            vstd::arithmetic::div_mod::lemma_add_mod_noop(cur as int, r as int, pn as int);
            vstd::arithmetic::div_mod::lemma_small_mod(r, pn);
            vstd::arithmetic::div_mod::lemma_small_mod(0, pn);
            assert(x % pn != 0);
            assert(prev[x as int] <==> (old_sieve[x as int] && !(pn * pn <= x < cur && x % pn == 0)));
        } else {
            assert(sieve[x as int] == prev[x as int]);
            assert(prev[x as int] <==> (old_sieve[x as int] && !(pn * pn <= x < cur && x % pn == 0)));
        }
    }
}


// ----- powers ------------------------------------------------------------------

/// The images of `p^k` for `k >= 0`: `p` applied `k` times.
pub open spec fn power(p: Seq<u32>, k: nat) -> Seq<u32>
    decreases k,
{
    if k == 0 {
        identity(p.len())
    } else {
        compose(power(p, (k - 1) as nat), p)
    }
}

/// The images of the inverse of a permutation.
pub open spec fn inverse_images(p: Seq<u32>) -> Seq<u32> {
    Seq::new(p.len(), |y: int| (choose|i: int| 0 <= i < p.len() && p[i] as int == y) as u32)
}

/// A permutation has an inverse.
pub proof fn lemma_inverse_images(p: Seq<u32>)
    requires
        is_perm(p),
    ensures
        is_inverse(p, inverse_images(p)),
{
    lemma_perm_len(p);
    let r = inverse_images(p);
    assert forall|i: int| 0 <= i < p.len() implies #[trigger] r[p[i] as int] == i by {
        let y = p[i] as int;
        assert(0 <= i < p.len() && p[i] as int == y);
        let k = choose|k: int| 0 <= k < p.len() && p[k] as int == y;
        if k != i {
            assert(p[k] != p[i]);
        }
    }
}

/// Powers of a permutation are permutations of the same degree.
pub proof fn lemma_power_is_perm(p: Seq<u32>, k: nat)
    requires
        is_perm(p),
    ensures
        is_perm(power(p, k)),
        power(p, k).len() == p.len(),
    decreases k,
{
    lemma_perm_len(p);
    if k == 0 {
        assert(is_perm(identity(p.len())));
    } else {
        lemma_power_is_perm(p, (k - 1) as nat);
        lemma_compose_is_perm(power(p, (k - 1) as nat), p);
    }
}

/// On a cycle `c` of `p`, `p^t` moves each point `t` places along.
pub proof fn lemma_power_on_cycle(p: Seq<u32>, c: Seq<u32>, j: int, t: nat)
    requires
        is_perm(p),
        is_cycle_of(p, c),
        0 <= j < c.len(),
    ensures
        power(p, t)[c[j] as int] == c[(j + t) % (c.len() as int)],
    decreases t,
{
    let len = c.len() as int;
    lemma_perm_len(p);
    lemma_power_is_perm(p, t);
    if t == 0 {
        vstd::arithmetic::div_mod::lemma_small_mod(j as nat, len as nat);
    } else {
        lemma_power_on_cycle(p, c, j, (t - 1) as nat);
        lemma_power_is_perm(p, (t - 1) as nat);
        let a = (j + t - 1) % len;
        vstd::arithmetic::div_mod::lemma_mod_bound(j + t - 1, len);
        assert(p[c[a] as int] == c[(a + 1) % len]);
        vstd::arithmetic::div_mod::lemma_add_mod_noop_right(1, j + t - 1, len);
        assert((a + 1) % len == (j + t) % len);
    }
}

/// On a cycle `c` of `p`, the inverse moves each point one place back.
pub proof fn lemma_inverse_on_cycle(p: Seq<u32>, q: Seq<u32>, c: Seq<u32>, j: int, t: nat)
    requires
        is_perm(p),
        is_inverse(p, q),
        is_cycle_of(p, c),
        0 <= j < c.len(),
    ensures
        power(q, t)[c[j] as int] == c[(j - t) % (c.len() as int)],
    decreases t,
{
    let len = c.len() as int;
    lemma_inverse_is_perm(p, q);
    lemma_perm_len(q);
    if t == 0 {
        vstd::arithmetic::div_mod::lemma_small_mod(j as nat, len as nat);
    } else {
        lemma_inverse_on_cycle(p, q, c, j, (t - 1) as nat);
        lemma_power_is_perm(q, (t - 1) as nat);
        let b = (j - t + 1) % len;
        let a = (j - t) % len;
        vstd::arithmetic::div_mod::lemma_mod_bound(j - t + 1, len);
        vstd::arithmetic::div_mod::lemma_mod_bound(j - t, len);
        // p sends c[a] to c[a + 1] = c[b].
        assert(p[c[a] as int] == c[(a + 1) % len]);
        vstd::arithmetic::div_mod::lemma_add_mod_noop_right(1, j - t, len);
        assert((a + 1) % len == b);
        assert(q[p[c[a] as int] as int] == c[a]);
    }
}

impl Perm {
    /// `self^e` for any integer `e`, moving each cycle along by `e`.
    pub fn pow(&self, e: &Integer) -> (r: Perm)
        requires
            self.wf(),
        ensures
            r.wf(),
            r.group == self.group,
            e.value() >= 0 ==> r.images@ == power(self.images@, e.value() as nat),
            e.value() < 0 ==> forall|q: Seq<u32>| #[trigger] is_inverse(self.images@, q) ==> r.images@ == power(
                q,
                (-e.value()) as nat,
            ),
    {
        let ghost ev = e.value();
        let n = self.images.len();
        let ghost p = self.images@;
        proof {
            lemma_perm_len(p);
        }
        let cs = self.cycles();
        let ghost cv = cs@.map_values(|c: Vec<u32>| c@);
        let mut images: Vec<u32> = Vec::with_capacity(n);
        let mut k: usize = 0;
        while k < n
            invariant
                k <= n,
                images.len() == k,
            decreases n - k,
        {
            images.push(0);
            k += 1;
        }
        let mut a: usize = 0;
        while a < cs.len()
            invariant
                n == self.images.len(),
                p == self.images@,
                is_perm(p),
                n <= u32::MAX + 1,
                cv == cs@.map_values(|c: Vec<u32>| c@),
                cycle_decomposition(p, cv),
                a <= cs.len(),
                ev == e.value(),
                images.len() == n,
                forall|b: int, j: int| 0 <= b < a && 0 <= j < cv[b].len() ==> #[trigger] images@[cv[b][j] as int]
                    == cv[b][(j + ev % (cv[b].len() as int)) % (cv[b].len() as int)],
            decreases cs.len() - a,
        {
            let c = &cs[a];
            let len = c.len();
            let ghost cc = cv[a as int];
            assert(c@ == cc);
            assert(is_cycle_of(p, cc));
            let shift = e.rem_euclid_word(len as u64);
            let mut j: usize = 0;
            while j < len
                invariant
                    n == self.images.len(),
                    p == self.images@,
                    is_perm(p),
                    n <= u32::MAX + 1,
                    cv == cs@.map_values(|c: Vec<u32>| c@),
                    cycle_decomposition(p, cv),
                    a < cs.len(),
                    c == &cs[a as int],
                    c@ == cc,
                    cc == cv[a as int],
                    len == cc.len(),
                    shift < len,
                    shift as int == ev % (len as int),
                    images.len() == n,
                    j <= len,
                    forall|b: int, t: int| 0 <= b < a && 0 <= t < cv[b].len() ==> #[trigger] images@[cv[b][t] as int]
                        == cv[b][(t + ev % (cv[b].len() as int)) % (cv[b].len() as int)],
                    forall|t: int| 0 <= t < j ==> #[trigger] images@[cc[t] as int] == cc[(t + shift) % (len as int)],
                decreases len - j,
            {
                let x = c[j] as usize;
                let sh = shift as usize;
                let to = if sh < len - j {
                    j + sh
                } else {
                    j - (len - sh)
                };
                proof {
                    if sh < len - j {
                        vstd::arithmetic::div_mod::lemma_small_mod((j + sh) as nat, len as nat);
                    } else {
                        vstd::arithmetic::div_mod::lemma_fundamental_div_mod_converse((j + sh) as int, len as int, 1, to as int);
                    }
                }
                let y = c[to];
                proof {
                    assert(cc[j as int] < n);
                }
                let ghost before = images@;
                images.set(x, y);
                proof {
                    assert forall|b: int, t: int| 0 <= b < a && 0 <= t < cv[b].len() implies #[trigger] images@[cv[b][t] as int]
                        == cv[b][(t + ev % (cv[b].len() as int)) % (cv[b].len() as int)] by {
                        assert(cv[b][t] != cv[a as int][j as int]);
                        assert(before[cv[b][t] as int] == cv[b][(t + ev % (cv[b].len() as int)) % (cv[b].len() as int)]);
                    }
                    assert forall|t: int| 0 <= t < j + 1 implies #[trigger] images@[cc[t] as int] == cc[(t + shift) % (len as int)] by {
                        if t < j {
                            assert(cv[a as int][t] != cv[a as int][j as int]);
                        }
                    }
                }
                j += 1;
            }
            a += 1;
        }
        // Every point lies on a cycle, moved along by e.
        let ghost target = if ev >= 0 {
            power(p, ev as nat)
        } else {
            power(inverse_images(p), (-ev) as nat)
        };
        proof {
            lemma_inverse_images(p);
            lemma_inverse_is_perm(p, inverse_images(p));
            if ev >= 0 {
                lemma_power_is_perm(p, ev as nat);
            } else {
                lemma_power_is_perm(inverse_images(p), (-ev) as nat);
            }
            assert forall|x: int| 0 <= x < n implies #[trigger] images@[x] == target[x] by {
                assert(in_cycles(cv, x as u32));
                let (b, t) = choose|b: int, t: int| 0 <= b < cv.len() && 0 <= t < cv[b].len() && #[trigger] cv[b][t] == x as u32;
                let c = cv[b];
                let len = c.len() as int;
                assert(is_cycle_of(p, c));
                if ev >= 0 {
                    lemma_power_on_cycle(p, c, t, ev as nat);
                    vstd::arithmetic::div_mod::lemma_add_mod_noop_right(t, ev, len);
                } else {
                    lemma_inverse_on_cycle(p, inverse_images(p), c, t, (-ev) as nat);
                    vstd::arithmetic::div_mod::lemma_add_mod_noop_right(t, ev, len);
                }
            }
            assert(images@ =~= target);
            assert forall|q: Seq<u32>| ev < 0 && #[trigger] is_inverse(p, q) implies images@ == power(q, (-ev) as nat) by {
                lemma_inverse_unique(p, q, inverse_images(p));
            }
        }
        self.with(images)
    }
}

/// A structure as far as `sym_degree` reads it: the symmetric group of a
/// degree, or another structure.
#[derive(Clone, Copy, Debug, PartialEq, Eq, Structural)]
pub enum StructKind {
    SymGroup(u32),
    Other,
}

/// The degree `n` of `Sym(n)`.
pub fn sym_degree(s: &StructKind) -> (r: Option<usize>)
    ensures
        r == (match s {
            StructKind::SymGroup(n) => Some(*n as usize),
            StructKind::Other => None::<usize>,
        }),
{
    match s {
        StructKind::SymGroup(n) => Some(*n as usize),
        StructKind::Other => None,
    }
}

/// A permutation has one inverse.
pub proof fn lemma_inverse_unique(p: Seq<u32>, q: Seq<u32>, r: Seq<u32>)
    requires
        is_perm(p),
        is_inverse(p, q),
        is_inverse(p, r),
    ensures
        q == r,
{
    assert forall|y: int| 0 <= y < p.len() implies q[y] == r[y] by {
        lemma_perm_onto(p, y);
        let i = choose|i: int| 0 <= i < p.len() && p[i] as int == y;
        assert(q[p[i] as int] == i);
        assert(r[p[i] as int] == i);
    }
    assert(q =~= r);
}

/// Powers add: `p^a * p^b = p^(a + b)`.
pub proof fn lemma_power_adds(p: Seq<u32>, a: nat, b: nat)
    requires
        is_perm(p),
    ensures
        compose(power(p, a), power(p, b)) == power(p, a + b),
    decreases b,
{
    lemma_power_is_perm(p, a);
    if b == 0 {
        lemma_identity_neutral(power(p, a));
        assert(a + b == a);
    } else {
        lemma_power_adds(p, a, (b - 1) as nat);
        lemma_power_is_perm(p, (b - 1) as nat);
        lemma_mul_associative(power(p, a), power(p, (b - 1) as nat), p);
        assert((a + b - 1) as nat == a + (b - 1) as nat);
    }
}

/// The first power is the permutation itself.
pub proof fn lemma_power_one(p: Seq<u32>)
    requires
        is_perm(p),
    ensures
        power(p, 1) == p,
{
    lemma_identity_neutral(p);
    assert(power(p, 1) == compose(power(p, 0), p));
    assert(power(p, 0) == identity(p.len()));
}

// ----- operators ---------------------------------------------------------------

/// An operand of an operator with a permutation operand: a permutation,
/// an integer, or another value.
pub enum PermArg {
    Perm(Perm),
    Int(Integer),
    Other,
}

/// The value of an operator with a permutation operand.
pub enum PermValue {
    Perm(Perm),
    Int(u64),
}

/// Why an operator with a permutation operand failed.
#[derive(Clone, Copy, Debug, PartialEq, Eq, Structural)]
pub enum PermError {
    /// Two permutations of different degrees.
    Incompatible,
    /// A point that the permutation does not act on.
    CannotApply,
    /// Permutations are not ordered.
    NoComparison,
}

impl PermError {
    /// The error message.
    pub fn message(&self) -> (s: &'static str)
        ensures
            s@ == match self {
                PermError::Incompatible => "Arguments are not compatible\nArgument types given: GrpPermElt, GrpPermElt"@,
                PermError::CannotApply => "Cannot apply permutation to this object"@,
                PermError::NoComparison => "No comparison algorithm exists for given objects"@,
            },
    {
        match self {
            PermError::Incompatible => "Arguments are not compatible\nArgument types given: GrpPermElt, GrpPermElt",
            PermError::CannotApply => "Cannot apply permutation to this object",
            PermError::NoComparison => "No comparison algorithm exists for given objects",
        }
    }
}

/// The permutation operands are permutations of their groups.
pub open spec fn perm_arg_ok(a: &PermArg) -> bool {
    match a {
        PermArg::Perm(x) => x.wf(),
        _ => true,
    }
}

/// Operators with a permutation operand; `Ok(None)` if there is no rule.
/// `x * y` is the product, `x ^ e` a power, `x ^ y` the conjugate
/// `y^-1 x y`, `i ^ x` the image of the point `i`.
pub fn perm_binop(op: BinOp, a: &PermArg, b: &PermArg) -> (r: Result<Option<PermValue>, PermError>)
    requires
        perm_arg_ok(a),
        perm_arg_ok(b),
    ensures
        (match (op, a, b) {
            (BinOp::Mul, PermArg::Perm(x), PermArg::Perm(y)) => if x.images.len() != y.images.len() {
                r == Err::<Option<PermValue>, PermError>(PermError::Incompatible)
            } else {
                r matches Ok(Some(PermValue::Perm(z))) && z.wf() && z.images@ == compose(x.images@, y.images@)
            },
            (BinOp::Pow, PermArg::Perm(x), PermArg::Int(e)) => r matches Ok(Some(PermValue::Perm(z))) && z.wf() && (
            e.value() >= 0 ==> z.images@ == power(x.images@, e.value() as nat)) && (e.value() < 0 ==> forall|q: Seq<u32>|
                #[trigger] is_inverse(x.images@, q) ==> z.images@ == power(q, (-e.value()) as nat)),
            (BinOp::Pow, PermArg::Perm(x), PermArg::Perm(y)) => if x.images.len() != y.images.len() {
                r == Err::<Option<PermValue>, PermError>(PermError::Incompatible)
            } else {
                r matches Ok(Some(PermValue::Perm(z))) && z.wf() && exists|yi: Seq<u32>|
                    is_inverse(y.images@, yi) && z.images@ == compose(compose(yi, x.images@), y.images@)
            },
            (BinOp::Pow, PermArg::Int(i), PermArg::Perm(x)) => if 1 <= i.value() <= x.images.len() {
                r matches Ok(Some(PermValue::Int(k))) && k == x.images@[i.value() - 1] + 1
            } else {
                r == Err::<Option<PermValue>, PermError>(PermError::CannotApply)
            },
            (BinOp::Lt, PermArg::Perm(_), PermArg::Perm(_)) | (BinOp::Le, PermArg::Perm(_), PermArg::Perm(_)) | (
            BinOp::Gt,
            PermArg::Perm(_),
            PermArg::Perm(_),
            ) | (BinOp::Ge, PermArg::Perm(_), PermArg::Perm(_)) => r == Err::<Option<PermValue>, PermError>(
                PermError::NoComparison,
            ),
            _ => r matches Ok(None),
        }),
{
    match (op, a, b) {
        (BinOp::Mul, PermArg::Perm(x), PermArg::Perm(y)) => {
            if x.degree() != y.degree() {
                return Err(PermError::Incompatible);
            }
            Ok(Some(PermValue::Perm(x.mul(y))))
        },
        (BinOp::Pow, PermArg::Perm(x), PermArg::Int(e)) => Ok(Some(PermValue::Perm(x.pow(e)))),
        (BinOp::Pow, PermArg::Perm(x), PermArg::Perm(y)) => {
            if x.degree() != y.degree() {
                return Err(PermError::Incompatible);
            }
            Ok(Some(PermValue::Perm(x.conjugate(y))))
        },
        (BinOp::Pow, PermArg::Int(i), PermArg::Perm(x)) => {
            match i.to_u64() {
                Some(j) => {
                    if j >= 1 && j <= x.degree() as u64 {
                        let k = (j - 1) as usize;
                        Ok(Some(PermValue::Int(x.images[k] as u64 + 1)))
                    } else {
                        Err(PermError::CannotApply)
                    }
                },
                None => Err(PermError::CannotApply),
            }
        },
        (BinOp::Lt, PermArg::Perm(_), PermArg::Perm(_)) | (BinOp::Le, PermArg::Perm(_), PermArg::Perm(_)) | (
            BinOp::Gt,
            PermArg::Perm(_),
            PermArg::Perm(_),
        ) | (BinOp::Ge, PermArg::Perm(_), PermArg::Perm(_)) => Err(PermError::NoComparison),
        _ => Ok(None),
    }
}

} // verus!
