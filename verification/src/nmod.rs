//! Arithmetic modulo a word-sized modulus `n`: the residues `0..n`.

use vstd::prelude::*;
use vstd::arithmetic::div_mod::*;
use crate::weights::gcd;

verus! {

/// The ring `Z/nZ` for a word-sized `n >= 1`, on residues in `0..n`.
#[derive(Clone, Copy, Debug, PartialEq, Eq, Structural)]
pub struct Nmod {
    pub n: u64,
}

/// `a` has an inverse modulo `n`.
pub open spec fn invertible(a: int, n: int) -> bool {
    exists|x: int| 0 <= x < n && #[trigger] ((a * x) % n) == 1int % n
}

/// Every residue but 0 is invertible modulo a prime.
pub proof fn lemma_prime_units(p: nat, a: nat)
    requires
        crate::perms::is_prime(p),
        0 < a < p,
    ensures
        gcd(p, a) == 1,
{
    crate::weights::lemma_gcd_divides(p, a);
    let g = gcd(p, a);
    crate::weights::lemma_divisor_le(a, g);
    if g != 1 {
        assert(p % g == 0);
        assert(2 <= g < p);
    }
}

impl Nmod {
    /// The residues modulo `n`.
    pub fn new(n: u64) -> (m: Nmod)
        requires
            n >= 1,
        ensures
            m.n == n,
    {
        Nmod { n }
    }

    /// `a mod n` for any word.
    pub fn reduce(self, a: u64) -> (r: u64)
        requires
            self.n >= 1,
        ensures
            r == a % self.n,
    {
        a % self.n
    }

    /// `a + b`.
    pub fn add(self, a: u64, b: u64) -> (r: u64)
        requires
            a < self.n,
            b < self.n,
        ensures
            r == (a + b) % (self.n as int),
    {
        let s = a as u128 + b as u128;
        let n = self.n as u128;
        let r = if s >= n {
            s - n
        } else {
            s
        };
        proof {
            if s >= n {
                lemma_fundamental_div_mod_converse(s as int, n as int, 1, r as int);
            } else {
                lemma_small_mod(s as nat, n as nat);
            }
        }
        r as u64
    }

    /// `a - b`.
    pub fn sub(self, a: u64, b: u64) -> (r: u64)
        requires
            a < self.n,
            b < self.n,
        ensures
            r == (a - b) % (self.n as int),
    {
        if a >= b {
            proof {
                lemma_small_mod((a - b) as nat, self.n as nat);
            }
            a - b
        } else {
            let r = self.n - (b - a);
            proof {
                lemma_fundamental_div_mod_converse(a - b, self.n as int, -1, r as int);
            }
            r
        }
    }

    /// `-a`.
    pub fn neg(self, a: u64) -> (r: u64)
        requires
            a < self.n,
        ensures
            r == (self.n - a) % (self.n as int),
            r == (-(a as int)) % (self.n as int),
    {
        if a == 0 {
            proof {
                lemma_mod_self_0(self.n as int);
                lemma_small_mod(0, self.n as nat);
            }
            0
        } else {
            let r = self.n - a;
            proof {
                lemma_small_mod(r as nat, self.n as nat);
                lemma_fundamental_div_mod_converse(-(a as int), self.n as int, -1, r as int);
            }
            r
        }
    }

    /// `a b`.
    pub fn mul(self, a: u64, b: u64) -> (r: u64)
        requires
            a < self.n,
            b < self.n,
        ensures
            r == (a * b) % (self.n as int),
    {
        assert((a as u128) * (b as u128) <= u64::MAX * u64::MAX) by (nonlinear_arith)
            requires
                a <= u64::MAX,
                b <= u64::MAX,
        ;
        let p = a as u128 * b as u128;
        assert(p == a * b);
        let r = p % (self.n as u128);
        proof {
            lemma_mod_bound(p as int, self.n as int);
        }
        r as u64
    }

    /// The inverse of `a`, if `a` and `n` are coprime, by the extended
    /// Euclidean algorithm (on coefficients reduced modulo `n`).
    pub fn inv(self, a: u64) -> (r: Option<u64>)
        requires
            a < self.n,
        ensures
            r matches Some(x) ==> x < self.n && (a * x) % (self.n as int) == 1int % (self.n as int),
            r is None ==> !invertible(a as int, self.n as int),
            r is Some <==> gcd(self.n as nat, a as nat) == 1,
    {
        let n = self.n;
        // r0 = s0 a and r1 = s1 a (mod n), and gcd(r0, r1) = gcd(n, a).
        let mut r0: u64 = n;
        let mut r1: u64 = a;
        let mut s0: u64 = 0;
        let mut s1: u64 = if n == 1 { 0 } else { 1 };
        proof {
            lemma_mod_self_0(n as int);
            lemma_small_mod(a as nat, n as nat);
            lemma_small_mod(0, n as nat);
            if n > 1 {
                lemma_small_mod(1, n as nat);
            }
        }
        while r1 != 0
            invariant
                n == self.n,
                n >= 1,
                a < n,
                r0 > 0,
                r1 <= r0,
                s0 < n,
                s1 < n,
                (s0 * a) % (n as int) == (r0 as int) % (n as int),
                (s1 * a) % (n as int) == (r1 as int) % (n as int),
                gcd(r0 as nat, r1 as nat) == gcd(n as nat, a as nat),
            decreases r1,
        {
            let q = r0 / r1;
            let r2 = r0 % r1;
            let t = self.mul(q % n, s1);
            let s2 = self.sub(s0, t);
            proof {
                lemma_fundamental_div_mod(r0 as int, r1 as int);
                lemma_mod_bound(r0 as int, r1 as int);
                lemma_mod_bound(q as int, n as int);
                lemma_euclid_step(s0 as int, s1 as int, a as int, r0 as int, r1 as int, q as int, t as int, s2 as int, n as int);
            }
            r0 = r1;
            r1 = r2;
            s0 = s1;
            s1 = s2;
        }
        if r0 != 1 {
            proof {
                lemma_no_inverse(a as int, n as int, r0 as int);
            }
            return None;
        }
        proof {
            assert((a * s0) % (n as int) == (s0 * a) % (n as int)) by (nonlinear_arith);
        }
        Some(s0)
    }
}

/// One step of the extended Euclidean algorithm keeps `s a = r (mod n)`.
proof fn lemma_euclid_step(s0: int, s1: int, a: int, r0: int, r1: int, q: int, t: int, s2: int, n: int)
    requires
        n >= 1,
        (s0 * a) % n == r0 % n,
        (s1 * a) % n == r1 % n,
        t == ((q % n) * s1) % n,
        s2 == (s0 - t) % n,
    ensures
        (s2 * a) % n == (r0 - q * r1) % n,
{
    // (s2 a) = (s0 - t) a = s0 a - t a, and t a = q s1 a = q r1 (mod n).
    lemma_mul_mod_noop_left(s0 - t, a, n);
    assert((s0 - t) * a == s0 * a - t * a) by (nonlinear_arith);
    lemma_sub_mod_noop(s0 * a, t * a, n);
    lemma_mul_mod_noop_left((q % n) * s1, a, n);
    assert(((q % n) * s1) * a == (q % n) * (s1 * a)) by (nonlinear_arith);
    lemma_mul_mod_noop_left(q, s1 * a, n);
    assert((q % n) * (s1 * a) == (s1 * a) * (q % n)) by (nonlinear_arith);
    assert(q * (s1 * a) == (s1 * a) * q) by (nonlinear_arith);
    lemma_mul_mod_noop_right(s1 * a, q, n);
    lemma_mul_mod_noop_left(s1 * a, q, n);
    lemma_mul_mod_noop_left(r1, q, n);
    assert(r1 * q == q * r1) by (nonlinear_arith);
    lemma_sub_mod_noop(r0, q * r1, n);
}

/// A word `a` whose gcd with `n` is not 1 has no inverse modulo `n`.
proof fn lemma_no_inverse(a: int, n: int, d: int)
    requires
        0 <= a < n,
        d == gcd(n as nat, a as nat),
        d != 1,
    ensures
        !invertible(a, n),
{
    crate::weights::lemma_gcd_divides(n as nat, a as nat);
    if invertible(a, n) {
        let x = choose|x: int| 0 <= x < n && #[trigger] ((a * x) % n) == 1int % n;
        if n == 1 {
            assert(a == 0);
            assert(gcd(1, 0) == 1);
        } else {
            lemma_small_mod(1, n as nat);
            lemma_fundamental_div_mod(a * x, n);
            let q = (a * x) / n;
            // d divides a x - q n = 1.
            lemma_fundamental_div_mod(a, d);
            lemma_fundamental_div_mod(n, d);
            let (ka, kn) = (a / d, n / d);
            assert(a * x - q * n == d * (ka * x - q * kn)) by (nonlinear_arith)
                requires
                    a == d * ka + 0,
                    n == d * kn + 0,
            ;
            assert(d * (ka * x - q * kn) == 1);
            assert(d > 1);
            let m = ka * x - q * kn;
            assert(false) by (nonlinear_arith)
                requires
                    d * m == 1,
                    d > 1,
            ;
        }
    }
}

} // verus!
