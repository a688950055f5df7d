//! Integers of any size, as a sign and little-endian 64-bit limbs, for the
//! operands that may be any integer (the exponent of a permutation).

use vstd::prelude::*;

verus! {

/// `2^64`, the base of the limbs.
pub open spec fn word_base() -> int {
    0x1_0000_0000_0000_0000
}

/// The value of the little-endian limbs `v`.
pub open spec fn magnitude(v: Seq<u64>) -> int
    decreases v.len(),
{
    if v.len() == 0 {
        0
    } else {
        v[0] + word_base() * magnitude(v.drop_first())
    }
}

/// An integer: its sign and the limbs of its absolute value.
#[derive(Clone, Debug)]
pub struct Integer {
    neg: bool,
    limbs: Vec<u64>,
}

/// Limbs have a value of at least 0, and 0 exactly when all are 0.
pub proof fn lemma_magnitude_nonneg(v: Seq<u64>)
    ensures
        magnitude(v) >= 0,
        magnitude(v) == 0 <==> forall|i: int| 0 <= i < v.len() ==> v[i] == 0,
    decreases v.len(),
{
    if v.len() > 0 {
        lemma_magnitude_nonneg(v.drop_first());
        if magnitude(v.drop_first()) > 0 {
            assert(word_base() * magnitude(v.drop_first()) > 0) by (nonlinear_arith)
                requires
                    magnitude(v.drop_first()) > 0,
            ;
        }
        if magnitude(v) == 0 {
            assert(forall|i: int| 0 <= i < v.len() ==> v[i] == 0) by {
                assert forall|i: int| 0 <= i < v.len() implies v[i] == 0 by {
                    if i > 0 {
                        assert(v[i] == v.drop_first()[i - 1]);
                    }
                }
            }
        }
        if forall|i: int| 0 <= i < v.len() ==> v[i] == 0 {
            assert forall|i: int| 0 <= i < v.len() - 1 implies v.drop_first()[i] == 0 by {
                assert(v.drop_first()[i] == v[i + 1]);
            }
        }
    }
}

/// `(a + B x) % m` depends on `x` only through `x % m`.
proof fn lemma_horner_mod(a: int, x: int, m: int)
    requires
        m > 0,
    ensures
        (a + word_base() * x) % m == (a + word_base() * (x % m)) % m,
{
    let q = x / m;
    let r = x % m;
    vstd::arithmetic::div_mod::lemma_fundamental_div_mod(x, m);
    assert(a + word_base() * x == m * (word_base() * q) + (a + word_base() * r)) by (nonlinear_arith)
        requires
            x == m * q + r,
    ;
    vstd::arithmetic::div_mod::lemma_mod_multiples_vanish(word_base() * q, a + word_base() * r, m);
}

impl Integer {
    /// The value.
    pub closed spec fn value(&self) -> int {
        if self.neg {
            -magnitude(self.limbs@)
        } else {
            magnitude(self.limbs@)
        }
    }

    /// The integer with the sign `neg` (negative when set) and the
    /// little-endian limbs `limbs` of its absolute value.
    pub fn from_limbs(neg: bool, limbs: Vec<u64>) -> (r: Integer)
        ensures
            r.value() == (if neg { -magnitude(limbs@) } else { magnitude(limbs@) }),
    {
        Integer { neg, limbs }
    }

    /// The integer `x`.
    pub fn from_i64(x: i64) -> (r: Integer)
        ensures
            r.value() == x,
    {
        let neg = x < 0;
        let m: u64 = if neg { (-(x as i128)) as u64 } else { x as u64 };
        let limbs = vec![m];
        proof {
            assert(limbs@.drop_first() =~= Seq::<u64>::empty());
            assert(magnitude(Seq::<u64>::empty()) == 0);
            assert(magnitude(limbs@) == m);
        }
        Integer { neg, limbs }
    }

    /// Whether the value is below 0.
    pub fn is_negative(&self) -> (b: bool)
        ensures
            b == (self.value() < 0),
    {
        proof {
            lemma_magnitude_nonneg(self.limbs@);
        }
        if !self.neg {
            return false;
        }
        let mut k: usize = 0;
        while k < self.limbs.len()
            invariant
                k <= self.limbs.len(),
                self.neg,
                forall|i: int| 0 <= i < k ==> self.limbs@[i] == 0,
            decreases self.limbs.len() - k,
        {
            if self.limbs[k] != 0 {
                proof {
                    lemma_magnitude_nonneg(self.limbs@);
                }
                return true;
            }
            k += 1;
        }
        false
    }

    /// The limbs of the absolute value.
    pub fn abs_limbs(&self) -> (v: &Vec<u64>)
        ensures
            magnitude(v@) == (if self.value() < 0 { -self.value() } else { self.value() }),
    {
        proof {
            lemma_magnitude_nonneg(self.limbs@);
        }
        &self.limbs
    }

    /// `-self`.
    pub fn negate(&self) -> (r: Integer)
        ensures
            r.value() == -self.value(),
    {
        let limbs = self.limbs.clone();
        assert(limbs@ == self.limbs@);
        Integer { neg: !self.neg, limbs }
    }

    /// The value, if it is a machine word.
    pub fn to_u64(&self) -> (r: Option<u64>)
        ensures
            r == (if 0 <= self.value() <= u64::MAX { Some(self.value() as u64) } else { None::<u64> }),
    {
        let v = &self.limbs;
        proof {
            lemma_magnitude_nonneg(v@);
        }
        // Every limb but the first is zero.
        let mut k: usize = 1;
        while k < v.len()
            invariant
                1 <= k,
                v == &self.limbs,
                forall|i: int| 1 <= i < k && i < v.len() ==> v@[i] == 0,
            decreases v.len() - k,
        {
            if v[k] != 0 {
                proof {
                    let rest = v@.drop_first();
                    assert(rest[k - 1] != 0);
                    lemma_magnitude_nonneg(rest);
                    assert(magnitude(rest) != 0);
                    assert(magnitude(v@) == v@[0] + word_base() * magnitude(rest));
                    assert(word_base() * magnitude(rest) >= word_base()) by (nonlinear_arith)
                        requires
                            magnitude(rest) >= 1,
                    ;
                }
                return None;
            }
            k += 1;
        }
        let low: u64 = if v.len() == 0 { 0 } else { v[0] };
        proof {
            if v.len() > 0 {
                let rest = v@.drop_first();
                assert forall|i: int| 0 <= i < rest.len() implies rest[i] == 0 by {
                    assert(rest[i] == v@[i + 1]);
                }
                lemma_magnitude_nonneg(rest);
            }
            assert(magnitude(v@) == low);
        }
        if self.neg && low != 0 {
            None
        } else {
            Some(low)
        }
    }

    /// The remainder of the Euclidean division by `m`, in `0..m`.
    pub fn rem_euclid_word(&self, m: u64) -> (r: u64)
        requires
            m > 0,
        ensures
            r < m,
            r as int == self.value() % (m as int),
    {
        let v = &self.limbs;
        let n = v.len();
        let mut acc: u64 = 0;
        let mut i: usize = n;
        proof {
            assert(v@.subrange(n as int, n as int) =~= Seq::<u64>::empty());
            assert(magnitude(Seq::<u64>::empty()) == 0);
            vstd::arithmetic::div_mod::lemma_small_mod(0, m as nat);
        }
        while i > 0
            invariant
                n == v.len(),
                m > 0,
                i <= n,
                acc < m,
                acc as int == magnitude(v@.subrange(i as int, n as int)) % (m as int),
            decreases i,
        {
            i -= 1;
            let t: u128 = (acc as u128) * 0x1_0000_0000_0000_0000u128 + (v[i] as u128);
            let next = (t % (m as u128)) as u64;
            proof {
                let s = v@.subrange(i as int, n as int);
                assert(s.drop_first() =~= v@.subrange(i + 1, n as int));
                let x = magnitude(v@.subrange(i + 1, n as int));
                assert(magnitude(s) == v@[i as int] + word_base() * x);
                lemma_horner_mod(v@[i as int] as int, x, m as int);
                assert(t == v@[i as int] + word_base() * (x % (m as int)));
            }
            acc = next;
        }
        proof {
            assert(v@.subrange(0, n as int) =~= v@);
        }
        if self.neg && acc != 0 {
            proof {
                let x = magnitude(v@);
                let q = x / (m as int);
                vstd::arithmetic::div_mod::lemma_fundamental_div_mod(x, m as int);
                assert(-x == (-q - 1) * m + (m - acc)) by (nonlinear_arith)
                    requires
                        x == m * q + acc,
                ;
                vstd::arithmetic::div_mod::lemma_fundamental_div_mod_converse(-x, m as int, -q - 1, m - acc);
            }
            m - acc
        } else {
            proof {
                if self.neg {
                    let x = magnitude(v@);
                    let q = x / (m as int);
                    vstd::arithmetic::div_mod::lemma_fundamental_div_mod(x, m as int);
                    assert(-x == (-q) * m + 0) by (nonlinear_arith)
                        requires
                            x == m * q + acc,
                            acc == 0,
                    ;
                    vstd::arithmetic::div_mod::lemma_fundamental_div_mod_converse(-x, m as int, -q, 0);
                }
            }
            acc
        }
    }
}

} // verus!
