//! Arithmetic and comparison of elements of the rings with word-sized
//! elements, with each other and with integers.

use vstd::prelude::*;
use vstd::arithmetic::div_mod::*;
use vstd::arithmetic::power::*;

use crate::integer::{Integer, lemma_magnitude_nonneg, magnitude, word_base};
use crate::nmod::{Nmod, invertible};
use vstd::arithmetic::power2::pow2;
use crate::small::{SmallInfo, SmallKind, SmallRing, SmallRings};
use std::rc::Rc;
use crate::weights::gcd;

verus! {

/// The binary operators of the language.
#[derive(Clone, Copy, Debug, PartialEq, Eq, Structural)]
pub enum BinOp {
    Add,
    Sub,
    Mul,
    Div,
    IntDiv,
    Mod,
    Pow,
    Eq,
    Cmpeq,
    Ne,
    Cmpne,
    Lt,
    Le,
    Gt,
    Ge,
    Subset,
    Notsubset,
    Meet,
}

// ----- the textbook extended Euclidean algorithm -----------------------------

/// The extended Euclidean algorithm as in the textbook, from the
/// remainders `r0, r1` with the cofactors `s0, s1` of the first argument:
/// the last nonzero remainder and its cofactor.
pub open spec fn classic_xgcd(r0: nat, r1: nat, s0: int, s1: int) -> (nat, int)
    decreases r1,
{
    if r1 == 0 {
        (r0, s0)
    } else {
        classic_xgcd(r1, r0 % r1, s1, s0 - (r0 / r1) as int * s1)
    }
}

/// `x div y` in `Z/nZ` as Magma computes it: with `s y = g (mod n)` from
/// the textbook extended Euclidean algorithm on `(y, n)`, the quotient is
/// `floor(x / g) * s`.
pub open spec fn residue_quotient(x: nat, y: nat, n: nat) -> int {
    let (g, s) = classic_xgcd(y, n, 1, 0);
    ((x / g) as int * s) % (n as int)
}

/// The algorithm ends at the gcd, with a cofactor of it: when `s0 a = r0`
/// and `s1 a = r1 (mod n)`, it returns `(g, s)` with `g = gcd(r0, r1)`
/// and `s a = g (mod n)`.
pub proof fn lemma_classic_xgcd(r0: nat, r1: nat, s0: int, s1: int, a: int, n: int)
    requires
        n >= 1,
        (s0 * a) % n == (r0 as int) % n,
        (s1 * a) % n == (r1 as int) % n,
    ensures
        classic_xgcd(r0, r1, s0, s1).0 == gcd(r0, r1),
        (classic_xgcd(r0, r1, s0, s1).1 * a) % n == (classic_xgcd(r0, r1, s0, s1).0 as int) % n,
    decreases r1,
{
    if r1 > 0 {
        let q = (r0 / r1) as int;
        let r2 = r0 % r1;
        let s2 = s0 - q * s1;
        lemma_fundamental_div_mod(r0 as int, r1 as int);
        assert(r2 == r0 - q * r1);
        assert(s2 * a == s0 * a - q * (s1 * a)) by (nonlinear_arith)
            requires
                s2 == s0 - q * s1,
        ;
        lemma_sub_mod_noop(s0 * a, q * (s1 * a), n);
        lemma_mul_mod_noop_right(q, s1 * a, n);
        lemma_mul_mod_noop_right(q, r1 as int, n);
        lemma_sub_mod_noop(r0 as int, q * r1, n);
        lemma_classic_xgcd(r1, r2, s1, s2, a, n);
    }
}

/// The cofactor kept modulo `n` follows the exact one: one step of the
/// algorithm on `s mod n` gives the next cofactor mod `n`.
proof fn lemma_cofactor_step(s0: int, s1: int, big0: int, big1: int, q: int, t: int, s2: int, n: int)
    requires
        n >= 1,
        s0 == big0 % n,
        s1 == big1 % n,
        t == ((q % n) * s1) % n,
        s2 == (s0 - t) % n,
    ensures
        s2 == (big0 - q * big1) % n,
{
    lemma_mul_mod_noop(q, big1, n);
    lemma_sub_mod_noop(big0, q * big1, n);
    lemma_mod_twice(q * big1, n);
}

/// For a unit `y`, `x div y` is the quotient `x / y`: it times `y` is `x`.
pub proof fn lemma_residue_quotient_of_unit(x: nat, y: nat, n: nat)
    requires
        0 < y < n,
        x < n,
        gcd(y, n) == 1,
    ensures
        (residue_quotient(x, y, n) * y) % (n as int) == x as int,
{
    let ni = n as int;
    lemma_mod_self_0(ni);
    lemma_small_mod(y, n);
    lemma_small_mod(0, n);
    assert(0 * (y as int) == 0);
    assert(1 * (y as int) == y);
    lemma_classic_xgcd(y, n, 1, 0, y as int, ni);
    let (g, s) = classic_xgcd(y, n, 1, 0);
    assert(g == 1);
    assert(x / g == x);
    let q = residue_quotient(x, y, n);
    assert(q == (x * s) % ni);
    lemma_small_mod(1, n);
    lemma_small_mod(x, n);
    assert((s * y) % ni == 1);
    // q y = x s y = x (s y) = x (mod n).
    lemma_mul_mod_noop_left(x * s, y as int, ni);
    assert(((x * s) % ni) * y % ni == ((x * s) * y) % ni);
    assert((x * s) * y == x * (s * y)) by (nonlinear_arith);
    lemma_mul_mod_noop_right(x as int, s * y, ni);
    assert((x * (s * y)) % ni == ((x as int) * 1) % ni);
}

impl Nmod {
    /// `x div y`, as Magma computes it in `Z/nZ`: with `s y = g` from the
    /// textbook extended Euclidean algorithm on `(y, n)`, the quotient is
    /// `floor(x / g) * s` (`x / y` for a unit `y`); `None` for `y = 0`.
    pub fn residue_div(self, x: u64, y: u64) -> (r: Option<u64>)
        requires
            y < self.n,
            x < self.n,
        ensures
            r is None <==> y == 0,
            r matches Some(q) ==> q < self.n && q == residue_quotient(x as nat, y as nat, self.n as nat),
    {
        if y == 0 {
            return None;
        }
        let n = self.n;
        let mut r0: u64 = y;
        let mut r1: u64 = n;
        let mut s0: u64 = 1;
        let mut s1: u64 = 0;
        let ghost mut big0: int = 1;
        let ghost mut big1: int = 0;
        proof {
            lemma_small_mod(1, n as nat);
            lemma_small_mod(0, n as nat);
        }
        while r1 != 0
            invariant
                n == self.n,
                n >= 2,
                x < n,
                r0 > 0,
                s0 < n,
                s1 < n,
                s0 == big0 % (n as int),
                s1 == big1 % (n as int),
                classic_xgcd(r0 as nat, r1 as nat, big0, big1) == classic_xgcd(y as nat, n as nat, 1, 0),
            decreases r1,
        {
            let q = r0 / r1;
            let r2 = r0 % r1;
            let t = self.mul(q % n, s1);
            let s2 = self.sub(s0, t);
            proof {
                lemma_mod_bound(q as int, n as int);
                lemma_cofactor_step(s0 as int, s1 as int, big0, big1, q as int, t as int, s2 as int, n as int);
                let big2 = big0 - q * big1;
                big0 = big1;
                big1 = big2;
            }
            r0 = r1;
            r1 = r2;
            s0 = s1;
            s1 = s2;
        }
        let d = x / r0;
        proof {
            lemma_div_is_ordered_by_denominator(x as int, 1, r0 as int);
            lemma_mul_mod_noop_right(d as int, big0, n as int);
        }
        Some(self.mul(d, s0))
    }
}


/// One halving step of the power by squaring keeps `acc base^e (mod n)`.
proof fn lemma_square_step(acc: int, base: int, e: nat, n: int, acc2: int, base2: int)
    requires
        n >= 1,
        acc2 == (acc * pow(base, e % 2)) % n,
        base2 == (base * base) % n,
    ensures
        (acc2 * pow(base2, e / 2)) % n == (acc * pow(base, e)) % n,
{
    let h = e / 2;
    let b = e % 2;
    assert(e == b + 2 * h);
    lemma_pow_adds(base, b, 2 * h);
    lemma_pow_multiplies(base, 2, h);
    assert(pow(base, 2) == base * base) by {
        reveal_with_fuel(pow, 3);
    }
    lemma_pow_mod_noop(base * base, h, n);
    let a = acc * pow(base, b);
    let ph = pow(base * base, h);
    lemma_mul_mod_noop_left(a, pow(base2, h), n);
    lemma_mul_mod_noop_right(a, pow(base2, h), n);
    lemma_mul_mod_noop_right(a, ph, n);
    assert(a * ph == acc * (pow(base, b) * ph)) by (nonlinear_arith)
        requires
            a == acc * pow(base, b),
    ;
}

/// `z` is the inverse of `x` modulo `n`.
pub open spec fn is_inverse_mod(x: int, z: int, n: int) -> bool {
    0 <= z < n && (x * z) % n == 1int % n
}

impl Nmod {
    /// `x^(2^64) mod n`, by 64 squarings.
    fn pow_word_base(self, a: u64) -> (r: u64)
        requires
            a < self.n,
        ensures
            r < self.n,
            r as int == pow(a as int, word_base() as nat) % (self.n as int),
    {
        let n = self.n;
        let mut s: u64 = a;
        let mut t: u64 = 0;
        proof {
            lemma_pow1(a as int);
            lemma_small_mod(a as nat, n as nat);
            vstd::arithmetic::power2::lemma2_to64();
        }
        while t < 64
            invariant
                n == self.n,
                a < n,
                t <= 64,
                s < n,
                s as int == pow(a as int, pow2(t as nat)) % (n as int),
            decreases 64 - t,
        {
            let next = self.mul(s, s);
            proof {
                let q = pow(a as int, pow2(t as nat));
                vstd::arithmetic::power2::lemma_pow2_unfold((t + 1) as nat);
                lemma_pow_multiplies(a as int, pow2(t as nat), 2);
                assert(pow2((t + 1) as nat) == pow2(t as nat) * 2);
                reveal_with_fuel(pow, 3);
                assert(pow(q, 2) == q * q);
                lemma_mul_mod_noop(q, q, n as int);
            }
            s = next;
            t += 1;
        }
        proof {
            vstd::arithmetic::power2::lemma2_to64();
            assert(pow2(64) == word_base());
        }
        s
    }

    /// `x^k mod n` for any integer `k >= 0`.
    pub fn pow_integer(self, x: u64, k: &Integer) -> (r: u64)
        requires
            x < self.n,
            k.value() >= 0,
        ensures
            r < self.n,
            r as int == pow(x as int, k.value() as nat) % (self.n as int),
    {
        let n = self.n;
        let v = k.abs_limbs();
        let len = v.len();
        let mut acc: u64 = 1 % n;
        let mut i: usize = len;
        proof {
            assert(v@.subrange(len as int, len as int) =~= Seq::<u64>::empty());
            assert(magnitude(Seq::<u64>::empty()) == 0);
            lemma_pow0(x as int);
        }
        while i > 0
            invariant
                n == self.n,
                x < n,
                len == v.len(),
                i <= len,
                acc < n,
                acc as int == pow(x as int, magnitude(v@.subrange(i as int, len as int)) as nat) % (n as int),
            decreases i,
        {
            i -= 1;
            let lifted = self.pow_word_base(acc);
            let low = self.pow(x, v[i]);
            let next = self.mul(low, lifted);
            proof {
                let s = v@.subrange(i as int, len as int);
                let rest = v@.subrange(i + 1, len as int);
                assert(s.drop_first() =~= rest);
                let m = magnitude(rest);
                lemma_magnitude_nonneg(rest);
                assert(magnitude(s) == v@[i as int] + word_base() * m);
                let pm = pow(x as int, m as nat);
                // acc = pm mod n, so acc^B = pm^B = x^(B m) mod n.
                lemma_pow_mod_noop(pm, word_base() as nat, n as int);
                lemma_pow_multiplies(x as int, m as nat, word_base() as nat);
                let b = word_base();
                assert((m as nat) * (b as nat) == b * m) by (nonlinear_arith)
                    requires
                        m >= 0,
                        b >= 0,
                ;
                lemma_pow_adds(x as int, v@[i as int] as nat, (word_base() * m) as nat);
                lemma_mul_mod_noop(pow(x as int, v@[i as int] as nat), pow(x as int, (word_base() * m) as nat), n as int);
            }
            acc = next;
        }
        proof {
            assert(v@.subrange(0, len as int) =~= v@);
        }
        acc
    }


    /// `x^k`, by repeated squaring.
    pub fn pow(self, x: u64, k: u64) -> (r: u64)
        requires
            x < self.n,
        ensures
            r < self.n,
            r as int == pow(x as int, k as nat) % (self.n as int),
    {
        let n = self.n;
        let mut acc: u64 = 1 % n;
        let mut base: u64 = x;
        let mut e: u64 = k;
        proof {
            lemma_mod_bound(1, n as int);
            lemma_pow0(x as int);
            lemma_mul_mod_noop_left(1, pow(x as int, k as nat), n as int);
        }
        while e > 0
            invariant
                n == self.n,
                n >= 1,
                acc < n,
                base < n,
                (acc * pow(base as int, e as nat)) % (n as int) == pow(x as int, k as nat) % (n as int),
            decreases e,
        {
            let acc2 = if e % 2 == 1 {
                self.mul(acc, base)
            } else {
                acc
            };
            let base2 = self.mul(base, base);
            proof {
                if e % 2 == 1 {
                    lemma_pow1(base as int);
                } else {
                    lemma_pow0(base as int);
                    lemma_small_mod(acc as nat, n as nat);
                }
                lemma_square_step(acc as int, base as int, e as nat, n as int, acc2 as int, base2 as int);
            }
            acc = acc2;
            base = base2;
            e = e / 2;
        }
        proof {
            lemma_pow0(base as int);
            lemma_small_mod(acc as nat, n as nat);
        }
        acc
    }
}

// ----- operators on words -----------------------------------------------------

/// An operand of an operator on word-sized ring elements: an element of a
/// registered ring, or an integer.
#[derive(Clone, Debug)]
pub enum SmallArg {
    Small(SmallRing, u64),
    Int(Integer),
}

/// The value of an operator on word-sized ring elements: an element or a
/// truth value.
#[derive(Clone, Copy, Debug, PartialEq, Eq, Structural)]
pub enum SmallValue {
    Small(SmallRing, u64),
    Bool(bool),
}

/// The operand names a registered ring and is one of its elements.
pub open spec fn arg_ok<P>(rings: Seq<(SmallInfo, Rc<P>)>, a: SmallArg) -> bool {
    match a {
        SmallArg::Small(r, x) => 0 <= r.id() < rings.len() && x < rings[r.id()].0.m.n,
        SmallArg::Int(_) => true,
    }
}

/// What `op` gives on the elements `x, y` of the ring `r` (of `info`).
pub open spec fn word_result(op: BinOp, r: SmallRing, info: SmallInfo, x: int, y: int, res: Option<SmallValue>) -> bool {
    let n = info.m.n as int;
    match op {
        BinOp::Add => res == Some(SmallValue::Small(r, ((x + y) % n) as u64)),
        BinOp::Sub => res == Some(SmallValue::Small(r, ((x - y) % n) as u64)),
        BinOp::Mul => res == Some(SmallValue::Small(r, ((x * y) % n) as u64)),
        BinOp::Div => if n > 1 && invertible(y, n) {
            res matches Some(SmallValue::Small(s, w)) && s == r && w < n && (w * y) % n == x
        } else {
            res is None
        },
        BinOp::IntDiv => if y != 0 && info.kind == SmallKind::Residue {
            res == Some(SmallValue::Small(r, residue_quotient(x as nat, y as nat, n as nat) as u64))
        } else {
            res is None
        },
        BinOp::Eq | BinOp::Cmpeq => res == Some(SmallValue::Bool(x == y)),
        BinOp::Ne | BinOp::Cmpne => res == Some(SmallValue::Bool(x != y)),
        BinOp::Lt => res == Some(SmallValue::Bool(x < y)),
        BinOp::Le => res == Some(SmallValue::Bool(x <= y)),
        BinOp::Gt => res == Some(SmallValue::Bool(x > y)),
        BinOp::Ge => res == Some(SmallValue::Bool(x >= y)),
        _ => res is None,
    }
}

/// What `x^k` is for the element `x` of the ring `r` (of `info`): for
/// `k < 0` a power of the inverse, `None` where `x` has none (and in the
/// zero ring).
pub open spec fn power_result(r: SmallRing, info: SmallInfo, x: int, k: int, res: Option<SmallValue>) -> bool {
    let n = info.m.n as int;
    if k >= 0 {
        res == Some(SmallValue::Small(r, (pow(x, k as nat) % n) as u64))
    } else if n > 1 && invertible(x, n) {
        exists|z: int| #[trigger] is_inverse_mod(x, z, n) && res == Some(SmallValue::Small(r, (pow(z, (-k) as nat) % n) as u64))
    } else {
        res is None
    }
}

/// `op` on two elements of the ring `r` (of `info`). `None` leaves the
/// operation to the generic path, which also reports errors (a
/// non-invertible divisor, say).
fn small_words(op: BinOp, r: SmallRing, info: SmallInfo, x: u64, y: u64) -> (res: Option<SmallValue>)
    requires
        x < info.m.n,
        y < info.m.n,
    ensures
        word_result(op, r, info, x as int, y as int, res),
{
    let m = info.m;
    match op {
        BinOp::Add => Some(SmallValue::Small(r, m.add(x, y))),
        BinOp::Sub => Some(SmallValue::Small(r, m.sub(x, y))),
        BinOp::Mul => Some(SmallValue::Small(r, m.mul(x, y))),
        BinOp::Div => {
            if m.n > 1 {
                match m.inv(y) {
                    Some(z) => {
                        let w = m.mul(x, z);
                        proof {
                            let n = m.n as int;
                            lemma_small_mod(1, n as nat);
                            lemma_small_mod(x as nat, n as nat);
                            lemma_mul_mod_noop_left(x * z, y as int, n);
                            assert((x * z) * y == x * (y * z)) by (nonlinear_arith);
                            lemma_mul_mod_noop_right(x as int, y * z, n);
                            assert((x * (y * z)) % n == ((x as int) * 1) % n);
                            assert(invertible(y as int, n));
                        }
                        Some(SmallValue::Small(r, w))
                    },
                    None => None,
                }
            } else {
                None
            }
        },
        BinOp::IntDiv => {
            if y != 0 && info.kind == SmallKind::Residue {
                match m.residue_div(x, y) {
                    Some(q) => Some(SmallValue::Small(r, q)),
                    None => None,
                }
            } else {
                None
            }
        },
        BinOp::Eq | BinOp::Cmpeq => Some(SmallValue::Bool(x == y)),
        BinOp::Ne | BinOp::Cmpne => Some(SmallValue::Bool(x != y)),
        BinOp::Lt => Some(SmallValue::Bool(x < y)),
        BinOp::Le => Some(SmallValue::Bool(x <= y)),
        BinOp::Gt => Some(SmallValue::Bool(x > y)),
        BinOp::Ge => Some(SmallValue::Bool(x >= y)),
        _ => None,
    }
}

/// `x^k` for an element `x` of the ring `r` (of `info`): `None` for a
/// non-invertible `x` and `k < 0`.
fn small_pow(r: SmallRing, info: SmallInfo, x: u64, k: &Integer) -> (res: Option<SmallValue>)
    requires
        x < info.m.n,
    ensures
        power_result(r, info, x as int, k.value(), res),
{
    let m = info.m;
    if !k.is_negative() {
        return Some(SmallValue::Small(r, m.pow_integer(x, k)));
    }
    if m.n == 1 {
        return None;
    }
    match m.inv(x) {
        Some(z) => {
            let e = k.negate();
            let w = m.pow_integer(z, &e);
            proof {
                let n = m.n as int;
                lemma_small_mod(1, n as nat);
                assert(is_inverse_mod(x as int, z as int, n));
                assert(invertible(x as int, n));
            }
            Some(SmallValue::Small(r, w))
        },
        None => None,
    }
}

/// Which rule applies to `op` on `a` and `b`.
pub enum SmallRule {
    /// `x^k` in the ring `r`.
    Power(SmallRing, int, int),
    /// `op` on the elements `x, y` of the ring `r`.
    Words(SmallRing, int, int),
    /// Nothing here: the generic path decides.
    NoRule,
}

/// The rule for `op` on `a` and `b`: two elements of one ring; an element
/// and an integer, which counts as its residue (but as an exponent for
/// `^`); nothing else.
pub open spec fn small_rule<P>(rings: Seq<(SmallInfo, Rc<P>)>, op: BinOp, a: SmallArg, b: SmallArg) -> SmallRule {
    match (a, b) {
        (SmallArg::Small(r, x), SmallArg::Small(s, y)) => if r == s {
            SmallRule::Words(r, x as int, y as int)
        } else {
            SmallRule::NoRule
        },
        (SmallArg::Small(r, x), SmallArg::Int(k)) => if op == BinOp::Pow {
            SmallRule::Power(r, x as int, k.value())
        } else {
            SmallRule::Words(r, x as int, k.value() % (rings[r.id()].0.m.n as int))
        },
        (SmallArg::Int(i), SmallArg::Small(r, y)) => if op != BinOp::Pow {
            SmallRule::Words(r, i.value() % (rings[r.id()].0.m.n as int), y as int)
        } else {
            SmallRule::NoRule
        },
        _ => SmallRule::NoRule,
    }
}

/// Arithmetic and comparison of word-sized ring elements with each other
/// and with integers. `None` leaves the operation to the generic path,
/// which also reports errors (a non-invertible divisor, say).
pub fn small_binop<P>(rings: &SmallRings<P>, op: BinOp, a: SmallArg, b: SmallArg) -> (res: Option<SmallValue>)
    requires
        arg_ok(rings@, a),
        arg_ok(rings@, b),
    ensures
        (match small_rule(rings@, op, a, b) {
            SmallRule::Power(r, x, k) => power_result(r, rings@[r.id()].0, x, k, res),
            SmallRule::Words(r, x, y) => word_result(op, r, rings@[r.id()].0, x, y, res),
            SmallRule::NoRule => res is None,
        }),
{
    match (a, b) {
        (SmallArg::Small(r, x), SmallArg::Small(s, y)) => {
            if r == s {
                small_words(op, r, r.info(rings), x, y)
            } else {
                None
            }
        },
        (SmallArg::Small(r, x), SmallArg::Int(k)) => {
            let info = r.info(rings);
            if op == BinOp::Pow {
                small_pow(r, info, x, &k)
            } else {
                small_words(op, r, info, x, k.rem_euclid_word(info.m.n))
            }
        },
        (SmallArg::Int(i), SmallArg::Small(r, y)) => {
            if op != BinOp::Pow {
                let info = r.info(rings);
                small_words(op, r, info, i.rem_euclid_word(info.m.n), y)
            } else {
                None
            }
        },
        _ => None,
    }
}

} // verus!
