//! The pseudo-random generator behind `Random`, `SetSeed` and `GetSeed`.
//!
//! State is described by a seed and the number of steps taken since
//! seeding, so `SetSeed(s, c)` can reproduce any earlier state. The state
//! proper is seeded by splitmix64 and advanced by xoshiro256**.

use vstd::prelude::*;
use vstd::arithmetic::power::*;
use vstd::arithmetic::mul::*;
use vstd::wrapping::u64_specs::{wrapping_add, wrapping_mul};

verus! {

/// The increment of splitmix64.
pub const GOLDEN: u64 = 0x9e3779b97f4a7c15;

/// `x` rotated left by `k` bits, `0 < k < 64`.
pub open spec fn rotl(x: u64, k: u64) -> u64 {
    (x << k) | (x >> (64 - k) as u64)
}

/// The output of splitmix64 for the advanced counter `x`.
pub open spec fn splitmix_out(x: u64) -> u64 {
    let z1 = wrapping_mul(x ^ (x >> 30u64), 0xbf58476d1ce4e5b9);
    let z2 = wrapping_mul(z1 ^ (z1 >> 27u64), 0x94d049bb133111eb);
    z2 ^ (z2 >> 31u64)
}

/// The counter of splitmix64 after `k` steps from `x`.
pub open spec fn splitmix_counter(x: u64, k: nat) -> u64
    decreases k,
{
    if k == 0 {
        x
    } else {
        wrapping_add(splitmix_counter(x, (k - 1) as nat), GOLDEN)
    }
}

/// The state of xoshiro256** right after seeding with `seed`.
pub open spec fn seed_state(seed: u64) -> [u64; 4] {
    [
        splitmix_out(splitmix_counter(seed, 1)),
        splitmix_out(splitmix_counter(seed, 2)),
        splitmix_out(splitmix_counter(seed, 3)),
        splitmix_out(splitmix_counter(seed, 4)),
    ]
}

/// One step of xoshiro256**.
pub open spec fn step(s: [u64; 4]) -> [u64; 4] {
    let t = s[1] << 17u64;
    let s2 = s[2] ^ s[0];
    let s3 = s[3] ^ s[1];
    let s1 = s[1] ^ s2;
    let s0 = s[0] ^ s3;
    let s2 = s2 ^ t;
    let s3 = rotl(s3, 45);
    [s0, s1, s2, s3]
}

/// The output of xoshiro256** from the state `s` (before its step).
pub open spec fn output(s: [u64; 4]) -> u64 {
    wrapping_mul(rotl(wrapping_mul(s[1], 5), 7), 9)
}

/// The state after `k` steps from `s`.
pub open spec fn advance(s: [u64; 4], k: nat) -> [u64; 4]
    decreases k,
{
    if k == 0 {
        s
    } else {
        step(advance(s, (k - 1) as nat))
    }
}

/// The `j`-th output from the state `s` (counting from 0).
pub open spec fn draw(s: [u64; 4], j: nat) -> u64 {
    output(advance(s, j))
}

/// Outputs at or above `zone` are rejected when drawing below `n`, so that
/// every residue is equally likely.
pub open spec fn zone(n: u64) -> u64 {
    (u64::MAX - (u64::MAX % n)) as u64
}

/// Advancing by `a` and then by `b` steps is advancing by `a + b` steps.
pub proof fn lemma_advance_add(s: [u64; 4], a: nat, b: nat)
    ensures
        advance(advance(s, a), b) == advance(s, a + b),
    decreases b,
{
    if b > 0 {
        lemma_advance_add(s, a, (b - 1) as nat);
    }
}

fn rotate_left(x: u64, k: u32) -> (r: u64)
    requires
        0 < k < 64,
    ensures
        r == rotl(x, k as u64),
{
    (x << k) | (x >> (64 - k))
}

/// One splitmix64 output: advance the counter `x`, then mix it.
fn splitmix(x: &mut u64) -> (r: u64)
    ensures
        *final(x) == wrapping_add(*old(x), GOLDEN),
        r == splitmix_out(*final(x)),
{
    *x = x.wrapping_add(0x9e3779b97f4a7c15);
    let mut z = *x;
    z = (z ^ (z >> 30)).wrapping_mul(0xbf58476d1ce4e5b9);
    z = (z ^ (z >> 27)).wrapping_mul(0x94d049bb133111eb);
    z ^ (z >> 31)
}

// ----- integers as limbs --------------------------------------------------------

/// The base of the limbs of an integer.
pub open spec fn limb_base() -> int {
    0x1_0000_0000_0000_0000
}

/// The value of the little-endian limbs `v`.
pub open spec fn limbs_value(v: Seq<u64>) -> int
    decreases v.len(),
{
    if v.len() == 0 {
        0
    } else {
        limbs_value(v.drop_last()) + v.last() * pow(limb_base(), (v.len() - 1) as nat)
    }
}

/// The number of bits of `x`.
pub open spec fn bit_length(x: nat) -> nat
    decreases x,
{
    if x == 0 {
        0
    } else {
        1 + bit_length(x / 2)
    }
}

/// The word with the low `bit_length(x)` bits set.
pub open spec fn low_mask(x: u64) -> int {
    pow(2, bit_length(x as nat)) - 1
}

/// The `k`-th block of `len` outputs from the state `s`, the last masked
/// by `mask`: a candidate below a bound of `len` limbs.
pub open spec fn block(s: [u64; 4], k: nat, len: nat, mask: u64) -> Seq<u64> {
    Seq::new(len, |j: int| if j == len - 1 { draw(s, k * len + j as nat) & mask } else { draw(s, k * len + j as nat) })
}

/// Limbs are below the next power of the base.
pub proof fn lemma_limbs_bound(v: Seq<u64>)
    ensures
        0 <= limbs_value(v) < pow(limb_base(), v.len()),
    decreases v.len(),
{
    reveal(pow);
    if v.len() > 0 {
        let p = pow(limb_base(), (v.len() - 1) as nat);
        lemma_limbs_bound(v.drop_last());
        lemma_pow_positive(limb_base(), (v.len() - 1) as nat);
        let x = v.last() as int;
        assert(limbs_value(v) <= (p - 1) + x * p);
        assert((p - 1) + x * p < limb_base() * p) by (nonlinear_arith)
            requires
                0 <= x < limb_base(),
                p > 0,
        ;
        assert(x * p >= 0) by (nonlinear_arith)
            requires
                x >= 0,
                p > 0,
        ;
    }
}

/// The order of limbs of one length is decided by the highest limb in
/// which they differ.
pub proof fn lemma_limbs_compare(a: Seq<u64>, b: Seq<u64>)
    requires
        a.len() == b.len(),
        a.len() > 0,
    ensures
        a.last() < b.last() ==> limbs_value(a) < limbs_value(b),
        a.last() > b.last() ==> limbs_value(a) > limbs_value(b),
        a.last() == b.last() ==> (limbs_value(a) < limbs_value(b) <==> limbs_value(a.drop_last()) < limbs_value(
            b.drop_last(),
        )),
{
    let p = pow(limb_base(), (a.len() - 1) as nat);
    lemma_limbs_bound(a.drop_last());
    lemma_limbs_bound(b.drop_last());
    lemma_pow_positive(limb_base(), (a.len() - 1) as nat);
    let (x, y) = (a.last() as int, b.last() as int);
    let (ra, rb) = (limbs_value(a.drop_last()), limbs_value(b.drop_last()));
    if x < y {
        assert(ra + x * p < rb + y * p) by (nonlinear_arith)
            requires
                0 <= ra < p,
                0 <= rb,
                x < y,
        ;
    }
    if x > y {
        assert(ra + x * p > rb + y * p) by (nonlinear_arith)
            requires
                0 <= rb < p,
                0 <= ra,
                x > y,
        ;
    }
}

/// `2^(b-1) <= x < 2^b` for the bit length `b` of `x > 0`.
proof fn lemma_bit_length(x: nat)
    ensures
        x < pow(2, bit_length(x)),
        x > 0 ==> pow(2, (bit_length(x) - 1) as nat) <= x,
    decreases x,
{
    reveal(pow);
    if x > 0 {
        lemma_bit_length(x / 2);
        let b = bit_length(x / 2);
        if x / 2 > 0 {
            assert(pow(2, (b + 1 - 1) as nat) == 2 * pow(2, (b - 1) as nat));
        }
    }
}

/// The bit length is the one exponent `b` with `2^(b-1) - 1 < x <= 2^b - 1`.
proof fn lemma_bit_length_unique(x: nat, b: nat)
    requires
        x <= pow(2, b) - 1,
        b > 0 ==> pow(2, (b - 1) as nat) - 1 < x,
    ensures
        b == bit_length(x),
{
    lemma_bit_length(x);
    let c = bit_length(x);
    if b < c {
        lemma_pow_increases(2, b, (c - 1) as nat);
    } else if c < b {
        lemma_pow_increases(2, c, (b - 1) as nat);
        lemma_pow_positive(2, c);
    }
}

/// The word with the bits of `x` and all lower ones set.
fn top_mask(x: u64) -> (m: u64)
    ensures
        m == low_mask(x),
{
    let mut m: u64 = 0;
    let ghost mut b: nat = 0;
    proof {
        reveal(pow);
    }
    while m < x
        invariant
            m == pow(2, b) - 1,
            b > 0 ==> pow(2, (b - 1) as nat) - 1 < x,
            b <= 64,
        decreases 64 - b,
    {
        proof {
            reveal(pow);
            // m < x <= 2^64 - 1, so b < 64 and 2 m + 1 fits.
            vstd::arithmetic::power2::lemma2_to64();
            vstd::arithmetic::power2::lemma_pow2(63);
            vstd::arithmetic::power2::lemma_pow2(64);
            if b >= 64 {
                lemma_pow_increases(2, 64, b);
            }
            lemma_pow_increases(2, b, 63);
            assert(pow(2, b + 1) == 2 * pow(2, b));
            b = b + 1;
        }
        m = m * 2 + 1;
    }
    proof {
        lemma_bit_length_unique(x as nat, b);
    }
    m
}

/// Whether the limbs `a` are below the limbs `b` of the same length.
fn limbs_less(a: &Vec<u64>, b: &[u64]) -> (r: bool)
    requires
        a.len() == b.len(),
    ensures
        r == (limbs_value(a@) < limbs_value(b@)),
{
    let mut i = a.len();
    proof {
        assert(a@.take(i as int) =~= a@);
        assert(b@.take(i as int) =~= b@);
    }
    while i > 0
        invariant
            a.len() == b.len(),
            i <= a.len(),
            (limbs_value(a@) < limbs_value(b@)) == (limbs_value(a@.take(i as int)) < limbs_value(b@.take(i as int))),
        decreases i,
    {
        let (x, y) = (a[i - 1], b[i - 1]);
        proof {
            let (ta, tb) = (a@.take(i as int), b@.take(i as int));
            lemma_limbs_compare(ta, tb);
            assert(ta.drop_last() =~= a@.take(i - 1));
            assert(tb.drop_last() =~= b@.take(i - 1));
        }
        if x != y {
            return x < y;
        }
        i -= 1;
    }
    false
}

/// One output of xoshiro256** from the state `s`, and the state after it.
fn xoshiro(s: [u64; 4]) -> (r: ([u64; 4], u64))
    ensures
        r.0 == step(s),
        r.1 == output(s),
{
    let s0 = s[0];
    let s1 = s[1];
    let s2 = s[2];
    let s3 = s[3];
    let result = rotate_left(s1.wrapping_mul(5), 7).wrapping_mul(9);
    let t = s1 << 17;
    let s2 = s2 ^ s0;
    let s3 = s3 ^ s1;
    let s1 = s1 ^ s2;
    let s0 = s0 ^ s3;
    let s2 = s2 ^ t;
    let s3 = rotate_left(s3, 45);
    let next = [s0, s1, s2, s3];
    assert(next =~= step(s));
    (next, result)
}

/// The generator: its seed, the steps taken since seeding, and the state.
pub struct Rng {
    seed: u64,
    steps: u64,
    state: [u64; 4],
}

impl Rng {
    /// The seed it was seeded with.
    pub closed spec fn seed_of(&self) -> u64 {
        self.seed
    }

    /// The number of outputs taken since seeding.
    pub closed spec fn steps_of(&self) -> u64 {
        self.steps
    }

    /// The state of xoshiro256**.
    pub closed spec fn state_of(&self) -> [u64; 4] {
        self.state
    }

    /// The state is always the one that the seed and the steps give.
    #[verifier::type_invariant]
    closed spec fn seeded(self) -> bool {
        self.state == advance(seed_state(self.seed), self.steps as nat)
    }

    /// The generator seeded with `seed`.
    pub fn new(seed: u64) -> (r: Rng)
        ensures
            r.seed_of() == seed,
            r.steps_of() == 0,
            r.state_of() == seed_state(seed),
    {
        let mut s = seed;
        let a = splitmix(&mut s);
        let b = splitmix(&mut s);
        let c = splitmix(&mut s);
        let d = splitmix(&mut s);
        proof {
            reveal_with_fuel(splitmix_counter, 5);
        }
        Rng { seed, steps: 0, state: [a, b, c, d] }
    }

    /// The seed and the number of steps since seeding (`GetSeed`), which
    /// determine the state.
    pub fn seed(&self) -> (r: (u64, u64))
        ensures
            r == (self.seed_of(), self.steps_of()),
            self.consistent(),
    {
        proof {
            use_type_invariant(self);
        }
        (self.seed, self.steps)
    }

    /// Reseed with `seed` and take `steps` outputs (`SetSeed`).
    pub fn set_seed(&mut self, seed: u64, steps: u64)
        ensures
            final(self).seed_of() == seed,
            final(self).steps_of() == steps,
            final(self).state_of() == advance(seed_state(seed), steps as nat),
    {
        *self = Rng::new(seed);
        let mut i: u64 = 0;
        while i < steps
            invariant
                i <= steps,
                self.seed == seed,
                self.steps == i,
                self.state == advance(seed_state(seed), i as nat),
            decreases steps - i,
        {
            self.next_u64();
            i += 1;
        }
    }

    /// The next output, counted as a step: the output of a generator
    /// freshly seeded with the seed after the steps taken so far.
    pub fn next_u64(&mut self) -> (r: u64)
        requires
            old(self).steps_of() < u64::MAX,
        ensures
            final(self).seed_of() == old(self).seed_of(),
            final(self).steps_of() == old(self).steps_of() + 1,
            final(self).state_of() == step(old(self).state_of()),
            r == output(old(self).state_of()),
            r == draw(seed_state(old(self).seed_of()), old(self).steps_of() as nat),
    {
        proof {
            use_type_invariant(&*self);
        }
        let (state, r) = xoshiro(self.state);
        *self = Rng { seed: self.seed, steps: self.steps + 1, state };
        r
    }

    /// Uniform integer in `[0, n)` for `n > 0`: the first output below the
    /// largest multiple of `n` that fits, reduced mod `n`. The outputs
    /// before it are rejected, and all count as steps. Such an output must
    /// come before the count of steps overflows.
    pub fn below_u64(&mut self, n: u64) -> (r: u64)
        requires
            n > 0,
            exists|k: nat|
                old(self).steps_of() + k < u64::MAX && #[trigger] draw(old(self).state_of(), k) < zone(n),
        ensures
            exists|k: nat|
                {
                    &&& #[trigger] draw(old(self).state_of(), k) < zone(n)
                    &&& forall|j: nat| j < k ==> #[trigger] draw(old(self).state_of(), j) >= zone(n)
                    &&& final(self).state_of() == advance(old(self).state_of(), k + 1)
                    &&& final(self).steps_of() == old(self).steps_of() + k + 1
                    &&& r == draw(old(self).state_of(), k) % n
                },
            final(self).seed_of() == old(self).seed_of(),
            r < n,
    {
        let zone_n = u64::MAX - (u64::MAX % n);
        let ghost s0 = self.state;
        let ghost t0 = self.steps;
        let ghost mut i: nat = 0;
        loop
            invariant
                n > 0,
                zone_n == zone(n),
                self.seed == old(self).seed,
                s0 == old(self).state,
                t0 == old(self).steps,
                self.state == advance(s0, i),
                self.steps == t0 + i,
                forall|j: nat| j < i ==> #[trigger] draw(s0, j) >= zone(n),
                exists|k: nat| i <= k && t0 + k < u64::MAX && #[trigger] draw(s0, k) < zone(n),
            decreases u64::MAX - self.steps,
        {
            let r = self.next_u64();
            if r < zone_n {
                assert(draw(s0, i) == r);
                assert(self.state == advance(s0, i + 1));
                let out = r % n;
                assert(exists|k: nat|
                {
                    &&& #[trigger] draw(old(self).state_of(), k) < zone(n)
                    &&& forall|j: nat| j < k ==> #[trigger] draw(old(self).state_of(), j) >= zone(n)
                    &&& self.state_of() == advance(old(self).state_of(), k + 1)
                    &&& self.steps_of() == old(self).steps_of() + k + 1
                    &&& out == draw(old(self).state_of(), k) % n
                }) by {
                    assert(draw(old(self).state_of(), i) < zone(n));
                };
                return out;
            }
            proof {
                assert(draw(s0, i) == r);
                let k = choose|k: nat| i <= k && t0 + k < u64::MAX && #[trigger] draw(s0, k) < zone(n);
                assert(k != i);
                assert(draw(s0, k) < zone(n));
                assert(self.state == advance(s0, i + 1));
                i = i + 1;
            }
        }
    }

    /// `below_u64` where the count of steps may fill up first: `None` if no
    /// output below the largest multiple of `n` comes before the count is
    /// full (all those outputs are then taken).
    pub fn below_u64_checked(&mut self, n: u64) -> (r: Option<u64>)
        requires
            n > 0,
        ensures
            final(self).seed_of() == old(self).seed_of(),
            r is None <==> forall|k: nat|
                old(self).steps_of() + k < u64::MAX ==> #[trigger] draw(old(self).state_of(), k) >= zone(n),
            r matches Some(x) ==> x < n && exists|k: nat|
                {
                    &&& #[trigger] draw(old(self).state_of(), k) < zone(n)
                    &&& forall|j: nat| j < k ==> #[trigger] draw(old(self).state_of(), j) >= zone(n)
                    &&& final(self).state_of() == advance(old(self).state_of(), k + 1)
                    &&& final(self).steps_of() == old(self).steps_of() + k + 1
                    &&& x == draw(old(self).state_of(), k) % n
                },
    {
        let zone_n = u64::MAX - (u64::MAX % n);
        let ghost s0 = self.state;
        let ghost t0 = self.steps;
        let ghost mut i: nat = 0;
        while self.steps < u64::MAX
            invariant
                n > 0,
                zone_n == zone(n),
                self.seed == old(self).seed,
                s0 == old(self).state,
                t0 == old(self).steps,
                self.state == advance(s0, i),
                self.steps == t0 + i,
                forall|j: nat| j < i ==> #[trigger] draw(s0, j) >= zone(n),
            decreases u64::MAX - self.steps,
        {
            let r = self.next_u64();
            if r < zone_n {
                assert(draw(s0, i) == r);
                assert(self.state == advance(s0, i + 1));
                let out = r % n;
                assert(exists|k: nat|
                {
                    &&& #[trigger] draw(old(self).state_of(), k) < zone(n)
                    &&& forall|j: nat| j < k ==> #[trigger] draw(old(self).state_of(), j) >= zone(n)
                    &&& self.state_of() == advance(old(self).state_of(), k + 1)
                    &&& self.steps_of() == old(self).steps_of() + k + 1
                    &&& out == draw(old(self).state_of(), k) % n
                }) by {
                    assert(draw(old(self).state_of(), i) < zone(n));
                };
                assert(old(self).steps_of() + i < u64::MAX && draw(old(self).state_of(), i) < zone(n));
                return Some(out);
            }
            proof {
                assert(draw(s0, i) == r);
                assert(self.state == advance(s0, i + 1));
                i = i + 1;
            }
        }
        assert forall|k: nat| old(self).steps_of() + k < u64::MAX implies #[trigger] draw(old(self).state_of(), k) >= zone(n) by {
            assert(k < i);
        }
        None
    }
}

impl Rng {
    /// Uniform integer in `[0, n)` for `n > 0`, both as little-endian limbs
    /// (`n` without a zero top limb). A one-limb bound draws as `below_u64`;
    /// a longer one takes blocks of as many outputs as it has limbs, the top
    /// one cut to the bits of the top limb of `n`, until a block is below
    /// `n`. Such a block must come before the count of steps overflows.
    pub fn below(&mut self, n: &[u64]) -> (r: Vec<u64>)
        requires
            n.len() >= 1,
            n@.last() != 0,
            n.len() == 1 ==> exists|k: nat|
                old(self).steps_of() + k < u64::MAX && #[trigger] draw(old(self).state_of(), k) < zone(n@[0]),
            n.len() > 1 ==> exists|k: nat|
                old(self).steps_of() + (k + 1) * n.len() <= u64::MAX && #[trigger] limbs_value(
                    block(old(self).state_of(), k, n.len() as nat, low_mask(n@.last()) as u64),
                ) < limbs_value(n@),
        ensures
            final(self).seed_of() == old(self).seed_of(),
            limbs_value(r@) < limbs_value(n@),
            n.len() == 1 ==> exists|k: nat|
                {
                    &&& #[trigger] draw(old(self).state_of(), k) < zone(n@[0])
                    &&& forall|j: nat| j < k ==> #[trigger] draw(old(self).state_of(), j) >= zone(n@[0])
                    &&& final(self).state_of() == advance(old(self).state_of(), k + 1)
                    &&& final(self).steps_of() == old(self).steps_of() + k + 1
                    &&& r@ == seq![draw(old(self).state_of(), k) % n@[0]]
                },
            n.len() > 1 ==> exists|k: nat|
                {
                    &&& limbs_value(
                        #[trigger] block(old(self).state_of(), k, n.len() as nat, low_mask(n@.last()) as u64),
                    ) < limbs_value(n@)
                    &&& forall|j: nat|
                        j < k ==> limbs_value(
                            #[trigger] block(old(self).state_of(), j, n.len() as nat, low_mask(n@.last()) as u64),
                        ) >= limbs_value(n@)
                    &&& final(self).state_of() == advance(old(self).state_of(), (k + 1) * (n.len() as nat))
                    &&& final(self).steps_of() == old(self).steps_of() + (k + 1) * n.len()
                    &&& r@ == block(old(self).state_of(), k, n.len() as nat, low_mask(n@.last()) as u64)
                },
    {
        if n.len() == 1 {
            let x = self.below_u64(n[0]);
            let r = vec![x];
            proof {
                reveal_with_fuel(limbs_value, 2);
                assert(r@.drop_last() =~= Seq::<u64>::empty());
                assert(n@.drop_last() =~= Seq::<u64>::empty());
                lemma_pow0(limb_base());
            }
            return r;
        }
        let len = n.len();
        let mask = top_mask(n[len - 1]);
        let ghost s0 = self.state;
        let ghost t0 = self.steps;
        let ghost bound = limbs_value(n@);
        let ghost mut i: nat = 0;
        loop
            invariant
                len == n.len(),
                len > 1,
                bound == limbs_value(n@),
                mask == low_mask(n@.last()),
                self.seed == old(self).seed,
                s0 == old(self).state,
                t0 == old(self).steps,
                self.state == advance(s0, i * (len as nat)),
                self.steps == t0 + i * len,
                forall|j: nat| j < i ==> limbs_value(#[trigger] block(s0, j, len as nat, mask)) >= bound,
                exists|k: nat|
                    i <= k && t0 + (k + 1) * len <= u64::MAX && #[trigger] limbs_value(block(s0, k, len as nat, mask))
                        < bound,
            decreases u64::MAX - self.steps,
        {
            let ghost k = choose|k: nat|
                i <= k && t0 + (k + 1) * len <= u64::MAX && #[trigger] limbs_value(block(s0, k, len as nat, mask)) < bound;
            proof {
                lemma_mul_inequality((i + 1) as int, (k + 1) as int, len as int);
                assert((i + 1) * len == i * len + len) by (nonlinear_arith);
            }
            let mut v: Vec<u64> = Vec::new();
            let mut j: usize = 0;
            while j < len
                invariant
                    len == n.len(),
                    len > 1,
                    j <= len,
                    self.seed == old(self).seed,
                    self.state == advance(s0, i * (len as nat) + (j as nat)),
                    self.steps == t0 + i * len + j,
                    t0 + i * len + len <= u64::MAX,
                    v.len() == j,
                    forall|t: int| 0 <= t < j ==> #[trigger] v@[t] == draw(s0, i * (len as nat) + t as nat),
                decreases len - j,
            {
                let x = self.next_u64();
                proof {
                    assert(x == draw(s0, i * (len as nat) + j as nat));
                }
                v.push(x);
                j += 1;
            }
            let top = v[len - 1] & mask;
            v.set(len - 1, top);
            let ghost cand = block(s0, i, len as nat, mask);
            assert(v@ =~= cand);
            if limbs_less(&v, n) {
                proof {
                    assert((i + 1) * len == i * len + len) by (nonlinear_arith);
                    assert((i + 1) * (len as nat) == i * (len as nat) + (len as nat)) by (nonlinear_arith);
                    assert(low_mask(n@.last()) as u64 == mask);
                    assert(self.state_of() == advance(old(self).state_of(), (i + 1) * (n.len() as nat)));
                    assert(limbs_value(block(old(self).state_of(), i, n.len() as nat, low_mask(n@.last()) as u64))
                        < limbs_value(n@));
                }
                return v;
            }
            proof {
                assert(k != i);
                assert((i + 1) * len == i * len + len) by (nonlinear_arith);
                i = i + 1;
            }
        }
    }

    /// `below` where the count of steps may fill up first: `None` if no
    /// draw (or block) below the bound comes before the count is full.
    pub fn below_checked(&mut self, n: &[u64]) -> (r: Option<Vec<u64>>)
        requires
            n.len() >= 1,
            n@.last() != 0,
        ensures
            final(self).seed_of() == old(self).seed_of(),
            n.len() == 1 ==> (r is None <==> forall|k: nat|
                old(self).steps_of() + k < u64::MAX ==> #[trigger] draw(old(self).state_of(), k) >= zone(n@[0])),
            n.len() > 1 ==> (r is None <==> forall|k: nat|
                old(self).steps_of() + (k + 1) * n.len() <= u64::MAX ==> #[trigger] limbs_value(
                    block(old(self).state_of(), k, n.len() as nat, low_mask(n@.last()) as u64),
                ) >= limbs_value(n@)),
            r matches Some(v) ==> limbs_value(v@) < limbs_value(n@),
            r matches Some(v) ==> n.len() == 1 ==> exists|k: nat|
                {
                    &&& #[trigger] draw(old(self).state_of(), k) < zone(n@[0])
                    &&& forall|j: nat| j < k ==> #[trigger] draw(old(self).state_of(), j) >= zone(n@[0])
                    &&& final(self).state_of() == advance(old(self).state_of(), k + 1)
                    &&& final(self).steps_of() == old(self).steps_of() + k + 1
                    &&& v@ == seq![draw(old(self).state_of(), k) % n@[0]]
                },
            r matches Some(v) ==> n.len() > 1 ==> exists|k: nat|
                {
                    &&& limbs_value(
                        #[trigger] block(old(self).state_of(), k, n.len() as nat, low_mask(n@.last()) as u64),
                    ) < limbs_value(n@)
                    &&& forall|j: nat|
                        j < k ==> limbs_value(
                            #[trigger] block(old(self).state_of(), j, n.len() as nat, low_mask(n@.last()) as u64),
                        ) >= limbs_value(n@)
                    &&& final(self).state_of() == advance(old(self).state_of(), (k + 1) * (n.len() as nat))
                    &&& final(self).steps_of() == old(self).steps_of() + (k + 1) * n.len()
                    &&& v@ == block(old(self).state_of(), k, n.len() as nat, low_mask(n@.last()) as u64)
                },
    {
        if n.len() == 1 {
            let x = match self.below_u64_checked(n[0]) {
                Some(x) => x,
                None => return None,
            };
            let r = vec![x];
            proof {
                reveal_with_fuel(limbs_value, 2);
                assert(r@.drop_last() =~= Seq::<u64>::empty());
                assert(n@.drop_last() =~= Seq::<u64>::empty());
                lemma_pow0(limb_base());
            }
            return Some(r);
        }
        let len = n.len();
        let mask = top_mask(n[len - 1]);
        let ghost s0 = self.state;
        let ghost t0 = self.steps;
        let ghost bound = limbs_value(n@);
        let ghost mut i: nat = 0;
        while self.steps <= u64::MAX - (len as u64)
            invariant
                len == n.len(),
                len > 1,
                bound == limbs_value(n@),
                mask == low_mask(n@.last()),
                self.seed == old(self).seed,
                s0 == old(self).state,
                t0 == old(self).steps,
                self.state == advance(s0, i * (len as nat)),
                self.steps == t0 + i * len,
                forall|j: nat| j < i ==> limbs_value(#[trigger] block(s0, j, len as nat, mask)) >= bound,
            decreases u64::MAX - self.steps,
        {
            proof {
                assert((i + 1) * len == i * len + len) by (nonlinear_arith);
            }
            let mut v: Vec<u64> = Vec::new();
            let mut j: usize = 0;
            while j < len
                invariant
                    len == n.len(),
                    len > 1,
                    j <= len,
                    self.seed == old(self).seed,
                    self.state == advance(s0, i * (len as nat) + (j as nat)),
                    self.steps == t0 + i * len + j,
                    t0 + i * len + len <= u64::MAX,
                    v.len() == j,
                    forall|t: int| 0 <= t < j ==> #[trigger] v@[t] == draw(s0, i * (len as nat) + t as nat),
                decreases len - j,
            {
                let x = self.next_u64();
                proof {
                    assert(x == draw(s0, i * (len as nat) + j as nat));
                }
                v.push(x);
                j += 1;
            }
            let top = v[len - 1] & mask;
            v.set(len - 1, top);
            let ghost cand = block(s0, i, len as nat, mask);
            assert(v@ =~= cand);
            if limbs_less(&v, n) {
                proof {
                    assert((i + 1) * len == i * len + len) by (nonlinear_arith);
                    assert((i + 1) * (len as nat) == i * (len as nat) + (len as nat)) by (nonlinear_arith);
                    assert(low_mask(n@.last()) as u64 == mask);
                    assert(self.state_of() == advance(old(self).state_of(), (i + 1) * (n.len() as nat)));
                    assert(limbs_value(block(old(self).state_of(), i, n.len() as nat, low_mask(n@.last()) as u64))
                        < limbs_value(n@));
                }
                assert(old(self).steps_of() + (i + 1) * n.len() <= u64::MAX);
                return Some(v);
            }
            proof {
                assert((i + 1) * len == i * len + len) by (nonlinear_arith);
                i = i + 1;
            }
        }
        proof {
            assert forall|k: nat| old(self).steps_of() + (k + 1) * n.len() <= u64::MAX implies #[trigger] limbs_value(
                block(old(self).state_of(), k, n.len() as nat, low_mask(n@.last()) as u64),
            ) >= limbs_value(n@) by {
                if k >= i {
                    assert((k + 1) * len >= (i + 1) * len) by (nonlinear_arith)
                        requires
                            k >= i,
                    ;
                    assert((i + 1) * len == i * len + len) by (nonlinear_arith);
                }
                assert(low_mask(n@.last()) as u64 == mask);
            }
        }
        None
    }
}

impl Rng {
    /// The state is the one that the seed and the number of steps give.
    pub open spec fn consistent(&self) -> bool {
        self.state_of() == advance(seed_state(self.seed_of()), self.steps_of() as nat)
    }
}

/// Taking `k` outputs keeps a generator consistent with its seed and
/// steps (`next_u64` takes one, the draws below a bound several), as
/// seeding does.
pub proof fn lemma_outputs_keep_consistent(before: Rng, after: Rng, k: nat)
    requires
        before.consistent(),
        after.seed_of() == before.seed_of(),
        after.steps_of() == before.steps_of() + k,
        after.state_of() == advance(before.state_of(), k),
    ensures
        after.consistent(),
{
    lemma_advance_add(seed_state(before.seed_of()), before.steps_of() as nat, k);
}

/// One step is one output: `step(s) == advance(s, 1)`.
pub proof fn lemma_step_is_advance(s: [u64; 4])
    ensures
        step(s) == advance(s, 1),
{
    assert(advance(s, 0) == s);
}

/// `SetSeed` with the seed and steps that `GetSeed` gave reproduces the
/// state of a consistent generator.
pub proof fn lemma_set_seed_reproduces(r: Rng, s: Rng)
    requires
        r.consistent(),
        s.seed_of() == r.seed_of(),
        s.steps_of() == r.steps_of(),
        s.state_of() == advance(seed_state(r.seed_of()), r.steps_of() as nat),
    ensures
        s.state_of() == r.state_of(),
        s.consistent(),
{
}

/// The seed of a generator started from the clock: the nanoseconds since
/// the epoch, mixed with the process id rotated by 32 bits, modulo `2^32`.
/// Only the low 32 bits of the time remain.
pub fn time_seed(nanos: u64, pid: u32) -> (s: u64)
    ensures
        s == nanos % 0x1_0000_0000,
{
    let p = pid as u64;
    let mixed = nanos ^ rotate_left(p, 32);
    assert((nanos ^ ((p << 32u64) | (p >> 32u64))) % 0x1_0000_0000 == nanos % 0x1_0000_0000) by (bit_vector)
        requires
            p < 0x1_0000_0000,
    ;
    let m: u64 = 1u64 << 32;
    assert(m == 0x1_0000_0000) by (bit_vector)
        requires
            m == 1u64 << 32,
    ;
    assert(mixed == nanos ^ rotl(p, 32));
    mixed % m
}

} // verus!
