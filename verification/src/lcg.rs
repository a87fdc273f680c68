//! Linear congruential generators with a power-of-two modulus, and step
//! composition: `combine(k)` builds a generator whose single step equals `k`
//! steps of the original, where a negative `k` yields the inverse composition.

use vstd::prelude::*;

verus! {

use vstd::arithmetic::power2::{pow2, lemma2_to64, lemma2_to64_rest, lemma_pow2_adds};
use vstd::arithmetic::div_mod::{
    lemma_mod_multiples_vanish, lemma_mul_mod_noop_general, lemma_add_mod_noop,
    lemma_mod_twice, lemma_mod_division_less_than_divisor, lemma_mod_bound,
};
use vstd::arithmetic::mul::lemma_mul_is_commutative;

/// Multiplier of the Java LCG.
pub const JAVA_MULTIPLIER: i64 = 0x5DEECE66D;

/// Increment of the Java LCG.
pub const JAVA_INCREMENT: i64 = 0xB;

/// Modulus of the Java LCG, 2^48.
pub const JAVA_MODULUS: i64 = 0x1_0000_0000_0000;

/// An affine step `seed -> (multiplier * seed + increment) mod modulus`,
/// where the modulus is a power of two no greater than 2^61.
#[derive(Clone, Copy, Debug)]
pub struct LinearCongruentialGenerator {
    pub multiplier: i64,
    pub increment: i64,
    pub modulus: i64,

    pub is_pow_2: bool,
    pub trailing_zeros: i32,
}

/// The 64-bit pattern of `steps`, read as an unsigned step count.  A negative
/// `steps` stands for `2^64 + steps` forward steps, which by `combine`'s
/// round-trip law acts as `-steps` backward steps.
pub open spec fn step_bits(steps: i64) -> nat {
    (steps as u64) as nat
}

impl LinearCongruentialGenerator {
    /// Well-formedness: the modulus is 2^trailing_zeros with
    /// 0 <= trailing_zeros <= 61, and both coefficients are reduced.
    pub open spec fn wf(self) -> bool {
        &&& 0 <= self.trailing_zeros <= 61
        &&& self.modulus == pow2(self.trailing_zeros as nat)
        &&& 0 <= self.multiplier < self.modulus
        &&& 0 <= self.increment < self.modulus
        &&& self.is_pow_2
    }

    /// One step of the generator on an arbitrary (even out-of-range) seed.
    pub open spec fn spec_next(self, seed: int) -> int {
        (self.multiplier * seed + self.increment) % (self.modulus as int)
    }

    /// `n` steps of the generator.
    pub open spec fn spec_iter(self, seed: int, n: nat) -> int
        decreases n,
    {
        if n == 0 {
            seed
        } else {
            self.spec_next(self.spec_iter(seed, (n - 1) as nat))
        }
    }

    /// Multiplier of the `n`-step composition: multiplier^n mod modulus.
    pub open spec fn pow_mult(self, n: nat) -> int
        decreases n,
    {
        if n == 0 {
            1int % (self.modulus as int)
        } else {
            (self.multiplier * self.pow_mult((n - 1) as nat)) % (self.modulus as int)
        }
    }

    /// Increment of the `n`-step composition.
    pub open spec fn pow_inc(self, n: nat) -> int
        decreases n,
    {
        if n == 0 {
            0
        } else {
            (self.multiplier * self.pow_inc((n - 1) as nat) + self.increment) % (
            self.modulus as int)
        }
    }

    /// The `n`-step composition as one affine map.
    pub open spec fn spec_affine(self, n: nat, seed: int) -> int {
        (self.pow_mult(n) * seed + self.pow_inc(n)) % (self.modulus as int)
    }
}

impl LinearCongruentialGenerator {
    /// A well-formed generator's modulus lies between 1 and 2^61.
    pub proof fn lemma_modulus_bound(self)
        requires
            self.wf(),
        ensures
            1 <= self.modulus <= 0x2000_0000_0000_0000,
    {
        let e = self.trailing_zeros as nat;
        vstd::arithmetic::power2::lemma_pow2_pos(e);
        lemma2_to64_rest();
        if e < 61 {
            vstd::arithmetic::power2::lemma_pow2_strictly_increases(e, 61);
        }
    }

    /// Builds a generator from reduced coefficients and a power-of-two modulus.
    pub fn new(multiplier: i64, increment: i64, modulus: i64) -> (r: Self)
        requires
            1 <= modulus <= 0x2000_0000_0000_0000,
            modulus & ((modulus - 1) as i64) == 0,
            0 <= multiplier < modulus,
            0 <= increment < modulus,
        ensures
            r.wf(),
            r.multiplier == multiplier,
            r.increment == increment,
            r.modulus == modulus,
    {
        let mut x: i64 = modulus;
        let mut e: i32 = 0;
        proof {
            lemma2_to64();
            assert(modulus == x * pow2(0));
        }
        while x > 1
            invariant
                1 <= x <= modulus <= 0x2000_0000_0000_0000,
                x & ((x - 1) as i64) == 0,
                0 <= e <= 61,
                modulus == x * pow2(e as nat),
                x > 1 ==> e < 61,
            decreases x,
        {
            assert(x % 2 == 0 && (((x / 2) as i64) & ((x / 2 - 1) as i64)) == 0 && x / 2 >= 1) by (bit_vector)
                requires
                    x > 1 && x & ((x - 1) as i64) == 0,
            ;
            let x2 = x / 2;
            proof {
                lemma_pow2_adds(1, e as nat);
                lemma2_to64();
                assert(x2 * (2 * pow2(e as nat)) == (x2 * 2) * pow2(e as nat))
                    by (nonlinear_arith);
                assert(modulus == x2 * pow2((e + 1) as nat));
                if x2 > 1 {
                    // 4 * pow2(e + 1) <= x2 * pow2(e + 1) <= 2^61, so e + 1 < 61.
                    if e + 1 >= 61 {
                        lemma2_to64_rest();
                        if e + 1 > 61 {
                            vstd::arithmetic::power2::lemma_pow2_strictly_increases(
                                61,
                                (e + 1) as nat,
                            );
                        }
                        assert(x2 * pow2((e + 1) as nat) >= 2 * pow2(61)) by (nonlinear_arith)
                            requires
                                x2 >= 2 && pow2((e + 1) as nat) >= pow2(61),
                        ;
                        assert(false);
                    }
                }
            }
            x = x2;
            e = e + 1;
        }
        proof {
            assert(modulus == pow2(e as nat));
        }
        Self { multiplier, increment, modulus, is_pow_2: true, trailing_zeros: e }
    }

    /// Whether the modulus is a power of two; under `wf` this always holds.
    pub fn is_modulus_power_of_2(&self) -> (r: bool)
        ensures
            r == self.is_pow_2,
    {
        self.is_pow_2
    }

    pub fn get_modulus_trailing_zeros(&self) -> (r: i32)
        ensures
            r == self.trailing_zeros,
    {
        self.trailing_zeros
    }

    pub fn get_multiplier(&self) -> (r: i64)
        ensures
            r == self.multiplier,
    {
        self.multiplier
    }

    pub fn get_increment(&self) -> (r: i64)
        ensures
            r == self.increment,
    {
        self.increment
    }

    pub fn get_modulus(&self) -> (r: i64)
        ensures
            r == self.modulus,
    {
        self.modulus
    }

    pub fn is_multiplicative(&self) -> (r: bool)
        ensures
            r == (self.increment == 0),
    {
        self.increment == 0
    }

    /// Reduces any 64-bit value modulo the modulus (Euclidean: the result is
    /// in `[0, modulus)` even for negative input).
    pub fn _mod(&self, x: i64) -> (r: i64)
        requires
            self.wf(),
        ensures
            r == x % self.modulus,
            0 <= r < self.modulus,
    {
        let bits: u64 = #[verifier::truncate] (x as u64);
        let mask: u64 = (self.modulus - 1) as u64;
        let r: u64 = bits & mask;
        proof {
            let e = self.trailing_zeros as nat;
            lemma_i64_cast_u64(x);
            vstd::arithmetic::power2::lemma_pow2_pos(e);
            assert(mask == vstd::bits::low_bits_mask(e));
            vstd::bits::lemma_u64_low_bits_mask_is_mod(bits, e);
            // bits == x (mod 2^64), hence bits == x (mod modulus).
            lemma2_to64();
            assert((bits as int) % (pow2(64) as int) == (x as int) % (pow2(64) as int)) by {
                vstd::arithmetic::power2::lemma_pow2_pos(64);
                if x < 0 {
                    lemma_mod_multiples_vanish(1, x as int, pow2(64) as int);
                }
            }
            lemma_congruent_mod_pow2(bits as int, x as int, e);
            lemma_mod_division_less_than_divisor(x as int, self.modulus as int);
        }
        r as i64
    }

    /// One step: `(multiplier * seed + increment) mod modulus`, with the
    /// multiplication wrapping as 64-bit two's complement before reduction.
    pub fn next_seed(&self, seed: i64) -> (r: i64)
        requires
            self.wf(),
        ensures
            r == self.spec_next(seed as int),
            0 <= r < self.modulus,
    {
        let bits: u64 = #[verifier::truncate] (seed as u64);
        proof {
            self.lemma_modulus_bound();
            vstd::arithmetic::mul::lemma_mul_upper_bound(
                bits as int,
                u64::MAX as int,
                self.multiplier as int,
                0x2000_0000_0000_0000,
            );
        }
        let prod: u128 = (bits as u128) * (self.multiplier as u128) + (self.increment as u128);
        let r: u128 = prod % (self.modulus as u128);
        proof {
            let e = self.trailing_zeros as nat;
            let m = self.modulus as int;
            lemma_i64_cast_u64(seed);
            vstd::arithmetic::power2::lemma_pow2_pos(e);
            lemma2_to64();
            // bits == seed (mod 2^64), hence the products agree mod modulus.
            assert((bits as int) % (pow2(64) as int) == (seed as int) % (pow2(64) as int)) by {
                vstd::arithmetic::power2::lemma_pow2_pos(64);
                if seed < 0 {
                    lemma_mod_multiples_vanish(1, seed as int, pow2(64) as int);
                }
            }
            lemma_congruent_mod_pow2(bits as int, seed as int, e);
            lemma_mul_mod_noop_general(bits as int, self.multiplier as int, m);
            lemma_mul_mod_noop_general(seed as int, self.multiplier as int, m);
            lemma_add_mod_noop(bits * self.multiplier, self.increment as int, m);
            lemma_add_mod_noop(seed * self.multiplier, self.increment as int, m);
            lemma_mod_twice(bits * self.multiplier, m);
            lemma_mod_twice(seed * self.multiplier, m);
            lemma_mul_is_commutative(bits as int, self.multiplier as int);
            lemma_mul_is_commutative(seed as int, self.multiplier as int);
            lemma_mod_division_less_than_divisor(
                self.multiplier * seed + self.increment,
                m,
            );
        }
        r as i64
    }
}

/// Truncating an `i64` to a `u64` keeps the value when it is non-negative and
/// adds 2^64 when it is negative.
pub proof fn lemma_i64_cast_u64(x: i64)
    ensures
        x >= 0 ==> (x as u64) == x,
        x < 0 ==> (x as u64) == x + 0x1_0000_0000_0000_0000,
{
    assert(x >= 0 ==> (x as u64) == x) by (bit_vector);
    assert(x < 0 ==> (x as u64) == x + 0x1_0000_0000_0000_0000) by (bit_vector);
}

/// Two integers congruent modulo 2^64 are congruent modulo any power of two
/// that divides 2^64.
pub proof fn lemma_congruent_mod_pow2(x: int, y: int, e: nat)
    requires
        e <= 64,
        x % (pow2(64) as int) == y % (pow2(64) as int),
    ensures
        x % (pow2(e) as int) == y % (pow2(e) as int),
{
    let m = pow2(e) as int;
    let q = pow2((64 - e) as nat) as int;
    lemma_pow2_adds(e, (64 - e) as nat);
    vstd::arithmetic::power2::lemma_pow2_pos(e);
    vstd::arithmetic::power2::lemma_pow2_pos((64 - e) as nat);
    // x and y differ by a multiple of 2^64 == m * q, hence by a multiple of m.
    let big = pow2(64) as int;
    vstd::arithmetic::power2::lemma_pow2_pos(64);
    vstd::arithmetic::div_mod::lemma_fundamental_div_mod(x, big);
    vstd::arithmetic::div_mod::lemma_fundamental_div_mod(y, big);
    let kx = x / big;
    let ky = y / big;
    assert(x - y == big * (kx - ky)) by {
        assert(x == big * kx + x % big);
        assert(y == big * ky + y % big);
        assert(big * kx - big * ky == big * (kx - ky)) by (nonlinear_arith);
    }
    assert(big * (kx - ky) == m * (q * (kx - ky))) by (nonlinear_arith)
        requires
            big == m * q,
    ;
    lemma_mod_multiples_vanish(q * (kx - ky), y, m);
    assert(x == m * (q * (kx - ky)) + y);
}

/// An `i64` is congruent to its `u64` bit pattern modulo any power of two
/// dividing 2^64.
pub proof fn lemma_i64_bits_congruent(x: i64, e: nat)
    requires
        e <= 64,
    ensures
        ((x as u64) as int) % (pow2(e) as int) == (x as int) % (pow2(e) as int),
{
    lemma_i64_cast_u64(x);
    lemma2_to64();
    vstd::arithmetic::power2::lemma_pow2_pos(64);
    if x < 0 {
        lemma_mod_multiples_vanish(1, x as int, pow2(64) as int);
    }
    lemma_congruent_mod_pow2((x as u64) as int, x as int, e);
}

/// A wrapping 64-bit product is congruent to the exact product modulo any
/// power of two dividing 2^64.
pub proof fn lemma_wrap_mul_congruent(x: i64, y: i64, e: nat)
    requires
        e <= 64,
    ensures
        ((x.wrapping_mul(y)) as int) % (pow2(e) as int) == (x * y) % (pow2(e) as int),
{
    let z = x * y;
    let big = pow2(64) as int;
    lemma2_to64();
    vstd::arithmetic::power2::lemma_pow2_pos(64);
    let w = vstd::wrapping::i64_specs::signed_crop(z) as int;
    lemma_mod_twice(z, big);
    if w == z % big - big {
        vstd::arithmetic::div_mod::lemma_mod_sub_multiples_vanish(z % big, big);
    }
    assert(w % big == z % big);
    lemma_congruent_mod_pow2(w, z, e);
}

/// A wrapping 64-bit sum is congruent to the exact sum modulo any power of
/// two dividing 2^64.
pub proof fn lemma_wrap_add_congruent(x: i64, y: i64, e: nat)
    requires
        e <= 64,
    ensures
        ((x.wrapping_add(y)) as int) % (pow2(e) as int) == (x + y) % (pow2(e) as int),
{
    let z = x + y;
    let big = pow2(64) as int;
    lemma2_to64();
    vstd::arithmetic::power2::lemma_pow2_pos(64);
    let w = x.wrapping_add(y) as int;
    if w == z - big {
        vstd::arithmetic::div_mod::lemma_mod_sub_multiples_vanish(z, big);
    }
    if w == z + big {
        vstd::arithmetic::div_mod::lemma_mod_add_multiples_vanish(z, big);
    }
    assert(w % big == z % big);
    lemma_congruent_mod_pow2(w, z, e);
}

/// Sums of congruent terms are congruent.
pub proof fn lemma_mod_add2(a: int, b: int, x: int, y: int, m: int)
    requires
        m > 0,
        a % m == x % m,
        b % m == y % m,
    ensures
        (a + b) % m == (x + y) % m,
{
    lemma_add_mod_noop(a, b, m);
    lemma_add_mod_noop(x, y, m);
}

/// Differences of congruent terms are congruent.
pub proof fn lemma_mod_sub2(a: int, b: int, x: int, y: int, m: int)
    requires
        m > 0,
        a % m == x % m,
        b % m == y % m,
    ensures
        (a - b) % m == (x - y) % m,
{
    vstd::arithmetic::div_mod::lemma_sub_mod_noop(a, b, m);
    vstd::arithmetic::div_mod::lemma_sub_mod_noop(x, y, m);
}

/// Products of congruent factors are congruent.
pub proof fn lemma_mod_mul2(a: int, b: int, x: int, y: int, m: int)
    requires
        m > 0,
        a % m == x % m,
        b % m == y % m,
    ensures
        (a * b) % m == (x * y) % m,
{
    lemma_mul_mod_noop_general(a, b, m);
    lemma_mul_mod_noop_general(x, y, m);
}

impl LinearCongruentialGenerator {
    /// The composed coefficients are already reduced modulo the modulus.
    pub proof fn lemma_pow_reduced(self, n: nat)
        requires
            self.wf(),
        ensures
            0 <= self.pow_mult(n) < self.modulus,
            0 <= self.pow_inc(n) < self.modulus,
            self.pow_mult(n) % (self.modulus as int) == self.pow_mult(n),
            self.pow_inc(n) % (self.modulus as int) == self.pow_inc(n),
    {
        self.lemma_pow_bounds(n);
        vstd::arithmetic::div_mod::lemma_small_mod(
            self.pow_mult(n) as nat,
            self.modulus as nat,
        );
        vstd::arithmetic::div_mod::lemma_small_mod(
            self.pow_inc(n) as nat,
            self.modulus as nat,
        );
    }

    /// The composed multiplier and increment stay inside `[0, modulus)`.
    pub proof fn lemma_pow_bounds(self, n: nat)
        requires
            self.wf(),
        ensures
            0 <= self.pow_mult(n) < self.modulus,
            0 <= self.pow_inc(n) < self.modulus,
        decreases n,
    {
        let m = self.modulus as int;
        vstd::arithmetic::power2::lemma_pow2_pos(self.trailing_zeros as nat);
        if n == 0 {
            lemma_mod_division_less_than_divisor(1int, m);
            vstd::arithmetic::div_mod::lemma_mod_bound(1int, m);
        } else {
            self.lemma_pow_bounds((n - 1) as nat);
            vstd::arithmetic::div_mod::lemma_mod_bound(
                self.multiplier * self.pow_mult((n - 1) as nat),
                m,
            );
            vstd::arithmetic::div_mod::lemma_mod_bound(
                self.multiplier * self.pow_inc((n - 1) as nat) + self.increment,
                m,
            );
        }
    }

    /// Composition law: running `b` steps and then `a` steps equals running
    /// `a + b` steps, at the level of the composed coefficients.
    pub proof fn lemma_pow_compose(self, a: nat, b: nat)
        requires
            self.wf(),
        ensures
            self.pow_mult(a + b) == (self.pow_mult(a) * self.pow_mult(b)) % (self.modulus as int),
            self.pow_inc(a + b) == (self.pow_mult(a) * self.pow_inc(b) + self.pow_inc(a)) % (
            self.modulus as int),
        decreases a,
    {
        let m = self.modulus as int;
        let mul = self.multiplier as int;
        vstd::arithmetic::power2::lemma_pow2_pos(self.trailing_zeros as nat);
        self.lemma_pow_bounds(b);
        if a == 0 {
            // pow_mult(0) == 1 % m; for m == 1 every quantity is 0.
            lemma_mul_mod_noop_general(1int, self.pow_mult(b), m);
            lemma_mod_twice(self.pow_mult(b), m);
            vstd::arithmetic::div_mod::lemma_small_mod(self.pow_mult(b) as nat, m as nat);
            lemma_mul_mod_noop_general(1int, self.pow_inc(b), m);
            vstd::arithmetic::div_mod::lemma_small_mod(self.pow_inc(b) as nat, m as nat);
        } else {
            let a1 = (a - 1) as nat;
            self.lemma_pow_compose(a1, b);
            let pma1 = self.pow_mult(a1);
            let pia1 = self.pow_inc(a1);
            let pmb = self.pow_mult(b);
            let pib = self.pow_inc(b);
            // Multiplier part.
            assert(self.pow_mult(a + b) == (mul * ((pma1 * pmb) % m)) % m);
            lemma_mul_mod_noop_general(mul, pma1 * pmb, m);
            assert((mul * ((pma1 * pmb) % m)) % m == (mul * (pma1 * pmb)) % m);
            assert(mul * (pma1 * pmb) == (mul * pma1) * pmb) by (nonlinear_arith);
            lemma_mul_mod_noop_general(mul * pma1, pmb, m);
            assert(((mul * pma1) % m * pmb) % m == ((mul * pma1) * pmb) % m);
            assert(self.pow_mult(a) == (mul * pma1) % m);
            // Increment part.
            assert(self.pow_inc(a + b) == (mul * ((pma1 * pib + pia1) % m) + self.increment) % m);
            assert((mul * ((pma1 * pib + pia1) % m) + self.increment) % m == (mul * (pma1 * pib
                + pia1) + self.increment) % m) by {
                lemma_mul_mod_noop_general(mul, pma1 * pib + pia1, m);
                vstd::arithmetic::div_mod::lemma_add_mod_noop_right(
                    self.increment as int,
                    mul * ((pma1 * pib + pia1) % m),
                    m,
                );
                vstd::arithmetic::div_mod::lemma_add_mod_noop_right(
                    self.increment as int,
                    mul * (pma1 * pib + pia1),
                    m,
                );
            }
            assert(mul * (pma1 * pib + pia1) + self.increment == (mul * pma1) * pib + (mul * pia1
                + self.increment)) by (nonlinear_arith);
            // Reduce both inner factors of the target expression.
            let t = (mul * pma1) * pib + (mul * pia1 + self.increment);
            assert((self.pow_mult(a) * pib + self.pow_inc(a)) % m == t % m) by {
                assert(self.pow_mult(a) == (mul * pma1) % m);
                assert(self.pow_inc(a) == (mul * pia1 + self.increment) % m);
                lemma_mul_mod_noop_general(mul * pma1, pib, m);
                vstd::arithmetic::div_mod::lemma_add_mod_noop(
                    ((mul * pma1) % m) * pib,
                    (mul * pia1 + self.increment) % m,
                    m,
                );
                vstd::arithmetic::div_mod::lemma_add_mod_noop(
                    (mul * pma1) * pib,
                    mul * pia1 + self.increment,
                    m,
                );
                lemma_mod_twice((mul * pia1 + self.increment), m);
                lemma_mod_twice(((mul * pma1) % m) * pib, m);
                lemma_mod_twice((mul * pma1) * pib, m);
            }
        }
    }

    /// The composed affine map agrees with iterating single steps, for seeds
    /// already reduced modulo the modulus.
    pub proof fn lemma_affine_is_iter(self, seed: int, n: nat)
        requires
            self.wf(),
            0 <= seed < self.modulus,
        ensures
            self.spec_affine(n, seed) == self.spec_iter(seed, n),
            0 <= self.spec_iter(seed, n) < self.modulus,
        decreases n,
    {
        let m = self.modulus as int;
        let mul = self.multiplier as int;
        vstd::arithmetic::power2::lemma_pow2_pos(self.trailing_zeros as nat);
        self.lemma_pow_bounds(n);
        if n == 0 {
            vstd::arithmetic::div_mod::lemma_small_mod(seed as nat, m as nat);
            lemma_mul_mod_noop_general(1int, seed, m);
            lemma_mod_twice(seed, m);
            assert((1int % m) * seed == (1int % m) * seed);
            if m == 1 {
                assert(self.spec_affine(0, seed) == 0int % m);
            } else {
                vstd::arithmetic::div_mod::lemma_small_mod(1nat, m as nat);
            }
        } else {
            let n1 = (n - 1) as nat;
            self.lemma_affine_is_iter(seed, n1);
            let prev = self.spec_iter(seed, n1);
            // spec_iter(seed, n) == (mul * prev + inc) % m where prev == affine(n1, seed).
            assert(self.spec_iter(seed, n) == (mul * prev + self.increment) % m);
            vstd::arithmetic::div_mod::lemma_mod_bound(mul * prev + self.increment, m);
            let pm1 = self.pow_mult(n1);
            let pi1 = self.pow_inc(n1);
            assert(prev == (pm1 * seed + pi1) % m);
            assert((mul * ((pm1 * seed + pi1) % m) + self.increment) % m == (mul * (pm1 * seed
                + pi1) + self.increment) % m) by {
                lemma_mul_mod_noop_general(mul, pm1 * seed + pi1, m);
                vstd::arithmetic::div_mod::lemma_add_mod_noop_right(
                    self.increment as int,
                    mul * ((pm1 * seed + pi1) % m),
                    m,
                );
                vstd::arithmetic::div_mod::lemma_add_mod_noop_right(
                    self.increment as int,
                    mul * (pm1 * seed + pi1),
                    m,
                );
            }
            assert(mul * (pm1 * seed + pi1) + self.increment == (mul * pm1) * seed + (mul * pi1
                + self.increment)) by (nonlinear_arith);
            assert((self.pow_mult(n) * seed + self.pow_inc(n)) % m == ((mul * pm1) * seed + (mul
                * pi1 + self.increment)) % m) by {
                lemma_mul_mod_noop_general(mul * pm1, seed, m);
                vstd::arithmetic::div_mod::lemma_add_mod_noop(
                    ((mul * pm1) % m) * seed,
                    (mul * pi1 + self.increment) % m,
                    m,
                );
                vstd::arithmetic::div_mod::lemma_add_mod_noop(
                    (mul * pm1) * seed,
                    mul * pi1 + self.increment,
                    m,
                );
                lemma_mod_twice(mul * pi1 + self.increment, m);
                lemma_mod_twice(((mul * pm1) % m) * seed, m);
                lemma_mod_twice((mul * pm1) * seed, m);
            }
        }
    }

    /// Iterating `a + b` steps is iterating `b` steps, then `a` more.
    pub proof fn lemma_iter_adds(self, seed: int, a: nat, b: nat)
        ensures
            self.spec_iter(seed, a + b) == self.spec_iter(self.spec_iter(seed, b), a),
        decreases a,
    {
        if a > 0 {
            self.lemma_iter_adds(seed, (a - 1) as nat, b);
        }
    }

    /// One step composed with nothing: `pow_mult(1)` and `pow_inc(1)` are the
    /// generator's own reduced coefficients.
    pub proof fn lemma_pow_one(self)
        requires
            self.wf(),
        ensures
            self.pow_mult(1) == self.multiplier,
            self.pow_inc(1) == self.increment,
    {
        let m = self.modulus as int;
        vstd::arithmetic::power2::lemma_pow2_pos(self.trailing_zeros as nat);
        if m == 1 {
            assert(self.multiplier == 0 && self.increment == 0);
            assert(self.pow_mult(1) == (self.multiplier * (1int % 1)) % 1);
            vstd::arithmetic::div_mod::lemma_mod_bound(self.multiplier * (1int % 1), 1);
            vstd::arithmetic::div_mod::lemma_mod_bound(
                self.multiplier * self.pow_inc(0) + self.increment,
                1,
            );
        } else {
            vstd::arithmetic::div_mod::lemma_small_mod(1nat, m as nat);
            assert(self.pow_mult(0) == 1int % m);
            assert(self.pow_inc(0) == 0);
            assert(self.pow_mult(1) == (self.multiplier * (1int % m)) % m);
            assert(self.multiplier * 1 == self.multiplier);
            vstd::arithmetic::div_mod::lemma_small_mod(self.multiplier as nat, m as nat);
            assert(self.pow_inc(1) == (self.multiplier * 0int + self.increment) % m);
            assert(self.multiplier * 0int == 0);
            vstd::arithmetic::div_mod::lemma_small_mod(self.increment as nat, m as nat);
        }
    }

    /// Builds the generator whose one step equals `steps` steps of `self`;
    /// the bit pattern of a negative `steps` acts as the inverse composition.
    pub fn combine(&self, steps: i64) -> (r: Self)
        requires
            self.wf(),
        ensures
            r.wf(),
            r.modulus == self.modulus,
            r.trailing_zeros == self.trailing_zeros,
            r.multiplier == self.pow_mult(step_bits(steps)),
            r.increment == self.pow_inc(step_bits(steps)),
    {
        let ghost m: int = self.modulus as int;
        let ghost n0: nat = step_bits(steps);

        let mut multiplier: i64 = 1;
        let mut increment: i64 = 0;

        let mut intermediate_multiplier = self.multiplier;
        let mut intermediate_increment = self.increment;

        let mut k: u64 = #[verifier::truncate] (steps as u64);
        let ghost mut round: nat = 0;

        proof {
            vstd::arithmetic::power2::lemma_pow2_pos(self.trailing_zeros as nat);
            lemma2_to64();
            vstd::arithmetic::div_mod::lemma_small_mod(0nat, m as nat);
            self.lemma_pow_one();
            self.lemma_pow_bounds(1);
            vstd::arithmetic::div_mod::lemma_small_mod((k as nat) % 1, 1);
            assert((k as nat) / pow2(0) == k as nat)
                by (nonlinear_arith)
                requires
                    pow2(0) == 1,
            ;
            assert((n0 as int) % (pow2(0) as int) == 0) by {
                assert(pow2(0) == 1);
                vstd::arithmetic::div_mod::lemma_mod_bound(n0 as int, 1int);
            }
            if self.modulus == 1 {
                vstd::arithmetic::div_mod::lemma_mod_bound(1int, 1int);
            } else {
                vstd::arithmetic::div_mod::lemma_small_mod(1nat, m as nat);
            }
            vstd::arithmetic::div_mod::lemma_small_mod(self.multiplier as nat, m as nat);
            vstd::arithmetic::div_mod::lemma_small_mod(self.increment as nat, m as nat);
        }

        while k != 0
            invariant
                self.wf(),
                m == self.modulus as int,
                n0 == step_bits(steps),
                k as nat == n0 / pow2(round),
                (multiplier as int) % m == self.pow_mult(n0 % pow2(round)),
                (increment as int) % m == self.pow_inc(n0 % pow2(round)),
                (intermediate_multiplier as int) % m == self.pow_mult(pow2(round)),
                (intermediate_increment as int) % m == self.pow_inc(pow2(round)),
            decreases k,
        {
            let ghost e = self.trailing_zeros as nat;
            let ghost processed = n0 % pow2(round);
            let ghost p2r = pow2(round);
            proof {
                vstd::arithmetic::power2::lemma_pow2_pos(round);
                vstd::arithmetic::power2::lemma_pow2_pos(round + 1);
                vstd::arithmetic::power2::lemma_pow2_adds(round, 1);
                lemma2_to64();
            }

            if k & 1 != 0 {
                proof {
                    assert(k % 2 == 1) by (bit_vector)
                        requires
                            k & 1 != 0,
                    ;
                }
                let new_multiplier = multiplier.wrapping_mul(intermediate_multiplier);
                let new_increment = intermediate_multiplier.wrapping_mul(increment).wrapping_add(
                    intermediate_increment,
                );
                proof {
                    // new_multiplier == pow_mult(2^round + processed) mod m.
                    lemma_wrap_mul_congruent(multiplier, intermediate_multiplier, e);
                    lemma_mul_mod_noop_general(multiplier as int, intermediate_multiplier as int, m);
                    self.lemma_pow_compose(p2r, processed);
                    lemma_mod_twice(self.pow_mult(p2r) * self.pow_mult(processed), m);
                    lemma_mul_is_commutative(multiplier as int, intermediate_multiplier as int);
                    assert((new_multiplier as int) % m == self.pow_mult(p2r + processed));
                    // new_increment == pow_inc(2^round + processed) mod m.
                    lemma_wrap_mul_congruent(intermediate_multiplier, increment, e);
                    lemma_wrap_add_congruent(
                        intermediate_multiplier.wrapping_mul(increment),
                        intermediate_increment,
                        e,
                    );
                    self.lemma_pow_reduced(p2r);
                    self.lemma_pow_reduced(processed);
                    self.lemma_pow_reduced(p2r + processed);
                    lemma_mod_mul2(
                        intermediate_multiplier as int,
                        increment as int,
                        self.pow_mult(p2r),
                        self.pow_inc(processed),
                        m,
                    );
                    lemma_mod_add2(
                        (intermediate_multiplier.wrapping_mul(increment)) as int,
                        intermediate_increment as int,
                        self.pow_mult(p2r) * self.pow_inc(processed),
                        self.pow_inc(p2r),
                        m,
                    );
                    lemma_mod_twice(
                        self.pow_mult(p2r) * self.pow_inc(processed) + self.pow_inc(p2r),
                        m,
                    );
                    assert((new_increment as int) % m == self.pow_inc(p2r + processed));
                }
                multiplier = new_multiplier;
                increment = new_increment;
            } else {
                proof {
                    assert(k % 2 == 0) by (bit_vector)
                        requires
                            k & 1 == 0,
                    ;
                }
            }

            let new_ii = intermediate_multiplier.wrapping_add(1).wrapping_mul(
                intermediate_increment,
            );
            let new_im = intermediate_multiplier.wrapping_mul(intermediate_multiplier);
            proof {
                // The squared pair is the pair at 2^(round+1).
                self.lemma_pow_compose(p2r, p2r);
                lemma_wrap_mul_congruent(intermediate_multiplier, intermediate_multiplier, e);
                lemma_mul_mod_noop_general(
                    intermediate_multiplier as int,
                    intermediate_multiplier as int,
                    m,
                );
                lemma_mod_twice(self.pow_mult(p2r) * self.pow_mult(p2r), m);
                assert((new_im as int) % m == self.pow_mult(p2r + p2r));

                lemma_wrap_add_congruent(intermediate_multiplier, 1, e);
                lemma_wrap_mul_congruent(
                    intermediate_multiplier.wrapping_add(1),
                    intermediate_increment,
                    e,
                );
                self.lemma_pow_reduced(p2r);
                self.lemma_pow_reduced(p2r + p2r);
                lemma_mod_mul2(
                    (intermediate_multiplier.wrapping_add(1)) as int,
                    intermediate_increment as int,
                    intermediate_multiplier + 1,
                    intermediate_increment as int,
                    m,
                );
                assert((intermediate_multiplier + 1) * intermediate_increment
                    == intermediate_multiplier * intermediate_increment
                    + intermediate_increment) by (nonlinear_arith);
                lemma_mod_mul2(
                    intermediate_multiplier as int,
                    intermediate_increment as int,
                    self.pow_mult(p2r),
                    self.pow_inc(p2r),
                    m,
                );
                lemma_mod_add2(
                    intermediate_multiplier * intermediate_increment,
                    intermediate_increment as int,
                    self.pow_mult(p2r) * self.pow_inc(p2r),
                    self.pow_inc(p2r),
                    m,
                );
                lemma_mod_twice(self.pow_mult(p2r) * self.pow_inc(p2r) + self.pow_inc(p2r), m);
                assert((new_ii as int) % m == self.pow_inc(p2r + p2r));
                assert(p2r + p2r == pow2(round + 1));
            }
            intermediate_increment = new_ii;
            intermediate_multiplier = new_im;

            let k_next = k >> 1u64;
            proof {
                vstd::bits::lemma_u64_shr_is_div(k, 1);
                assert(pow2(1) == 2);
                // n0 / 2^(round+1) == (n0 / 2^round) / 2.
                vstd::arithmetic::div_mod::lemma_div_denominator(n0 as int, p2r as int, 2);
                // n0 % 2^(round+1) splits into the processed part and bit `round`.
                vstd::arithmetic::div_mod::lemma_breakdown(n0 as int, p2r as int, 2);
                assert((k as int) % 2 == ((n0 as int) / (p2r as int)) % 2);
                if k % 2 == 1 {
                    assert(n0 % pow2(round + 1) == p2r + processed);
                } else {
                    assert(n0 % pow2(round + 1) == processed);
                }
            }
            k = k_next;
            proof {
                round = round + 1;
            }
        }

        proof {
            // k == 0 means every bit was consumed: n0 % 2^round == n0.
            assert(n0 < pow2(round)) by {
                vstd::arithmetic::power2::lemma_pow2_pos(round);
                if n0 >= pow2(round) {
                    vstd::arithmetic::div_mod::lemma_div_non_zero(n0 as int, pow2(round) as int);
                }
            }
            vstd::arithmetic::div_mod::lemma_small_mod(n0, pow2(round));
        }

        let final_multiplier = self._mod(multiplier);
        let final_increment = self._mod(increment);
        proof {
            self.lemma_pow_bounds(n0);
            lemma_mod_twice(multiplier as int, m);
            lemma_mod_twice(increment as int, m);
            vstd::arithmetic::div_mod::lemma_small_mod(self.pow_mult(n0) as nat, m as nat);
            vstd::arithmetic::div_mod::lemma_small_mod(self.pow_inc(n0) as nat, m as nat);
        }
        Self {
            multiplier: final_multiplier,
            increment: final_increment,
            modulus: self.modulus,
            is_pow_2: self.is_pow_2,
            trailing_zeros: self.trailing_zeros,
        }
    }

    /// Composes two generators over the same modulus: one step of the result
    /// equals a step of `self` followed by a step of `other`.
    pub fn combine_with(&self, other: &LinearCongruentialGenerator) -> (r: Option<Self>)
        requires
            self.wf(),
            other.wf(),
        ensures
            r is Some <==> self.modulus == other.modulus,
            r is Some ==> {
                let c = r->Some_0;
                &&& c.wf()
                &&& c.modulus == self.modulus
                &&& c.multiplier == (self.multiplier * other.multiplier) % (self.modulus as int)
                &&& c.increment == (other.multiplier * self.increment + other.increment) % (
                self.modulus as int)
                &&& forall|x: int|
                    #[trigger] c.spec_next(x) == other.spec_next(self.spec_next(x))
            },
    {
        if self.modulus != other.modulus {
            None
        } else {
            let ghost m = self.modulus as int;
            let ghost e = self.trailing_zeros as nat;
            let mult = self._mod(self.multiplier.wrapping_mul(other.multiplier));
            let inc = self._mod(
                other.multiplier.wrapping_mul(self.increment).wrapping_add(other.increment),
            );
            proof {
                vstd::arithmetic::power2::lemma_pow2_pos(e);
                lemma_wrap_mul_congruent(self.multiplier, other.multiplier, e);
                lemma_mod_twice(self.multiplier * other.multiplier, m);
                lemma_wrap_mul_congruent(other.multiplier, self.increment, e);
                lemma_wrap_add_congruent(
                    other.multiplier.wrapping_mul(self.increment),
                    other.increment,
                    e,
                );
                lemma_mul_mod_noop_general(other.multiplier as int, self.increment as int, m);
                vstd::arithmetic::div_mod::lemma_add_mod_noop(
                    (other.multiplier.wrapping_mul(self.increment)) as int,
                    other.increment as int,
                    m,
                );
                vstd::arithmetic::div_mod::lemma_add_mod_noop(
                    other.multiplier * self.increment,
                    other.increment as int,
                    m,
                );
                lemma_mod_twice(other.multiplier * self.increment + other.increment, m);
                let cm = (self.multiplier * other.multiplier) % m;
                let ci = (other.multiplier * self.increment + other.increment) % m;
                assert forall|x: int| (cm * x + ci) % m == other.spec_next(
                    self.spec_next(x),
                ) by {
                    // Expand both sides to M2*M1*x + M2*A1 + A2 modulo m.
                    let inner = (self.multiplier * x + self.increment) % m;
                    lemma_mod_twice(self.multiplier * x + self.increment, m);
                    lemma_mod_mul2(
                        other.multiplier as int,
                        inner,
                        other.multiplier as int,
                        self.multiplier * x + self.increment,
                        m,
                    );
                    lemma_mod_add2(
                        other.multiplier * inner,
                        other.increment as int,
                        other.multiplier * (self.multiplier * x + self.increment),
                        other.increment as int,
                        m,
                    );
                    assert(other.multiplier * (self.multiplier * x + self.increment)
                        + other.increment == (other.multiplier * self.multiplier) * x + (
                    other.multiplier * self.increment + other.increment)) by (nonlinear_arith);
                    lemma_mod_mul2(
                        cm,
                        x,
                        other.multiplier * self.multiplier,
                        x,
                        m,
                    );
                    lemma_mod_twice(other.multiplier * self.multiplier, m);
                    lemma_mul_is_commutative(self.multiplier as int, other.multiplier as int);
                    lemma_mod_add2(
                        cm * x,
                        ci,
                        (other.multiplier * self.multiplier) * x,
                        other.multiplier * self.increment + other.increment,
                        m,
                    );
                    lemma_mod_twice(other.multiplier * self.increment + other.increment, m);
                    lemma_mod_twice(cm * x, m);
                    lemma_mod_twice((other.multiplier * self.multiplier) * x, m);
                }
            }
            Some(
                Self {
                    multiplier: mult,
                    increment: inc,
                    modulus: self.modulus,
                    is_pow_2: self.is_pow_2,
                    trailing_zeros: self.trailing_zeros,
                },
            )
        }
    }

    /// The Java LCG as a spec-level value.
    pub open spec fn spec_java_random() -> Self {
        LinearCongruentialGenerator {
            multiplier: JAVA_MULTIPLIER,
            increment: JAVA_INCREMENT,
            modulus: JAVA_MODULUS,
            is_pow_2: true,
            trailing_zeros: 48,
        }
    }

    /// The Java LCG is well formed.
    pub proof fn lemma_java_random_wf()
        ensures
            Self::spec_java_random().wf(),
    {
        lemma2_to64_rest();
    }

    /// The Java LCG: multiplier 0x5DEECE66D, increment 0xB, modulus 2^48.
    pub fn java_random() -> (r: Self)
        ensures
            r == Self::spec_java_random(),
            r.wf(),
    {
        proof {
            Self::lemma_java_random_wf();
        }
        LinearCongruentialGenerator {
            multiplier: JAVA_MULTIPLIER,
            increment: JAVA_INCREMENT,
            modulus: JAVA_MODULUS,
            is_pow_2: true,
            trailing_zeros: 48,
        }
    }

    /// The single-step inverse of the Java LCG, `java_random().combine(-1)`.
    pub fn java_random_rev1() -> (r: Self)
        ensures
            r.wf(),
            r.modulus == JAVA_MODULUS,
            r.multiplier == Self::spec_java_random().pow_mult(step_bits(-1i64)),
            r.increment == Self::spec_java_random().pow_inc(step_bits(-1i64)),
    {
        Self::java_random().combine(-1)
    }

    /// The two-step inverse of the Java LCG, `java_random().combine(-2)`.
    pub fn java_random_rev2() -> (r: Self)
        ensures
            r.wf(),
            r.modulus == JAVA_MODULUS,
            r.multiplier == Self::spec_java_random().pow_mult(step_bits(-2i64)),
            r.increment == Self::spec_java_random().pow_inc(step_bits(-2i64)),
    {
        Self::java_random().combine(-2)
    }

    /// The single-step inverse: `combine(-1)`.
    pub fn invert(&self) -> (r: Self)
        requires
            self.wf(),
        ensures
            r.wf(),
            r.modulus == self.modulus,
            r.multiplier == self.pow_mult(step_bits(-1i64)),
            r.increment == self.pow_inc(step_bits(-1i64)),
    {
        self.combine(-1)
    }
}

/// The composed coefficients of the Java LCG at step count 2^e, computed by
/// repeated squaring; used to evaluate the 2^64-step composition concretely.
pub open spec fn java_pow2_pair(e: nat) -> (int, int)
    decreases e,
{
    if e == 0 {
        (JAVA_MULTIPLIER as int, JAVA_INCREMENT as int)
    } else {
        let (m, c) = java_pow2_pair((e - 1) as nat);
        ((m * m) % (JAVA_MODULUS as int), ((m + 1) * c) % (JAVA_MODULUS as int))
    }
}

/// The squared pair at 2^e is the composed pair of 2^e steps.
pub proof fn lemma_java_pow2_pair(e: nat)
    ensures
        java_pow2_pair(e).0 == LinearCongruentialGenerator::spec_java_random().pow_mult(pow2(e)),
        java_pow2_pair(e).1 == LinearCongruentialGenerator::spec_java_random().pow_inc(pow2(e)),
    decreases e,
{
    let g = LinearCongruentialGenerator::spec_java_random();
    let m = JAVA_MODULUS as int;
    LinearCongruentialGenerator::lemma_java_random_wf();
    if e == 0 {
        lemma2_to64();
        g.lemma_pow_one();
    } else {
        let e1 = (e - 1) as nat;
        lemma_java_pow2_pair(e1);
        let p = pow2(e1);
        let (pm, pc) = java_pow2_pair(e1);
        g.lemma_pow_compose(p, p);
        vstd::arithmetic::power2::lemma_pow2_adds(e1, 1);
        lemma2_to64();
        assert(p + p == pow2(e));
        // ((pm + 1) * pc) % m == (pm * pc + pc) % m.
        assert((pm + 1) * pc == pm * pc + pc) by (nonlinear_arith);
    }
}

proof fn lemma_java_pair_chain_0()
    ensures
        java_pow2_pair(4) == (0x6DC260740241int, 0xD0352014D90int),
{
    assert(java_pow2_pair(0) == (0x5DEECE66Dint, 0xBint));
    assert(java_pow2_pair(1) == (0xBB20B4600A69int, 0x40942DE6BAint));
    assert(java_pow2_pair(2) == (0x32EB772C5F11int, 0x2D3873C4CD04int));
    assert(java_pow2_pair(3) == (0x75489F259F21int, 0x7CBA449AE648int));
    assert(java_pow2_pair(4) == (0x6DC260740241int, 0xD0352014D90int));
}

proof fn lemma_java_pair_chain_1()
    ensures
        java_pow2_pair(8) == (0x4FA0405FA401int, 0xA7A83E92B900int),
{
    lemma_java_pair_chain_0();
    assert(java_pow2_pair(5) == (0xFAC6CAED1481int, 0x1E4C4C311F20int));
    assert(java_pow2_pair(6) == (0xAB768C7E6901int, 0xF77B98004E40int));
    assert(java_pow2_pair(7) == (0xA430A00DD201int, 0x6CC0D398DC80int));
    assert(java_pow2_pair(8) == (0x4FA0405FA401int, 0xA7A83E92B900int));
}

proof fn lemma_java_pair_chain_2()
    ensures
        java_pow2_pair(12) == (0x27E7857A4001int, 0x698C7F0B9000int),
{
    lemma_java_pair_chain_1();
    assert(java_pow2_pair(9) == (0x94FBA1CF4801int, 0x9E1922A97200int));
    assert(java_pow2_pair(10) == (0xBA5CC7DE9001int, 0xABA71B62E400int));
    assert(java_pow2_pair(11) == (0xBA17A0BD2001int, 0xE5B38F05C800int));
    assert(java_pow2_pair(12) == (0x27E7857A4001int, 0x698C7F0B9000int));
}

proof fn lemma_java_pair_chain_3()
    ensures
        java_pow2_pair(16) == (0xA7F7D7A40001int, 0xEADDD0B90000int),
{
    lemma_java_pair_chain_2();
    assert(java_pow2_pair(13) == (0x10B01AF48001int, 0x702E82172000int));
    assert(java_pow2_pair(14) == (0xB4E475E90001int, 0x78B3142E4000int));
    assert(java_pow2_pair(15) == (0x37D9EBD20001int, 0x72BE685C8000int));
    assert(java_pow2_pair(16) == (0xA7F7D7A40001int, 0xEADDD0B90000int));
}

proof fn lemma_java_pair_chain_4()
    ensures
        java_pow2_pair(20) == (0xFEFD7A400001int, 0xC3BD0B900000int),
{
    lemma_java_pair_chain_3();
    assert(java_pow2_pair(17) == (0x30FFAF480001int, 0xEB3FA1720000int));
    assert(java_pow2_pair(18) == (0xE63F5E900001int, 0x2C8F42E40000int));
    assert(java_pow2_pair(19) == (0xDD7EBD200001int, 0xB15E85C80000int));
    assert(java_pow2_pair(20) == (0xFEFD7A400001int, 0xC3BD0B900000int));
}

proof fn lemma_java_pair_chain_5()
    ensures
        java_pow2_pair(24) == (0x6FD7A4000001int, 0x1BD0B9000000int),
{
    lemma_java_pair_chain_4();
    assert(java_pow2_pair(21) == (0xDFAF4800001int, 0xB7A17200000int));
    assert(java_pow2_pair(22) == (0x5BF5E9000001int, 0x26F42E400000int));
    assert(java_pow2_pair(23) == (0xB7EBD2000001int, 0x8DE85C800000int));
    assert(java_pow2_pair(24) == (0x6FD7A4000001int, 0x1BD0B9000000int));
}

proof fn lemma_java_pair_chain_6()
    ensures
        java_pow2_pair(28) == (0xFD7A40000001int, 0xBD0B90000000int),
{
    lemma_java_pair_chain_5();
    assert(java_pow2_pair(25) == (0xDFAF48000001int, 0x37A172000000int));
    assert(java_pow2_pair(26) == (0xBF5E90000001int, 0x6F42E4000000int));
    assert(java_pow2_pair(27) == (0x7EBD20000001int, 0xDE85C8000000int));
    assert(java_pow2_pair(28) == (0xFD7A40000001int, 0xBD0B90000000int));
}

proof fn lemma_java_pair_chain_7()
    ensures
        java_pow2_pair(32) == (0xD7A400000001int, 0xD0B900000000int),
{
    lemma_java_pair_chain_6();
    assert(java_pow2_pair(29) == (0xFAF480000001int, 0x7A1720000000int));
    assert(java_pow2_pair(30) == (0xF5E900000001int, 0xF42E40000000int));
    assert(java_pow2_pair(31) == (0xEBD200000001int, 0xE85C80000000int));
    assert(java_pow2_pair(32) == (0xD7A400000001int, 0xD0B900000000int));
}

proof fn lemma_java_pair_chain_8()
    ensures
        java_pow2_pair(36) == (0x7A4000000001int, 0xB9000000000int),
{
    lemma_java_pair_chain_7();
    assert(java_pow2_pair(33) == (0xAF4800000001int, 0xA17200000000int));
    assert(java_pow2_pair(34) == (0x5E9000000001int, 0x42E400000000int));
    assert(java_pow2_pair(35) == (0xBD2000000001int, 0x85C800000000int));
    assert(java_pow2_pair(36) == (0x7A4000000001int, 0xB9000000000int));
}

proof fn lemma_java_pair_chain_9()
    ensures
        java_pow2_pair(40) == (0xA40000000001int, 0xB90000000000int),
{
    lemma_java_pair_chain_8();
    assert(java_pow2_pair(37) == (0xF48000000001int, 0x172000000000int));
    assert(java_pow2_pair(38) == (0xE90000000001int, 0x2E4000000000int));
    assert(java_pow2_pair(39) == (0xD20000000001int, 0x5C8000000000int));
    assert(java_pow2_pair(40) == (0xA40000000001int, 0xB90000000000int));
}

proof fn lemma_java_pair_chain_10()
    ensures
        java_pow2_pair(44) == (0x400000000001int, 0x900000000000int),
{
    lemma_java_pair_chain_9();
    assert(java_pow2_pair(41) == (0x480000000001int, 0x720000000000int));
    assert(java_pow2_pair(42) == (0x900000000001int, 0xE40000000000int));
    assert(java_pow2_pair(43) == (0x200000000001int, 0xC80000000000int));
    assert(java_pow2_pair(44) == (0x400000000001int, 0x900000000000int));
}

proof fn lemma_java_pair_chain_11()
    ensures
        java_pow2_pair(48) == (0x1int, 0x0int),
{
    lemma_java_pair_chain_10();
    assert(java_pow2_pair(45) == (0x800000000001int, 0x200000000000int));
    assert(java_pow2_pair(46) == (0x1int, 0x400000000000int));
    assert(java_pow2_pair(47) == (0x1int, 0x800000000000int));
    assert(java_pow2_pair(48) == (0x1int, 0x0int));
}

proof fn lemma_java_pair_chain_12()
    ensures
        java_pow2_pair(52) == (0x1int, 0x0int),
{
    lemma_java_pair_chain_11();
    assert(java_pow2_pair(49) == (0x1int, 0x0int));
    assert(java_pow2_pair(50) == (0x1int, 0x0int));
    assert(java_pow2_pair(51) == (0x1int, 0x0int));
    assert(java_pow2_pair(52) == (0x1int, 0x0int));
}

proof fn lemma_java_pair_chain_13()
    ensures
        java_pow2_pair(56) == (0x1int, 0x0int),
{
    lemma_java_pair_chain_12();
    assert(java_pow2_pair(53) == (0x1int, 0x0int));
    assert(java_pow2_pair(54) == (0x1int, 0x0int));
    assert(java_pow2_pair(55) == (0x1int, 0x0int));
    assert(java_pow2_pair(56) == (0x1int, 0x0int));
}

proof fn lemma_java_pair_chain_14()
    ensures
        java_pow2_pair(60) == (0x1int, 0x0int),
{
    lemma_java_pair_chain_13();
    assert(java_pow2_pair(57) == (0x1int, 0x0int));
    assert(java_pow2_pair(58) == (0x1int, 0x0int));
    assert(java_pow2_pair(59) == (0x1int, 0x0int));
    assert(java_pow2_pair(60) == (0x1int, 0x0int));
}

proof fn lemma_java_pair_chain_15()
    ensures
        java_pow2_pair(64) == (0x1int, 0x0int),
{
    lemma_java_pair_chain_14();
    assert(java_pow2_pair(61) == (0x1int, 0x0int));
    assert(java_pow2_pair(62) == (0x1int, 0x0int));
    assert(java_pow2_pair(63) == (0x1int, 0x0int));
    assert(java_pow2_pair(64) == (0x1int, 0x0int));
}

/// Composing 2^64 steps of the Java LCG is the identity map on reduced seeds.
pub proof fn lemma_java_pow2_64_identity()
    ensures
        LinearCongruentialGenerator::spec_java_random().pow_mult(pow2(64)) == 1,
        LinearCongruentialGenerator::spec_java_random().pow_inc(pow2(64)) == 0,
{
    lemma_java_pow2_pair(64);
    lemma_java_pair_chain_15();
}


/// The round trip on an already reduced seed.
proof fn lemma_round_trip_reduced(a: nat, b: nat, s: int)
    requires
        a + b == pow2(64) || (a == 0 && b == 0),
        0 <= s < JAVA_MODULUS,
    ensures
        LinearCongruentialGenerator::spec_java_random().spec_affine(
            a,
            LinearCongruentialGenerator::spec_java_random().spec_affine(b, s),
        ) == s,
{
    let g = LinearCongruentialGenerator::spec_java_random();
    let m = JAVA_MODULUS as int;
    LinearCongruentialGenerator::lemma_java_random_wf();
    let inner = g.spec_affine(b, s);
    g.lemma_affine_is_iter(s, b);
    g.lemma_pow_bounds(b);
    vstd::arithmetic::div_mod::lemma_mod_bound(g.pow_mult(b) * s + g.pow_inc(b), m);
    g.lemma_affine_is_iter(inner, a);
    g.lemma_iter_adds(s, a, b);
    if a == 0 && b == 0 {
        assert(g.spec_iter(s, 0) == s);
    } else {
        g.lemma_affine_is_iter(s, (a + b) as nat);
        lemma_java_pow2_64_identity();
        assert(g.spec_affine((a + b) as nat, s) == (1 * s + 0) % m);
        assert(1 * s == s);
        vstd::arithmetic::div_mod::lemma_small_mod(s as nat, m as nat);
    }
}

/// Round-trip law: for any step count `k` and its negation `nk`, composing
/// `k` steps after `nk` steps of the Java LCG reduces any seed modulo 2^48
/// and otherwise leaves it unchanged; `combine(k)` and `combine(nk)` are
/// inverse generators on the 48-bit state space.
pub proof fn lemma_combine_round_trip(k: i64, nk: i64, s: i64)
    requires
        k + nk == 0,
    ensures
        LinearCongruentialGenerator::spec_java_random().spec_affine(
            step_bits(k),
            LinearCongruentialGenerator::spec_java_random().spec_affine(step_bits(nk), s as int),
        ) == (s as int) % (JAVA_MODULUS as int),
        0 <= s < JAVA_MODULUS ==> LinearCongruentialGenerator::spec_java_random().spec_affine(
            step_bits(k),
            LinearCongruentialGenerator::spec_java_random().spec_affine(step_bits(nk), s as int),
        ) == s,
{
    let g = LinearCongruentialGenerator::spec_java_random();
    let m = JAVA_MODULUS as int;
    LinearCongruentialGenerator::lemma_java_random_wf();
    let a = step_bits(k);
    let b = step_bits(nk);
    lemma_i64_cast_u64(k);
    lemma_i64_cast_u64(nk);
    assert(a + b == pow2(64) || (a == 0 && b == 0)) by {
        lemma2_to64();
    }
    // Reducing the seed first does not change the walk.
    let sr = (s as int) % m;
    vstd::arithmetic::div_mod::lemma_mod_bound(s as int, m);
    vstd::arithmetic::div_mod::lemma_mod_twice(s as int, m);
    g.lemma_pow_bounds(b);
    lemma_mod_mul2(g.pow_mult(b), s as int, g.pow_mult(b), sr, m);
    lemma_mod_add2(g.pow_mult(b) * s, g.pow_inc(b), g.pow_mult(b) * sr, g.pow_inc(b), m);
    assert(g.spec_affine(b, s as int) == g.spec_affine(b, sr));
    lemma_round_trip_reduced(a, b, sr);
    if 0 <= s < JAVA_MODULUS {
        vstd::arithmetic::div_mod::lemma_small_mod(s as nat, m as nat);
    }
}


} // verus!
