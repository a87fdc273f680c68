//! A bit-exact model of `java.util.Random`: the scrambled 48-bit state, the
//! `next*` family, and the collection shuffle, each with a functional
//! specification of both its value and the state it leaves behind.

use vstd::prelude::*;

verus! {

use vstd::arithmetic::power2::{pow2, lemma2_to64, lemma2_to64_rest};
use crate::lcg::{JAVA_MULTIPLIER, JAVA_INCREMENT, JAVA_MODULUS};
use crate::math::Math;

/// One step of the Java LCG on a 48-bit state.
pub open spec fn java_next(s: int) -> int {
    (JAVA_MULTIPLIER * s + JAVA_INCREMENT) % (JAVA_MODULUS as int)
}

/// `n` steps of the Java LCG.
pub open spec fn java_iter(s: int, n: nat) -> int
    decreases n,
{
    if n == 0 {
        s
    } else {
        java_next(java_iter(s, (n - 1) as nat))
    }
}

/// The construction scramble: the seed is XORed with the multiplier and cut
/// to 48 bits.
pub open spec fn scramble(seed: i64) -> i64 {
    (seed ^ JAVA_MULTIPLIER) & ((JAVA_MODULUS - 1) as i64)
}

/// The top `bits` bits of a 48-bit state.
pub open spec fn take_bits(s: int, bits: int) -> int {
    s / (pow2((48 - bits) as nat) as int)
}

/// The `i32` that `next(bits)` returns from the advanced state `s`: the top
/// `bits` bits, reinterpreted as signed when all 32 are taken.
pub open spec fn bits_value(s: int, bits: int) -> int {
    let t = take_bits(s, bits);
    if bits == 32 && t >= 0x8000_0000 {
        t - 0x1_0000_0000
    } else {
        t
    }
}

/// The rejection threshold of `next_bounded_int`: draws at or above it are
/// retried so that the remainder is uniform.
pub open spec fn bound_threshold(bound: int) -> int {
    0x8000_0000 - (0x8000_0000int % bound)
}

/// Attempts the rejection loop may make before the draw is taken as it is;
/// the generator's period, which a rejecting run cannot exhaust.
pub const REJECTION_FUEL: u64 = 0x1_0000_0000_0000;

/// The rejection loop of the bounded draw: advance, take 31 bits, retry while
/// the draw falls into the biased tail, for at most `fuel` retries.  Returns
/// the reduced draw and the state after the accepted attempt.
#[verifier::opaque]
pub open spec fn rejection_result(s: int, bound: int, fuel: nat) -> (int, int)
    decreases fuel,
{
    let s1 = java_next(s);
    let t = take_bits(s1, 31);
    if t < bound_threshold(bound) || fuel == 0 {
        (t % bound, s1)
    } else {
        rejection_result(s1, bound, (fuel - 1) as nat)
    }
}

/// Whether `next_bounded_int` takes the power-of-two shortcut for `bound`.
pub open spec fn bound_is_pow2(bound: i32) -> bool {
    bound & ((bound - 1) as i32) == 0
}

/// The value `next_bounded_int(bound)` returns from state `s`.
pub open spec fn bounded_value(s: int, bound: int) -> int {
    if bound <= 0 {
        0
    } else if bound_is_pow2(bound as i32) {
        (bound * take_bits(java_next(s), 31)) / 0x8000_0000
    } else {
        rejection_result(s, bound, REJECTION_FUEL as nat).0
    }
}

/// The state `next_bounded_int(bound)` leaves behind.
pub open spec fn bounded_state(s: int, bound: int) -> int {
    if bound <= 0 {
        s
    } else if bound_is_pow2(bound as i32) {
        java_next(s)
    } else {
        rejection_result(s, bound, REJECTION_FUEL as nat).1
    }
}

/// The value of `next_long` from state `s`: two signed 32-bit draws glued as
/// `(hi << 32) + lo` with wrapping addition.
pub open spec fn long_value(s: int) -> int {
    wrap_i64(bits_value(java_next(s), 32) * 0x1_0000_0000 + bits_value(
        java_iter(s, 2),
        32,
    ))
}

/// Reduction of an integer into the `i64` range by adding or subtracting one
/// multiple of 2^64.
pub open spec fn wrap_i64(x: int) -> int {
    if x > i64::MAX {
        x - 0x1_0000_0000_0000_0000
    } else if x < i64::MIN {
        x + 0x1_0000_0000_0000_0000
    } else {
        x
    }
}

/// `java.util.Random`, bit for bit: a 48-bit state advanced by the Java LCG.
#[derive(Debug, Clone, Copy)]
pub struct JavaRandom {
    pub seed: i64,
}

impl JavaRandom {
    /// The state is always a 48-bit value.
    pub open spec fn wf(self) -> bool {
        0 <= self.seed < JAVA_MODULUS
    }

    /// The mathematical state.
    pub open spec fn state(self) -> int {
        self.seed as int
    }

    /// Seeds the generator; the seed is scrambled as Java does on
    /// construction.
    pub fn new(seed: i64) -> (r: Self)
        ensures
            r.wf(),
            r.state() == scramble(seed),
    {
        let s = (seed ^ JAVA_MULTIPLIER) & (JAVA_MODULUS - 1);
        proof {
            assert(0 <= (seed ^ 0x5DEECE66Di64) & 0xFFFF_FFFF_FFFFi64 < 0x1_0000_0000_0000i64)
                by (bit_vector);
        }
        JavaRandom { seed: s }
    }

    /// Installs a raw 48-bit state without scrambling.
    pub fn set_seed_raw(&mut self, seed: i64)
        requires
            0 <= seed < JAVA_MODULUS,
        ensures
            final(self).wf(),
            final(self).state() == seed,
    {
        self.seed = seed;
    }

    /// Advances the state one LCG step and returns it.
    pub fn next_seed(&mut self) -> (r: i64)
        requires
            old(self).wf(),
        ensures
            final(self).wf(),
            final(self).state() == java_next(old(self).state()),
            r == final(self).state(),
    {
        let s = self.seed;
        let prod: u128 = (s as u128) * (JAVA_MULTIPLIER as u128) + (JAVA_INCREMENT as u128);
        let next: u128 = prod % (JAVA_MODULUS as u128);
        proof {
            vstd::arithmetic::div_mod::lemma_mod_bound(prod as int, JAVA_MODULUS as int);
        }
        self.seed = next as i64;
        self.seed
    }

    /// The current 48-bit state.
    pub fn get_seed(&self) -> (r: i64)
        ensures
            r == self.state(),
    {
        self.seed
    }

    /// Advances once and returns the top `bit_count` bits of the new state,
    /// sign-extended when all 32 bits are taken.
    pub fn next(&mut self, bit_count: i64) -> (r: i32)
        requires
            old(self).wf(),
            1 <= bit_count <= 32,
        ensures
            final(self).wf(),
            final(self).state() == java_next(old(self).state()),
            r == bits_value(final(self).state(), bit_count as int),
            bit_count < 32 ==> 0 <= r < pow2(bit_count as nat),
    {
        let s = self.next_seed();
        let shift: u64 = (48 - bit_count) as u64;
        let t: u64 = (s as u64) >> shift;
        proof {
            let e = (48 - bit_count) as nat;
            vstd::bits::lemma_u64_shr_is_div(s as u64, shift);
            vstd::arithmetic::power2::lemma_pow2_pos(e);
            lemma2_to64_rest();
            // t == s / 2^(48 - bits) < 2^bits <= 2^32.
            assert((s as u64) == s as nat);
            vstd::arithmetic::power2::lemma_pow2_adds(e, bit_count as nat);
            vstd::arithmetic::div_mod::lemma_multiply_divide_lt(
                s as int,
                pow2(e) as int,
                pow2(bit_count as nat) as int,
            );
            lemma2_to64();
            if bit_count < 32 {
                vstd::arithmetic::power2::lemma_pow2_strictly_increases(
                    bit_count as nat,
                    32,
                );
            }
            vstd::arithmetic::div_mod::lemma_div_pos_is_pos(s as int, pow2(e) as int);
            assert(t < 0x1_0000_0000);
            // The double cast to u32 then i32 reinterprets the top bit.
            assert(t < 0x1_0000_0000 ==> ((t as u32) as i32) == (if t >= 0x8000_0000 {
                t - 0x1_0000_0000
            } else {
                t as int
            })) by (bit_vector);
        }
        (t as u32) as i32
    }

    /// `next(32)`, the full signed 32-bit draw.
    pub fn next_int(&mut self) -> (r: i32)
        requires
            old(self).wf(),
        ensures
            final(self).wf(),
            final(self).state() == java_next(old(self).state()),
            r == bits_value(final(self).state(), 32),
    {
        self.next(32)
    }

    /// A uniform draw in `[0, bound)` (0 when `bound <= 0`): a shortcut for
    /// powers of two, rejection sampling otherwise.
    #[verifier::rlimit(30)]
    pub fn next_bounded_int(&mut self, bound: i32) -> (r: i32)
        requires
            old(self).wf(),
        ensures
            final(self).wf(),
            r == bounded_value(old(self).state(), bound as int),
            final(self).state() == bounded_state(old(self).state(), bound as int),
            bound > 0 ==> 0 <= r < bound,
            bound <= 0 ==> r == 0,
    {
        let ghost s0 = self.state();
        if bound <= 0 {
            return 0;
        }
        if Math::is_pow_2(bound) {
            let v = self.next(31);
            proof {
                lemma2_to64();
                assert((bound as int) * (v as int) < 0x8000_0000 * 0x8000_0000)
                    by (nonlinear_arith)
                    requires
                        0 <= bound < 0x8000_0000 && 0 <= v < 0x8000_0000,
                ;
                assert((bound as int) * (v as int) < (bound as int) * 0x8000_0000)
                    by (nonlinear_arith)
                    requires
                        0 < bound && 0 <= v < 0x8000_0000,
                ;
            }
            let p: u64 = (bound as u64) * (v as u64);
            let r: u64 = p >> 31u64;
            proof {
                vstd::bits::lemma_u64_shr_is_div(p, 31);
                // bound * v < bound * 2^31, so the quotient is below bound.
                vstd::arithmetic::div_mod::lemma_multiply_divide_lt(
                    p as int,
                    0x8000_0000,
                    bound as int,
                );
                vstd::arithmetic::div_mod::lemma_div_pos_is_pos(p as int, 0x8000_0000);
            }
            return r as i32;
        }
        let b: i64 = bound as i64;
        let max_try: i64 = 0x8000_0000i64 - (0x8000_0000i64 % b);
        let ghost gb = bound as int;
        let mut fuel: u64 = REJECTION_FUEL;
        proof {
            vstd::arithmetic::div_mod::lemma_mod_bound(0x8000_0000, gb);
        }
        loop
            invariant
                self.wf(),
                bound >= 1,
                !bound_is_pow2(bound),
                b == bound as int,
                max_try == bound_threshold(gb),
                gb == bound as int,
                s0 == old(self).state(),
                0 < max_try <= 0x8000_0000,
                rejection_result(self.state(), gb, fuel as nat) == rejection_result(
                    s0,
                    gb,
                    REJECTION_FUEL as nat,
                ),
            decreases fuel,
        {
            let ghost s_here = self.state();
            let ghost fuel_here = fuel as nat;
            let try_value = self.next(31);
            proof {
                vstd::arithmetic::div_mod::lemma_mod_bound(try_value as int, gb);
                lemma_rejection_unfold(s_here, gb, fuel_here);
            }
            if (try_value as i64) < max_try || fuel == 0 {
                proof {
                    assert(try_value == take_bits(java_next(s_here), 31));
                    assert(rejection_result(s0, gb, REJECTION_FUEL as nat) == ((
                        (try_value as int) % gb,
                        self.state(),
                    )));
                }
                return try_value % bound;
            }
            fuel = fuel - 1;
        }
    }

    /// Two 32-bit draws glued into a signed 64-bit value.
    #[verifier::rlimit(30)]
    pub fn next_long(&mut self) -> (r: i64)
        requires
            old(self).wf(),
        ensures
            final(self).wf(),
            final(self).state() == java_iter(old(self).state(), 2),
            r == long_value(old(self).state()),
    {
        let ghost s0 = self.state();
        let hi = self.next_int() as i64;
        let lo = self.next_int() as i64;
        proof {
            lemma_java_iter2(s0);
        }
        let shifted = hi * 0x1_0000_0000;
        let r = shifted.wrapping_add(lo);
        proof {
            assert(r == wrap_i64((hi as int) * 0x1_0000_0000 + (lo as int)));
        }
        r
    }

    /// One random bit.
    pub fn next_bool(&mut self) -> (r: bool)
        requires
            old(self).wf(),
        ensures
            final(self).wf(),
            final(self).state() == java_next(old(self).state()),
            r == (bits_value(final(self).state(), 1) != 0),
    {
        self.next(1) != 0
    }
}

impl Default for JavaRandom {
    /// The all-zero raw state.
    fn default() -> (r: Self)
        ensures
            r.wf(),
            r.state() == 0,
    {
        JavaRandom { seed: 0 }
    }
}

/// One unfolding of the rejection recursion.
pub proof fn lemma_rejection_unfold(s: int, bound: int, fuel: nat)
    ensures
        ({
            let s1 = java_next(s);
            let t = take_bits(s1, 31);
            if t < bound_threshold(bound) || fuel == 0 {
                rejection_result(s, bound, fuel) == ((t % bound, s1))
            } else {
                rejection_result(s, bound, fuel) == rejection_result(s1, bound, (fuel - 1) as nat)
            }
        }),
{
    reveal_with_fuel(rejection_result, 2);
}

/// Two steps written out: `java_iter(s, 2)` is `java_next` applied twice.
pub proof fn lemma_java_iter2(s: int)
    ensures
        java_iter(s, 2) == java_next(java_next(s)),
{
    assert(java_iter(s, 1) == java_next(java_iter(s, 0)));
    assert(java_iter(s, 0) == s);
    assert(java_iter(s, 2) == java_next(java_iter(s, 1)));
}


/// Swaps two elements of a vector, leaving every other slot unchanged.
pub fn vec_swap<T>(v: &mut Vec<T>, a: usize, b: usize)
    requires
        a < old(v).len(),
        b < old(v).len(),
    ensures
        final(v)@ == old(v)@.update(a as int, old(v)@[b as int]).update(
            b as int,
            old(v)@[a as int],
        ),
{
    let ghost s = v@;
    if a < b {
        let xb = v.remove(b);
        let xa = v.remove(a);
        v.insert(a, xb);
        v.insert(b, xa);
        proof {
            assert(v@ =~= s.update(a as int, s[b as int]).update(b as int, s[a as int]));
        }
    } else if b < a {
        let xa = v.remove(a);
        let xb = v.remove(b);
        v.insert(b, xa);
        v.insert(a, xb);
        proof {
            assert(v@ =~= s.update(a as int, s[b as int]).update(b as int, s[a as int]));
        }
    } else {
        proof {
            assert(v@ =~= s.update(a as int, s[b as int]).update(b as int, s[a as int]));
        }
    }
}

/// The tail of the Fisher-Yates walk: with `i` slots still unshuffled, swap
/// slot `i - 1` with a bounded draw and recurse; `i <= 1` is done.
pub open spec fn shuffle_from<T>(arr: Seq<T>, s: int, i: nat) -> (Seq<T>, int)
    decreases i,
{
    if i <= 1 {
        (arr, s)
    } else {
        let j = bounded_value(s, i as int);
        let s1 = bounded_state(s, i as int);
        let swapped = arr.update(i - 1, arr[j]).update(j, arr[i - 1]);
        shuffle_from(swapped, s1, (i - 1) as nat)
    }
}

/// The Fisher-Yates shuffle of a whole sequence, and the state it leaves.
pub open spec fn spec_shuffle<T>(arr: Seq<T>, s: int) -> (Seq<T>, int) {
    shuffle_from(arr, s, arr.len())
}

/// Shuffles a vector in place with the Java Fisher-Yates walk: for each
/// prefix length down to 2, the last element of the prefix is swapped with a
/// bounded draw.
pub fn shuffle<T>(array: &mut Vec<T>, random: &mut JavaRandom)
    requires
        old(array).len() <= 0x7FFF_FFFF,
        old(random).wf(),
    ensures
        final(random).wf(),
        final(array)@ == spec_shuffle(old(array)@, old(random).state()).0,
        final(random).state() == spec_shuffle(old(array)@, old(random).state()).1,
{
    let ghost arr0 = array@;
    let ghost s0 = random.state();
    let mut i: usize = array.len();
    while i > 1
        invariant
            random.wf(),
            i <= array.len() <= 0x7FFF_FFFF,
            shuffle_from(array@, random.state(), i as nat) == spec_shuffle(arr0, s0),
        decreases i,
    {
        let ghost arr_here = array@;
        let ghost s_here = random.state();
        let swap_i = random.next_bounded_int(i as i32);
        vec_swap(array, i - 1, swap_i as usize);
        proof {
            assert(shuffle_from(arr_here, s_here, i as nat) == shuffle_from(
                array@,
                random.state(),
                (i - 1) as nat,
            ));
        }
        i = i - 1;
    }
}

/// The per-chunk terrain seed: a fixed linear blend of the chunk coordinates.
pub open spec fn spec_terrain_seed(chunk_x: i32, chunk_z: i32) -> i64 {
    vstd::wrapping::i64_specs::wrapping_add(
        vstd::wrapping::i64_specs::wrapping_mul(chunk_x as i64, 341873128712i64),
        vstd::wrapping::i64_specs::wrapping_mul(chunk_z as i64, 132897987541i64),
    )
}

/// A generator seeded with the terrain seed of a chunk.
pub fn random_with_terrain_seed(chunk_x: i32, chunk_z: i32) -> (r: (JavaRandom, i64))
    ensures
        r.1 == spec_terrain_seed(chunk_x, chunk_z),
        r.0.wf(),
        r.0.state() == scramble(r.1),
{
    let seed = (chunk_x as i64).wrapping_mul(341873128712i64).wrapping_add(
        (chunk_z as i64).wrapping_mul(132897987541i64),
    );
    (JavaRandom::new(seed), seed)
}

/// The population seed of a block position: two odd draws from the world
/// seed blend the coordinates, then the world seed is folded back in.
pub open spec fn spec_population_seed(world_seed: i64, block_x: i32, block_z: i32) -> i64 {
    let r0 = scramble(world_seed) as int;
    let xmul = (long_value(r0) as i64) | 1;
    let zmul = (long_value(java_iter(r0, 2)) as i64) | 1;
    vstd::wrapping::i64_specs::wrapping_add(
        vstd::wrapping::i64_specs::wrapping_mul(block_x as i64, xmul),
        vstd::wrapping::i64_specs::wrapping_mul(block_z as i64, zmul),
    ) ^ world_seed
}

/// A generator seeded with the population seed of a block position.
pub fn random_with_population_seed(world_seed: i64, block_x: i32, block_z: i32) -> (r: (
    JavaRandom,
    i64,
))
    ensures
        r.1 == spec_population_seed(world_seed, block_x, block_z),
        r.0.wf(),
        r.0.state() == scramble(r.1),
{
    let mut rng = JavaRandom::new(world_seed);
    let xmul = rng.next_long() | 1;
    let zmul = rng.next_long() | 1;
    let seed = (block_x as i64).wrapping_mul(xmul).wrapping_add(
        (block_z as i64).wrapping_mul(zmul),
    ) ^ world_seed;

    (JavaRandom::new(seed), seed)
}

/// The decorator seed: the population seed advanced by the feature index and
/// a thousandfold generation step.
pub open spec fn spec_decorator_seed(population_seed: i64, index: i32, step: i32) -> i64 {
    vstd::wrapping::i64_specs::wrapping_add(
        vstd::wrapping::i64_specs::wrapping_add(population_seed, index as i64),
        vstd::wrapping::i64_specs::wrapping_mul(1000i64, step as i64),
    )
}

/// A generator seeded with the decorator seed of a feature.
pub fn random_with_decorator_seed(population_seed: i64, index: i32, step: i32) -> (r: (
    JavaRandom,
    i64,
))
    ensures
        r.1 == spec_decorator_seed(population_seed, index, step),
        r.0.wf(),
        r.0.state() == scramble(r.1),
{
    let seed = population_seed.wrapping_add(index as i64).wrapping_add(
        1000i64.wrapping_mul(step as i64),
    );
    (JavaRandom::new(seed), seed)
}

/// The carver seed: like the population seed, but the two draws stay as they
/// come (no forcing to odd).
pub open spec fn spec_carver_seed(world_seed: i64, chunk_x: i32, chunk_z: i32) -> i64 {
    let r0 = scramble(world_seed) as int;
    let xmul = long_value(r0) as i64;
    let zmul = long_value(java_iter(r0, 2)) as i64;
    vstd::wrapping::i64_specs::wrapping_add(
        vstd::wrapping::i64_specs::wrapping_mul(chunk_x as i64, xmul),
        vstd::wrapping::i64_specs::wrapping_mul(chunk_z as i64, zmul),
    ) ^ world_seed
}

/// A generator seeded with the carver seed of a chunk.
pub fn random_with_carver_seed(world_seed: i64, chunk_x: i32, chunk_z: i32) -> (r: (
    JavaRandom,
    i64,
))
    ensures
        r.1 == spec_carver_seed(world_seed, chunk_x, chunk_z),
        r.0.wf(),
        r.0.state() == scramble(r.1),
{
    let mut rng = JavaRandom::new(world_seed);
    let xmul = rng.next_long();
    let zmul = rng.next_long();
    let seed = (chunk_x as i64).wrapping_mul(xmul).wrapping_add(
        (chunk_z as i64).wrapping_mul(zmul),
    ) ^ world_seed;

    (JavaRandom::new(seed), seed)
}

/// The region seed: a fixed linear blend of the region coordinates, the world
/// seed and the feature's salt.
pub open spec fn spec_region_seed(world_seed: i64, reg_x: i32, reg_z: i32, salt: i32) -> i64 {
    vstd::wrapping::i64_specs::wrapping_add(
        vstd::wrapping::i64_specs::wrapping_add(
            vstd::wrapping::i64_specs::wrapping_add(
                vstd::wrapping::i64_specs::wrapping_mul(reg_x as i64, 341873128712i64),
                vstd::wrapping::i64_specs::wrapping_mul(reg_z as i64, 132897987541i64),
            ),
            world_seed,
        ),
        salt as i64,
    )
}

/// A generator seeded with the region seed of a region and feature salt.
pub fn random_with_region_seed(world_seed: i64, reg_x: i32, reg_z: i32, salt: i32) -> (r: (
    JavaRandom,
    i64,
))
    ensures
        r.1 == spec_region_seed(world_seed, reg_x, reg_z, salt),
        r.0.wf(),
        r.0.state() == scramble(r.1),
{
    let seed = (reg_x as i64).wrapping_mul(341873128712i64).wrapping_add(
        (reg_z as i64).wrapping_mul(132897987541i64),
    ).wrapping_add(world_seed).wrapping_add(salt as i64);

    (JavaRandom::new(seed), seed)
}


/// Any 48-bit step of the Java LCG lands back inside the 48-bit state space.
pub proof fn lemma_java_next_bound(s: int)
    ensures
        0 <= java_next(s) < JAVA_MODULUS,
{
    vstd::arithmetic::div_mod::lemma_mod_bound(
        JAVA_MULTIPLIER * s + JAVA_INCREMENT,
        JAVA_MODULUS as int,
    );
}

/// The rejection walk returns a draw inside `[0, bound)` and a 48-bit state.
pub proof fn lemma_rejection_range(s: int, bound: int, fuel: nat)
    requires
        0 < bound,
    ensures
        0 <= rejection_result(s, bound, fuel).0 < bound,
        0 <= rejection_result(s, bound, fuel).1 < JAVA_MODULUS,
    decreases fuel,
{
    reveal(rejection_result);
    let s1 = java_next(s);
    let t = take_bits(s1, 31);
    lemma_java_next_bound(s);
    if t < bound_threshold(bound) || fuel == 0 {
        vstd::arithmetic::div_mod::lemma_mod_bound(t, bound);
    } else {
        lemma_rejection_range(s1, bound, (fuel - 1) as nat);
    }
}

/// The bounded draw lies inside `[0, bound)` (and is 0 for empty bounds), and
/// the state it leaves is a 48-bit value when the start state was.
pub proof fn lemma_bounded_range(s: int, bound: int)
    requires
        0 <= s < JAVA_MODULUS,
    ensures
        bound > 0 ==> 0 <= bounded_value(s, bound) < bound,
        bound <= 0 ==> bounded_value(s, bound) == 0,
        0 <= bounded_state(s, bound) < JAVA_MODULUS,
{
    if bound <= 0 {
    } else if bound_is_pow2(bound as i32) {
        lemma_java_next_bound(s);
        let s1 = java_next(s);
        let t = take_bits(s1, 31);
        lemma2_to64();
        lemma2_to64_rest();
        assert(0 <= t < 0x8000_0000) by {
            vstd::arithmetic::power2::lemma_pow2_adds(17, 31);
            vstd::arithmetic::div_mod::lemma_multiply_divide_lt(s1, pow2(17) as int, pow2(31) as int);
            vstd::arithmetic::div_mod::lemma_div_pos_is_pos(s1, pow2(17) as int);
        }
        assert(bound * t < bound * 0x8000_0000) by (nonlinear_arith)
            requires
                0 < bound && 0 <= t < 0x8000_0000,
        ;
        vstd::arithmetic::div_mod::lemma_multiply_divide_lt(bound * t, 0x8000_0000, bound);
        vstd::arithmetic::mul::lemma_mul_nonnegative(bound, t);
        vstd::arithmetic::div_mod::lemma_div_pos_is_pos(bound * t, 0x8000_0000);
    } else {
        lemma_rejection_range(s, bound, REJECTION_FUEL as nat);
    }
}

/// The range draw lies inside `[min, max]` when the range is ordered, and
/// the state stays 48 bits wide.
pub proof fn lemma_range_bounds(s: int, min: int, max: int)
    requires
        0 <= s < JAVA_MODULUS,
    ensures
        min <= max ==> min <= crate::math::range_value(s, min, max) <= max,
        min > max ==> crate::math::range_value(s, min, max) == min,
        0 <= crate::math::range_state(s, min, max) < JAVA_MODULUS,
{
    if min < max {
        lemma_bounded_range(s, max - min + 1);
    }
}


/// The shuffle walk never changes the length of the sequence.
pub proof fn lemma_shuffle_from_len<T>(arr: Seq<T>, s: int, i: nat)
    requires
        0 <= s < crate::lcg::JAVA_MODULUS,
        i <= arr.len() <= 0x7FFF_FFFF,
    ensures
        shuffle_from(arr, s, i).0.len() == arr.len(),
    decreases i,
{
    if i <= 1 {
    } else {
        let j = bounded_value(s, i as int);
        let s1 = bounded_state(s, i as int);
        lemma_bounded_range(s, i as int);
        let swapped = arr.update(i - 1, arr[j]).update(j, arr[i - 1]);
        lemma_shuffle_from_len(swapped, s1, (i - 1) as nat);
    }
}


/// Shuffling commutes with mapping a function over the elements: the walk
/// only permutes, so mapping before or after gives the same sequence.
pub proof fn lemma_shuffle_from_map<T, U>(arr: Seq<T>, f: spec_fn(T) -> U, s: int, i: nat)
    requires
        0 <= s < crate::lcg::JAVA_MODULUS,
        i <= arr.len() <= 0x7FFF_FFFF,
    ensures
        shuffle_from(arr.map_values(f), s, i).0 == shuffle_from(arr, s, i).0.map_values(f),
        shuffle_from(arr.map_values(f), s, i).1 == shuffle_from(arr, s, i).1,
    decreases i,
{
    if i <= 1 {
    } else {
        let j = bounded_value(s, i as int);
        let s1 = bounded_state(s, i as int);
        lemma_bounded_range(s, i as int);
        let swapped = arr.update(i - 1, arr[j]).update(j, arr[i - 1]);
        let m = arr.map_values(f);
        let swapped_m = m.update(i - 1, m[j]).update(j, m[i - 1]);
        assert(swapped_m =~= swapped.map_values(f));
        lemma_shuffle_from_map(swapped, f, s1, (i - 1) as nat);
    }
}


/// The shuffle walk leaves a 48-bit state when it starts from one.
pub proof fn lemma_shuffle_from_state<T>(arr: Seq<T>, s: int, i: nat)
    requires
        0 <= s < crate::lcg::JAVA_MODULUS,
        i <= arr.len() <= 0x7FFF_FFFF,
    ensures
        0 <= shuffle_from(arr, s, i).1 < crate::lcg::JAVA_MODULUS,
    decreases i,
{
    if i <= 1 {
    } else {
        let j = bounded_value(s, i as int);
        let s1 = bounded_state(s, i as int);
        lemma_bounded_range(s, i as int);
        let swapped = arr.update(i - 1, arr[j]).update(j, arr[i - 1]);
        lemma_shuffle_from_state(swapped, s1, (i - 1) as nat);
    }
}

} // verus!
