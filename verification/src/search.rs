//! The staged searches: the candidate arithmetic of the structure-seed scan
//! (stage S) and of the world-seed scan (stage W), the observation filter,
//! and the terminal status of a search.

use vstd::prelude::*;

verus! {

use crate::lcg::{LinearCongruentialGenerator, JAVA_INCREMENT, JAVA_MULTIPLIER, JAVA_MODULUS, step_bits};
use crate::loot_table::{FastInventoryCompareContext, spec_compare_fast};
use crate::buried_treasure::{
    spec_generates_at, spec_buried_treasure_table, spec_buried_treasure_loot_seed,
};
use crate::random::{java_iter, java_next, long_value, scramble, wrap_i64, bits_value};

/// The outcome of a staged search.
#[derive(Debug, Clone)]
pub enum Status {
    /// Still running.
    Searching,
    /// Finished; every passing seed is listed.
    Complete { seeds: Vec<i64> },
    /// Stopped because more seeds passed than the cap allows; a partial list.
    TooManySeeds { seeds_incomplete: Vec<i64> },
    /// Cancelled mid-run; a partial list.
    Cancelled { seeds_incomplete: Vec<i64> },
}

/// The terminal status of a finished scan: a seen stop signal wins, then the
/// cap, then completion.
pub fn finish_status(stop_observed: bool, seeds: Vec<i64>, max_results: usize) -> (r: Status)
    ensures
        stop_observed ==> (r matches Status::Cancelled { seeds_incomplete } && seeds_incomplete@
            == seeds@),
        !stop_observed && seeds@.len() > max_results ==> (r matches Status::TooManySeeds {
            seeds_incomplete,
        } && seeds_incomplete@ == seeds@),
        !stop_observed && seeds@.len() <= max_results ==> (r matches Status::Complete {
            seeds: s,
        } && s@ == seeds@),
{
    if stop_observed {
        Status::Cancelled { seeds_incomplete: seeds }
    } else if seeds.len() > max_results {
        Status::TooManySeeds { seeds_incomplete: seeds }
    } else {
        Status::Complete { seeds }
    }
}

/// The Java LCG's own step function equals the generator-level one.
pub proof fn lemma_java_iter_is_spec_iter(s: int, n: nat)
    ensures
        LinearCongruentialGenerator::spec_java_random().spec_iter(s, n) == java_iter(s, n),
    decreases n,
{
    if n > 0 {
        lemma_java_iter_is_spec_iter(s, (n - 1) as nat);
    }
}

/// The candidate structure seed of one stage-S index: the 48-bit state is
/// assembled from the enumerated high and low 16-bit halves around the known
/// pillar-seed bits, stepped back twice and unscrambled.
pub open spec fn spec_structure_seed_candidate(
    pillar_seed: i64,
    state_hi: i64,
    state_lo: i64,
) -> i64 {
    let state = (state_hi << 32u32) | (pillar_seed << 16u32) | state_lo;
    let g = LinearCongruentialGenerator::spec_java_random();
    ((g.spec_affine(step_bits(-2i64), state as int)) as i64) ^ JAVA_MULTIPLIER
}

/// Builds the candidate structure seed of one stage-S index.  Soundness of
/// the stage: stepping the unscrambled candidate two steps forward restores
/// a state whose bits 16 through 31 are exactly the pillar seed.
pub fn structure_seed_candidate(pillar_seed: i64, state_hi: i64, state_lo: i64) -> (r: i64)
    requires
        0 <= pillar_seed < 0x10000,
        0 <= state_hi < 0x10000,
        0 <= state_lo < 0x10000,
    ensures
        r == spec_structure_seed_candidate(pillar_seed, state_hi, state_lo),
        0 <= r < JAVA_MODULUS,
        (java_iter(((r ^ JAVA_MULTIPLIER) & 0xFFFF_FFFF_FFFFi64) as int, 2) / 0x10000) % 0x10000
            == pillar_seed,
{
    let state = (state_hi << 32u32) | (pillar_seed << 16u32) | state_lo;
    proof {
        assert(0 <= state < 0x1_0000_0000_0000i64 && ((state / 0x10000i64) as i64) % 0x10000i64
            == pillar_seed) by (bit_vector)
            requires
                state == (state_hi << 32u32) | (pillar_seed << 16u32) | state_lo,
                0 <= pillar_seed < 0x10000,
                0 <= state_hi < 0x10000,
                0 <= state_lo < 0x10000,
        ;
    }
    let rev2 = LinearCongruentialGenerator::java_random_rev2();
    let reversed_state = rev2.next_seed(state);
    let seed = reversed_state ^ JAVA_MULTIPLIER;
    proof {
        let g = LinearCongruentialGenerator::spec_java_random();
        LinearCongruentialGenerator::lemma_java_random_wf();
        // Unscrambling is an involution on the 48-bit state.
        assert((seed ^ JAVA_MULTIPLIER) & 0xFFFF_FFFF_FFFFi64 == reversed_state && 0 <= seed
            < 0x1_0000_0000_0000i64) by (bit_vector)
            requires
                seed == reversed_state ^ 0x5DEECE66Di64,
                0 <= reversed_state < 0x1_0000_0000_0000i64,
                JAVA_MULTIPLIER == 0x5DEECE66Di64,
        ;
        // Two steps forward undo the two backward steps.
        crate::lcg::lemma_combine_round_trip(2i64, -2i64, state);
        g.lemma_affine_is_iter(reversed_state as int, 2);
        assert(g.spec_affine(step_bits(2i64), g.spec_affine(step_bits(-2i64), state as int))
            == state);
        assert(step_bits(2i64) == 2) by (bit_vector);
        lemma_java_iter_is_spec_iter(reversed_state as int, 2);
    }
    seed
}

/// The multiplicative inverse of the Java multiplier modulo 2^48.
pub const JAVA_MULTIPLIER_INVERSE: i64 = 0xDFE0_5BCB_1365;

/// One step backward: the state whose forward step is `s`.
pub open spec fn java_prev(s: int) -> int {
    (JAVA_MULTIPLIER_INVERSE * (s - JAVA_INCREMENT)) % (JAVA_MODULUS as int)
}

/// The backward step really inverts the forward step on reduced states.
pub proof fn lemma_java_prev_next(s: int)
    requires
        0 <= s < JAVA_MODULUS,
    ensures
        0 <= java_prev(s) < JAVA_MODULUS,
        java_next(java_prev(s)) == s,
{
    let m = JAVA_MODULUS as int;
    let mul = JAVA_MULTIPLIER as int;
    let inv = JAVA_MULTIPLIER_INVERSE as int;
    let p = java_prev(s);
    vstd::arithmetic::div_mod::lemma_mod_bound(inv * (s - 0xB), m);
    assert(mul * inv == 0x5225586E9000000000001) by (nonlinear_arith)
        requires
            mul == 0x5DEECE66D && inv == 0xDFE05BCB1365,
    ;
    assert((mul * inv) % m == 1) by {
        vstd::arithmetic::div_mod::lemma_fundamental_div_mod_converse_mod(
            0x5225586E9000000000001,
            0x1_0000_0000_0000,
            22050866921,
            1,
        );
    }
    // mul * p == mul * inv * (s - A) == s - A (mod m).
    crate::lcg::lemma_mod_mul2(mul, p, mul, inv * (s - 0xB), m);
    vstd::arithmetic::div_mod::lemma_mod_twice(inv * (s - 0xB), m);
    assert(mul * (inv * (s - 0xB)) == (mul * inv) * (s - 0xB)) by (nonlinear_arith);
    vstd::arithmetic::div_mod::lemma_mul_mod_noop_general(mul * inv, s - 0xB, m);
    assert(((mul * inv) % m) * (s - 0xB) == s - 0xB);
    // Hence mul * p + A == s (mod m), and s is already reduced.
    crate::lcg::lemma_mod_add2(mul * p, 0xB, s - 0xB, 0xB, m);
    vstd::arithmetic::div_mod::lemma_small_mod(s as nat, m as nat);
}

/// One backward step of the Java LCG, computed with the concrete inverse
/// multiplier.
pub fn java_prev_step(s: i64) -> (r: i64)
    requires
        0 <= s < JAVA_MODULUS,
    ensures
        r == java_prev(s as int),
        0 <= r < JAVA_MODULUS,
        java_next(r as int) == s,
{
    proof {
        lemma_java_prev_next(s as int);
    }
    let shifted: i64 = s - JAVA_INCREMENT;
    let bits: u64 = #[verifier::truncate] (shifted as u64);
    let prod: u128 = (bits as u128) * (JAVA_MULTIPLIER_INVERSE as u128);
    let r: u128 = prod % (JAVA_MODULUS as u128);
    proof {
        let m = JAVA_MODULUS as int;
        crate::lcg::lemma_i64_bits_congruent(shifted, 48);
        vstd::arithmetic::power2::lemma2_to64_rest();
        crate::lcg::lemma_mod_mul2(
            bits as int,
            JAVA_MULTIPLIER_INVERSE as int,
            shifted as int,
            JAVA_MULTIPLIER_INVERSE as int,
            m,
        );
        vstd::arithmetic::div_mod::lemma_mod_bound(prod as int, m);
        assert((bits as int) * (JAVA_MULTIPLIER_INVERSE as int) == (
        JAVA_MULTIPLIER_INVERSE as int) * (bits as int)) by (nonlinear_arith);
        assert((shifted as int) * (JAVA_MULTIPLIER_INVERSE as int) == (
        JAVA_MULTIPLIER_INVERSE as int) * (shifted as int)) by (nonlinear_arith);
    }
    r as i64
}

/// The low-48-bit source state a stage-W candidate is reconstructed from.
pub open spec fn spec_b_state(structure_seed: i64, b_state_lo: i64) -> i64 {
    ((structure_seed & 0xFFFF_FFFFi64) << 16u32) | b_state_lo
}

/// The generator state that would have produced the candidate's `nextLong`:
/// the reconstructed `b` state stepped back twice.
pub open spec fn spec_w_source(structure_seed: i64, b_state_lo: i64) -> int {
    java_prev(java_prev(spec_b_state(structure_seed, b_state_lo) as int))
}

/// One stage-W candidate in random mode: reconstructs the world seed whose
/// game-generated `nextLong` would pass through the enumerated `b` state,
/// and keeps it exactly when its low 48 bits equal the structure seed.
pub fn world_seed_candidate_random(structure_seed: i64, b_state_lo: i64) -> (r: Option<i64>)
    requires
        0 <= structure_seed < JAVA_MODULUS,
        0 <= b_state_lo < 0x10000,
    ensures
        ({
            let s0 = spec_w_source(structure_seed, b_state_lo);
            &&& (r matches Some(ws) ==> ws == long_value(s0) && ws & 0xFFFF_FFFF_FFFFi64
                == structure_seed)
            &&& (r is Some <==> ((long_value(s0) as i64) & 0xFFFF_FFFF_FFFFi64)
                == structure_seed)
        }),
{
    let b_state = ((structure_seed & 0xFFFF_FFFF) << 16u32) | b_state_lo;
    proof {
        assert(0 <= b_state < 0x1_0000_0000_0000i64) by (bit_vector)
            requires
                b_state == ((structure_seed & 0xFFFF_FFFFi64) << 16u32) | b_state_lo,
                0 <= structure_seed < 0x1_0000_0000_0000i64,
                0 <= b_state_lo < 0x10000,
        ;
    }
    let state_a = java_prev_step(b_state);
    let a_shifted = (state_a & 0xFFFF_FFFF_0000) << 16u32;
    let reconstructed_b_value = ((b_state >> 16u32) as i32) as i64;
    proof {
        assert(0 <= b_state >> 16u32 < 0x1_0000_0000i64) by (bit_vector)
            requires
                0 <= b_state < 0x1_0000_0000_0000i64,
        ;
    }
    let reconstructed_next_long = a_shifted.wrapping_add(reconstructed_b_value);
    proof {
        let s0 = spec_w_source(structure_seed, b_state_lo);
        lemma_java_prev_next(state_a as int);
        assert(s0 == java_prev(state_a as int));
        assert(java_next(s0) == state_a);
        assert(java_iter(s0, 2) == java_next(java_next(s0))) by {
            crate::random::lemma_java_iter2(s0);
        }
        assert(java_iter(s0, 2) == b_state);
        // The assembled value is the nextLong of the source state.
        let hi = bits_value(state_a as int, 32);
        let lo = bits_value(b_state as int, 32);
        vstd::arithmetic::power2::lemma2_to64();
        assert(crate::random::take_bits(state_a as int, 32) == (state_a as int) / 0x10000);
        assert(crate::random::take_bits(b_state as int, 32) == (b_state as int) / 0x10000);
        vstd::arithmetic::div_mod::lemma_div_pos_is_pos(state_a as int, 0x10000);
        vstd::arithmetic::div_mod::lemma_div_pos_is_pos(b_state as int, 0x10000);
        vstd::arithmetic::div_mod::lemma_multiply_divide_lt(state_a as int, 0x10000, 0x1_0000_0000);
        vstd::arithmetic::div_mod::lemma_multiply_divide_lt(b_state as int, 0x10000, 0x1_0000_0000);
        lemma_w_assembly(state_a, b_state, a_shifted, reconstructed_b_value);
        lemma_wrap_assembly(a_shifted, reconstructed_b_value, hi, lo, reconstructed_next_long);
        assert(reconstructed_next_long == long_value(s0));
    }
    if (reconstructed_next_long & 0xFFFF_FFFF_FFFF) == structure_seed {
        Some(reconstructed_next_long)
    } else {
        None
    }
}

/// The unsigned top half of the backward state, shifted into the high word,
/// agrees with the signed `nextInt` value modulo 2^64; the low word is that
/// value exactly.
proof fn lemma_w_assembly(state_a: i64, b_state: i64, a_shifted: i64, rec_b: i64)
    requires
        0 <= state_a < 0x1_0000_0000_0000i64,
        0 <= b_state < 0x1_0000_0000_0000i64,
        a_shifted == (state_a & 0xFFFF_FFFF_0000i64) << 16u32,
        rec_b == ((b_state >> 16u32) as i32) as i64,
    ensures
        rec_b == bits_value(b_state as int, 32),
        (a_shifted as int == (bits_value(state_a as int, 32) * 0x1_0000_0000) || a_shifted as int
            == (bits_value(state_a as int, 32) * 0x1_0000_0000) + 0x1_0000_0000_0000_0000
            || a_shifted as int == (bits_value(state_a as int, 32) * 0x1_0000_0000)
            - 0x1_0000_0000_0000_0000),
        a_shifted as int % 0x1_0000_0000_0000_0000 == (bits_value(state_a as int, 32)
            * 0x1_0000_0000) % 0x1_0000_0000_0000_0000,
{
    vstd::arithmetic::power2::lemma2_to64();
    // take_bits(s, 32) == s / 2^16 == s >> 16 for 48-bit states.
    assert(b_state >> 16u32 == b_state / 0x10000i64 && state_a >> 16u32 == state_a / 0x10000i64)
        by (bit_vector)
        requires
            0 <= b_state < 0x1_0000_0000_0000i64 && 0 <= state_a < 0x1_0000_0000_0000i64,
    ;
    // Signed reinterpretation of the 32-bit top half.
    assert(((b_state >> 16u32) as i32) as i64 == (if b_state >> 16u32 >= 0x8000_0000i64 {
        ((b_state >> 16u32) - 0x1_0000_0000i64) as i64
    } else {
        b_state >> 16u32
    })) by (bit_vector)
        requires
            0 <= b_state < 0x1_0000_0000_0000i64,
    ;
    // The masked shift equals the signed value times 2^32, up to one wrap.
    let hi_u = state_a >> 16u32;
    assert((state_a & 0xFFFF_FFFF_0000i64) << 16u32 == ((state_a >> 16u32) << 32u32)
        && (0 <= state_a >> 16u32 < 0x1_0000_0000i64) && ((state_a >> 16u32) << 32u32) == (if (
        state_a >> 16u32) >= 0x8000_0000i64 {
        (((state_a >> 16u32) - 0x1_0000_0000i64) * 0x1_0000_0000i64) as i64
    } else {
        (((state_a >> 16u32)) * 0x1_0000_0000i64) as i64
    })) by (bit_vector)
        requires
            0 <= state_a < 0x1_0000_0000_0000i64,
    ;
    let hi = bits_value(state_a as int, 32);
    assert(take_bits_is_shift(state_a));
    if hi_u >= 0x8000_0000i64 {
        assert(hi == hi_u - 0x1_0000_0000);
        assert(a_shifted as i64 == ((hi_u - 0x1_0000_0000i64) * 0x1_0000_0000i64) as i64);
        assert((hi_u - 0x1_0000_0000) * 0x1_0000_0000 == hi * 0x1_0000_0000);
        lemma_as_i64_wrap((hi_u - 0x1_0000_0000) * 0x1_0000_0000, a_shifted);
    } else {
        assert(hi == hi_u);
        lemma_as_i64_wrap(hi_u * 0x1_0000_0000, a_shifted);
    }
}

/// `take_bits(s, 32)` of a 48-bit state is its arithmetic shift by 16.
pub open spec fn take_bits_is_shift(s: i64) -> bool {
    crate::random::take_bits(s as int, 32) == s / 0x10000i64
}

/// A value cast into `i64` differs from the original by at most one multiple
/// of 2^64, in either direction, and is congruent modulo 2^64.
proof fn lemma_as_i64_wrap(x: int, r: i64)
    requires
        -0x8000_0000_0000_0000_0000_0000 <= x <= 0x8000_0000_0000_0000_0000_0000,
        r as int == x || r as int == x - 0x1_0000_0000_0000_0000 || r as int == x
            + 0x1_0000_0000_0000_0000,
    ensures
        r as int == x || r as int == x - 0x1_0000_0000_0000_0000 || r as int == x
            + 0x1_0000_0000_0000_0000,
        (r as int) % 0x1_0000_0000_0000_0000 == x % 0x1_0000_0000_0000_0000,
{
    let m = 0x1_0000_0000_0000_0000int;
    if r as int == x - m {
        vstd::arithmetic::div_mod::lemma_mod_sub_multiples_vanish(x, m);
    } else if r as int == x + m {
        vstd::arithmetic::div_mod::lemma_mod_add_multiples_vanish(x, m);
    }
}

/// Reassembles the two words with wrapping addition: the result is the
/// wrapped sum of the exact high product and the low word.
proof fn lemma_wrap_assembly(a_shifted: i64, rec_b: i64, hi: int, lo: int, sum: i64)
    requires
        -0x8000_0000 <= hi < 0x8000_0000,
        -0x8000_0000 <= lo < 0x8000_0000,
        rec_b == lo,
        a_shifted as int % 0x1_0000_0000_0000_0000 == (hi * 0x1_0000_0000)
            % 0x1_0000_0000_0000_0000,
        sum == a_shifted.wrapping_add(rec_b),
    ensures
        sum == wrap_i64(hi * 0x1_0000_0000 + lo),
{
    let m = 0x1_0000_0000_0000_0000int;
    let exact = hi * 0x1_0000_0000 + lo;
    // Both sides are congruent modulo 2^64 and lie in the i64 range.
    crate::lcg::lemma_mod_add2(a_shifted as int, rec_b as int, hi * 0x1_0000_0000, lo, m);
    let w = wrap_i64(exact);
    assert(-0x8000_0000_0000_0000 <= w < 0x8000_0000_0000_0000);
    assert(w % m == exact % m) by {
        if exact > i64::MAX {
            vstd::arithmetic::div_mod::lemma_mod_sub_multiples_vanish(exact, m);
        } else if exact < i64::MIN {
            vstd::arithmetic::div_mod::lemma_mod_add_multiples_vanish(exact, m);
        }
    }
    assert(sum as int % m == (a_shifted + rec_b) % m) by {
        let s2 = a_shifted + rec_b;
        if sum as int == s2 - m {
            vstd::arithmetic::div_mod::lemma_mod_sub_multiples_vanish(s2, m);
        } else if sum as int == s2 + m {
            vstd::arithmetic::div_mod::lemma_mod_add_multiples_vanish(s2, m);
        }
    }
    // Congruent i64 values are equal.
    lemma_i64_congruent_equal(sum, w);
}

/// Two `i64` values congruent modulo 2^64 are equal.
proof fn lemma_i64_congruent_equal(a: i64, b: int)
    requires
        -0x8000_0000_0000_0000 <= b < 0x8000_0000_0000_0000,
        (a as int) % 0x1_0000_0000_0000_0000 == b % 0x1_0000_0000_0000_0000,
    ensures
        a == b,
{
    let m = 0x1_0000_0000_0000_0000int;
    vstd::arithmetic::div_mod::lemma_fundamental_div_mod(a as int, m);
    vstd::arithmetic::div_mod::lemma_fundamental_div_mod(b, m);
    let qa = (a as int) / m;
    let qb = b / m;
    assert(a as int - b == m * qa - m * qb);
    assert(m * qa - m * qb == m * (qa - qb)) by (nonlinear_arith);
    assert(-m < a as int - b < m);
    assert(qa == qb) by (nonlinear_arith)
        requires
            a as int - b == m * (qa - qb) && -m < a as int - b < m && m > 0,
    ;
}

/// One stage-W candidate in any-seed mode: the enumerated high 16 bits glued
/// above the structure seed.
pub fn world_seed_candidate_any(structure_seed: i64, seed_hi: i64) -> (r: i64)
    requires
        0 <= structure_seed < JAVA_MODULUS,
        0 <= seed_hi < 0x10000,
    ensures
        r == (seed_hi << 48u32) | structure_seed,
        r & 0xFFFF_FFFF_FFFFi64 == structure_seed,
{
    proof {
        assert(((seed_hi << 48u32) | structure_seed) & 0xFFFF_FFFF_FFFFi64 == structure_seed)
            by (bit_vector)
            requires
                0 <= structure_seed < 0x1_0000_0000_0000i64,
                0 <= seed_hi < 0x10000,
        ;
    }
    (seed_hi << 48u32) | structure_seed
}

/// An observation a stage-S candidate must satisfy.
#[derive(Debug, Clone)]
pub enum StructureData {
    /// A buried-treasure chest read in game: chunk position, luck, and the
    /// pre-tabulated chest.
    BuriedTreasureContents {
        chunk_x: i32,
        chunk_z: i32,
        luck: i32,
        contents: FastInventoryCompareContext,
    },
}

impl StructureData {
    /// Bounds under which the observation can be checked.
    pub open spec fn wf(self) -> bool {
        match self {
            StructureData::BuriedTreasureContents { chunk_x, chunk_z, luck, contents } => {
                &&& -0x800_0000 <= chunk_x < 0x800_0000
                &&& -0x800_0000 <= chunk_z < 0x800_0000
                &&& 0 <= luck <= 0xFF
                &&& contents.items_count@.len() == 12
                &&& forall|i: int|
                    0 <= i < 12 ==> 0 <= #[trigger] contents.items_count@[i] < 0x7FFF_0000
                &&& 0 <= contents.total_items < 0x7FFF_0000
                &&& contents.inventory.wf()
            },
        }
    }

    /// Whether a candidate seed satisfies the observation.
    pub open spec fn spec_check_seed(self, seed: i64) -> bool {
        match self {
            StructureData::BuriedTreasureContents { chunk_x, chunk_z, luck, contents } => {
                &&& spec_generates_at(seed, chunk_x, chunk_z)
                &&& spec_compare_fast(
                    spec_buried_treasure_table(),
                    luck as int,
                    scramble(spec_buried_treasure_loot_seed(seed, chunk_x, chunk_z)) as int,
                    contents.items_count@.map_values(|x: i32| x as int),
                    contents.total_items as int,
                    contents.inventory.contents(),
                )
            },
        }
    }

    /// Checks a candidate seed against the observation: the chunk must carry
    /// a buried treasure whose fast chest replay matches.
    pub fn check_seed(&self, seed: i64) -> (r: bool)
        requires
            self.wf(),
        ensures
            r == self.spec_check_seed(seed),
    {
        match self {
            StructureData::BuriedTreasureContents { chunk_x, chunk_z, luck, contents } => {
                if !crate::buried_treasure::generates_at(seed, (*chunk_x, *chunk_z)) {
                    return false;
                }
                crate::buried_treasure::compare_buried_treasure_fast_noinv(
                    seed,
                    (*chunk_x, *chunk_z),
                    *luck,
                    contents,
                )
            },
        }
    }
}



/// Every observation is well formed.
pub open spec fn data_wf(data: Seq<StructureData>) -> bool {
    forall|i: int| 0 <= i < data.len() ==> (#[trigger] data[i]).wf()
}

/// A candidate seed passes every observation.
pub open spec fn data_passes(data: Seq<StructureData>, seed: i64) -> bool {
    forall|i: int| 0 <= i < data.len() ==> (#[trigger] data[i]).spec_check_seed(seed)
}

/// Checks a candidate seed against every observation.
pub fn check_all(data: &Vec<StructureData>, seed: i64) -> (r: bool)
    requires
        data_wf(data@),
    ensures
        r == data_passes(data@, seed),
{
    let mut i: usize = 0;
    while i < data.len()
        invariant
            i <= data@.len(),
            data_wf(data@),
            forall|k: int| 0 <= k < i ==> (#[trigger] data@[k]).spec_check_seed(seed),
        decreases data@.len() - i,
    {
        if !data[i].check_seed(seed) {
            return false;
        }
        i = i + 1;
    }
    true
}

/// The surviving structure seeds of one stage-S row: the candidates of the
/// first `n` low halves under a fixed high half, in enumeration order,
/// keeping exactly those that pass every observation.
pub open spec fn row_survivors(
    pillar_seed: i64,
    state_hi: i64,
    data: Seq<StructureData>,
    n: nat,
) -> Seq<i64>
    decreases n,
{
    if n == 0 {
        Seq::empty()
    } else {
        let pre = row_survivors(pillar_seed, state_hi, data, (n - 1) as nat);
        let seed = spec_structure_seed_candidate(pillar_seed, state_hi, (n - 1) as i64);
        if data_passes(data, seed) {
            pre.push(seed)
        } else {
            pre
        }
    }
}

/// One row of the stage-S scan: walks all 2^16 low halves of the candidate
/// state and returns, in order, every structure seed that passes all
/// observations.
pub fn scan_structure_seeds(pillar_seed: i64, state_hi: i64, data: &Vec<StructureData>) -> (r:
    Vec<i64>)
    requires
        0 <= pillar_seed < 0x10000,
        0 <= state_hi < 0x10000,
        data_wf(data@),
    ensures
        r@ == row_survivors(pillar_seed, state_hi, data@, 0x10000),
        forall|k: int| 0 <= k < r@.len() ==> data_passes(data@, #[trigger] r@[k]),
    {
    let mut out: Vec<i64> = Vec::new();
    let mut lo: i64 = 0;
    proof {
        assert(out@ =~= row_survivors(pillar_seed, state_hi, data@, 0));
    }
    while lo < 0x10000
        invariant
            0 <= lo <= 0x10000,
            0 <= pillar_seed < 0x10000,
            0 <= state_hi < 0x10000,
            data_wf(data@),
            out@ == row_survivors(pillar_seed, state_hi, data@, lo as nat),
            forall|k: int| 0 <= k < out@.len() ==> data_passes(data@, #[trigger] out@[k]),
        decreases 0x10000 - lo,
    {
        let seed = structure_seed_candidate(pillar_seed, state_hi, lo);
        if check_all(data, seed) {
            out.push(seed);
        }
        lo = lo + 1;
    }
    out
}

/// The stage-W candidates in random mode of the first `n` low state halves,
/// deduplicated, in first-appearance order.
pub open spec fn w_candidates(structure_seed: i64, n: nat) -> Seq<i64>
    decreases n,
{
    if n == 0 {
        Seq::empty()
    } else {
        let pre = w_candidates(structure_seed, (n - 1) as nat);
        let ws = (long_value(spec_w_source(structure_seed, (n - 1) as i64)) as i64);
        if ws & 0xFFFF_FFFF_FFFFi64 == structure_seed {
            if pre.contains(ws) {
                pre
            } else {
                pre.push(ws)
            }
        } else {
            pre
        }
    }
}

/// Whether a value occurs in the vector.
fn contains_seed(v: &Vec<i64>, x: i64) -> (r: bool)
    ensures
        r == v@.contains(x),
{
    let mut i: usize = 0;
    while i < v.len()
        invariant
            i <= v@.len(),
            forall|k: int| 0 <= k < i ==> v@[k] != x,
        decreases v@.len() - i,
    {
        if v[i] == x {
            return true;
        }
        i = i + 1;
    }
    proof {
        assert(!v@.contains(x));
    }
    false
}

/// The full stage-W enumeration in random mode: every reconstruction over
/// the 2^16 low state halves whose low 48 bits equal the structure seed,
/// deduplicated; every candidate carries the structure seed in its low bits.
pub fn world_seed_candidates_random(structure_seed: i64) -> (r: Vec<i64>)
    requires
        0 <= structure_seed < JAVA_MODULUS,
    ensures
        r@ == w_candidates(structure_seed, 0x10000),
        forall|k: int|
            0 <= k < r@.len() ==> (#[trigger] r@[k]) & 0xFFFF_FFFF_FFFFi64 == structure_seed,
{
    let mut out: Vec<i64> = Vec::new();
    let mut lo: i64 = 0;
    proof {
        assert(out@ =~= w_candidates(structure_seed, 0));
    }
    while lo < 0x10000
        invariant
            0 <= lo <= 0x10000,
            0 <= structure_seed < JAVA_MODULUS,
            out@ == w_candidates(structure_seed, lo as nat),
            forall|k: int|
                0 <= k < out@.len() ==> (#[trigger] out@[k]) & 0xFFFF_FFFF_FFFFi64
                    == structure_seed,
        decreases 0x10000 - lo,
    {
        match world_seed_candidate_random(structure_seed, lo) {
            Some(ws) => {
                if !contains_seed(&out, ws) {
                    out.push(ws);
                }
            },
            None => {},
        }
        lo = lo + 1;
    }
    out
}

/// Biome observations of a candidate world, with biomes as the engine's
/// numeric ids: `(x, y, z, biome)` samples per dimension.
#[derive(Debug, Clone)]
pub enum WorldExtraData {
    OverworldBiomeData(Vec<(i32, i32, i32, i32)>),
    NetherBiomeData(Vec<(i32, i32, i32, i32)>),
}

impl WorldExtraData {
    /// The overworld samples, if this is overworld data.
    pub fn as_overworld(&self) -> (r: Option<&Vec<(i32, i32, i32, i32)>>)
        ensures
            self matches WorldExtraData::OverworldBiomeData(d) ==> (r matches Some(v) && v@
                == d@),
            self matches WorldExtraData::NetherBiomeData(_d) ==> r is None,
    {
        match self {
            WorldExtraData::OverworldBiomeData(data) => Some(data),
            _ => None,
        }
    }

    /// The nether samples, if this is nether data.
    pub fn as_nether(&self) -> (r: Option<&Vec<(i32, i32, i32, i32)>>)
        ensures
            self matches WorldExtraData::NetherBiomeData(d) ==> (r matches Some(v) && v@ == d@),
            self matches WorldExtraData::OverworldBiomeData(_d) ==> r is None,
    {
        match self {
            WorldExtraData::NetherBiomeData(data) => Some(data),
            _ => None,
        }
    }
}

/// The decision of the stage-W biome filter: a candidate passes when the
/// engine's answer at every sampled position equals the observed biome.  The
/// caller queries the engine and hands the answers over, one per sample and
/// in order; a missing answer (an engine error) rejects.
pub fn biomes_match(observed: &Vec<(i32, i32, i32, i32)>, queried: &Vec<Option<i32>>) -> (r:
    bool)
    ensures
        r == (queried@.len() == observed@.len() && forall|i: int|
            0 <= i < observed@.len() ==> #[trigger] queried@[i] == Some(observed@[i].3)),
{
    if queried.len() != observed.len() {
        return false;
    }
    let mut i: usize = 0;
    while i < observed.len()
        invariant
            i <= observed@.len(),
            queried@.len() == observed@.len(),
            forall|k: int| 0 <= k < i ==> #[trigger] queried@[k] == Some(observed@[k].3),
        decreases observed@.len() - i,
    {
        let ok = match queried[i] {
            Some(b) => b == observed[i].3,
            None => false,
        };
        if !ok {
            return false;
        }
        i = i + 1;
    }
    true
}

} // verus!
