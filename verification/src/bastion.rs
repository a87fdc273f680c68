//! Bastion chest seeds: the decorator generator of a bastion chunk and the
//! per-chest loot-table seed, which skips two generator steps for every
//! earlier chest in the same chunk.

use vstd::prelude::*;

verus! {

use crate::lcg::{LinearCongruentialGenerator, JAVA_MULTIPLIER, JAVA_MODULUS, step_bits};
use crate::math::Math;
use crate::random::{
    JavaRandom, scramble, java_next, spec_population_seed, spec_decorator_seed,
    random_with_decorator_seed, random_with_population_seed, wrap_i64,
};

/// The kinds of bastion chest, each with its own loot table.
#[derive(Debug, Clone, Copy, PartialEq, Eq, Structural)]
pub enum BastionChestType {
    HoglinStables,
    TreasureRoom,
    Bridges,
    Other,
}

/// The decorator seed that rolls a bastion chunk's chests.
pub open spec fn spec_bastion_decorator_seed(world_seed: i64, chunk_x: i32, chunk_z: i32) -> i64 {
    spec_decorator_seed(
        spec_population_seed(world_seed, (chunk_x * 16) as i32, (chunk_z * 16) as i32),
        12,
        40,
    )
}

/// The loot-table seed of the `num`-th chest in a bastion chunk: the
/// decorator state advanced `2 * num` steps, then one `nextLong` assembled
/// from the following two states.
pub open spec fn spec_bastion_loot_seed(
    world_seed: i64,
    chunk_x: i32,
    chunk_z: i32,
    num_chest_in_chunk: i32,
) -> i64 {
    let g = LinearCongruentialGenerator::spec_java_random();
    let k = step_bits((2 * (num_chest_in_chunk as int)) as i64);
    let initial = spec_bastion_decorator_seed(world_seed, chunk_x, chunk_z);
    let state = (g.pow_mult(k) * ((initial ^ JAVA_MULTIPLIER) as int) + g.pow_inc(k)) % (
    JAVA_MODULUS as int);
    let next1 = java_next(state);
    let next2 = java_next(next1);
    (wrap_i64(
        ((((next1 as i64) & 0xFFFF_FFFF_0000i64) << 16u32) as int) + ((((next2 as i64)
            >> 16u32) as i32) as int),
    )) as i64
}

/// The decorator generator of a bastion chunk, with its seed.
pub fn get_bastion_chest_random(world_seed: i64, chunk_pos: (i32, i32)) -> (r: (JavaRandom, i64))
    requires
        -0x800_0000 <= chunk_pos.0 < 0x800_0000,
        -0x800_0000 <= chunk_pos.1 < 0x800_0000,
    ensures
        r.1 == spec_bastion_decorator_seed(world_seed, chunk_pos.0, chunk_pos.1),
        r.0.wf(),
        r.0.state() == scramble(r.1),
{
    let block_pos = Math::relative_chunk_coords(chunk_pos, (0, 0));
    let population_seed = random_with_population_seed(world_seed, block_pos.0, block_pos.1).1;
    random_with_decorator_seed(population_seed, 12, 40)
}

/// The loot-table seed of one bastion chest.
pub fn get_bastion_chest_loot_table_seed(
    world_seed: i64,
    chunk_pos: (i32, i32),
    num_chest_in_chunk: i32,
) -> (r: i64)
    requires
        -0x800_0000 <= chunk_pos.0 < 0x800_0000,
        -0x800_0000 <= chunk_pos.1 < 0x800_0000,
    ensures
        r == spec_bastion_loot_seed(world_seed, chunk_pos.0, chunk_pos.1, num_chest_in_chunk),
{
    let generator = LinearCongruentialGenerator::java_random().combine(
        2i64 * (num_chest_in_chunk as i64),
    );
    let initial_state = get_bastion_chest_random(world_seed, chunk_pos).1;
    let state = generator.next_seed(initial_state ^ JAVA_MULTIPLIER);
    let java = LinearCongruentialGenerator::java_random();
    let next1 = java.next_seed(state);
    let next2 = java.next_seed(next1);
    let ghost g = LinearCongruentialGenerator::spec_java_random();
    let ghost k = step_bits((2 * (num_chest_in_chunk as int)) as i64);
    proof {
        assert(state == (g.pow_mult(k) * ((initial_state ^ JAVA_MULTIPLIER) as int) + g.pow_inc(
            k,
        )) % (JAVA_MODULUS as int));
    }
    let hi = (next1 & 0xFFFF_FFFF_0000) << 16u32;
    let lo = ((next2 >> 16u32) as i32) as i64;
    proof {
        assert(next2 >> 16u32 >= 0 && next2 >> 16u32 < 0x1_0000_0000i64) by (bit_vector)
            requires
                0 <= next2 < 0x1_0000_0000_0000i64,
        ;
    }
    hi.wrapping_add(lo)
}

} // verus!
