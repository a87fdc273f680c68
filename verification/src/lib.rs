//! Recovery of a voxel world's 64-bit generation seed from in-game
//! observations: end-pillar heights, a buried-treasure chest layout and a few
//! biome samples.  The core is a bit-exact model of the game's 48-bit linear
//! congruential generator together with the three staged searches that invert
//! it: pillar seed (16 bits), structure seed (48 bits), world seed (64 bits).

pub mod lcg;
pub mod math;
pub mod random;
pub mod loot_table;
pub mod end_pillars;
pub mod buried_treasure;
pub mod bastion;
pub mod search;
pub mod durability;
pub mod discrete_log;
