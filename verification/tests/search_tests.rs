//! Tests of the staged-search candidate arithmetic on the known end-to-end
//! scenario: world seed -7193194438565520372, buried treasure at block
//! (409, 809), pillar seed 13847, structure seed 180066252004364.

use mcseedcracker::buried_treasure::{generates_at, get_buried_treasure};
use mcseedcracker::loot_table::build_fast_inventory_compare_context;
use mcseedcracker::math::Math;
use mcseedcracker::search::{
    finish_status, structure_seed_candidate, world_seed_candidate_any,
    world_seed_candidate_random, Status, StructureData,
};

#[test]
fn test_structure_seed_candidate_known_point() {
    // The stage-S index that holds the known structure seed: the two-step
    // forward state of the unscrambled seed decomposes into these halves.
    let ss = structure_seed_candidate(13847, 47523, 57987);
    assert_eq!(ss, 180066252004364);
}

#[test]
fn test_structure_observation_accepts_true_seed() {
    let chunk = Math::block_coords_to_chunk_coords((409, 809));
    let world_seed = -7193194438565520372i64;
    let ss = 180066252004364i64;

    let chest = get_buried_treasure(world_seed, chunk, 0);
    let ctx = build_fast_inventory_compare_context(chest);
    let obs = StructureData::BuriedTreasureContents {
        chunk_x: chunk.0,
        chunk_z: chunk.1,
        luck: 0,
        contents: ctx,
    };

    // The true structure seed passes; its neighbours fail.
    assert!(obs.check_seed(ss));
    assert!(!obs.check_seed(ss + 1));
    assert!(!obs.check_seed(ss - 1));
}

#[test]
fn test_generates_at_known_chunk() {
    let chunk = Math::block_coords_to_chunk_coords((409, 809));
    assert!(generates_at(180066252004364, chunk));
    assert!(generates_at(-7193194438565520372, chunk));
}

#[test]
fn test_stage_w_random_recovers_world_seed() {
    // Scanning the 2^16 low state bits reconstructs the game-generated world
    // seed among the candidates, every candidate keeping the structure seed
    // in its low 48 bits.
    let ss = 180066252004364i64;
    let mut candidates: Vec<i64> = Vec::new();
    for lo in 0..65536 {
        if let Some(ws) = world_seed_candidate_random(ss, lo) {
            assert_eq!(ws & 0xFFFF_FFFF_FFFF, ss);
            if !candidates.contains(&ws) {
                candidates.push(ws);
            }
        }
    }
    assert!(candidates.contains(&-7193194438565520372i64));
    assert!(candidates.contains(&-1253228005040546804i64));
    assert_eq!(candidates.len(), 2);
}

#[test]
fn test_stage_w_any_mode() {
    let ss = 180066252004364i64;
    let expected_hi = ((-7193194438565520372i64 as u64) >> 48) as i64;
    let ws = world_seed_candidate_any(ss, expected_hi);
    assert_eq!(ws, -7193194438565520372);
    assert_eq!(world_seed_candidate_any(ss, 0), ss);
}

#[test]
fn test_finish_status() {
    let s = finish_status(false, vec![1, 2], 5);
    assert!(matches!(s, Status::Complete { seeds } if seeds == vec![1, 2]));
    let s = finish_status(false, vec![1, 2, 3], 2);
    assert!(matches!(s, Status::TooManySeeds { seeds_incomplete } if seeds_incomplete.len() == 3));
    let s = finish_status(true, vec![7], 5);
    assert!(matches!(s, Status::Cancelled { seeds_incomplete } if seeds_incomplete == vec![7]));
}
