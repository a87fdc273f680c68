//! Tests of the buried-treasure feature: loot-table seeds, full chest
//! generation against in-game observations, and the fast comparison.

use mcseedcracker::buried_treasure::{
    compare_buried_treasure_fast, get_buried_treasure, get_buried_treasure_loot_table_seed,
    COOKED_COD, COOKED_SALMON, EMERALD, GOLD_INGOT, HEART_OF_THE_SEA, IRON_INGOT, IRON_SWORD,
    LEATHER_CHESTPLATE, PRISMARINE_CRYSTALS,
};
use mcseedcracker::loot_table::{
    build_fast_inventory_compare_context, chests_equal, ItemStack, SingleChest,
};
use mcseedcracker::math::Math;

fn try_seed(world_seed: i64, block_pos: (i32, i32), expected_seed: i64) {
    let chunk_pos = Math::block_coords_to_chunk_coords(block_pos);
    let seed = get_buried_treasure_loot_table_seed(world_seed, chunk_pos);

    assert_eq!(seed, expected_seed);
}

#[test]
fn test_get_buried_treasure_loot_table_seed() {
    try_seed(-1196950963516084279, (-263, -631), -8385268767001419331);
    try_seed(-1196950963516084279, (-967, -263), -476893202187324250);
    try_seed(-1196950963516084279, (-1623, 2313), -3040734584507572075);
    try_seed(-1196950963516084279, (1577, -119), 4124829516682148077);
    try_seed(-1196950963516084279, (3065, 73), 2624351164082513070);

    try_seed(5060469206885489010, (-471, -487), -3569869351127392342);
    try_seed(5060469206885489010, (1529, 1545), -6427291606560533701);
    try_seed(5060469206885489010, (-1655, -1223), -5106311890032048027);
    try_seed(5060469206885489010, (-1351, 89), -5254890889807058324);
    try_seed(5060469206885489010, (-71, -1703), 4938918426473305890);

    try_seed(657814009800288117, (-87, -23), 1749169673229764907);

    try_seed(-5663557327879906173, (-807, 249), 3594531169643699093);
    try_seed(-5663557327879906173, (99865, 99657), -2036158166124562196);
    try_seed(
        -5663557327879906173,
        (25699753, 1447817),
        2165141908458726548,
    );
}

/// Builds a chest from 27 slot descriptions: `(item, count, max_count)`,
/// with 0 items standing for an empty slot.
fn chest_of(slots: [(usize, i32, i32); 27]) -> SingleChest {
    let mut chest = SingleChest::new();
    let mut i: i32 = 0;
    for (item, count, max_count) in slots {
        if item != 0 {
            chest.set_item(i, Some(ItemStack::new(item, count, max_count)));
        }
        i += 1;
    }
    chest
}

#[test]
fn test_buried_treasure_chest() {
    let ingame = chest_of([
        (0, 0, 0),
        (IRON_INGOT, 1, 64),
        (IRON_INGOT, 2, 64),
        (LEATHER_CHESTPLATE, 1, 1),
        (IRON_INGOT, 1, 64),
        (0, 0, 0),
        (EMERALD, 2, 64),
        (EMERALD, 1, 64),
        (COOKED_SALMON, 1, 64),
        (EMERALD, 2, 64),
        (IRON_INGOT, 1, 64),
        (0, 0, 0),
        (COOKED_SALMON, 1, 64),
        (HEART_OF_THE_SEA, 1, 64),
        (COOKED_SALMON, 1, 64),
        (IRON_INGOT, 2, 64),
        (IRON_INGOT, 1, 64),
        (IRON_INGOT, 1, 64),
        (0, 0, 0),
        (COOKED_SALMON, 1, 64),
        (IRON_INGOT, 1, 64),
        (COOKED_SALMON, 1, 64),
        (IRON_INGOT, 2, 64),
        (IRON_INGOT, 1, 64),
        (0, 0, 0),
        (COOKED_SALMON, 1, 64),
        (COOKED_SALMON, 1, 64),
    ]);

    let generated = get_buried_treasure(
        1094031370582075292,
        Math::block_coords_to_chunk_coords((-55, 3241)),
        0,
    );

    assert!(chests_equal(&ingame, &generated));
}

#[test]
fn test_buried_treasure_chest2() {
    let ingame = chest_of([
        (COOKED_COD, 1, 64),
        (IRON_INGOT, 1, 64),
        (IRON_SWORD, 1, 1),
        (COOKED_COD, 1, 64),
        (IRON_INGOT, 1, 64),
        (IRON_INGOT, 1, 64),
        (0, 0, 0),
        (0, 0, 0),
        (0, 0, 0),
        (GOLD_INGOT, 2, 64),
        (COOKED_COD, 2, 64),
        (IRON_INGOT, 1, 64),
        (HEART_OF_THE_SEA, 1, 64),
        (IRON_INGOT, 1, 64),
        (IRON_INGOT, 1, 64),
        (COOKED_COD, 2, 64),
        (0, 0, 0),
        (0, 0, 0),
        (GOLD_INGOT, 1, 64),
        (IRON_INGOT, 1, 64),
        (COOKED_COD, 1, 64),
        (IRON_INGOT, 1, 64),
        (COOKED_COD, 1, 64),
        (IRON_INGOT, 1, 64),
        (PRISMARINE_CRYSTALS, 3, 64),
        (PRISMARINE_CRYSTALS, 1, 64),
        (0, 0, 0),
    ]);

    let generated = get_buried_treasure(
        -7193194438565520372,
        Math::block_coords_to_chunk_coords((409, 809)),
        0,
    );

    assert!(chests_equal(&ingame, &generated));
}

#[test]
fn test_buried_treasure_fast_compare() {
    let mut chest = SingleChest::new();

    for seed in 0..100 {
        for chunk_x in 0..10 {
            for chunk_z in 0..10 {
                let standard = get_buried_treasure(seed, (chunk_x, chunk_z), 0);
                let ctx = build_fast_inventory_compare_context(standard);

                assert!(
                    compare_buried_treasure_fast(seed, (chunk_x, chunk_z), 0, &ctx, &mut chest),
                    "failed fast compare for seed {} chunk_x {} chunk_z {}",
                    seed,
                    chunk_x,
                    chunk_z
                );
            }
        }
    }
}

#[test]
fn test_fast_compare_invariants() {
    for i in 0..100 {
        let seed: i64 = 0x123456789ABCDEF + i;
        let mystery_chest = get_buried_treasure(seed, (12, 34), 0);

        let mut chest = SingleChest::new();
        let ctx = build_fast_inventory_compare_context(mystery_chest);

        for cx in 0..50 {
            for cz in 0..50 {
                assert_eq!(
                    compare_buried_treasure_fast(seed, (cx, cz), 0, &ctx, &mut chest),
                    (cx == 12) && (cz == 34),
                    "Wrong fast compare result for cx {} cz {}",
                    cx,
                    cz
                );
            }
        }
    }
}
