//! Tests of the loot evaluator: per-item totals of the buried-treasure table
//! at recorded seeds.

use mcseedcracker::buried_treasure::{
    get_loot_table, COOKED_COD, COOKED_SALMON, DIAMOND, EMERALD, GOLD_INGOT, HEART_OF_THE_SEA,
    IRON_INGOT, PRISMARINE_CRYSTALS, TNT,
};
use mcseedcracker::loot_table::ItemStack;
use mcseedcracker::random::JavaRandom;

fn check_loot(seed: i64, loot: Vec<ItemStack>, expected: Vec<ItemStack>) {
    for e in &expected {
        let got: i32 = loot.iter().filter(|s| s.item == e.item).map(|s| s.count).sum();
        assert_eq!(
            got, e.count,
            "Wrong count for item {} with loot seed {}",
            e.item, seed
        );
    }
    for s in &loot {
        let want: i32 = expected.iter().filter(|e| e.item == s.item).map(|e| e.count).sum();
        let got: i32 = loot.iter().filter(|l| l.item == s.item).map(|l| l.count).sum();
        assert_eq!(
            got, want,
            "Unexpected item {} with loot seed {}",
            s.item, seed
        );
    }
}

#[test]
pub fn test_burried_treasure_loot_table() {
    let lt = get_loot_table();

    {
        // World seed: -1196950963516084279, coords: -263 -631
        let loot_seed = -8385268767001419331i64;
        let loot = lt.generate_unverified_stacked_loot(&mut JavaRandom::new(loot_seed), 0);
        check_loot(
            loot_seed,
            loot,
            vec![
                ItemStack::of(PRISMARINE_CRYSTALS, 4),
                ItemStack::of(DIAMOND, 3),
                ItemStack::of(IRON_INGOT, 9),
                ItemStack::of(COOKED_SALMON, 6),
                ItemStack::of(GOLD_INGOT, 6),
                ItemStack::of(HEART_OF_THE_SEA, 1),
            ],
        );
    }
    {
        // World seed: -1196950963516084279, coords: -967 -263
        let loot_seed = -476893202187324250;
        let loot = lt.generate_unverified_stacked_loot(&mut JavaRandom::new(loot_seed), 0);
        check_loot(
            loot_seed,
            loot,
            vec![
                ItemStack::of(GOLD_INGOT, 10),
                ItemStack::of(COOKED_COD, 2),
                ItemStack::of(IRON_INGOT, 7),
                ItemStack::of(COOKED_SALMON, 3),
                ItemStack::of(EMERALD, 8),
                ItemStack::of(DIAMOND, 3),
                ItemStack::of(TNT, 1),
                ItemStack::of(HEART_OF_THE_SEA, 1),
            ],
        );
    }
}

#[test]
fn test_loot_determinism() {
    // Two runs from equal inputs produce identical stacked totals.
    let lt = get_loot_table();
    for seed in [-8385268767001419331i64, -476893202187324250, 42, 0] {
        let a = lt.generate_unverified_stacked_loot(&mut JavaRandom::new(seed), 0);
        let b = lt.generate_unverified_stacked_loot(&mut JavaRandom::new(seed), 0);
        assert_eq!(a.len(), b.len());
        for (x, y) in a.iter().zip(b.iter()) {
            assert_eq!(x.item, y.item);
            assert_eq!(x.count, y.count);
        }
    }
}
