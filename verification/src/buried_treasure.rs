//! The buried-treasure feature: where a chunk carries a chest, the seed its
//! loot is drawn from, the loot table itself, and the fast chest comparison
//! that stage S rejects candidate seeds with.

use vstd::prelude::*;

verus! {

use crate::loot_table::{
    FastInventoryCompareContext, ItemLootPoolEntry, ItemLootPoolEntryBuilder, ItemLootPoolEntryV,
    LootFunction, LootFunctionV, LootPool, LootPoolBuilder, LootPoolV, LootTable,
    LootTableBuilder, LootTableRange, SetCountFunction, SingleChest, spec_compare_fast,
    spec_generate_in_inventory, table_wf, table_items_below, empty_chest,
    chest_count_upto, chest_total_upto, lemma_nonneg_luck_positive, table_tame, rolls_cap,
    range_peak, entry_tame, lemma_table_gen_tame, lemma_compare_fast_round_trip,
    lemma_compare_fast_complete, ItemStackV,
};
use crate::math::Math;
use crate::random::{
    JavaRandom, scramble, java_next, take_bits, spec_population_seed, spec_decorator_seed,
    spec_region_seed, long_value, java_iter, random_with_decorator_seed,
    random_with_population_seed, random_with_region_seed,
};

/// The buried-treasure region salt.
pub const SALT: i32 = 10387320;

/// The generation cutoff on the 24-bit draw: `next(24) < 167773` holds
/// exactly when Java's `nextFloat() < 0.01f` does, since `nextFloat` is
/// `next(24) / 2^24` and `0.01f` rounds to `10737418 / 2^30`.
pub const PROB_CUTOFF_24: i32 = 167773;

/// Palette of the buried-treasure chest.
pub const HEART_OF_THE_SEA: usize = 1;

pub const IRON_INGOT: usize = 2;

pub const GOLD_INGOT: usize = 3;

pub const TNT: usize = 4;

pub const EMERALD: usize = 5;

pub const DIAMOND: usize = 6;

pub const PRISMARINE_CRYSTALS: usize = 7;

pub const LEATHER_CHESTPLATE: usize = 8;

pub const IRON_SWORD: usize = 9;

pub const COOKED_COD: usize = 10;

pub const COOKED_SALMON: usize = 11;

/// Whether a chunk generates a buried treasure: the first 24-bit draw of the
/// salted region generator falls under the 1% cutoff.
pub open spec fn spec_generates_at(world_seed: i64, chunk_x: i32, chunk_z: i32) -> bool {
    take_bits(
        java_next(scramble(spec_region_seed(world_seed, chunk_x, chunk_z, SALT)) as int),
        24,
    ) < PROB_CUTOFF_24
}

/// Whether a chunk generates a buried treasure.
pub fn generates_at(world_seed: i64, chunk_pos: (i32, i32)) -> (r: bool)
    ensures
        r == spec_generates_at(world_seed, chunk_pos.0, chunk_pos.1),
{
    let (mut rng, _seed) = random_with_region_seed(world_seed, chunk_pos.0, chunk_pos.1, SALT);
    rng.next(24) < PROB_CUTOFF_24
}

/// The decorator state that rolls a chunk's buried-treasure chest.
pub open spec fn spec_buried_treasure_decorator_seed(
    world_seed: i64,
    chunk_x: i32,
    chunk_z: i32,
) -> i64 {
    spec_decorator_seed(
        spec_population_seed(world_seed, (chunk_x * 16) as i32, (chunk_z * 16) as i32),
        1,
        30,
    )
}

/// The loot-table seed of a chunk's chest: one `nextLong` of the decorator
/// generator.
pub open spec fn spec_buried_treasure_loot_seed(
    world_seed: i64,
    chunk_x: i32,
    chunk_z: i32,
) -> i64 {
    (long_value(
        scramble(spec_buried_treasure_decorator_seed(world_seed, chunk_x, chunk_z)) as int,
    )) as i64
}

/// The decorator generator of a chunk's buried treasure, with its seed.
pub fn get_buried_treasure_random(world_seed: i64, chunk_pos: (i32, i32)) -> (r: (
    JavaRandom,
    i64,
))
    requires
        -0x800_0000 <= chunk_pos.0 < 0x800_0000,
        -0x800_0000 <= chunk_pos.1 < 0x800_0000,
    ensures
        r.1 == spec_buried_treasure_decorator_seed(world_seed, chunk_pos.0, chunk_pos.1),
        r.0.wf(),
        r.0.state() == scramble(r.1),
{
    let block_pos = Math::relative_chunk_coords(chunk_pos, (0, 0));
    let population_seed = random_with_population_seed(world_seed, block_pos.0, block_pos.1).1;
    random_with_decorator_seed(population_seed, 1, 30)
}

/// The loot-table seed of a chunk's buried-treasure chest.
pub fn get_buried_treasure_loot_table_seed(world_seed: i64, chunk_pos: (i32, i32)) -> (r: i64)
    requires
        -0x800_0000 <= chunk_pos.0 < 0x800_0000,
        -0x800_0000 <= chunk_pos.1 < 0x800_0000,
    ensures
        r == spec_buried_treasure_loot_seed(world_seed, chunk_pos.0, chunk_pos.1),
{
    let (mut rng, _seed) = get_buried_treasure_random(world_seed, chunk_pos);
    rng.next_long()
}

/// One entry without functions, weight 1, quality 1.
pub open spec fn spec_entry_plain(item: int, stack_size: int) -> ItemLootPoolEntryV {
    ItemLootPoolEntryV {
        weight: 1,
        quality: 1,
        stack_size: stack_size,
        item: item,
        functions: Seq::empty(),
    }
}

/// One entry whose only function draws a uniform count.
pub open spec fn spec_entry_counted(item: int, weight: int, min: int, max: int)
    -> ItemLootPoolEntryV {
    ItemLootPoolEntryV {
        weight: weight,
        quality: 1,
        stack_size: 64,
        item: item,
        functions: seq![
            LootFunctionV::SetCount(
                LootTableRange::Uniform { min: min as i32, max: max as i32 },
            ),
        ],
    }
}

/// The buried-treasure loot table: the guaranteed heart of the sea, the
/// ingot pool, the gem pool, the optional armour or sword, and the fish.
pub open spec fn spec_buried_treasure_table() -> Seq<LootPoolV> {
    seq![
        LootPoolV {
            rolls: LootTableRange::Constant { value: 1 },
            entries: seq![spec_entry_plain(HEART_OF_THE_SEA as int, 64)],
        },
        LootPoolV {
            rolls: LootTableRange::Uniform { min: 5, max: 8 },
            entries: seq![
                spec_entry_counted(IRON_INGOT as int, 20, 1, 4),
                spec_entry_counted(GOLD_INGOT as int, 10, 1, 4),
                spec_entry_counted(TNT as int, 5, 1, 2),
            ],
        },
        LootPoolV {
            rolls: LootTableRange::Uniform { min: 1, max: 3 },
            entries: seq![
                spec_entry_counted(EMERALD as int, 5, 4, 8),
                spec_entry_counted(DIAMOND as int, 5, 1, 2),
                spec_entry_counted(PRISMARINE_CRYSTALS as int, 5, 1, 5),
            ],
        },
        LootPoolV {
            rolls: LootTableRange::Uniform { min: 0, max: 1 },
            entries: seq![
                spec_entry_plain(LEATHER_CHESTPLATE as int, 1),
                spec_entry_plain(IRON_SWORD as int, 1),
            ],
        },
        LootPoolV {
            rolls: LootTableRange::Constant { value: 2 },
            entries: seq![
                spec_entry_counted(COOKED_COD as int, 1, 2, 4),
                spec_entry_counted(COOKED_SALMON as int, 1, 2, 4),
            ],
        },
    ]
}

/// One plain entry, built.
fn entry_plain(item: usize, stack_size: i32) -> (r: ItemLootPoolEntry)
    ensures
        r@ == spec_entry_plain(item as int, stack_size as int),
{
    ItemLootPoolEntryBuilder::new(item).item_stack_size(stack_size).build()
}

/// One counted entry, built.
fn entry_counted(item: usize, weight: i32, min: i32, max: i32) -> (r: ItemLootPoolEntry)
    ensures
        r@ == spec_entry_counted(item as int, weight as int, min as int, max as int),
{
    let r = ItemLootPoolEntryBuilder::new(item).weight(weight).function(
        SetCountFunction::uniform(min, max).as_function(),
    ).build();
    proof {
        assert(r@.functions =~= spec_entry_counted(
            item as int,
            weight as int,
            min as int,
            max as int,
        ).functions);
    }
    r
}

/// The buried-treasure loot table.
pub fn get_loot_table() -> (r: LootTable)
    ensures
        r@ == spec_buried_treasure_table(),
        table_wf(r@),
        table_items_below(r@, 12),
        r@.len() == 5,
{
    let r = LootTableBuilder::new().pool(
        LootPoolBuilder::new().rolls_const(1).entry_item(entry_plain(HEART_OF_THE_SEA, 64)).build(),
    ).pool(
        LootPoolBuilder::new().rolls_uniform(5, 8).entry_item(
            entry_counted(IRON_INGOT, 20, 1, 4),
        ).entry_item(entry_counted(GOLD_INGOT, 10, 1, 4)).entry_item(
            entry_counted(TNT, 5, 1, 2),
        ).build(),
    ).pool(
        LootPoolBuilder::new().rolls_uniform(1, 3).entry_item(
            entry_counted(EMERALD, 5, 4, 8),
        ).entry_item(entry_counted(DIAMOND, 5, 1, 2)).entry_item(
            entry_counted(PRISMARINE_CRYSTALS, 5, 1, 5),
        ).build(),
    ).pool(
        LootPoolBuilder::new().rolls_uniform(0, 1).entry_item(
            entry_plain(LEATHER_CHESTPLATE, 1),
        ).entry_item(entry_plain(IRON_SWORD, 1)).build(),
    ).pool(
        LootPoolBuilder::new().rolls_const(2).entry_item(
            entry_counted(COOKED_COD, 1, 2, 4),
        ).entry_item(entry_counted(COOKED_SALMON, 1, 2, 4)).build(),
    ).build();
    proof {
        let t = spec_buried_treasure_table();
        assert(r@[0].entries =~= t[0].entries);
        assert(r@[1].entries =~= t[1].entries);
        assert(r@[2].entries =~= t[2].entries);
        assert(r@[3].entries =~= t[3].entries);
        assert(r@[4].entries =~= t[4].entries);
        assert(r@ =~= t);
    }
    r
}

/// The chest a world seed buries in a chunk.
pub fn get_buried_treasure(world_seed: i64, chunk_pos: (i32, i32), luck: i32) -> (r: SingleChest)
    requires
        -0x800_0000 <= chunk_pos.0 < 0x800_0000,
        -0x800_0000 <= chunk_pos.1 < 0x800_0000,
        0 <= luck <= 0xFF,
    ensures
        r.wf(),
        r.contents() == spec_generate_in_inventory(
            spec_buried_treasure_table(),
            empty_chest(),
            luck as int,
            scramble(
                spec_buried_treasure_loot_seed(world_seed, chunk_pos.0, chunk_pos.1),
            ) as int,
        ).0,
{
    let seed = get_buried_treasure_loot_table_seed(world_seed, chunk_pos);
    let mut chest = SingleChest::new();
    let mut rng = JavaRandom::new(seed);
    proof {
        assert(chest.contents() =~= empty_chest());
        lemma_nonneg_luck_positive(spec_buried_treasure_table(), luck as int);
    }
    get_loot_table().generate_in_inventory(&mut chest, &mut rng, luck);
    chest
}

/// The fast chest comparison of a candidate world seed, reusing a scratch
/// chest.
pub fn compare_buried_treasure_fast(
    world_seed: i64,
    chunk_pos: (i32, i32),
    luck: i32,
    compare: &FastInventoryCompareContext,
    temp_inventory: &mut SingleChest,
) -> (r: bool)
    requires
        -0x800_0000 <= chunk_pos.0 < 0x800_0000,
        -0x800_0000 <= chunk_pos.1 < 0x800_0000,
        0 <= luck <= 0xFF,
        compare.items_count@.len() == 12,
        forall|i: int|
            0 <= i < 12 ==> 0 <= #[trigger] compare.items_count@[i] < 0x7FFF_0000,
        0 <= compare.total_items < 0x7FFF_0000,
        compare.inventory.wf(),
        old(temp_inventory).wf(),
    ensures
        final(temp_inventory).wf(),
        r == spec_compare_fast(
            spec_buried_treasure_table(),
            luck as int,
            scramble(
                spec_buried_treasure_loot_seed(world_seed, chunk_pos.0, chunk_pos.1),
            ) as int,
            compare.items_count@.map_values(|x: i32| x as int),
            compare.total_items as int,
            compare.inventory.contents(),
        ),
{
    let seed = get_buried_treasure_loot_table_seed(world_seed, chunk_pos);
    proof {
        lemma_nonneg_luck_positive(spec_buried_treasure_table(), luck as int);
    }
    get_loot_table().compare_fast(JavaRandom::new(seed), luck, compare, temp_inventory)
}

/// The fast chest comparison with its own scratch chest.
pub fn compare_buried_treasure_fast_noinv(
    world_seed: i64,
    chunk_pos: (i32, i32),
    luck: i32,
    compare: &FastInventoryCompareContext,
) -> (r: bool)
    requires
        -0x800_0000 <= chunk_pos.0 < 0x800_0000,
        -0x800_0000 <= chunk_pos.1 < 0x800_0000,
        0 <= luck <= 0xFF,
        compare.items_count@.len() == 12,
        forall|i: int|
            0 <= i < 12 ==> 0 <= #[trigger] compare.items_count@[i] < 0x7FFF_0000,
        0 <= compare.total_items < 0x7FFF_0000,
        compare.inventory.wf(),
    ensures
        r == spec_compare_fast(
            spec_buried_treasure_table(),
            luck as int,
            scramble(
                spec_buried_treasure_loot_seed(world_seed, chunk_pos.0, chunk_pos.1),
            ) as int,
            compare.items_count@.map_values(|x: i32| x as int),
            compare.total_items as int,
            compare.inventory.contents(),
        ),
{
    let mut temp = SingleChest::new();
    compare_buried_treasure_fast(world_seed, chunk_pos, luck, compare, &mut temp)
}


/// The buried-treasure table is well formed, keeps its items below the
/// palette of 12, and never rolls more than 15 stacks, each within its
/// stack size.
pub proof fn lemma_buried_treasure_table_shape()
    ensures
        table_wf(spec_buried_treasure_table()),
        table_items_below(spec_buried_treasure_table(), 12),
        table_tame(spec_buried_treasure_table()),
        rolls_cap(spec_buried_treasure_table()) == 15,
{
    let t = spec_buried_treasure_table();
    assert(table_wf(t)) by {
        assert forall|i: int| 0 <= i < t.len() implies crate::loot_table::pool_wf(
            #[trigger] t[i],
        ) by {
            assert(t[0] == spec_buried_treasure_table()[0]);
        }
    }
    assert(table_items_below(t, 12));
    assert(table_tame(t)) by {
        assert forall|i: int, j: int|
            0 <= i < t.len() && 0 <= j < t[i].entries.len() implies entry_tame(
            #[trigger] t[i].entries[j],
        ) by {
            assert(t[i].entries[j].functions.len() <= 1);
        }
    }
    let t1 = t.drop_first();
    let t2 = t1.drop_first();
    let t3 = t2.drop_first();
    let t4 = t3.drop_first();
    let t5 = t4.drop_first();
    assert(t5 =~= Seq::<LootPoolV>::empty());
    assert(rolls_cap(t) == range_peak(t[0].rolls) + rolls_cap(t1));
    assert(rolls_cap(t1) == range_peak(t1[0].rolls) + rolls_cap(t2));
    assert(rolls_cap(t2) == range_peak(t2[0].rolls) + rolls_cap(t3));
    assert(rolls_cap(t3) == range_peak(t3[0].rolls) + rolls_cap(t4));
    assert(rolls_cap(t4) == range_peak(t4[0].rolls) + rolls_cap(t5));
    assert(rolls_cap(t5) == 0);
    assert(t1[0] == t[1] && t2[0] == t[2] && t3[0] == t[3] && t4[0] == t[4]);
}

/// Fast-compare round trip for the buried treasure: comparing any seed's
/// own chest against its own tabulated tallies succeeds, for every 48-bit
/// generator state and accepted luck.
pub proof fn lemma_buried_treasure_round_trip(luck: int, s: int)
    requires
        0 <= luck <= 0xFF,
        0 <= s < crate::lcg::JAVA_MODULUS,
    ensures
        ({
            let chest = spec_generate_in_inventory(
                spec_buried_treasure_table(),
                empty_chest(),
                luck,
                s,
            ).0;
            spec_compare_fast(
                spec_buried_treasure_table(),
                luck,
                s,
                Seq::new(12, |it: int| chest_count_upto(chest, it, 27)),
                chest_total_upto(chest, 27),
                chest,
            )
        }),
{
    let t = spec_buried_treasure_table();
    lemma_buried_treasure_table_shape();
    lemma_table_gen_tame(t, luck, s);
    lemma_compare_fast_round_trip(t, luck, s, 12);
}


/// The fast comparison decides chest identity for the buried treasure:
/// against any observed chest's own tabulation it answers exactly whether
/// the candidate state generates that chest.  In particular, over a scan of
/// many chunks it accepts precisely the chunks whose chest is the observed
/// one.
pub proof fn lemma_buried_treasure_compare_decides(
    luck: int,
    s: int,
    observed: Seq<Option<ItemStackV>>,
)
    requires
        0 <= luck <= 0xFF,
        0 <= s < crate::lcg::JAVA_MODULUS,
    ensures
        spec_compare_fast(
            spec_buried_treasure_table(),
            luck,
            s,
            Seq::new(12, |it: int| chest_count_upto(observed, it, 27)),
            chest_total_upto(observed, 27),
            observed,
        ) == (spec_generate_in_inventory(
            spec_buried_treasure_table(),
            empty_chest(),
            luck,
            s,
        ).0 == observed),
{
    let t = spec_buried_treasure_table();
    lemma_buried_treasure_table_shape();
    lemma_table_gen_tame(t, luck, s);
    lemma_compare_fast_complete(t, luck, s, 12, observed);
}

} // verus!
