//! Tests of the bastion chest seed derivation against recorded values.

use mcseedcracker::bastion::get_bastion_chest_loot_table_seed;
use mcseedcracker::math::Math;

#[test]
pub fn test_bastion_loot_table_seeds() {
    let world_seed: i64 = 734679766044180411;

    let pos_seed = [
        // Hoglin Stables
        ((97, 166), 0, 2799166732823584713i64),   // y=45
        ((109, 198), 0, -5842683475635873897i64), // y=58
        ((105, 207), 1, 4599594689264021764i64),  // y=68
        ((77, 191), 0, -579672944199389002i64),   // y=51
        ((71, 203), 0, 1857409840148546873i64),   // y=72
        ((72, 203), 1, -1295383310854821847i64),  // y=72
        ((75, 203), 2, 3009594620990002609i64),   // y=72
        ((93, 196), 0, 8394382001088795066i64),   // y=35
        ((93, 196), 1, -4983712224012282870i64),  // y=58
        ((89, 205), 2, -1033940057117477349i64),  // y=68
        // Hoglin Stables
        ((-198, 116), 0, -6910931640652618249i64), // y=33
        ((-199, 118), 1, -7642394814910834770i64), // y=39
        // Treasure Room
        ((-724, -94), 0, 6602806808929530262i64), // y=36
        // Treasure Room
        ((-674, -820), 1, 4548431199292841666i64), // y=36
        // Treasure Room
        ((-2564, -1022), 0, -5772293875455727490i64), // y=36
        // Treasure Room
        ((2229, -1107), 0, -2953714471323038189i64), // y=36
    ];

    for (i, (pos, num, seed)) in pos_seed.into_iter().enumerate() {
        let cpos = Math::block_coords_to_chunk_coords(pos);
        let pseed = get_bastion_chest_loot_table_seed(world_seed, cpos, num);
        assert_eq!(
            seed, pseed,
            "#{i} Wrong seed {pseed} for pos {pos:?}, expected {seed}",
        );
    }
}
