//! Tests of the integer helpers: the modular inverse and the coordinate
//! conversions.

use mcseedcracker::math::Math;

#[test]
fn test_mod_inverse_pow_2() {
    let tests: [(i64, i32); 6] = [
        (17, 51),
        (1918615165151321, 54),
        (13185, 22),
        (17799111, 38),
        (131, 8),
        (18919, 17),
    ];

    for (value, n) in tests {
        let inv = Math::mod_inverse_pow_2(value, n);
        let prod = value.wrapping_mul(inv);
        let final_res = Math::mask(prod, n);

        // x * x^-1 = 1
        assert_eq!(final_res, 1);
    }
}

#[test]
fn test_mod_inverse_pow_2_exact() {
    // 17 * inv == 1 (mod 2^51), stated with the exact product.
    let inv = Math::mod_inverse_pow_2(17, 51);
    assert_eq!(Math::mask(17i64.wrapping_mul(inv), 51), 1);
}

#[test]
fn test_block_coords_to_chunk_coords() {
    assert_eq!(Math::block_coords_to_chunk_coords((409, 809)), (25, 50));
    assert_eq!(Math::block_coords_to_chunk_coords((-1, -16)), (-1, -1));
    assert_eq!(Math::block_coords_to_chunk_coords((-17, 15)), (-2, 0));
}

#[test]
fn test_chunk_coords_to_region_coords() {
    assert_eq!(Math::chunk_coords_to_region_coords((31, 32)), (0, 1));
    assert_eq!(Math::chunk_coords_to_region_coords((-1, -33)), (-1, -2));
}

#[test]
fn test_mask_and_pow() {
    assert_eq!(Math::pow_2(31), 0x8000_0000);
    assert_eq!(Math::get_mask(16), 0xFFFF);
    assert_eq!(Math::mask(-1, 16), 0xFFFF);
    assert_eq!(Math::mask(0x12345, 8), 0x45);
}
