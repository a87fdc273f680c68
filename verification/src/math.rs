//! Small integer helpers: powers of two, masking, the Newton inverse modulo a
//! power of two, and block/chunk/region coordinate conversions.

use vstd::prelude::*;

verus! {

use vstd::arithmetic::power2::{pow2, lemma2_to64, lemma2_to64_rest};
use crate::lcg::{lemma_congruent_mod_pow2, lemma_mod_add2, lemma_mod_mul2};
use crate::random::{JavaRandom, bounded_value, bounded_state};

/// The value of `Math::next_int(min, max)` from state `s`: a bounded draw
/// shifted up by `min`, or `min` itself when the range is empty.
pub open spec fn range_value(s: int, min: int, max: int) -> int {
    if min >= max {
        min
    } else {
        min + bounded_value(s, max - min + 1)
    }
}

/// The state `Math::next_int(min, max)` leaves behind.
pub open spec fn range_state(s: int, min: int, max: int) -> int {
    if min >= max {
        s
    } else {
        bounded_state(s, max - min + 1)
    }
}

pub struct Math;

impl Math {
    /// Whether `n` has at most one bit set (0 also passes, as in the bit trick).
    pub fn is_pow_2(n: i32) -> (r: bool)
        requires
            n != i32::MIN,
        ensures
            r == (n & ((n - 1) as i32) == 0),
    {
        (n & (n - 1)) == 0
    }

    /// 2^n as an `i64`.
    pub fn pow_2(n: i32) -> (r: i64)
        requires
            0 <= n <= 62,
        ensures
            r == pow2(n as nat),
    {
        let r: u64 = 1u64 << (n as u64);
        proof {
            vstd::bits::lemma_u64_pow2_no_overflow(n as nat);
            vstd::bits::lemma_u64_shl_is_mul(1u64, n as u64);
            lemma2_to64_rest();
            if n < 62 {
                vstd::arithmetic::power2::lemma_pow2_strictly_increases(n as nat, 62);
            }
        }
        r as i64
    }

    /// 2^n - 1, the mask with the low `n` bits set.
    pub fn get_mask(n: i32) -> (r: i64)
        requires
            0 <= n <= 62,
        ensures
            r == pow2(n as nat) - 1,
    {
        proof {
            vstd::arithmetic::power2::lemma_pow2_pos(n as nat);
        }
        Self::pow_2(n) - 1
    }

    /// The low `n` bits of `x`: `x mod 2^n`, in `[0, 2^n)` even for negative `x`.
    pub fn mask(x: i64, n: i32) -> (r: i64)
        requires
            0 <= n <= 62,
        ensures
            r == (x as int) % (pow2(n as nat) as int),
            0 <= r < pow2(n as nat),
    {
        let m = Self::get_mask(n);
        let bits: u64 = #[verifier::truncate] (x as u64);
        let r: u64 = bits & (m as u64);
        proof {
            let e = n as nat;
            vstd::arithmetic::power2::lemma_pow2_pos(e);
            assert(m as u64 == vstd::bits::low_bits_mask(e));
            vstd::bits::lemma_u64_low_bits_mask_is_mod(bits, e);
            crate::lcg::lemma_i64_bits_congruent(x, e);
            vstd::arithmetic::div_mod::lemma_mod_bound(x as int, pow2(e) as int);
        }
        r as i64
    }

    /// The inverse of an odd `value` modulo 2^n, by a seed that is correct to
    /// four bits and four Newton doublings: `(value * r) mod 2^n == 1`.
    pub fn mod_inverse_pow_2(value: i64, n: i32) -> (r: i64)
        requires
            value % 2 != 0,
            1 <= n <= 62,
        ensures
            r == spec_mod_inverse_pow_2(value, n),
            (value * r) % (pow2(n as nat) as int) == 1,
            0 <= r < pow2(n as nat),
    {
        let ghost v = value as int;
        let x0: i64 = ((((value << 1u32) ^ value) & 4) << 1u32) ^ value;
        proof {
            lemma2_to64();
            assert((value % 2 != 0) <==> (value & 1i64 == 1i64)) by (bit_vector);
            // The seed inverts the low four bits.
            assert((value * (((((value << 1u32) ^ value) & 4i64) << 1u32) ^ value)) % 16 == 1)
                by (bit_vector)
                requires
                    value & 1i64 == 1i64,
            ;
            lemma_newton_seed_positive(value, x0);
        }
        let x1 = Self::newton_step(value, x0, Ghost(4));
        let x2 = Self::newton_step(value, x1, Ghost(8));
        let x3 = Self::newton_step(value, x2, Ghost(16));
        let x4 = Self::newton_step(value, x3, Ghost(32));
        let r = Self::mask(x4, n);
        proof {
            let e = n as nat;
            let m = pow2(e) as int;
            vstd::arithmetic::power2::lemma_pow2_pos(e);
            vstd::arithmetic::power2::lemma_pow2_pos(64);
            // (v * x4) % 2^64 == 1, so the same holds modulo 2^n.
            vstd::arithmetic::div_mod::lemma_small_mod(1nat, pow2(64));
            lemma_congruent_mod_pow2(v * x4, 1, e);
            // r == x4 (mod 2^n), so v * r == v * x4 == 1 (mod 2^n).
            vstd::arithmetic::div_mod::lemma_mod_twice(x4 as int, m);
            lemma_mod_mul2(v, r as int, v, x4 as int, m);
            if n >= 1 {
                vstd::arithmetic::power2::lemma_pow2_strictly_increases(0, e);
                vstd::arithmetic::div_mod::lemma_small_mod(1nat, pow2(e));
            }
        }
        r
    }

    /// One Newton doubling: a 64-bit inverse correct modulo 2^k becomes
    /// correct modulo 2^2k.
    fn newton_step(value: i64, x: i64, Ghost(k): Ghost<nat>) -> (r: i64)
        requires
            1 <= k <= 32,
            (value * x) % (pow2(k) as int) == 1,
        ensures
            r == spec_newton_step(value, x),
            (value * r) % (pow2(2 * k) as int) == 1,
    {
        let r = x.wrapping_add(x.wrapping_sub(value.wrapping_mul(x).wrapping_mul(x)));
        proof {
            let v = value as int;
            let xi = x as int;
            let mk = pow2(k) as int;
            let m2k = pow2(2 * k) as int;
            vstd::arithmetic::power2::lemma_pow2_pos(k);
            vstd::arithmetic::power2::lemma_pow2_pos(2 * k);
            vstd::arithmetic::power2::lemma_pow2_adds(k, k);

            // The wrapped computation is congruent to 2x - v*x^2 modulo 2^64.
            let t1 = value.wrapping_mul(x);
            let t2 = t1.wrapping_mul(x);
            let t3 = x.wrapping_sub(t2);
            crate::lcg::lemma_wrap_mul_congruent(value, x, 2 * k);
            crate::lcg::lemma_wrap_mul_congruent(t1, x, 2 * k);
            lemma_mod_mul2(t1 as int, xi, v * xi, xi, m2k);
            lemma_wrap_sub_congruent(x, t2, 2 * k);
            crate::lcg::lemma_mod_sub2(xi, t2 as int, xi, (v * xi) * xi, m2k);
            crate::lcg::lemma_wrap_add_congruent(x, t3, 2 * k);
            lemma_mod_add2(xi, t3 as int, xi, xi - (v * xi) * xi, m2k);
            assert(xi + (xi - (v * xi) * xi) == 2 * xi - (v * xi) * xi);
            assert((r as int) % m2k == (2 * xi - (v * xi) * xi) % m2k);

            // With v*x == q*2^k + 1, algebra gives v*(2x - v*x^2) == 1 - q^2*2^2k.
            vstd::arithmetic::div_mod::lemma_fundamental_div_mod(v * xi, mk);
            let q = (v * xi) / mk;
            assert(v * (2 * xi - (v * xi) * xi) == 1 - (q * q) * m2k) by (nonlinear_arith)
                requires
                    v * xi == mk * q + 1,
                    m2k == mk * mk,
            ;
            lemma_mod_mul2(v, r as int, v, 2 * xi - (v * xi) * xi, m2k);
            assert((v * (2 * xi - (v * xi) * xi)) % m2k == 1int % m2k) by {
                vstd::arithmetic::div_mod::lemma_mod_multiples_vanish(-(q * q), 1, m2k);
                assert(m2k * (-(q * q)) + 1 == 1 - (q * q) * m2k) by (nonlinear_arith);
            }
            lemma2_to64();
            vstd::arithmetic::power2::lemma_pow2_strictly_increases(0, 2 * k);
            vstd::arithmetic::div_mod::lemma_small_mod(1nat, pow2(2 * k));
        }
        r
    }

    /// Block coordinates to chunk coordinates: floor division by 16.
    pub fn block_coords_to_chunk_coords(coords: (i32, i32)) -> (r: (i32, i32))
        ensures
            r.0 == (coords.0 as int) / 16,
            r.1 == (coords.1 as int) / 16,
    {
        proof {
            lemma_i32_shr4_is_div16(coords.0);
            lemma_i32_shr4_is_div16(coords.1);
        }
        (coords.0 >> 4u32, coords.1 >> 4u32)
    }

    /// Chunk coordinates to region coordinates: floor division by 32.
    pub fn chunk_coords_to_region_coords(coords: (i32, i32)) -> (r: (i32, i32))
        ensures
            r.0 == (coords.0 as int) / 32,
            r.1 == (coords.1 as int) / 32,
    {
        proof {
            lemma_i32_shr5_is_div32(coords.0);
            lemma_i32_shr5_is_div32(coords.1);
        }
        (coords.0 >> 5u32, coords.1 >> 5u32)
    }

    /// Block coordinates straight to region coordinates.
    pub fn block_coords_to_region_coords(coords: (i32, i32)) -> (r: (i32, i32))
        ensures
            r.0 == ((coords.0 as int) / 16) / 32,
            r.1 == ((coords.1 as int) / 16) / 32,
    {
        Self::chunk_coords_to_region_coords(Self::block_coords_to_chunk_coords(coords))
    }

    /// The block position of `block_coords` relative to the chunk's origin.
    pub fn relative_chunk_coords(chunk_coords: (i32, i32), block_coords: (i32, i32)) -> (r: (
        i32,
        i32,
    ))
        requires
            i32::MIN <= chunk_coords.0 * 16 <= i32::MAX,
            i32::MIN <= chunk_coords.1 * 16 <= i32::MAX,
            i32::MIN <= chunk_coords.0 * 16 + block_coords.0 <= i32::MAX,
            i32::MIN <= chunk_coords.1 * 16 + block_coords.1 <= i32::MAX,
        ensures
            r.0 == chunk_coords.0 * 16 + block_coords.0,
            r.1 == chunk_coords.1 * 16 + block_coords.1,
    {
        ((chunk_coords.0 * 16) + block_coords.0, (chunk_coords.1 * 16) + block_coords.1)
    }

    /// The lowest chunk coordinates inside a region: multiplication by 32.
    pub fn region_coords_to_lower_chunk_coords(coords: (i32, i32)) -> (r: (i32, i32))
        requires
            i32::MIN <= coords.0 * 32 <= i32::MAX,
            i32::MIN <= coords.1 * 32 <= i32::MAX,
        ensures
            r.0 == coords.0 * 32,
            r.1 == coords.1 * 32,
    {
        (coords.0 * 32, coords.1 * 32)
    }
}


/// One Newton doubling of a candidate inverse, in wrapping 64-bit
/// arithmetic: `x + (x - v*x*x)`.
pub open spec fn spec_newton_step(v: i64, x: i64) -> i64 {
    vstd::wrapping::i64_specs::wrapping_add(
        x,
        vstd::wrapping::i64_specs::wrapping_sub(
            x,
            vstd::wrapping::i64_specs::wrapping_mul(
                vstd::wrapping::i64_specs::wrapping_mul(v, x),
                x,
            ),
        ),
    )
}

/// The value `mod_inverse_pow_2` computes: the four-bit seed, four Newton
/// doublings, and the final mask.
pub open spec fn spec_mod_inverse_pow_2(value: i64, n: i32) -> i64 {
    let x0 = ((((value << 1u32) ^ value) & 4) << 1u32) ^ value;
    let x4 = spec_newton_step(
        value,
        spec_newton_step(value, spec_newton_step(value, spec_newton_step(value, x0))),
    );
    (((x4 as int) % (pow2(n as nat) as int)) as i64)
}

impl Math {
    /// A draw uniform on the inclusive range `[min, max]`; `min` when the
    /// range is reversed or a single point.
    pub fn next_int(rng: &mut JavaRandom, min: i32, max: i32) -> (r: i32)
        requires
            old(rng).wf(),
            min < max ==> max - min + 1 <= i32::MAX,
        ensures
            final(rng).wf(),
            r == range_value(old(rng).state(), min as int, max as int),
            final(rng).state() == range_state(old(rng).state(), min as int, max as int),
            min <= max ==> min <= r <= max,
    {
        if min >= max {
            min
        } else {
            rng.next_bounded_int(max - min + 1) + min
        }
    }
}

/// The Newton seed for an odd value is odd, hence `v * x0 mod 16 == 1`
/// carries to the first doubling; also restated over `pow2(4)`.
proof fn lemma_newton_seed_positive(value: i64, x0: i64)
    requires
        value % 2 != 0,
        (value * x0) % 16 == 1,
    ensures
        (value * x0) % (pow2(4) as int) == 1,
{
    lemma2_to64();
}

/// A wrapping 64-bit difference is congruent to the exact difference modulo
/// any power of two dividing 2^64.
pub proof fn lemma_wrap_sub_congruent(x: i64, y: i64, e: nat)
    requires
        e <= 64,
    ensures
        ((x.wrapping_sub(y)) as int) % (pow2(e) as int) == (x - y) % (pow2(e) as int),
{
    let z = x - y;
    let big = pow2(64) as int;
    lemma2_to64();
    vstd::arithmetic::power2::lemma_pow2_pos(64);
    let w = x.wrapping_sub(y) as int;
    if w == z - big {
        vstd::arithmetic::div_mod::lemma_mod_sub_multiples_vanish(z, big);
    }
    if w == z + big {
        vstd::arithmetic::div_mod::lemma_mod_add_multiples_vanish(z, big);
    }
    assert(w % big == z % big);
    lemma_congruent_mod_pow2(w, z, e);
}

/// An arithmetic right shift by 4 floors a 32-bit value through division by 16.
proof fn lemma_i32_shr4_is_div16(x: i32)
    ensures
        x >> 4u32 == (x as int) / 16,
{
    assert(x >> 4u32 == x / 16) by (bit_vector);
}

/// An arithmetic right shift by 5 floors a 32-bit value through division by 32.
proof fn lemma_i32_shr5_is_div32(x: i32)
    ensures
        x >> 5u32 == (x as int) / 32,
{
    assert(x >> 5u32 == x / 32) by (bit_vector);
}



} // verus!
