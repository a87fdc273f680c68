//! Wide modular arithmetic: 128-bit modular multiplication by doubling and
//! addition, and modular exponentiation by squaring.

use vstd::prelude::*;

verus! {

use vstd::arithmetic::power::pow;
use vstd::arithmetic::power2::pow2;
use crate::lcg::{LinearCongruentialGenerator, lemma_mod_add2, lemma_mod_mul2};
use crate::math::{Math, spec_mod_inverse_pow_2};

/// Supports only generators whose discrete logarithm is defined: a
/// power-of-two modulus up to 2^61 with odd multiplier and increment.
pub struct DiscreteLog;

impl DiscreteLog {
    /// Whether the generator's parameters admit a discrete logarithm.
    pub fn supports(lcg: &LinearCongruentialGenerator) -> (r: bool)
        ensures
            r == (lcg.is_pow_2 && lcg.trailing_zeros <= 61 && lcg.multiplier % 2 != 0
                && lcg.increment % 2 != 0),
    {
        if !lcg.is_modulus_power_of_2() || lcg.get_modulus_trailing_zeros() > 61 {
            false
        } else {
            lcg.get_multiplier() % 2 != 0 && lcg.get_increment() % 2 != 0
        }
    }
}


/// The 2-adic discrete logarithm kernel: flip values congruent to 3 mod 4
/// across 2^(exp+2), raise to the 2^(exp+1)-th power modulo 2^(2*exp+3),
/// and read the logarithm out of the middle bits.
pub open spec fn spec_theta(number: i64, exp: i32) -> i64 {
    let flipped = if number % 4 == 3 {
        ((pow2((exp + 2) as nat) - number) as i64)
    } else {
        number
    };
    let powed = (pow((flipped as u128) as int, (1u128 << ((exp + 1) as u32)) as nat) % ((1u128
        << ((2 * exp + 3) as u32)) as int)) as u128;
    let shifted = vstd::wrapping::u128_specs::wrapping_sub(powed, 1) >> ((exp + 3) as u32);
    let low_bit = shifted & vstd::wrapping::u128_specs::wrapping_sub(
        1u128 << (exp as u32),
        shifted,
    );
    low_bit as i64
}

/// The distance of `seed` from zero along the generator's orbit, as the
/// quotient of the two 2-adic logarithms.
pub open spec fn spec_distance_from_zero(lcg: LinearCongruentialGenerator, seed: i64) -> i64 {
    let exp = lcg.trailing_zeros;
    let b = ((vstd::wrapping::i64_specs::wrapping_add(
        vstd::wrapping::i64_specs::wrapping_mul(
            vstd::wrapping::i64_specs::wrapping_mul(
                seed,
                vstd::wrapping::i64_specs::wrapping_sub(lcg.multiplier, 1),
            ),
            spec_mod_inverse_pow_2(lcg.increment, exp),
        ),
        1,
    ) as int) % (pow2((exp + 2) as nat) as int)) as i64;
    let abar = spec_theta(lcg.multiplier, exp);
    let bbar = spec_theta(b, exp);
    vstd::wrapping::i64_specs::wrapping_mul(
        bbar,
        (((spec_mod_inverse_pow_2(abar, exp) as int) % (pow2(exp as nat) as int)) as i64),
    )
}

impl DiscreteLog {
    /// The 2-adic logarithm kernel.
    pub fn theta(number: i64, exp: i32) -> (r: i64)
        requires
            1 <= exp <= 60,
            0 <= number < pow2((exp + 2) as nat),
        ensures
            r == spec_theta(number, exp),
    {
        let mut number = number;
        proof {
            vstd::arithmetic::power2::lemma2_to64_rest();
            vstd::arithmetic::power2::lemma_pow2_pos((exp + 2) as nat);
        }
        if number % 4 == 3 {
            number = Math::pow_2(exp + 2).wrapping_sub(number);
        }
        let xhat = number as u128;
        proof {
            assert(1u128 << (((2 * exp + 3)) as u32) >= 1) by (bit_vector)
                requires
                    1 <= exp <= 60,
            ;
        }
        let xhat = mod_pow(xhat, 1u128 << ((exp + 1) as u32), 1u128 << ((2 * exp + 3) as u32));
        let ghost powed = xhat;
        let xhat = xhat.wrapping_sub(1);
        let xhat = xhat >> ((exp + 3) as u32);
        let xhat = xhat & (1u128 << (exp as u32)).wrapping_sub(xhat);
        proof {
            vstd::arithmetic::div_mod::lemma_mod_bound(
                pow((number as u128) as int, (1u128 << ((exp + 1) as u32)) as nat),
                (1u128 << ((2 * exp + 3) as u32)) as int,
            );
        }
        #[verifier::truncate] (xhat as i64)
    }

    /// The number of generator steps from seed 0 to `seed`: the 2-adic
    /// logarithm of the translated seed divided by that of the multiplier.
    /// The multiplier's logarithm must be odd for the division to be exact,
    /// which holds for the generators the discrete logarithm supports.
    pub fn distance_from_zero(lcg: &LinearCongruentialGenerator, seed: i64) -> (r: i64)
        requires
            lcg.wf(),
            1 <= lcg.trailing_zeros <= 60,
            lcg.increment % 2 != 0,
            spec_theta(lcg.multiplier, lcg.trailing_zeros) % 2 != 0,
        ensures
            r == spec_distance_from_zero(*lcg, seed),
    {
        let exp = lcg.get_modulus_trailing_zeros();
        proof {
            vstd::arithmetic::power2::lemma_pow2_strictly_increases(
                lcg.trailing_zeros as nat,
                (lcg.trailing_zeros + 2) as nat,
            );
        }
        let a: i64 = lcg.get_multiplier();
        let b: i64 = Math::mask(
            seed.wrapping_mul(lcg.get_multiplier().wrapping_sub(1)).wrapping_mul(
                Math::mod_inverse_pow_2(lcg.get_increment(), exp),
            ).wrapping_add(1),
            exp + 2,
        );
        let abar = Self::theta(a, exp);
        let bbar = Self::theta(b, exp);
        bbar.wrapping_mul(Math::mask(Math::mod_inverse_pow_2(abar, exp), exp))
    }
}

/// Adds two reduced values modulo `modulus` without overflowing.
fn add_mod(x: u128, y: u128, modulus: u128) -> (r: u128)
    requires
        x < modulus,
        y < modulus,
    ensures
        r == (x + y) % (modulus as int),
        r < modulus,
{
    let r = if y == 0 {
        x
    } else if x >= modulus - y {
        x - (modulus - y)
    } else {
        x + y
    };
    proof {
        if y != 0 && x >= modulus - y {
            vstd::arithmetic::div_mod::lemma_mod_sub_multiples_vanish(
                x + y,
                modulus as int,
            );
            vstd::arithmetic::div_mod::lemma_small_mod(
                (x + y - modulus) as nat,
                modulus as nat,
            );
        } else {
            vstd::arithmetic::div_mod::lemma_small_mod((x + y) as nat, modulus as nat);
        }
    }
    r
}

/// The product of two 128-bit values modulo `modulus`, by binary doubling.
pub fn mod_mul(a: u128, b: u128, modulus: u128) -> (r: u128)
    requires
        modulus >= 1,
    ensures
        r == (a * b) % (modulus as int),
{
    let ghost mi = modulus as int;
    let a0 = a % modulus;
    let mut result: u128 = 0;
    let mut base: u128 = a0;
    let mut bb: u128 = b;
    proof {
        vstd::arithmetic::div_mod::lemma_mod_bound(a as int, mi);
        vstd::arithmetic::div_mod::lemma_mod_twice(a as int, mi);
        lemma_mod_mul2(a0 as int, b as int, a as int, b as int, mi);
        vstd::arithmetic::div_mod::lemma_mod_bound(0int, mi);
    }
    while bb > 0
        invariant
            mi == modulus as int,
            modulus >= 1,
            result < modulus,
            base < modulus,
            (result + base * bb) % mi == (a * b) % mi,
        decreases bb,
    {
        let ghost result0 = result as int;
        let ghost base0 = base as int;
        let ghost bb0 = bb as int;
        if bb % 2 == 1 {
            result = add_mod(result, base, modulus);
            proof {
                vstd::arithmetic::div_mod::lemma_mod_twice(result0 + base0, mi);
                // result' + base * (bb - 1) keeps the running sum.
                lemma_mod_add2(
                    result as int,
                    base0 * (bb0 - 1),
                    result0 + base0,
                    base0 * (bb0 - 1),
                    mi,
                );
                assert(result0 + base0 + base0 * (bb0 - 1) == result0 + base0 * bb0)
                    by (nonlinear_arith);
            }
        }
        let ghost result1 = result as int;
        let ghost rem = if bb0 % 2 == 1 {
            bb0 - 1
        } else {
            bb0
        };
        proof {
            assert((result1 + base0 * rem) % mi == (a * b) % mi);
        }
        base = add_mod(base, base, modulus);
        proof {
            vstd::arithmetic::div_mod::lemma_mod_twice(base0 + base0, mi);
            lemma_mod_mul2(base as int, rem / 2, (base0 + base0) % mi, rem / 2, mi);
            vstd::arithmetic::div_mod::lemma_mul_mod_noop_general(base0 + base0, rem / 2, mi);
            assert((base0 + base0) * (rem / 2) == base0 * rem) by (nonlinear_arith)
                requires
                    rem % 2 == 0 && rem >= 0,
            ;
            lemma_mod_add2(
                result1,
                (base as int) * (rem / 2),
                result1,
                base0 * rem,
                mi,
            );
        }
        bb = bb / 2;
        proof {
            assert(bb as int == rem / 2);
        }
    }
    proof {
        assert(result + base * 0 == result);
        vstd::arithmetic::div_mod::lemma_small_mod(result as nat, modulus as nat);
    }
    result
}

/// `base ^ exponent mod modulus`, by binary exponentiation; 0 for the
/// trivial modulus 1.
pub fn mod_pow(base: u128, exponent: u128, modulus: u128) -> (r: u128)
    requires
        modulus >= 1,
    ensures
        r == pow(base as int, exponent as nat) % (modulus as int),
{
    let ghost mi = modulus as int;
    if modulus == 1 {
        proof {
            vstd::arithmetic::div_mod::lemma_mod_bound(
                pow(base as int, exponent as nat),
                1,
            );
        }
        return 0;
    }
    let mut result: u128 = 1;
    let mut b = base % modulus;
    let mut e = exponent;
    proof {
        vstd::arithmetic::div_mod::lemma_mod_bound(base as int, mi);
        vstd::arithmetic::div_mod::lemma_small_mod(1nat, modulus as nat);
        vstd::arithmetic::div_mod::lemma_mod_twice(base as int, mi);
        lemma_pow_mod_congruent(base as int, b as int, exponent as nat, mi);
    }
    while e > 0
        invariant
            mi == modulus as int,
            modulus >= 2,
            result < modulus,
            b < modulus,
            (result * pow(b as int, e as nat)) % mi == pow(base as int, exponent as nat) % mi,
        decreases e,
    {
        let ghost result0 = result as int;
        let ghost b0 = b as int;
        let ghost e0 = e as int;
        if e % 2 == 1 {
            result = mod_mul(result, b, modulus);
            proof {
                vstd::arithmetic::div_mod::lemma_mod_twice(result0 * b0, mi);
                vstd::arithmetic::div_mod::lemma_mod_bound(result0 * b0, mi);
                // result' * b^(e-1) == result * b^e (mod m).
                vstd::arithmetic::power::lemma_pow_adds(b0, 1, (e0 - 1) as nat);
                vstd::arithmetic::power::lemma_pow1(b0);
                lemma_mod_mul2(
                    result as int,
                    pow(b0, (e0 - 1) as nat),
                    result0 * b0,
                    pow(b0, (e0 - 1) as nat),
                    mi,
                );
                assert((result0 * b0) * pow(b0, (e0 - 1) as nat) == result0 * (b0 * pow(
                    b0,
                    (e0 - 1) as nat,
                ))) by (nonlinear_arith);
            }
        }
        let ghost result1 = result as int;
        let ghost rem = if e0 % 2 == 1 {
            e0 - 1
        } else {
            e0
        };
        proof {
            assert((result1 * pow(b0, rem as nat)) % mi == pow(base as int, exponent as nat)
                % mi);
        }
        b = mod_mul(b, b, modulus);
        proof {
            vstd::arithmetic::div_mod::lemma_mod_twice(b0 * b0, mi);
            vstd::arithmetic::div_mod::lemma_mod_bound(b0 * b0, mi);
            // (b^2)^(e/2) == b^e when e is even.
            vstd::arithmetic::power::lemma_pow_multiplies(b0, 2, (rem / 2) as nat);
            vstd::arithmetic::power::lemma_square_is_pow2(b0);
            lemma_pow_mod_congruent(b0 * b0, b as int, (rem / 2) as nat, mi);
            lemma_mod_mul2(
                result1,
                pow(b as int, (rem / 2) as nat),
                result1,
                pow(b0 * b0, (rem / 2) as nat),
                mi,
            );
            assert(2 * (rem / 2) == rem);
        }
        e = e / 2;
        proof {
            assert(e as int == rem / 2);
        }
    }
    proof {
        vstd::arithmetic::power::lemma_pow0(b as int);
        vstd::arithmetic::div_mod::lemma_small_mod(result as nat, modulus as nat);
    }
    result
}

/// Congruent bases raise to congruent powers.
proof fn lemma_pow_mod_congruent(x: int, y: int, e: nat, m: int)
    requires
        m >= 1,
        x % m == y % m,
    ensures
        pow(x, e) % m == pow(y, e) % m,
    decreases e,
{
    reveal(vstd::arithmetic::power::pow);
    if e == 0 {
    } else {
        lemma_pow_mod_congruent(x, y, (e - 1) as nat, m);
        lemma_mod_mul2(x, pow(x, (e - 1) as nat), y, pow(y, (e - 1) as nat), m);
    }
}

} // verus!
