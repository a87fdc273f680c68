//! Tests of the Java-compatible generator against values recorded from the
//! Java reference implementation.

use mcseedcracker::lcg::LinearCongruentialGenerator;
use mcseedcracker::random::{shuffle, JavaRandom};

#[test]
fn test_next_int_reference() {
    let cases: [(i64, [i32; 3]); 5] = [
        (0, [-1155484576, -723955400, 1033096058]),
        (1, [-1155869325, 431529176, 1761283695]),
        (-1, [1155099827, 1887904451, 52699159]),
        (1 << 30, [-2121960352, -767618760, -1939436678]),
        (-(1 << 30), [664794208, 1518833976, -1236989062]),
    ];
    for (seed, expected) in cases {
        let mut rng = JavaRandom::new(seed);
        for e in expected {
            assert_eq!(rng.next_int(), e);
        }
    }
}

#[test]
fn test_next_long_reference() {
    let cases: [(i64, i64); 5] = [
        (0, -4962768465676381896),
        (1, -4964420948893066024),
        (-1, 4961115982468162243),
        (1 << 30, -9113750316016266952),
        (-(1 << 30), 2855269383449055544),
    ];
    for (seed, expected) in cases {
        let mut rng = JavaRandom::new(seed);
        assert_eq!(rng.next_long(), expected);
    }
}

#[test]
fn test_next_long_of_one() {
    // The cross-check value of the first nextLong drawn from seed 1.
    assert_eq!(JavaRandom::new(1).next_long(), -4964420948893066024);
}

#[test]
fn test_next_bounded_int_reference() {
    // Draws with a non-power-of-two bound exercise the rejection loop.
    let cases: [(i64, [i32; 3]); 5] = [
        (0, [1, 11, 3]),
        (1, [15, 10, 10]),
        (-1, [5, 8, 4]),
        (1 << 30, [16, 3, 5]),
        (-(1 << 30), [14, 9, 5]),
    ];
    for (seed, expected) in cases {
        let mut rng = JavaRandom::new(seed);
        for e in expected {
            assert_eq!(rng.next_bounded_int(17), e);
        }
    }
    // And with a power-of-two bound, the shortcut.
    let pow2_cases: [(i64, [i32; 3]); 2] = [(0, [11, 13, 3]), (1, [11, 1, 6])];
    for (seed, expected) in pow2_cases {
        let mut rng = JavaRandom::new(seed);
        for e in expected {
            assert_eq!(rng.next_bounded_int(16), e);
        }
    }
    // A ten-wide bound, as the pillar shuffle draws it.
    let ten_cases: [(i64, [i32; 3]); 2] = [(0, [0, 8, 9]), (1, [5, 8, 7])];
    for (seed, expected) in ten_cases {
        let mut rng = JavaRandom::new(seed);
        for e in expected {
            assert_eq!(rng.next_bounded_int(10), e);
        }
    }
}

#[test]
fn test_next_bool_reference() {
    let mut rng = JavaRandom::new(0);
    assert_eq!(
        [rng.next_bool(), rng.next_bool(), rng.next_bool(), rng.next_bool()],
        [true, true, false, true]
    );
    let mut rng = JavaRandom::new(-1);
    assert_eq!(
        [rng.next_bool(), rng.next_bool(), rng.next_bool(), rng.next_bool()],
        [false, false, false, true]
    );
}

#[test]
fn test_next_24_bits_reference() {
    // The raw 24-bit draws underlying nextFloat.
    let mut rng = JavaRandom::new(0);
    assert_eq!(rng.next(24), 12263604);
    assert_eq!(rng.next(24), 13949265);
    let mut rng = JavaRandom::new(1);
    assert_eq!(rng.next(24), 12262101);
    assert_eq!(rng.next(24), 1685660);
}

#[test]
fn test_shuffle_reference() {
    // The Fisher-Yates walk of seed 12345 on [0, 10).
    let mut v: Vec<i32> = (0..10).collect();
    let mut rng = JavaRandom::new(12345);
    shuffle(&mut v, &mut rng);
    assert_eq!(v, vec![3, 2, 0, 5, 8, 9, 6, 7, 4, 1]);
}

#[test]
fn test_combine_round_trip() {
    // Walking k steps forward and k steps back returns every seed tried.
    let java = LinearCongruentialGenerator::java_random();
    for k in [1i64, 2, 3, 7, 1000, -5] {
        let fwd = java.combine(k);
        let bwd = java.combine(-k);
        for seed in [0i64, 1, 0xFFFF_FFFF_FFFF, 123456789012345] {
            assert_eq!(fwd.next_seed(bwd.next_seed(seed)), seed);
        }
    }
}

#[test]
fn test_combine_with_sequential_order() {
    // combine_with composes self first, then other: with self the Java LCG
    // and other the generator (5, 3, 2^48), the composed step at seed 0 is
    // other(self(0)) = 5 * 11 + 3.
    let java = LinearCongruentialGenerator::java_random();
    let other = LinearCongruentialGenerator::new(5, 3, 1 << 48);
    let composed = java.combine_with(&other).unwrap();
    assert_eq!(composed.next_seed(0), 58);
    assert_eq!(composed.next_seed(7), other.next_seed(java.next_seed(7)));
    // Mismatched moduli compose to nothing.
    let small = LinearCongruentialGenerator::new(5, 3, 1 << 16);
    assert!(java.combine_with(&small).is_none());
}

#[test]
fn test_combine_matches_stepping() {
    let java = LinearCongruentialGenerator::java_random();
    let five = java.combine(5);
    let mut state = JavaRandom::new(99);
    let start = state.get_seed();
    for _ in 0..5 {
        state.next_seed();
    }
    assert_eq!(five.next_seed(start), state.get_seed());
}
