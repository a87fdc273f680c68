//! The end-pillar model: the deterministic ten-pillar layout of a 16-bit
//! pillar seed, and the matcher that scores a layout against partial
//! observations (cage sightings and height hints).

use vstd::prelude::*;

verus! {

use vstd::assert_multisets_equal;
use crate::random::{
    JavaRandom, scramble, long_value, spec_shuffle, shuffle, bounded_value, bounded_state,
    shuffle_from,
};

/// One obsidian pillar: its ring position is implicit, these are its rolled
/// attributes.
#[derive(Debug, Clone, Copy, PartialEq, Eq, Structural)]
pub struct EndPillar {
    pub index: i32,
    pub height: i32,
    pub x: i32,
    pub z: i32,
    pub radius: i32,
    pub caged: bool,
}

/// The ten pillars around the arrival platform, in ring order.
#[derive(Debug, Clone)]
pub struct EndPillars(pub Vec<EndPillar>);

/// The pillar seed of a world: the low 16 bits of the first `nextLong`.
pub open spec fn spec_pillar_seed(world_seed: i64) -> int {
    long_value(scramble(world_seed) as int) % 0x10000
}

/// The shuffled index list a pillar seed produces.
pub open spec fn spec_pillar_indices(pillar_seed: i64) -> Seq<i32> {
    spec_shuffle(Seq::new(10, |i: int| i as i32), scramble(pillar_seed) as int).0
}

/// The ring x coordinate of position `i`: `round(42 * cos(pi/5 * i))`,
/// written out as the ten rounded values.
pub open spec fn spec_pillar_x(i: int) -> int {
    if i == 0 {
        42
    } else if i == 1 {
        34
    } else if i == 2 {
        13
    } else if i == 3 {
        -13
    } else if i == 4 {
        -34
    } else if i == 5 {
        -42
    } else if i == 6 {
        -34
    } else if i == 7 {
        -13
    } else if i == 8 {
        13
    } else {
        34
    }
}

/// The ring z coordinate of position `i`: `round(42 * sin(pi/5 * i))`.
pub open spec fn spec_pillar_z(i: int) -> int {
    if i == 0 {
        0
    } else if i == 1 {
        25
    } else if i == 2 {
        40
    } else if i == 3 {
        40
    } else if i == 4 {
        25
    } else if i == 5 {
        0
    } else if i == 6 {
        -25
    } else if i == 7 {
        -40
    } else if i == 8 {
        -40
    } else {
        -25
    }
}

/// The pillar at ring position `i` for a shuffled index.
pub open spec fn spec_pillar_at(index: int, i: int) -> EndPillar {
    EndPillar {
        index: index as i32,
        height: (76 + 3 * index) as i32,
        x: spec_pillar_x(i) as i32,
        z: spec_pillar_z(i) as i32,
        radius: (2 + index / 3) as i32,
        caged: index == 1 || index == 2,
    }
}

/// The full layout of a pillar seed.
pub open spec fn spec_pillars_from_seed(pillar_seed: i64) -> Seq<EndPillar> {
    let indices = spec_pillar_indices(pillar_seed);
    Seq::new(10, |i: int| spec_pillar_at(indices[i] as int, i))
}

impl EndPillars {
    /// Ten pillars.
    pub open spec fn wf(self) -> bool {
        self.0@.len() == 10
    }

    /// The pillar seed of a world seed: the low 16 bits of the first
    /// `nextLong` drawn from it.
    pub fn pillar_seed(world_seed: i64) -> (r: i64)
        ensures
            r == spec_pillar_seed(world_seed),
            0 <= r < 0x10000,
    {
        let mut rng = JavaRandom::new(world_seed);
        let v = rng.next_long();
        proof {
            assert(v & 0xFFFFi64 == v % 0x10000i64) by (bit_vector);
        }
        v & 0xFFFF
    }

    /// Ten zeroed pillars.
    pub fn new() -> (r: Self)
        ensures
            r.wf(),
            forall|i: int|
                0 <= i < 10 ==> #[trigger] r.0@[i] == (EndPillar {
                    index: 0,
                    height: 0,
                    x: 0,
                    z: 0,
                    radius: 0,
                    caged: false,
                }),
    {
        let mut v: Vec<EndPillar> = Vec::new();
        let mut i: usize = 0;
        while i < 10
            invariant
                i <= 10,
                v@.len() == i,
                forall|k: int|
                    0 <= k < i ==> #[trigger] v@[k] == (EndPillar {
                        index: 0,
                        height: 0,
                        x: 0,
                        z: 0,
                        radius: 0,
                        caged: false,
                    }),
            decreases 10 - i,
        {
            v.push(EndPillar { index: 0, height: 0, x: 0, z: 0, radius: 0, caged: false });
            i = i + 1;
        }
        EndPillars(v)
    }

    /// Rolls the layout of `pillar_seed` into `self`.
    pub fn from_seed(&mut self, pillar_seed: i64)
        requires
            old(self).wf(),
        ensures
            final(self).wf(),
            final(self).0@ == spec_pillars_from_seed(pillar_seed),
    {
        let mut rng = JavaRandom::new(pillar_seed);
        let mut indices: Vec<i32> = Vec::new();
        let mut k: usize = 0;
        while k < 10
            invariant
                k <= 10,
                indices@.len() == k,
                forall|j: int| 0 <= j < k ==> #[trigger] indices@[j] == j as i32,
            decreases 10 - k,
        {
            indices.push(k as i32);
            k = k + 1;
        }
        let ghost base = Seq::new(10, |i: int| i as i32);
        proof {
            assert(indices@ =~= base);
        }
        shuffle(&mut indices, &mut rng);
        proof {
            lemma_pillar_indices_bounds(pillar_seed);
            assert(indices@ == spec_pillar_indices(pillar_seed));
        }
        let mut i: usize = 0;
        while i < 10
            invariant
                i <= 10,
                self.0@.len() == 10,
                indices@.len() == 10,
                indices@ == spec_pillar_indices(pillar_seed),
                forall|j: int| 0 <= j < 10 ==> 0 <= #[trigger] indices@[j] <= 9,
                forall|j: int|
                    0 <= j < i ==> #[trigger] self.0@[j] == spec_pillar_at(
                        indices@[j] as int,
                        j,
                    ),
            decreases 10 - i,
        {
            let index = indices[i];
            let pillar = EndPillar {
                index,
                height: 76 + 3 * index,
                x: Self::ring_x(i),
                z: Self::ring_z(i),
                radius: 2 + index / 3,
                caged: index == 1 || index == 2,
            };
            self.0.set(i, pillar);
            i = i + 1;
        }
        proof {
            assert(self.0@ =~= spec_pillars_from_seed(pillar_seed));
        }
    }

    /// The ring x coordinate of position `i`.
    fn ring_x(i: usize) -> (r: i32)
        requires
            i < 10,
        ensures
            r == spec_pillar_x(i as int),
    {
        if i == 0 {
            42
        } else if i == 1 {
            34
        } else if i == 2 {
            13
        } else if i == 3 {
            -13
        } else if i == 4 {
            -34
        } else if i == 5 {
            -42
        } else if i == 6 {
            -34
        } else if i == 7 {
            -13
        } else if i == 8 {
            13
        } else {
            34
        }
    }

    /// The ring z coordinate of position `i`.
    fn ring_z(i: usize) -> (r: i32)
        requires
            i < 10,
        ensures
            r == spec_pillar_z(i as int),
    {
        if i == 0 {
            0
        } else if i == 1 {
            25
        } else if i == 2 {
            40
        } else if i == 3 {
            40
        } else if i == 4 {
            25
        } else if i == 5 {
            0
        } else if i == 6 {
            -25
        } else if i == 7 {
            -40
        } else if i == 8 {
            -40
        } else {
            -25
        }
    }
}

/// Swapping two elements keeps a sequence's multiset.
pub proof fn lemma_swap_multiset<T>(s: Seq<T>, a: int, b: int)
    requires
        0 <= a < s.len(),
        0 <= b < s.len(),
    ensures
        s.update(a, s[b]).update(b, s[a]).to_multiset() == s.to_multiset(),
{
    broadcast use vstd::seq_lib::group_seq_properties;

    let t = s.update(a, s[b]);
    let u = t.update(b, s[a]);
    vstd::seq_lib::to_multiset_update(s, a, s[b]);
    vstd::seq_lib::to_multiset_update(t, b, s[a]);
    if a == b {
        assert_multisets_equal!(u.to_multiset(), s.to_multiset());
    } else {
        assert(t[b] == s[b]);
        assert_multisets_equal!(u.to_multiset(), s.to_multiset());
    }
}

/// The shuffle walk keeps the multiset of the sequence.
pub proof fn lemma_shuffle_from_multiset<T>(arr: Seq<T>, s: int, i: nat)
    requires
        0 <= s < crate::lcg::JAVA_MODULUS,
        i <= arr.len() <= 0x7FFF_FFFF,
    ensures
        shuffle_from(arr, s, i).0.to_multiset() == arr.to_multiset(),
    decreases i,
{
    if i <= 1 {
    } else {
        let j = bounded_value(s, i as int);
        let s1 = bounded_state(s, i as int);
        crate::random::lemma_bounded_range(s, i as int);
        let swapped = arr.update(i - 1, arr[j]).update(j, arr[i - 1]);
        lemma_swap_multiset(arr, i - 1, j);
        lemma_shuffle_from_multiset(swapped, s1, (i - 1) as nat);
    }
}

/// The shuffled index list of any pillar seed is a permutation of 0 through
/// 9; in particular every entry lies in that range.
pub proof fn lemma_pillar_indices_bounds(pillar_seed: i64)
    ensures
        spec_pillar_indices(pillar_seed).len() == 10,
        spec_pillar_indices(pillar_seed).to_multiset() == Seq::new(
            10,
            |i: int| i as i32,
        ).to_multiset(),
        forall|j: int| 0 <= j < 10 ==> 0 <= #[trigger] spec_pillar_indices(pillar_seed)[j] <= 9,
{
    broadcast use vstd::seq_lib::group_to_multiset_ensures;

    let base = Seq::new(10, |i: int| i as i32);
    let sc = scramble(pillar_seed) as int;
    assert(0 <= sc < crate::lcg::JAVA_MODULUS) by {
        assert(0 <= (pillar_seed ^ 0x5DEECE66Di64) & 0xFFFF_FFFF_FFFFi64 < 0x1_0000_0000_0000i64)
            by (bit_vector);
    }
    crate::random::lemma_shuffle_from_len(base, sc, 10);
    lemma_shuffle_from_multiset(base, sc, 10);
    let out = spec_pillar_indices(pillar_seed);
    assert forall|j: int| 0 <= j < 10 implies 0 <= #[trigger] out[j] <= 9 by {
        assert(out.to_multiset().contains(out[j]));
        assert(base.to_multiset().contains(out[j]));
        assert(base.contains(out[j]));
        let k = choose|k: int| 0 <= k < base.len() && base[k] == out[j];
        assert(base[k] == k as i32);
    }
}

/// Pillar bijection: every pillar seed lays the ten heights
/// 76, 79, ..., 103 out exactly once each, the pillar of shuffled index 1 or
/// 2 carries the cage, and every other pillar is open; heights follow the
/// shuffled index as `76 + 3 * index`.
pub proof fn lemma_pillar_bijection(pillar_seed: i64)
    ensures
        ({
            let pillars = spec_pillars_from_seed(pillar_seed);
            &&& pillars.len() == 10
            &&& Seq::new(10, |i: int| pillars[i].height).to_multiset() == seq![
                76i32,
                79i32,
                82i32,
                85i32,
                88i32,
                91i32,
                94i32,
                97i32,
                100i32,
                103i32,
            ].to_multiset()
            &&& forall|i: int|
                0 <= i < 10 ==> ((#[trigger] pillars[i]).caged <==> (pillars[i].index == 1
                    || pillars[i].index == 2))
            &&& forall|i: int|
                0 <= i < 10 ==> (#[trigger] pillars[i]).height == 76 + 3 * pillars[i].index
        }),
{
    broadcast use vstd::seq_lib::group_to_multiset_ensures;

    lemma_pillar_indices_bounds(pillar_seed);
    let indices = spec_pillar_indices(pillar_seed);
    let pillars = spec_pillars_from_seed(pillar_seed);
    let heights = Seq::new(10, |i: int| pillars[i].height);
    let base = Seq::new(10, |i: int| i as i32);
    let target = seq![76i32, 79i32, 82i32, 85i32, 88i32, 91i32, 94i32, 97i32, 100i32, 103i32];
    let f = |v: i32| (76 + 3 * v) as i32;
    assert(heights =~= indices.map_values(f));
    assert(target =~= base.map_values(f));
    lemma_map_multiset(indices, base, f);
}

/// Mapping a function over two sequences with equal multisets gives equal
/// multisets again.
pub proof fn lemma_map_multiset<T, U>(a: Seq<T>, b: Seq<T>, f: spec_fn(T) -> U)
    requires
        a.to_multiset() == b.to_multiset(),
    ensures
        a.map_values(f).to_multiset() == b.map_values(f).to_multiset(),
    decreases a.len(),
{
    broadcast use vstd::seq_lib::group_to_multiset_ensures;

    a.to_multiset_ensures();
    b.to_multiset_ensures();
    if a.len() == 0 {
        assert(b.len() == 0);
        assert(a.map_values(f) =~= Seq::<U>::empty());
        assert(b.map_values(f) =~= Seq::<U>::empty());
        assert_multisets_equal!(a.map_values(f).to_multiset(), b.map_values(f).to_multiset());
    } else {
        assert(b.len() == a.len());
        let x = a.last();
        let a1 = a.drop_last();
        // b contains x somewhere.
        assert(a.to_multiset().contains(x));
        assert(b.to_multiset().contains(x));
        assert(b.contains(x));
        let k = choose|k: int| 0 <= k < b.len() && b[k] == x;
        let b1 = b.remove(k);
        // Removing one x from both sides keeps the multisets equal.
        assert(a1 =~= a.remove(a.len() - 1));
        a.to_multiset_ensures();
        assert(a1.to_multiset() == a.to_multiset().remove(x));
        assert(b1.to_multiset() == b.to_multiset().remove(x));
        lemma_map_multiset(a1, b1, f);
        // Reassemble on the mapped side.
        assert(a.map_values(f) =~= a1.map_values(f).push(f(x)));
        assert(b.map_values(f) =~= b1.map_values(f).insert(k, f(x)));
        assert(a.map_values(f).to_multiset() == a1.map_values(f).to_multiset().insert(f(x)));
        assert(b1.map_values(f).insert(k, f(x)).to_multiset() == b1.map_values(
            f,
        ).to_multiset().insert(f(x))) by {
            lemma_insert_multiset(b1.map_values(f), k, f(x));
        }
    }
}

/// Inserting an element adds exactly one occurrence to the multiset.
pub proof fn lemma_insert_multiset<T>(s: Seq<T>, k: int, x: T)
    requires
        0 <= k <= s.len(),
    ensures
        s.insert(k, x).to_multiset() == s.to_multiset().insert(x),
{
    broadcast use vstd::seq_lib::group_to_multiset_ensures;

    let t = s.insert(k, x);
    assert(t.remove(k) =~= s);
    assert(t[k] == x);
    t.to_multiset_ensures();
    assert(t.remove(k).to_multiset() == t.to_multiset().remove(x));
    assert_multisets_equal!(t.to_multiset(), s.to_multiset().insert(x));
}


/// A player's hint about one pillar's height.  Heights come from the set
/// {76, 79, ..., 103}; the two caged pillars stand at 79 and 82.
#[derive(Debug, Clone, Copy, PartialEq, Eq, Structural)]
pub enum PillarHeightHint {
    /// A range of possible heights.
    Range(i32, i32),
    /// An exact height.
    Exact(i32),
    /// Visually among the three tallest.
    Big,
    /// Visually among the four middle heights.
    Medium,
    /// Visually among the three shortest.
    Small,
    /// Between medium and big.
    MediumBig,
    /// Between medium and small.
    MediumSmall,
    /// No information.
    Unknown,
}

/// A player's partial observation of one pillar.
#[derive(Debug, Clone, Copy, PartialEq, Eq, Structural)]
pub struct PartialEndPillar {
    pub caged: Option<bool>,
    pub height: PillarHeightHint,
}

/// How well a layout fits an observation: impossible, certain, or possible
/// with an exact probability `num / den`.
#[derive(Debug, Clone, Copy, PartialEq, Eq, Structural)]
pub enum PillarMatchResult {
    ImpossibleMatch,
    ExactMatch,
    /// The probability as an exact fraction: numerator, then denominator.
    PossibleMatch(u128, u128),
}

impl PillarMatchResult {
    /// A meaningful score: a fraction in (0, 1].
    pub open spec fn wf(self) -> bool {
        match self {
            PillarMatchResult::PossibleMatch(n, d) => 1 <= n <= d,
            _ => true,
        }
    }

    /// The combination of two scores as a spec value: impossibility wins,
    /// certainty is neutral, probabilities multiply.
    pub open spec fn spec_combine(self, other: Self) -> Self {
        match (self, other) {
            (PillarMatchResult::ImpossibleMatch, _) => PillarMatchResult::ImpossibleMatch,
            (_, PillarMatchResult::ImpossibleMatch) => PillarMatchResult::ImpossibleMatch,
            (PillarMatchResult::ExactMatch, v) => v,
            (v, PillarMatchResult::ExactMatch) => v,
            (
                PillarMatchResult::PossibleMatch(n1, d1),
                PillarMatchResult::PossibleMatch(n2, d2),
            ) => PillarMatchResult::PossibleMatch((n1 * n2) as u128, (d1 * d2) as u128),
        }
    }

    /// Combines two scores.
    pub fn combine(self, other: Self) -> (r: Self)
        requires
            self.wf(),
            other.wf(),
            ({
                match (self, other) {
                    (
                        PillarMatchResult::PossibleMatch(n1, d1),
                        PillarMatchResult::PossibleMatch(n2, d2),
                    ) => d1 * d2 <= u128::MAX,
                    _ => true,
                }
            }),
        ensures
            r == self.spec_combine(other),
            r.wf(),
    {
        match (self, other) {
            (PillarMatchResult::ImpossibleMatch, _) => PillarMatchResult::ImpossibleMatch,
            (_, PillarMatchResult::ImpossibleMatch) => PillarMatchResult::ImpossibleMatch,
            (PillarMatchResult::ExactMatch, v) => v,
            (v, PillarMatchResult::ExactMatch) => v,
            (
                PillarMatchResult::PossibleMatch(n1, d1),
                PillarMatchResult::PossibleMatch(n2, d2),
            ) => {
                proof {
                    vstd::arithmetic::mul::lemma_mul_upper_bound(
                        n1 as int,
                        d1 as int,
                        n2 as int,
                        d2 as int,
                    );
                    vstd::arithmetic::mul::lemma_mul_nonnegative(n1 as int, n2 as int);
                    assert(1 * 1 <= n1 * n2) by (nonlinear_arith)
                        requires
                            1 <= n1 && 1 <= n2,
                    ;
                }
                PillarMatchResult::PossibleMatch(n1 * n2, d1 * d2)
            },
        }
    }

    /// Orders two scores by the probability they stand for: impossibility
    /// lowest, certainty highest, fractions by value.
    pub fn compare(&self, other: &Self) -> (r: core::cmp::Ordering)
        requires
            self.wf(),
            other.wf(),
            self matches PillarMatchResult::PossibleMatch(_n, d) ==> d <= 0xFFFF_FFFF_FFFF_FFFF,
            other matches PillarMatchResult::PossibleMatch(_n, d) ==> d <= 0xFFFF_FFFF_FFFF_FFFF,
        ensures
            ({
                match (self, other) {
                    (PillarMatchResult::ImpossibleMatch, PillarMatchResult::ImpossibleMatch) => r
                        == core::cmp::Ordering::Equal,
                    (PillarMatchResult::ExactMatch, PillarMatchResult::ExactMatch) => r
                        == core::cmp::Ordering::Equal,
                    (PillarMatchResult::ImpossibleMatch, _) => r == core::cmp::Ordering::Less,
                    (_, PillarMatchResult::ImpossibleMatch) => r == core::cmp::Ordering::Greater,
                    (PillarMatchResult::ExactMatch, _) => r == core::cmp::Ordering::Greater,
                    (_, PillarMatchResult::ExactMatch) => r == core::cmp::Ordering::Less,
                    (
                        PillarMatchResult::PossibleMatch(n1, d1),
                        PillarMatchResult::PossibleMatch(n2, d2),
                    ) => {
                        &&& (r == core::cmp::Ordering::Less <==> (*n1) * (*d2) < (*n2) * (*d1))
                        &&& (r == core::cmp::Ordering::Equal <==> (*n1) * (*d2) == (*n2) * (*d1))
                        &&& (r == core::cmp::Ordering::Greater <==> (*n1) * (*d2) > (*n2) * (
                        *d1))
                    },
                }
            }),
    {
        match (self, other) {
            (PillarMatchResult::ImpossibleMatch, PillarMatchResult::ImpossibleMatch) => {
                core::cmp::Ordering::Equal
            },
            (PillarMatchResult::ExactMatch, PillarMatchResult::ExactMatch) => {
                core::cmp::Ordering::Equal
            },
            (PillarMatchResult::ImpossibleMatch, _) => core::cmp::Ordering::Less,
            (_, PillarMatchResult::ImpossibleMatch) => core::cmp::Ordering::Greater,
            (PillarMatchResult::ExactMatch, _) => core::cmp::Ordering::Greater,
            (_, PillarMatchResult::ExactMatch) => core::cmp::Ordering::Less,
            (
                PillarMatchResult::PossibleMatch(n1, d1),
                PillarMatchResult::PossibleMatch(n2, d2),
            ) => {
                proof {
                    vstd::arithmetic::mul::lemma_mul_upper_bound(
                        *n1 as int,
                        0xFFFF_FFFF_FFFF_FFFF,
                        *d2 as int,
                        0xFFFF_FFFF_FFFF_FFFF,
                    );
                    vstd::arithmetic::mul::lemma_mul_upper_bound(
                        *n2 as int,
                        0xFFFF_FFFF_FFFF_FFFF,
                        *d1 as int,
                        0xFFFF_FFFF_FFFF_FFFF,
                    );
                    vstd::arithmetic::mul::lemma_mul_nonnegative(*n1 as int, *d2 as int);
                    vstd::arithmetic::mul::lemma_mul_nonnegative(*n2 as int, *d1 as int);
                }
                let lhs = *n1 * *d2;
                let rhs = *n2 * *d1;
                if lhs < rhs {
                    core::cmp::Ordering::Less
                } else if lhs == rhs {
                    core::cmp::Ordering::Equal
                } else {
                    core::cmp::Ordering::Greater
                }
            },
        }
    }

    pub fn is_exact_match(&self) -> (r: bool)
        ensures
            r == (self is ExactMatch),
    {
        matches!(self, PillarMatchResult::ExactMatch)
    }

    pub fn is_impossible_match(&self) -> (r: bool)
        ensures
            r == (self is ImpossibleMatch),
    {
        matches!(self, PillarMatchResult::ImpossibleMatch)
    }

    pub fn is_possible_match(&self) -> (r: bool)
        ensures
            r == (self is PossibleMatch),
    {
        matches!(self, PillarMatchResult::PossibleMatch(_, _))
    }
}

/// The absolute value of an integer.
pub open spec fn abs_of(x: int) -> int {
    if x >= 0 {
        x
    } else {
        -x
    }
}

/// The score one observation gives one pillar, as an exact fraction.  The
/// soft hints map heights to the probability weights of the matcher: `Big`
/// climbs from 1/2 at 97 to 1 at 103, `Small` falls from 1 at 76 to 1/2 at
/// 82, the middle hints peak at the centre of their ranges.
pub open spec fn spec_pillar_match(p: PartialEndPillar, pillar: EndPillar) -> PillarMatchResult {
    let h = pillar.height as int;
    let cage_match: PillarMatchResult = match p.caged {
        Some(caged) => if caged == pillar.caged {
            PillarMatchResult::ExactMatch
        } else {
            PillarMatchResult::ImpossibleMatch
        },
        None => PillarMatchResult::PossibleMatch(1, 1),
    };
    if cage_match is ImpossibleMatch {
        PillarMatchResult::ImpossibleMatch
    } else {
        let height_match: PillarMatchResult = match p.height {
            PillarHeightHint::Unknown => PillarMatchResult::PossibleMatch(1, 1),
            PillarHeightHint::Exact(eh) => if eh == pillar.height {
                PillarMatchResult::ExactMatch
            } else {
                PillarMatchResult::ImpossibleMatch
            },
            PillarHeightHint::Range(min, max) => if min <= pillar.height <= max {
                PillarMatchResult::ExactMatch
            } else {
                PillarMatchResult::ImpossibleMatch
            },
            PillarHeightHint::Big => if h < 97 {
                PillarMatchResult::ImpossibleMatch
            } else {
                PillarMatchResult::PossibleMatch((h - 91) as u128, 12)
            },
            PillarHeightHint::Medium => if h < 85 || h > 94 {
                PillarMatchResult::ImpossibleMatch
            } else {
                PillarMatchResult::PossibleMatch((36 - abs_of(2 * h - 179)) as u128, 36)
            },
            PillarHeightHint::Small => if h > 82 {
                PillarMatchResult::ImpossibleMatch
            } else {
                PillarMatchResult::PossibleMatch((88 - h) as u128, 12)
            },
            PillarHeightHint::MediumBig => if h < 88 {
                PillarMatchResult::ImpossibleMatch
            } else {
                PillarMatchResult::PossibleMatch((30 - abs_of(2 * h - 191)) as u128, 30)
            },
            PillarHeightHint::MediumSmall => if h > 94 {
                PillarMatchResult::ImpossibleMatch
            } else {
                PillarMatchResult::PossibleMatch((30 - abs_of(2 * h - 167)) as u128, 30)
            },
        };
        if height_match is ImpossibleMatch {
            PillarMatchResult::ImpossibleMatch
        } else {
            cage_match.spec_combine(height_match)
        }
    }
}

impl PartialEndPillar {
    pub fn new(caged: Option<bool>, height: PillarHeightHint) -> (r: Self)
        ensures
            r.caged == caged,
            r.height == height,
    {
        Self { caged, height }
    }

    /// Scores this observation against one pillar.
    pub fn matches(&self, pillar: &EndPillar) -> (r: PillarMatchResult)
        requires
            76 <= pillar.height <= 103,
        ensures
            r == spec_pillar_match(*self, *pillar),
            r.wf(),
            r matches PillarMatchResult::PossibleMatch(_n, d) ==> d <= 36,
    {
        let h = pillar.height;
        let cage_match: PillarMatchResult = match self.caged {
            Some(caged) => {
                if caged == pillar.caged {
                    PillarMatchResult::ExactMatch
                } else {
                    return PillarMatchResult::ImpossibleMatch;
                }
            },
            None => PillarMatchResult::PossibleMatch(1, 1),
        };
        let height_match: PillarMatchResult = match self.height {
            PillarHeightHint::Unknown => PillarMatchResult::PossibleMatch(1, 1),
            PillarHeightHint::Exact(eh) => {
                if eh == h {
                    PillarMatchResult::ExactMatch
                } else {
                    return PillarMatchResult::ImpossibleMatch;
                }
            },
            PillarHeightHint::Range(min, max) => {
                if min <= h && h <= max {
                    PillarMatchResult::ExactMatch
                } else {
                    return PillarMatchResult::ImpossibleMatch;
                }
            },
            PillarHeightHint::Big => {
                if h < 97 {
                    return PillarMatchResult::ImpossibleMatch;
                } else {
                    PillarMatchResult::PossibleMatch((h - 91) as u128, 12)
                }
            },
            PillarHeightHint::Medium => {
                if h < 85 || h > 94 {
                    return PillarMatchResult::ImpossibleMatch;
                } else {
                    let dist = if 2 * h - 179 >= 0 {
                        2 * h - 179
                    } else {
                        179 - 2 * h
                    };
                    PillarMatchResult::PossibleMatch((36 - dist) as u128, 36)
                }
            },
            PillarHeightHint::Small => {
                if h > 82 {
                    return PillarMatchResult::ImpossibleMatch;
                } else {
                    PillarMatchResult::PossibleMatch((88 - h) as u128, 12)
                }
            },
            PillarHeightHint::MediumBig => {
                if h < 88 {
                    return PillarMatchResult::ImpossibleMatch;
                } else {
                    let dist = if 2 * h - 191 >= 0 {
                        2 * h - 191
                    } else {
                        191 - 2 * h
                    };
                    PillarMatchResult::PossibleMatch((30 - dist) as u128, 30)
                }
            },
            PillarHeightHint::MediumSmall => {
                if h > 94 {
                    return PillarMatchResult::ImpossibleMatch;
                } else {
                    let dist = if 2 * h - 167 >= 0 {
                        2 * h - 167
                    } else {
                        167 - 2 * h
                    };
                    PillarMatchResult::PossibleMatch((30 - dist) as u128, 30)
                }
            },
        };
        proof {
            if cage_match is PossibleMatch && height_match is PossibleMatch {
                let d1 = cage_match->PossibleMatch_1;
                let d2 = height_match->PossibleMatch_1;
                assert(d1 == 1 && d2 <= 36);
                assert(d1 * d2 <= 36) by (nonlinear_arith)
                    requires
                        d1 <= 1 && 0 <= d2 <= 36,
                ;
            }
        }
        cage_match.combine(height_match)
    }
}

/// The players' partial observations of all ten pillars, in ring order.
#[derive(Debug, Clone)]
pub struct PartialEndPillars(pub Vec<PartialEndPillar>);

/// The folded score of observations against a layout: every pillar's score
/// combined in ring order, stopping at the first impossibility.
pub open spec fn spec_pillars_match(
    obs: Seq<PartialEndPillar>,
    pillars: Seq<EndPillar>,
    k: nat,
    acc: PillarMatchResult,
) -> PillarMatchResult
    decreases k,
{
    if k == 0 {
        acc
    } else {
        let i = obs.len() - k;
        let m = spec_pillar_match(obs[i as int], pillars[i as int]);
        if m is ImpossibleMatch {
            PillarMatchResult::ImpossibleMatch
        } else {
            spec_pillars_match(obs, pillars, (k - 1) as nat, acc.spec_combine(m))
        }
    }
}

impl PartialEndPillars {
    /// Ten observations.
    pub open spec fn wf(self) -> bool {
        self.0@.len() == 10
    }

    /// Ten unknown observations.
    pub fn new() -> (r: Self)
        ensures
            r.wf(),
            forall|i: int|
                0 <= i < 10 ==> #[trigger] r.0@[i] == (PartialEndPillar {
                    caged: None,
                    height: PillarHeightHint::Unknown,
                }),
    {
        let mut v: Vec<PartialEndPillar> = Vec::new();
        let mut i: usize = 0;
        while i < 10
            invariant
                i <= 10,
                v@.len() == i,
                forall|k: int|
                    0 <= k < i ==> #[trigger] v@[k] == (PartialEndPillar {
                        caged: None,
                        height: PillarHeightHint::Unknown,
                    }),
            decreases 10 - i,
        {
            v.push(PartialEndPillar { caged: None, height: PillarHeightHint::Unknown });
            i = i + 1;
        }
        PartialEndPillars(v)
    }

    /// Scores the observations against one full layout.
    pub fn matches(&self, pillars: &EndPillars) -> (r: PillarMatchResult)
        requires
            self.wf(),
            pillars.wf(),
            forall|i: int| 0 <= i < 10 ==> 76 <= (#[trigger] pillars.0@[i]).height <= 103,
        ensures
            r == spec_pillars_match(self.0@, pillars.0@, 10, PillarMatchResult::ExactMatch),
            r.wf(),
    {
        let mut result = PillarMatchResult::ExactMatch;
        let mut i: usize = 0;
        let ghost target = spec_pillars_match(self.0@, pillars.0@, 10, PillarMatchResult::ExactMatch);
        proof {
            lemma_pow36(10);
        }
        while i < 10
            invariant
                i <= 10,
                self.wf(),
                pillars.wf(),
                forall|k: int| 0 <= k < 10 ==> 76 <= (#[trigger] pillars.0@[k]).height <= 103,
                result.wf(),
                result matches PillarMatchResult::PossibleMatch(_n, d) ==> d <= spec_pow36(
                    i as nat,
                ),
                target == spec_pillars_match(
                    self.0@,
                    pillars.0@,
                    10,
                    PillarMatchResult::ExactMatch,
                ),
                spec_pillars_match(self.0@, pillars.0@, (10 - i) as nat, result) == target,
            decreases 10 - i,
        {
            let m = self.0[i].matches(&pillars.0[i]);
            if matches!(m, PillarMatchResult::ImpossibleMatch) {
                proof {
                    assert(spec_pillars_match(self.0@, pillars.0@, (10 - i) as nat, result)
                        == PillarMatchResult::ImpossibleMatch);
                }
                return PillarMatchResult::ImpossibleMatch;
            }
            proof {
                lemma_pow36(i as nat);
                lemma_pow36(10);
                lemma_pow36_monotone(i as nat, 10);
                if result is PossibleMatch && m is PossibleMatch {
                    let d1 = result->PossibleMatch_1;
                    let d2 = m->PossibleMatch_1;
                    assert(d1 * d2 <= spec_pow36(i as nat) * 36) by (nonlinear_arith)
                        requires
                            0 <= d1 <= spec_pow36(i as nat) && 0 <= d2 <= 36,
                    ;
                    assert(spec_pow36((i + 1) as nat) == 36 * spec_pow36(i as nat));
                    lemma_pow36_monotone((i + 1) as nat, 10);
                }
                assert(spec_pow36((i + 1) as nat) == 36 * spec_pow36(i as nat));
                lemma_pow36_monotone((i + 1) as nat, 10);
            }
            result = result.combine(m);
            i = i + 1;
        }
        result
    }
}

/// Powers of 36, bounding the folded denominators.
pub open spec fn spec_pow36(k: nat) -> int
    decreases k,
{
    if k == 0 {
        1
    } else {
        36 * spec_pow36((k - 1) as nat)
    }
}

/// The first eleven powers of 36 are positive and small enough for `u128`.
pub proof fn lemma_pow36(k: nat)
    requires
        k <= 10,
    ensures
        1 <= spec_pow36(k) <= 3656158440062976,
        spec_pow36(10) == 3656158440062976,
    decreases k,
{
    assert(spec_pow36(0) == 1);
    assert(spec_pow36(1) == 36);
    assert(spec_pow36(2) == 1296);
    assert(spec_pow36(3) == 46656);
    assert(spec_pow36(4) == 1679616);
    assert(spec_pow36(5) == 60466176);
    assert(spec_pow36(6) == 2176782336);
    assert(spec_pow36(7) == 78364164096);
    assert(spec_pow36(8) == 2821109907456);
    assert(spec_pow36(9) == 101559956668416);
    assert(spec_pow36(10) == 3656158440062976);
}

/// Powers of 36 grow with the exponent.
pub proof fn lemma_pow36_monotone(a: nat, b: nat)
    requires
        a <= b <= 10,
    ensures
        spec_pow36(a) <= spec_pow36(b),
{
    lemma_pow36(a);
    lemma_pow36(b);
    assert(spec_pow36(0) == 1);
    assert(spec_pow36(1) == 36);
    assert(spec_pow36(2) == 1296);
    assert(spec_pow36(3) == 46656);
    assert(spec_pow36(4) == 1679616);
    assert(spec_pow36(5) == 60466176);
    assert(spec_pow36(6) == 2176782336);
    assert(spec_pow36(7) == 78364164096);
    assert(spec_pow36(8) == 2821109907456);
    assert(spec_pow36(9) == 101559956668416);
    assert(spec_pow36(10) == 3656158440062976);
}


impl PartialEndPillars {
    /// The score of every 16-bit pillar seed against these observations, in
    /// seed order.
    pub fn seed_results(&self) -> (r: Vec<(i64, PillarMatchResult)>)
        requires
            self.wf(),
        ensures
            r@.len() == 0x10000,
            forall|k: int|
                0 <= k < 0x10000 ==> {
                    &&& (#[trigger] r@[k]).0 == k
                    &&& r@[k].1 == spec_pillars_match(
                        self.0@,
                        spec_pillars_from_seed(k as i64),
                        10,
                        PillarMatchResult::ExactMatch,
                    )
                },
    {
        let mut pillars = EndPillars::new();
        let mut results: Vec<(i64, PillarMatchResult)> = Vec::new();
        let mut pillar_seed: i64 = 0;
        while pillar_seed < 0x10000
            invariant
                0 <= pillar_seed <= 0x10000,
                self.wf(),
                pillars.wf(),
                results@.len() == pillar_seed,
                forall|k: int|
                    0 <= k < pillar_seed ==> {
                        &&& (#[trigger] results@[k]).0 == k
                        &&& results@[k].1 == spec_pillars_match(
                            self.0@,
                            spec_pillars_from_seed(k as i64),
                            10,
                            PillarMatchResult::ExactMatch,
                        )
                    },
            decreases 0x10000 - pillar_seed,
        {
            pillars.from_seed(pillar_seed);
            proof {
                lemma_pillar_indices_bounds(pillar_seed);
                assert(forall|i: int|
                    0 <= i < 10 ==> 76 <= (#[trigger] pillars.0@[i]).height <= 103) by {
                    assert(forall|i: int|
                        0 <= i < 10 ==> #[trigger] pillars.0@[i] == spec_pillar_at(
                            spec_pillar_indices(pillar_seed)[i] as int,
                            i,
                        ));
                }
            }
            let m = self.matches(&pillars);
            results.push((pillar_seed, m));
            pillar_seed = pillar_seed + 1;
        }
        results
    }
}

} // verus!
