//! Tests of the end-pillar model: the layout bijection, the matcher, and the
//! stage-P scan recovering a known pillar seed.

use mcseedcracker::end_pillars::{
    EndPillars, PartialEndPillar, PartialEndPillars, PillarHeightHint, PillarMatchResult,
};

#[test]
fn test_pillar_heights_bijection() {
    // Every pillar seed lays out each of the ten heights exactly once, cages
    // exactly the pillars of shuffled index 1 and 2, and follows the height
    // formula.
    let mut pillars = EndPillars::new();
    for seed in [0i64, 1, 2, 13847, 65535, 12345] {
        pillars.from_seed(seed);
        let mut heights: Vec<i32> = pillars.0.iter().map(|p| p.height).collect();
        heights.sort();
        assert_eq!(heights, vec![76, 79, 82, 85, 88, 91, 94, 97, 100, 103]);
        for p in pillars.0.iter() {
            assert_eq!(p.height, 76 + 3 * p.index);
            assert_eq!(p.caged, p.index == 1 || p.index == 2);
            assert_eq!(p.radius, 2 + p.index / 3);
        }
    }
}

#[test]
fn test_pillar_seed_of_world_seed() {
    // The pillar seed is the low 16 bits of the first nextLong.
    assert_eq!(
        EndPillars::pillar_seed(1),
        (-4964420948893066024i64 & 0xFFFF)
    );
    assert_eq!(EndPillars::pillar_seed(-7193194438565520372), 13847);
}

#[test]
fn test_match_scores() {
    let mut pillars = EndPillars::new();
    pillars.from_seed(13847);

    // An unknown observation scores every layout as possible with weight 1.
    let unknown = PartialEndPillar::new(None, PillarHeightHint::Unknown);
    assert!(matches!(
        unknown.matches(&pillars.0[0]),
        PillarMatchResult::PossibleMatch(n, d) if n == d
    ));

    // An exact observation of both cage and height is certain.
    let h = pillars.0[3].height;
    let exact = PartialEndPillar::new(Some(pillars.0[3].caged), PillarHeightHint::Exact(h));
    assert!(exact.matches(&pillars.0[3]).is_exact_match());

    // A wrong cage sighting is impossible.
    let wrong_cage = PartialEndPillar::new(Some(!pillars.0[5].caged), PillarHeightHint::Unknown);
    assert!(wrong_cage.matches(&pillars.0[5]).is_impossible_match());

    // The soft hints give the documented fractions at the range ends.
    let tallest = pillars.0.iter().find(|p| p.height == 103).unwrap();
    let big = PartialEndPillar::new(None, PillarHeightHint::Big);
    assert_eq!(big.matches(tallest), PillarMatchResult::PossibleMatch(12, 12));
    let borderline = pillars.0.iter().find(|p| p.height == 97).unwrap();
    assert_eq!(big.matches(borderline), PillarMatchResult::PossibleMatch(6, 12));

    // MediumSmall covers heights 76 through 94 and nothing above.
    let medium_small = PartialEndPillar::new(None, PillarHeightHint::MediumSmall);
    assert!(medium_small.matches(borderline).is_impossible_match());
    let top_of_range = pillars.0.iter().find(|p| p.height == 94).unwrap();
    assert!(medium_small.matches(top_of_range).is_possible_match());
    let shortest = pillars.0.iter().find(|p| p.height == 76).unwrap();
    assert_eq!(
        medium_small.matches(shortest),
        PillarMatchResult::PossibleMatch(15, 30)
    );
}

#[test]
fn test_stage_p_recovers_pillar_seed() {
    // The pillar observations of the end-to-end scenario pick out the single
    // pillar seed 13847 from all 2^16.
    let mut obs = PartialEndPillars::new();
    obs.0[0] = PartialEndPillar::new(None, PillarHeightHint::Exact(103));
    obs.0[3] = PartialEndPillar::new(None, PillarHeightHint::Exact(76));
    obs.0[4] = PartialEndPillar::new(Some(true), PillarHeightHint::Exact(82));
    obs.0[6] = PartialEndPillar::new(Some(true), PillarHeightHint::Exact(79));
    obs.0[7] = PartialEndPillar::new(None, PillarHeightHint::Exact(100));
    obs.0[8] = PartialEndPillar::new(None, PillarHeightHint::Exact(97));

    let results = obs.seed_results();
    assert_eq!(results.len(), 65536);
    let survivors: Vec<i64> = results
        .iter()
        .filter(|(_, m)| !m.is_impossible_match())
        .map(|(s, _)| *s)
        .collect();
    assert_eq!(survivors, vec![13847]);
}

#[test]
fn test_combine_scores() {
    let a = PillarMatchResult::PossibleMatch(1, 2);
    let b = PillarMatchResult::PossibleMatch(3, 4);
    assert_eq!(a.combine(b), PillarMatchResult::PossibleMatch(3, 8));
    assert_eq!(
        PillarMatchResult::ExactMatch.combine(b),
        PillarMatchResult::PossibleMatch(3, 4)
    );
    assert!(PillarMatchResult::ImpossibleMatch.combine(b).is_impossible_match());
    assert_eq!(
        a.compare(&b),
        core::cmp::Ordering::Less
    );
    assert_eq!(
        b.compare(&PillarMatchResult::ExactMatch),
        core::cmp::Ordering::Less
    );
}
