use rand::Rng;
use lrdas_artifact::collector::{simulate, Pattern, GROUPS, POSITIONS};
use lrdas_artifact::fixture;

#[test]
fn budget_counts_only_completed_certifications() {
    let groups = vec![vec![true; 4], vec![true; 4]];
    for (budget, queries, certified) in [
        (0, 0, 0),
        (2, 2, 0),
        (3, 3, 1),
        (4, 4, 1),
        (6, 6, 2),
        (8, 6, 2),
    ] {
        let result = simulate(&groups, 3, 1, Some(budget), &mut fixture::rng(1, "budget"));
        assert_eq!(result.queries, queries);
        assert_eq!(result.certified_groups, certified);
        assert_eq!(result.failed, 0);
    }
}

#[test]
fn group_decisions_use_the_two_exact_thresholds() {
    let groups = vec![vec![true; 8], vec![false; 8]];
    let result = simulate(&groups, 5, 2, Some(100), &mut fixture::rng(2, "thresholds"));
    assert_eq!(result.accepted, 5);
    assert_eq!(result.failed, 4);
    assert_eq!(result.queries, 9);
    assert_eq!(result.certified_groups, 1);
    assert_eq!(result.rejected_groups, 1);
}

#[test]
fn without_replacement_preserves_every_groups_recoverability() {
    let groups = vec![
        vec![true, false, true, false, true, false, true, true],
        vec![false, true, false, true, false, true, false, false],
    ];
    for seed in 0..64 {
        let result = simulate(
            &groups,
            5,
            2,
            Some(100),
            &mut fixture::rng(seed, "replacement"),
        );
        assert_eq!(result.certified_groups, 1);
        assert_eq!(result.rejected_groups, 1);
        assert_eq!(result.recoverable_groups, 1);
        assert!(result.queries <= 16);
        assert!(result.accepted <= 8);
        assert!(result.failed <= 8);
        assert_eq!(result.queries, result.accepted + result.failed);
    }
}

#[test]
fn unreachable_recovery_exhausts_groups_without_resampling() {
    let result = simulate(
        &[vec![true; 4], vec![false; 4]],
        3,
        2,
        None,
        &mut fixture::rng(3, "exhaustion"),
    );
    assert!(!result.reached_target);
    assert_eq!(result.stop_reason, "groups_exhausted");
    assert_eq!(result.certified_groups, 1);
    assert_eq!(result.touched_groups, 2);
    assert_eq!(result.queries, 5);
}

#[test]
fn recovery_stops_at_target_and_coverage_continues() {
    let groups = vec![vec![true; 4]; 3];
    let recovery = simulate(&groups, 3, 1, None, &mut fixture::rng(4, "modes"));
    let coverage = simulate(&groups, 3, 1, Some(9), &mut fixture::rng(4, "modes"));
    assert_eq!(recovery.queries, 3);
    assert_eq!(recovery.certified_groups, 1);
    assert_eq!(recovery.stop_reason, "recovery_target");
    assert_eq!(coverage.queries, 9);
    assert_eq!(coverage.certified_groups, 3);
}

#[test]
fn zero_target_without_budget_returns_before_any_query() {
    let groups = vec![vec![true, false, true], vec![false, false, true]];
    let result = simulate(&groups, 2, 0, None, &mut fixture::rng(5, "zero"));
    assert!(result.reached_target);
    assert_eq!(result.stop_reason, "recovery_target");
    assert_eq!(result.queries, 0);
    assert_eq!(result.touched_groups, 0);
    assert_eq!(result.recoverable_groups, 1);
    assert_eq!(result.missing_positions, 3);
}

#[test]
fn exhausted_budget_reports_the_budget_as_the_stop_reason() {
    let groups = vec![vec![true; 6], vec![true; 6]];
    let result = simulate(&groups, 4, 2, Some(5), &mut fixture::rng(6, "stop"));
    assert_eq!(result.stop_reason, "query_budget");
    assert_eq!(result.queries, 5);
    assert_eq!(result.certified_groups, 1);
    assert!(!result.reached_target);
}

#[test]
fn patterns_have_the_documented_shapes() {
    let s1 = Pattern::S1.availability(&mut fixture::rng(7, "s1"));
    assert_eq!(s1.len(), GROUPS);
    for (group, row) in s1.iter().enumerate() {
        assert_eq!(row.len(), POSITIONS);
        assert!(row.iter().all(|&v| v == (group >= 41)));
    }
    let s2 = Pattern::S2.availability(&mut fixture::rng(7, "s2"));
    assert_eq!(s2.len(), GROUPS);
    for (group, row) in s2.iter().enumerate() {
        let missing = row.iter().filter(|&&v| !v).count();
        assert_eq!(missing, if group < 82 { 200 } else { 300 });
    }
    let s3 = Pattern::S3.availability(&mut fixture::rng(7, "s3"));
    assert_eq!(s3.len(), GROUPS);
    assert!(s3.iter().all(|row| row.len() == POSITIONS));
    assert_eq!(Pattern::S1.name(), "S1");
    assert_eq!(Pattern::S2.name(), "S2");
    assert_eq!(Pattern::S3.name(), "S3");
}

#[test]
fn independent_pattern_draws_each_position_with_probability_one_fifth() {
    let table = Pattern::S3.availability(&mut fixture::rng(11, "s3"));
    let mut reference = fixture::rng(11, "s3");
    for row in &table {
        for &available in row {
            assert_eq!(available, !reference.gen_bool(0.2));
        }
    }
    let missing: usize = table.iter().map(|row| row.iter().filter(|&&v| !v).count()).sum();
    let total = GROUPS * POSITIONS;
    assert!(missing * 10 > total && missing * 10 < total * 3);
}

#[test]
fn recovery_reaches_its_target_exactly_when_enough_groups_are_recoverable() {
    let groups = vec![vec![true; 4], vec![false, false, true, true], vec![true, true, true, false]];
    for seed in 0..16 {
        let reached = simulate(&groups, 3, 2, None, &mut fixture::rng(seed, "reach"));
        assert!(reached.reached_target);
        assert_eq!(reached.certified_groups, 2);
        assert_eq!(reached.stop_reason, "recovery_target");
        let short = simulate(&groups, 3, 3, None, &mut fixture::rng(seed, "reach"));
        assert!(!short.reached_target);
        assert_eq!(short.stop_reason, "groups_exhausted");
        assert_eq!(short.certified_groups, 2);
        assert_eq!(short.rejected_groups, 1);
        assert!(short.failed >= 2);
        assert!(short.accepted >= 6);
    }
}
