use automate::engine::{descending_order, plan_redistribution, PlanError};

#[test]
fn plan_four_to_one_two_owners() {
    let p = plan_redistribution(&vec![7, 3], 4).unwrap();
    assert_eq!(p.modded_levels_total, 2);
    assert_eq!(p.order, vec![0, 1]);
    assert_eq!(p.per_owner_delta, vec![1, 1]);
}

#[test]
fn plan_shortfall_goes_to_largest_owner() {
    let p = plan_redistribution(&vec![5, 3, 1], 2).unwrap();
    assert_eq!(p.modded_levels_total, 4);
    assert_eq!(p.per_owner_delta, vec![3, 1, 0]);
}

#[test]
fn plan_no_shortfall_two_owners() {
    let p = plan_redistribution(&vec![5, 4], 2).unwrap();
    assert_eq!(p.modded_levels_total, 4);
    assert_eq!(p.per_owner_delta, vec![2, 2]);
}

#[test]
fn plan_surplus_skips_owners_at_zero() {
    // Raw parts [1, 1, 1, 0] add up to 3 against a target of 2.
    let p = plan_redistribution(&vec![3, 3, 3, 1], 4).unwrap();
    assert_eq!(p.modded_levels_total, 2);
    assert_eq!(p.per_owner_delta, vec![1, 1, 0, 0]);
}

#[test]
fn plan_sorts_owners_descending() {
    let p = plan_redistribution(&vec![1, 5, 3], 2).unwrap();
    assert_eq!(p.order, vec![1, 2, 0]);
    assert_eq!(p.per_owner_delta, vec![3, 1, 0]);
}

#[test]
fn plan_below_threshold_converts_nothing() {
    // 3 / 6 - 0.1 = 0.4 rounds to 0.
    let p = plan_redistribution(&vec![2, 1], 6).unwrap();
    assert_eq!(p.modded_levels_total, 0);
    assert_eq!(p.per_owner_delta, vec![0, 0]);
}

#[test]
fn plan_rounding_nudge_at_half() {
    // 6 / 4 - 0.1 = 1.4 rounds to 1; 7 / 2 - 0.1 = 3.4 rounds to 3.
    assert_eq!(plan_redistribution(&vec![6], 4).unwrap().modded_levels_total, 1);
    assert_eq!(plan_redistribution(&vec![7], 2).unwrap().modded_levels_total, 3);
    // 11 / 2 - 0.1 = 5.4 rounds to 5; 12 / 2 - 0.1 = 5.9 rounds to 6.
    assert_eq!(plan_redistribution(&vec![11], 2).unwrap().modded_levels_total, 5);
    assert_eq!(plan_redistribution(&vec![12], 2).unwrap().modded_levels_total, 6);
}

#[test]
fn plan_ratio_one_converts_everything() {
    let p = plan_redistribution(&vec![4, 2, 1], 1).unwrap();
    assert_eq!(p.modded_levels_total, 7);
    assert_eq!(p.per_owner_delta, vec![4, 2, 1]);
}

#[test]
fn plan_no_owners() {
    let p = plan_redistribution(&vec![], 4).unwrap();
    assert_eq!(p.modded_levels_total, 0);
    assert!(p.order.is_empty());
    assert!(p.per_owner_delta.is_empty());
}

#[test]
fn plan_conserves_on_many_partitions() {
    let partitions: Vec<Vec<u32>> = vec![
        vec![1, 1, 1, 1, 1, 1, 1],
        vec![10, 1, 1, 1],
        vec![2, 2, 2, 2, 1],
        vec![100, 37, 12, 5, 5, 1],
        vec![9],
        vec![1, 8, 1, 8],
    ];
    for levels in partitions {
        for ratio in [1u32, 2, 4, 6] {
            let p = plan_redistribution(&levels, ratio).unwrap();
            let total: u64 = levels.iter().map(|&l| l as u64).sum();
            let taken: u64 = p.per_owner_delta.iter().map(|&d| d as u64).sum();
            assert!(p.modded_levels_total <= total);
            assert_eq!(taken, p.modded_levels_total);
            for (k, &i) in p.order.iter().enumerate() {
                assert!(p.per_owner_delta[k] <= levels[i]);
            }
        }
    }
}

#[test]
fn plan_large_levels() {
    let p = plan_redistribution(&vec![u32::MAX, u32::MAX], 2).unwrap();
    assert_eq!(p.modded_levels_total, u32::MAX as u64);
    let taken: u64 = p.per_owner_delta.iter().map(|&d| d as u64).sum();
    assert_eq!(taken, u32::MAX as u64);
}

#[test]
fn plan_error_is_comparable() {
    assert_eq!(PlanError::LevelsOverflow, PlanError::LevelsOverflow);
}

#[test]
fn order_is_stable_for_ties() {
    assert_eq!(descending_order(&vec![2, 5, 2, 5, 1]), vec![1, 3, 0, 2, 4]);
    assert_eq!(descending_order(&vec![]), Vec::<usize>::new());
}
