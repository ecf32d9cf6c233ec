use maptrax::net::{
    connection_augmented_steps, pattern_order_indices, skip_row_indices, snake_indices, spiral_indices,
    RoutingOptions, RoutingStrategy, TraversalStep,
};

#[test]
fn stride_one_is_identity() {
    assert_eq!(skip_row_indices(vec![0, 1, 2, 3], 1), vec![0, 1, 2, 3]);
    assert_eq!(skip_row_indices(vec![0, 1, 2, 3], 0), vec![0, 1, 2, 3]);
}

#[test]
fn stride_three_groups_avoids_adjacent_group_seams() {
    // groups: [0,3,6,9], [1,4,7], [2,5,8]
    let out = skip_row_indices(vec![0, 1, 2, 3, 4, 5, 6, 7, 8, 9], 3);
    assert_eq!(out, vec![0, 3, 6, 9, 1, 4, 7, 2, 5, 8]);
}

#[test]
fn permutation_is_preserved() {
    let mut out = skip_row_indices((0..17).collect(), 4);
    out.sort_unstable();
    assert_eq!(out, (0..17).collect::<Vec<_>>());
}

#[test]
fn skip_rows_maps_positions_onto_canonical_rows() {
    // positions 0,2,4 then 1,3 (forward: 1 is far enough from 4)
    let out = skip_row_indices(vec![10, 11, 12, 13, 14], 2);
    assert_eq!(out, vec![10, 12, 14, 11, 13]);
}

#[test]
fn skip_rows_walks_a_group_backwards_when_its_head_is_too_close() {
    // groups [0,2,4,6], [1,3,5]: after 6, row 1 is 5 away and row 5 only 1,
    // so the second group runs forward.
    assert_eq!(skip_row_indices((0..7).collect(), 2), vec![0, 2, 4, 6, 1, 3, 5]);
    // groups [0,2], [1]: after 2, row 1 is adjacent either way and is taken.
    assert_eq!(skip_row_indices((0..3).collect(), 2), vec![0, 2, 1]);
}

#[test]
fn skip_rows_on_no_rows_is_empty() {
    assert_eq!(skip_row_indices(Vec::new(), 3), Vec::<usize>::new());
}

#[test]
fn spiral_alternates_between_the_outer_rows() {
    assert_eq!(spiral_indices(vec![10, 11, 12, 13, 14], true), vec![10, 14, 11, 13, 12]);
    assert_eq!(spiral_indices(vec![10, 11, 12, 13, 14], false), vec![14, 10, 13, 11, 12]);
    assert_eq!(spiral_indices(vec![7], false), vec![7]);
    assert_eq!(spiral_indices(Vec::new(), true), Vec::<usize>::new());
}

#[test]
fn snake_keeps_the_canonical_order() {
    assert_eq!(snake_indices(vec![3, 1, 2]), vec![3, 1, 2]);
}

#[test]
fn pattern_order_per_strategy() {
    let canonical = vec![0, 1, 2, 3, 4];
    assert_eq!(pattern_order_indices(RoutingStrategy::GreedyNearest, canonical.clone(), true), None);
    assert_eq!(pattern_order_indices(RoutingStrategy::Snake, canonical.clone(), true), Some(vec![0, 1, 2, 3, 4]));
    assert_eq!(pattern_order_indices(RoutingStrategy::TurnRadiusAware, canonical.clone(), true), Some(vec![0, 1, 2, 3, 4]));
    assert_eq!(pattern_order_indices(RoutingStrategy::Spiral, canonical.clone(), true), Some(vec![0, 4, 1, 3, 2]));
    assert_eq!(
        pattern_order_indices(RoutingStrategy::SkipRows { stride: 2 }, canonical, true),
        Some(vec![0, 2, 4, 1, 3])
    );
}

#[test]
fn connection_augmented_order_interleaves_connectors() {
    assert_eq!(
        connection_augmented_steps(3),
        vec![
            TraversalStep::Work(0),
            TraversalStep::Connection(0, 1),
            TraversalStep::Work(1),
            TraversalStep::Connection(1, 2),
            TraversalStep::Work(2),
        ]
    );
    assert_eq!(connection_augmented_steps(1), vec![TraversalStep::Work(0)]);
    assert!(connection_augmented_steps(0).is_empty());
}

#[test]
fn routing_options_default_to_greedy_without_passes() {
    let options = RoutingOptions::default();
    assert_eq!(options.strategy, RoutingStrategy::GreedyNearest);
    assert_eq!(options.local_improvement_passes, 0);
}

/// Rows at x = 30, 0, 40, 10, 20 named by their offset; canonical order is by offset.
fn shuffled_parallel_names() -> (Vec<String>, Vec<usize>) {
    let names = [30, 0, 40, 10, 20].iter().map(|x| format!("swath_{x}")).collect();
    (names, vec![1, 3, 4, 0, 2])
}

fn names_in(order: &[usize], names: &[String]) -> Vec<String> {
    order.iter().map(|&i| names[i].clone()).collect()
}

#[test]
fn snake_strategy_is_deterministic_on_parallel_swaths() {
    let (names, canonical) = shuffled_parallel_names();
    let a = pattern_order_indices(RoutingStrategy::Snake, canonical.clone(), true).unwrap();
    let b = pattern_order_indices(RoutingStrategy::Snake, canonical, true).unwrap();
    assert_eq!(names_in(&a, &names), names_in(&b, &names));
    assert_eq!(
        names_in(&a, &names),
        vec![
            "swath_0".to_string(),
            "swath_10".to_string(),
            "swath_20".to_string(),
            "swath_30".to_string(),
            "swath_40".to_string(),
        ]
    );
}

#[test]
fn spiral_strategy_walks_outer_rows_inward() {
    let (names, canonical) = shuffled_parallel_names();
    let order = pattern_order_indices(RoutingStrategy::Spiral, canonical, true).unwrap();
    assert_eq!(
        names_in(&order, &names),
        vec![
            "swath_0".to_string(),
            "swath_40".to_string(),
            "swath_10".to_string(),
            "swath_30".to_string(),
            "swath_20".to_string(),
        ]
    );
}
