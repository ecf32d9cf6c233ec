use maptrax::field::SwathType;
use maptrax::tour::{
    choose_connector, fallback_connector_ring, ring_walk, row_skip_stride_for_band, turn_corridor_inner_ring,
    turn_corridor_outer_ring, Along, ConnectorChoice, ConnectorMode, HeadlandShortfall, HeadlandSizingPolicy,
    TourBuilder, TourStep, TourValidation, TurnPlannerModel,
};

#[test]
fn warn_only_keeps_count_and_warns_when_short() {
    let policy = HeadlandSizingPolicy::WarnOnly;
    assert_eq!(policy.effective_headland_count(2, 6), 2);
    assert!(policy.warns(2, 6));
    assert!(!policy.warns(6, 6));
    assert_eq!(policy.checked_headland_count(2, 6), Ok(2));
}

#[test]
fn auto_increase_grows_headlands() {
    let policy = HeadlandSizingPolicy::AutoIncrease;
    assert_eq!(policy.effective_headland_count(2, 6), 6);
    assert_eq!(policy.effective_headland_count(8, 6), 8);
    assert!(!policy.warns(2, 6));
    assert_eq!(policy.checked_headland_count(2, 6), Ok(6));
}

#[test]
fn strict_user_keeps_request_but_refuses_a_shortfall_for_the_field() {
    let policy = HeadlandSizingPolicy::StrictUser;
    assert_eq!(policy.effective_headland_count(2, 6), 2);
    assert!(!policy.warns(2, 6));
    assert_eq!(
        policy.checked_headland_count(2, 6),
        Err(HeadlandShortfall { requested: 2, required: 6 })
    );
    assert_eq!(policy.checked_headland_count(6, 6), Ok(6));
}

#[test]
fn sizing_policy_defaults_to_warn_only() {
    assert_eq!(HeadlandSizingPolicy::default(), HeadlandSizingPolicy::WarnOnly);
}

#[test]
fn stride_recovers_missing_band_depth() {
    assert_eq!(row_skip_stride_for_band(true, 6), 1);
    assert_eq!(row_skip_stride_for_band(false, 6), 6);
}

#[test]
fn connector_choice_per_mode() {
    assert_eq!(choose_connector(ConnectorMode::Direct, false, true, true), ConnectorChoice::Direct);
    assert_eq!(choose_connector(ConnectorMode::Direct, false, false, true), ConnectorChoice::Headland);
    assert_eq!(choose_connector(ConnectorMode::Headland, true, true, true), ConnectorChoice::Headland);
    assert_eq!(choose_connector(ConnectorMode::Headland, true, true, false), ConnectorChoice::Direct);
    assert_eq!(choose_connector(ConnectorMode::Auto, true, true, true), ConnectorChoice::Direct);
    assert_eq!(choose_connector(ConnectorMode::Auto, false, true, true), ConnectorChoice::Headland);
    assert_eq!(choose_connector(ConnectorMode::Auto, false, true, false), ConnectorChoice::Direct);
    assert_eq!(choose_connector(ConnectorMode::Auto, true, false, false), ConnectorChoice::Unjoined);
}

#[test]
fn corridor_rings_by_headland_count() {
    assert_eq!(fallback_connector_ring(0), None);
    assert_eq!(fallback_connector_ring(1), Some(0));
    assert_eq!(fallback_connector_ring(2), Some(0));
    assert_eq!(fallback_connector_ring(3), Some(1));
    assert_eq!(fallback_connector_ring(6), Some(3));
    assert_eq!(turn_corridor_inner_ring(1), None);
    assert_eq!(turn_corridor_inner_ring(4), Some(3));
    assert_eq!(turn_corridor_outer_ring(0), None);
    assert_eq!(turn_corridor_outer_ring(4), Some(0));
}

#[test]
fn validation_counts_only_connectors() {
    let kinds = vec![
        SwathType::Swath,
        SwathType::Connection,
        SwathType::Around,
        SwathType::Headland,
        SwathType::Connection,
    ];
    let outside = vec![true, true, false, true, false];
    let through = vec![true, false, true, false, true];
    let v = TourValidation::tally(&kinds, &outside, &through);
    assert_eq!(v.connector_segments, 3);
    assert_eq!(v.outside_boundary, 1);
    assert_eq!(v.through_work_area, 2);
    assert_eq!(v.violations(), 3);
    assert!(!v.ok());
}

#[test]
fn clean_tour_is_ok_with_no_violations() {
    let v = TourValidation::tally(&vec![SwathType::Swath, SwathType::Connection], &vec![true, false], &vec![true, false]);
    assert!(v.ok());
    assert_eq!(v.violations(), 0);
    assert_eq!(TourValidation::default(), TourValidation { connector_segments: 0, outside_boundary: 0, through_work_area: 0 });
}

#[test]
fn layout_interleaves_rows_and_connector_segments() {
    assert_eq!(
        TourBuilder::layout(3, &vec![2, 0]),
        vec![
            TourStep::Row(0),
            TourStep::RowConnector(0, 0),
            TourStep::RowConnector(0, 1),
            TourStep::Row(1),
            TourStep::Row(2),
        ]
    );
    assert!(TourBuilder::layout(0, &vec![]).is_empty());
}

#[test]
fn headland_layout_drives_arcs_then_hands_off_to_rows() {
    let out = TourBuilder::headland_layout(&vec![5, 1, 4], &vec![true, true, true], true, 2, &vec![1]);
    assert_eq!(
        out,
        vec![
            TourStep::HeadlandArc(0),
            TourStep::ArcConnector(2),
            TourStep::HeadlandArc(2),
            TourStep::Handoff,
            TourStep::Row(0),
            TourStep::RowConnector(0, 0),
            TourStep::Row(1),
        ]
    );
    // no driven arc: no hand-off, just the rows
    assert_eq!(
        TourBuilder::headland_layout(&vec![1], &vec![true], true, 1, &vec![]),
        vec![TourStep::Row(0)]
    );
    // a connector that could not be planned is left out
    assert_eq!(
        TourBuilder::headland_layout(&vec![3, 3], &vec![false, false], false, 0, &vec![]),
        vec![TourStep::HeadlandArc(0), TourStep::HeadlandArc(1)]
    );
}

#[test]
fn driven_arcs_need_two_points() {
    assert_eq!(TourBuilder::driven_arcs(&vec![2, 0, 1, 7]), vec![0, 3]);
}

#[test]
fn ring_walk_forward_and_backward() {
    // ring of 5 segments, from segment 1 to segment 3
    assert_eq!(ring_walk(5, 1, 3, true, Along::Level), vec![2, 3]);
    assert_eq!(ring_walk(5, 3, 1, true, Along::Level), vec![4, 0, 1]);
    assert_eq!(ring_walk(5, 3, 1, false, Along::Level), vec![3, 2]);
    assert_eq!(ring_walk(5, 1, 3, false, Along::Level), vec![1, 0, 4]);
}

#[test]
fn ring_walk_on_one_segment() {
    assert!(ring_walk(4, 2, 2, true, Along::After).is_empty());
    assert!(ring_walk(4, 2, 2, false, Along::Before).is_empty());
    // goal behind the start: a full round
    assert_eq!(ring_walk(4, 2, 2, true, Along::Before), vec![3, 0, 1, 2]);
    assert_eq!(ring_walk(4, 2, 2, false, Along::After), vec![2, 1, 0, 3]);
}

#[test]
fn backward_walk_is_reversed_forward_walk() {
    let mut forward = ring_walk(6, 4, 1, true, Along::Level);
    forward.reverse();
    assert_eq!(ring_walk(6, 1, 4, false, Along::Level), forward);
}

#[test]
fn turn_models_are_distinct() {
    assert_ne!(TurnPlannerModel::Dubins, TurnPlannerModel::ReedsShepp);
}

// A Dubins turn of radius 8 m on 3 m rows needs 6 headland rings and a row
// skip of 6 (16 m of turn depth and lateral room).
const DUBINS_REQUIRED_HEADLANDS: usize = 6;
const DUBINS_REQUIRED_STRIDE: usize = 6;

#[test]
fn warn_only_keeps_count_but_skips_rows() {
    let policy = HeadlandSizingPolicy::WarnOnly;
    let effective = policy.effective_headland_count(2, DUBINS_REQUIRED_HEADLANDS);
    assert_eq!(effective, 2);
    assert!(policy.warns(2, DUBINS_REQUIRED_HEADLANDS));
    // 2 headlands (6 m) < 16 m needed: recover laterally via the stride.
    assert_eq!(row_skip_stride_for_band(false, DUBINS_REQUIRED_STRIDE), 6);
}

#[test]
fn auto_increase_grows_headlands_and_drops_stride() {
    let policy = HeadlandSizingPolicy::AutoIncrease;
    assert_eq!(policy.effective_headland_count(2, DUBINS_REQUIRED_HEADLANDS), 6);
    // 6 headlands (18 m) >= 16 m needed: no row skipping.
    assert_eq!(row_skip_stride_for_band(true, DUBINS_REQUIRED_STRIDE), 1);
    assert!(!policy.warns(2, DUBINS_REQUIRED_HEADLANDS));
}

#[test]
fn strict_user_keeps_request_untouched() {
    assert_eq!(HeadlandSizingPolicy::StrictUser.effective_headland_count(2, DUBINS_REQUIRED_HEADLANDS), 2);
}

#[test]
fn strict_policy_rejects_too_few_headlands() {
    assert!(HeadlandSizingPolicy::StrictUser.checked_headland_count(2, DUBINS_REQUIRED_HEADLANDS).is_err());
}

#[test]
fn auto_increase_grows_headland_count() {
    assert_eq!(HeadlandSizingPolicy::AutoIncrease.checked_headland_count(2, DUBINS_REQUIRED_HEADLANDS), Ok(6));
    assert_eq!(row_skip_stride_for_band(true, DUBINS_REQUIRED_STRIDE), 1);
}

#[test]
fn warn_only_keeps_count_and_reports_stride() {
    let policy = HeadlandSizingPolicy::WarnOnly;
    assert_eq!(policy.effective_headland_count(2, DUBINS_REQUIRED_HEADLANDS), 2);
    assert_eq!(row_skip_stride_for_band(false, DUBINS_REQUIRED_STRIDE), 6);
    assert!(policy.warns(2, DUBINS_REQUIRED_HEADLANDS));
}
