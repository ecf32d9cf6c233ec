use maptrax::c_abi::{
    connector_mode_from_ffi, flattened_point_count, packed_views, routing_options_from_ffi, swath_kind_from_type,
    turn_model_from_ffi, MaptraxConnectorMode, MaptraxRingView, MaptraxRoutingOptions, MaptraxRoutingStrategy,
    MaptraxSwathKind, MaptraxTurnModel,
};
use maptrax::field::SwathType;
use maptrax::net::RoutingStrategy;
use maptrax::tour::{ConnectorMode, TurnPlannerModel};

#[test]
fn routing_options_cross_the_interface() {
    let options = routing_options_from_ffi(MaptraxRoutingOptions {
        strategy: MaptraxRoutingStrategy::Spiral,
        local_improvement_passes: 3,
    });
    assert_eq!(options.strategy, RoutingStrategy::Spiral);
    assert_eq!(options.local_improvement_passes, 3);
    let greedy = routing_options_from_ffi(MaptraxRoutingOptions {
        strategy: MaptraxRoutingStrategy::GreedyNearest,
        local_improvement_passes: 0,
    });
    assert_eq!(greedy.strategy, RoutingStrategy::GreedyNearest);
}

#[test]
fn enums_cross_the_interface() {
    assert_eq!(turn_model_from_ffi(MaptraxTurnModel::ReedsShepp), TurnPlannerModel::ReedsShepp);
    assert_eq!(turn_model_from_ffi(MaptraxTurnModel::Auto), TurnPlannerModel::Auto);
    assert_eq!(connector_mode_from_ffi(MaptraxConnectorMode::Direct), ConnectorMode::Direct);
    assert_eq!(swath_kind_from_type(SwathType::Around), MaptraxSwathKind::Around);
    assert_eq!(swath_kind_from_type(SwathType::Headland), MaptraxSwathKind::Headland);
}

#[test]
fn flat_buffers_pack_groups_back_to_back() {
    assert_eq!(
        packed_views(&vec![3, 0, 2]),
        vec![
            MaptraxRingView { point_offset: 0, point_len: 3 },
            MaptraxRingView { point_offset: 3, point_len: 0 },
            MaptraxRingView { point_offset: 3, point_len: 2 },
        ]
    );
    assert!(packed_views(&vec![]).is_empty());
}

#[test]
fn segments_without_points_contribute_head_and_tail() {
    assert_eq!(flattened_point_count(0), 2);
    assert_eq!(flattened_point_count(5), 5);
}
