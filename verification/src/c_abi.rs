use vstd::prelude::*;

use crate::field::SwathType;
use crate::net::{RoutingOptions, RoutingStrategy};
use crate::tour::{ConnectorMode, TurnPlannerModel};

verus! {

/// Routing strategies offered over the C interface.
#[derive(Debug, Clone, Copy, PartialEq, Eq, Structural)]
pub enum MaptraxRoutingStrategy {
    GreedyNearest,
    Snake,
    Spiral,
}

/// Routing options as passed over the C interface.
#[derive(Debug, Clone, Copy, PartialEq, Eq, Structural)]
pub struct MaptraxRoutingOptions {
    pub strategy: MaptraxRoutingStrategy,
    pub local_improvement_passes: usize,
}

/// Turn models offered over the C interface.
#[derive(Debug, Clone, Copy, PartialEq, Eq, Structural)]
pub enum MaptraxTurnModel {
    Auto,
    Dubins,
    ReedsShepp,
    Sharper,
}

/// Connector modes offered over the C interface.
#[derive(Debug, Clone, Copy, PartialEq, Eq, Structural)]
pub enum MaptraxConnectorMode {
    Auto,
    Direct,
    Headland,
}

/// Segment kinds reported over the C interface.
#[derive(Debug, Clone, Copy, PartialEq, Eq, Structural)]
pub enum MaptraxSwathKind {
    Swath,
    Connection,
    Around,
    Headland,
}

/// Where one ring's points sit in a flat point buffer.
#[derive(Debug, Clone, Copy, PartialEq, Eq, Structural)]
pub struct MaptraxRingView {
    pub point_offset: usize,
    pub point_len: usize,
}

/// Routing options requested over the C interface.
pub fn routing_options_from_ffi(options: MaptraxRoutingOptions) -> (r: RoutingOptions)
    ensures
        r.local_improvement_passes == options.local_improvement_passes,
        r.strategy == match options.strategy {
            MaptraxRoutingStrategy::GreedyNearest => RoutingStrategy::GreedyNearest,
            MaptraxRoutingStrategy::Snake => RoutingStrategy::Snake,
            MaptraxRoutingStrategy::Spiral => RoutingStrategy::Spiral,
        },
{
    RoutingOptions {
        strategy: match options.strategy {
            MaptraxRoutingStrategy::GreedyNearest => RoutingStrategy::GreedyNearest,
            MaptraxRoutingStrategy::Snake => RoutingStrategy::Snake,
            MaptraxRoutingStrategy::Spiral => RoutingStrategy::Spiral,
        },
        local_improvement_passes: options.local_improvement_passes,
    }
}

/// Turn model requested over the C interface.
pub fn turn_model_from_ffi(model: MaptraxTurnModel) -> (r: TurnPlannerModel)
    ensures
        r == match model {
            MaptraxTurnModel::Auto => TurnPlannerModel::Auto,
            MaptraxTurnModel::Dubins => TurnPlannerModel::Dubins,
            MaptraxTurnModel::ReedsShepp => TurnPlannerModel::ReedsShepp,
            MaptraxTurnModel::Sharper => TurnPlannerModel::Sharper,
        },
{
    match model {
        MaptraxTurnModel::Auto => TurnPlannerModel::Auto,
        MaptraxTurnModel::Dubins => TurnPlannerModel::Dubins,
        MaptraxTurnModel::ReedsShepp => TurnPlannerModel::ReedsShepp,
        MaptraxTurnModel::Sharper => TurnPlannerModel::Sharper,
    }
}

/// Connector mode requested over the C interface.
pub fn connector_mode_from_ffi(mode: MaptraxConnectorMode) -> (r: ConnectorMode)
    ensures
        r == match mode {
            MaptraxConnectorMode::Auto => ConnectorMode::Auto,
            MaptraxConnectorMode::Direct => ConnectorMode::Direct,
            MaptraxConnectorMode::Headland => ConnectorMode::Headland,
        },
{
    match mode {
        MaptraxConnectorMode::Auto => ConnectorMode::Auto,
        MaptraxConnectorMode::Direct => ConnectorMode::Direct,
        MaptraxConnectorMode::Headland => ConnectorMode::Headland,
    }
}

/// Kind reported over the C interface for a segment type.
pub fn swath_kind_from_type(kind: SwathType) -> (r: MaptraxSwathKind)
    ensures
        r == match kind {
            SwathType::Swath => MaptraxSwathKind::Swath,
            SwathType::Connection => MaptraxSwathKind::Connection,
            SwathType::Around => MaptraxSwathKind::Around,
            SwathType::Headland => MaptraxSwathKind::Headland,
        },
{
    match kind {
        SwathType::Swath => MaptraxSwathKind::Swath,
        SwathType::Connection => MaptraxSwathKind::Connection,
        SwathType::Around => MaptraxSwathKind::Around,
        SwathType::Headland => MaptraxSwathKind::Headland,
    }
}

/// Points a segment contributes to a flat buffer: its stored polyline, or
/// its head and tail when it stores none.
pub fn flattened_point_count(stored_points: usize) -> (r: usize)
    ensures
        r == if stored_points == 0 { 2 } else { stored_points },
{
    if stored_points == 0 { 2 } else { stored_points }
}

/// Sum of `counts[0..k]`.
pub open spec fn prefix_total(counts: Seq<usize>, k: int) -> int
    decreases k,
{
    if k <= 0 {
        0
    } else {
        prefix_total(counts, k - 1) + counts[k - 1]
    }
}

proof fn lemma_prefix_total_monotone(counts: Seq<usize>, a: int, b: int)
    requires
        0 <= a <= b <= counts.len(),
    ensures
        prefix_total(counts, a) <= prefix_total(counts, b),
    decreases b - a,
{
    if a < b {
        lemma_prefix_total_monotone(counts, a, b - 1);
    }
}

/// Views of consecutive groups of `counts[i]` points packed into one flat
/// buffer, in order: each starts where the previous one ends.
pub fn packed_views(counts: &Vec<usize>) -> (out: Vec<MaptraxRingView>)
    requires
        prefix_total(counts@, counts.len() as int) <= usize::MAX,
    ensures
        out.len() == counts.len(),
        forall|i: int|
            0 <= i < out.len() ==> #[trigger] out@[i] == (MaptraxRingView {
                point_offset: prefix_total(counts@, i) as usize,
                point_len: counts@[i],
            }),
{
    let mut out: Vec<MaptraxRingView> = Vec::new();
    let mut offset: usize = 0;
    let mut i: usize = 0;
    while i < counts.len()
        invariant
            prefix_total(counts@, counts.len() as int) <= usize::MAX,
            i <= counts.len(),
            out.len() == i,
            offset == prefix_total(counts@, i as int),
            forall|k: int|
                0 <= k < i ==> #[trigger] out@[k] == (MaptraxRingView {
                    point_offset: prefix_total(counts@, k) as usize,
                    point_len: counts@[k],
                }),
        decreases counts.len() - i,
    {
        proof {
            lemma_prefix_total_monotone(counts@, i + 1, counts.len() as int);
        }
        out.push(MaptraxRingView { point_offset: offset, point_len: counts[i] });
        offset = offset + counts[i];
        i = i + 1;
    }
    out
}

/// Packed views tile the buffer: the first starts at 0, each next one starts
/// where the previous ends, and the last ends at the buffer's length.
pub proof fn lemma_packed_views_tile(counts: Seq<usize>, i: int)
    requires
        0 <= i < counts.len(),
    ensures
        prefix_total(counts, 0) == 0,
        prefix_total(counts, i + 1) == prefix_total(counts, i) + counts[i],
        prefix_total(counts, i) + counts[i] <= prefix_total(counts, counts.len() as int),
{
    lemma_prefix_total_monotone(counts, i + 1, counts.len() as int);
}

} // verus!
