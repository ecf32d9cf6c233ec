//! Verified core of the maptrax field planner: index bookkeeping for swaths,
//! row ordering, multi-machine division, headland assignment, turn-corridor
//! selection and tour validation.

pub mod error;
pub mod field;
pub mod net;
pub mod order;
pub mod assign;
pub mod division;
pub mod tour;
pub mod planner;
pub mod turners;
pub mod zones;
pub mod ids;
pub mod graph;
pub mod c_abi;

pub use error::{MaptraxError, Result};
pub use division::{Balance, Divy, HeadlandMode};
pub use field::{create_ring, Field, Part, Ring, SwathObjective, SwathType};
pub use graph::{ABLine, Nety};
pub use net::{RoutingOptions, RoutingStrategy};
pub use tour::{ConnectorMode, TourBuilder, TourValidation, TurnPlannerModel};
pub use turners::{DubinsSegmentType, ReedsSheppSegmentType};
