use vstd::prelude::*;
use vstd::string::*;

use crate::ids::{append_decimal, decimal};

verus! {

/// Errors reported by the planner.
#[derive(Debug, Clone, PartialEq, Eq)]
pub enum MaptraxError {
    EmptyPolygon,
    InvalidPolygon(&'static str),
    InvalidMachineCount,
    MissingPart(usize),
    MissingField,
    InfeasiblePlan(String),
    Export(String),
}

/// Result type used throughout the planner.
pub type Result<T> = core::result::Result<T, MaptraxError>;

/// Human-readable text of an error.
pub open spec fn error_message(e: MaptraxError) -> Seq<char> {
    match e {
        MaptraxError::EmptyPolygon => "polygon has no vertices"@,
        MaptraxError::InvalidPolygon(message) => "invalid polygon: "@ + message@,
        MaptraxError::InvalidMachineCount => "machine count must be greater than zero"@,
        MaptraxError::MissingPart(index) => "part index "@ + decimal(index as nat) + " is out of bounds"@,
        MaptraxError::MissingField => "field has not been set"@,
        MaptraxError::InfeasiblePlan(message) => "infeasible plan: "@ + message@,
        MaptraxError::Export(message) => "export failed: "@ + message@,
    }
}

impl MaptraxError {
    /// The error's text, as shown to users.
    pub fn message(&self) -> (r: String)
        ensures
            r@ == error_message(*self),
    {
        match self {
            MaptraxError::EmptyPolygon => String::from_str("polygon has no vertices"),
            MaptraxError::InvalidPolygon(message) => {
                let mut s = String::from_str("invalid polygon: ");
                s.append(message);
                s
            },
            MaptraxError::InvalidMachineCount => String::from_str("machine count must be greater than zero"),
            MaptraxError::MissingPart(index) => {
                let mut s = String::from_str("part index ");
                append_decimal(&mut s, *index as u64);
                s.append(" is out of bounds");
                s
            },
            MaptraxError::MissingField => String::from_str("field has not been set"),
            MaptraxError::InfeasiblePlan(message) => {
                let mut s = String::from_str("infeasible plan: ");
                s.append(message.as_str());
                s
            },
            MaptraxError::Export(message) => {
                let mut s = String::from_str("export failed: ");
                s.append(message.as_str());
                s
            },
        }
    }
}

} // verus!
