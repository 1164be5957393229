use vstd::prelude::*;
use crate::network::{Network, StopIndex, Timestamp};

verus! {

/// Identifies a trip: its route and its position among the route's trips.
#[derive(Clone, Copy, Debug, PartialEq, Eq, Structural)]
pub struct GlobalTripIndex {
    pub route_idx: u32,
    pub trip_order: u32,
}

/// A boarding on one trip, from one stop-order of its route to a later one.
#[derive(Clone, Copy, Debug, PartialEq, Eq, Structural)]
pub struct Leg {
    pub trip: GlobalTripIndex,
    pub boarded_stop: StopIndex,
    pub arrival_stop: StopIndex,
    pub boarded_stop_order: u32,
    pub arrival_stop_order: u32,
    pub boarded_time: Timestamp,
    pub arrival_time: Timestamp,
}

/// A crowding cost, held as the bit pattern of an IEEE-754 single-precision
/// number. The library carries it and never computes with it.
#[derive(Clone, Copy, Debug, PartialEq, Eq, Structural)]
pub struct Cost {
    pub bits: u32,
}

/// A journey found by the shortest-path query: its legs in travel order, its
/// duration in seconds and its summed crowding cost.
#[derive(Debug)]
pub struct Journey {
    pub legs: Vec<Leg>,
    pub duration: Timestamp,
    pub cost: Cost,
}

/// Why a journey query gave no journey.
#[derive(Clone, Copy, Debug, PartialEq, Eq, Structural)]
pub enum JourneyError {
    NoJourneyFound,
    InfiniteLoop,
}

/// One resolved (step, destination) pair.
#[derive(Debug)]
pub struct AgentJourney {
    pub origin_stop: StopIndex,
    pub origin_trip: GlobalTripIndex,
    pub dest_stop: StopIndex,
    pub dest_trip: GlobalTripIndex,
    pub count: u32,
    pub start_time: Timestamp,
    pub duration: Timestamp,
    pub crowding_cost: Cost,
    pub num_transfers: u8,
    pub legs: Vec<Leg>,
}

/// The outcome for one destination of one simulation step.
#[derive(Debug)]
pub struct AgentJourneyResult {
    pub sim_step_idx: u32,
    pub journey_idx: u32,
    pub result: Result<AgentJourney, JourneyError>,
}

/// The leg rides a real trip of the network, from a stop-order to a later one.
pub open spec fn valid_leg(net: &Network, leg: Leg) -> bool {
    &&& net.valid_trip(leg.trip.route_idx as int, leg.trip.trip_order as int)
    &&& leg.boarded_stop_order < leg.arrival_stop_order
    &&& leg.arrival_stop_order < net.trip_len(leg.trip.route_idx as int)
}

/// Stop-time entry where the leg boards.
pub open spec fn leg_lo(net: &Network, leg: Leg) -> int {
    net.trip_start(leg.trip.route_idx as int, leg.trip.trip_order as int) + leg.boarded_stop_order
}

/// Stop-time entry where the leg alights.
pub open spec fn leg_hi(net: &Network, leg: Leg) -> int {
    net.trip_start(leg.trip.route_idx as int, leg.trip.trip_order as int) + leg.arrival_stop_order
}

} // verus!
