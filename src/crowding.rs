use vstd::prelude::*;
use crate::capacity::{TripCapacities, TripCapacity};
use crate::network::{layout_end, lemma_layout_end_monotone, Network, StopTime, Timestamp};
use crate::simulation::PopulationCount;

verus! {

/// What the crowding cost of one stop-time entry is priced from: the trip's
/// capacity, the entry's occupancy, and the time the segment takes. The first
/// entry of a trip has no segment before it and is priced per unit time alone.
#[derive(Clone, Copy, Debug, PartialEq, Eq, Structural)]
pub struct SegmentLoad {
    pub capacity: TripCapacity,
    pub count: PopulationCount,
    pub connection_time: Option<Timestamp>,
}

/// Seconds from arriving at one stop to leaving the next, and zero where the
/// timetable has the departure before the arrival.
pub open spec fn connection_time(prev: StopTime, next: StopTime) -> Timestamp {
    if next.departure_time >= prev.arrival_time {
        (next.departure_time - prev.arrival_time) as Timestamp
    } else {
        0
    }
}

/// The load of stop-order `i` of trip `trip` of route `route`.
pub open spec fn load_at(
    net: &Network,
    capacities: &TripCapacities,
    population_count: Seq<PopulationCount>,
    route: int,
    trip: int,
    i: int,
) -> SegmentLoad {
    let k = net.trip_start(route, trip) + i;
    SegmentLoad {
        capacity: capacities.capacity(net.routes@[route].trip_ids@[trip]@),
        count: population_count[k],
        connection_time: if i == 0 {
            None
        } else {
            Some(connection_time(net.stop_times@[k - 1], net.stop_times@[k]))
        },
    }
}

/// Loads of every stop-time entry, in layout order, for pricing a round's
/// crowding costs.
pub fn segment_loads(
    net: &Network,
    capacities: &TripCapacities,
    population_count: &Vec<PopulationCount>,
) -> (r: Vec<SegmentLoad>)
    requires
        net.wf(),
        population_count@.len() == net.stop_times@.len(),
    ensures
        r@.len() == net.stop_times@.len(),
        forall|route: int, trip: int, i: int|
            net.valid_trip(route, trip) && 0 <= i < net.trip_len(route) ==> r@[net.trip_start(
                route,
                trip,
            ) + i] == #[trigger] load_at(net, capacities, population_count@, route, trip, i),
{
    let ghost pop = population_count@;
    let mut out: Vec<SegmentLoad> = Vec::new();
    let mut route: usize = 0;
    while route < net.routes.len()
        invariant
            net.wf(),
            pop == population_count@,
            pop.len() == net.stop_times@.len(),
            0 <= route <= net.routes@.len(),
            out@.len() == layout_end(net.routes@, route as int),
            forall|ro: int, t: int, i: int|
                0 <= ro < route && net.valid_trip(ro, t) && 0 <= i < net.trip_len(ro) ==> out@[net.trip_start(ro, t) + i]
                    == #[trigger] load_at(net, capacities, pop, ro, t, i),
        decreases net.routes@.len() - route,
    {
        let num_trips = net.routes[route].num_trips;
        let num_stops = net.routes[route].num_stops;
        let mut trip: usize = 0;
        while trip < num_trips
            invariant
                net.wf(),
                pop == population_count@,
                pop.len() == net.stop_times@.len(),
                0 <= route < net.routes@.len(),
                num_trips == net.routes@[route as int].num_trips,
                num_stops == net.routes@[route as int].num_stops,
                0 <= trip <= num_trips,
                out@.len() == net.routes@[route as int].stop_times_idx + trip * num_stops,
                trip == num_trips ==> out@.len() == layout_end(net.routes@, route + 1),
                forall|ro: int, t: int, i: int|
                    0 <= ro < route && net.valid_trip(ro, t) && 0 <= i < net.trip_len(ro) ==> out@[net.trip_start(ro, t) + i]
                        == #[trigger] load_at(net, capacities, pop, ro, t, i),
                forall|t: int, i: int|
                    0 <= t < trip && 0 <= i < num_stops ==> out@[net.trip_start(route as int, t) + i]
                        == #[trigger] load_at(net, capacities, pop, route as int, t, i),
            decreases num_trips - trip,
        {
            let (start, end) = net.trip_range(route, trip);
            proof {
                net.lemma_trip_in_bounds(route as int, trip as int);
            }
            let capacity = capacities.get(net.routes[route].trip_ids[trip].as_str());
            let mut k: usize = start;
            while k < end
                invariant
                    net.wf(),
                    pop == population_count@,
                    pop.len() == net.stop_times@.len(),
                    0 <= route < net.routes@.len(),
                    0 <= trip < num_trips,
                    num_trips == net.routes@[route as int].num_trips,
                    num_stops == net.routes@[route as int].num_stops,
                    start == net.trip_start(route as int, trip as int),
                    end == start + num_stops,
                    end <= net.stop_times@.len(),
                    capacity == capacities.capacity(net.routes@[route as int].trip_ids@[trip as int]@),
                    start <= k <= end,
                    out@.len() == k,
                    forall|ro: int, t: int, i: int|
                        0 <= ro < route && net.valid_trip(ro, t) && 0 <= i < net.trip_len(ro) ==> out@[net.trip_start(ro, t) + i]
                            == #[trigger] load_at(net, capacities, pop, ro, t, i),
                    forall|t: int, i: int|
                        0 <= t < trip && 0 <= i < num_stops ==> out@[net.trip_start(route as int, t) + i]
                            == #[trigger] load_at(net, capacities, pop, route as int, t, i),
                    forall|i: int|
                        0 <= i < k - start ==> out@[start + i]
                            == #[trigger] load_at(net, capacities, pop, route as int, trip as int, i),
                decreases end - k,
            {
                let connection = if k == start {
                    None
                } else {
                    let prev = net.stop_times[k - 1].arrival_time;
                    let next = net.stop_times[k].departure_time;
                    Some(if next >= prev { next - prev } else { 0 })
                };
                let ghost old_out = out@;
                out.push(SegmentLoad { capacity, count: population_count[k], connection_time: connection });
                proof {
                    assert forall|ro: int, t: int, i: int|
                        0 <= ro < route && net.valid_trip(ro, t) && 0 <= i < net.trip_len(ro) implies out@[net.trip_start(ro, t) + i]
                            == #[trigger] load_at(net, capacities, pop, ro, t, i) by {
                        net.lemma_trip_in_bounds(ro, t);
                        lemma_layout_end_monotone(net.routes@, ro + 1, route as int);
                        assert(out@[net.trip_start(ro, t) + i] == old_out[net.trip_start(ro, t) + i]);
                    }
                    assert forall|t: int, i: int|
                        0 <= t < trip && 0 <= i < num_stops implies out@[net.trip_start(route as int, t) + i]
                            == #[trigger] load_at(net, capacities, pop, route as int, t, i) by {
                        assert(t * num_stops + num_stops <= trip * num_stops) by (nonlinear_arith)
                            requires
                                t < trip,
                        ;
                        assert(out@[net.trip_start(route as int, t) + i] == old_out[net.trip_start(route as int, t) + i]);
                    }
                    assert forall|i: int|
                        0 <= i < k + 1 - start implies out@[start + i]
                            == #[trigger] load_at(net, capacities, pop, route as int, trip as int, i) by {
                        if i < k - start {
                            assert(out@[start + i] == old_out[start + i]);
                        }
                    }
                }
                k = k + 1;
            }
            proof {
                assert forall|t: int, i: int|
                    0 <= t < trip + 1 && 0 <= i < num_stops implies out@[net.trip_start(route as int, t) + i]
                        == #[trigger] load_at(net, capacities, pop, route as int, t, i) by {
                    if t == trip {
                        assert(0 <= i < k - start);
                    }
                }
                assert(out@.len() == net.routes@[route as int].stop_times_idx + (trip + 1) * num_stops) by (nonlinear_arith)
                    requires
                        out@.len() == net.routes@[route as int].stop_times_idx + trip * num_stops + num_stops,
                ;
                if trip + 1 == num_trips {
                    assert((trip + 1) * num_stops == crate::network::route_size(net.routes@[route as int]));
                }
            }
            trip = trip + 1;
        }
        proof {
            assert forall|ro: int, t: int, i: int|
                0 <= ro < route + 1 && net.valid_trip(ro, t) && 0 <= i < net.trip_len(ro) implies out@[net.trip_start(ro, t) + i]
                    == #[trigger] load_at(net, capacities, pop, ro, t, i) by {
                if ro == route {
                    assert(0 <= t < trip);
                }
            }
        }
        route = route + 1;
    }
    out
}

} // verus!
