use train_ute::journey::{GlobalTripIndex, Journey, JourneyError, Leg, Cost};
use train_ute::network::{Network, Route, ServiceDate, StopTime};

pub fn date() -> ServiceDate {
    ServiceDate { year: 2024, month: 5, day: 10 }
}

/// One route, one trip, five stops, a minute apart.
pub fn line_network() -> Network {
    let mut stop_times = Vec::new();
    for i in 0..5u32 {
        stop_times.push(StopTime { arrival_time: 60 * i, departure_time: 60 * i });
    }
    Network {
        date: date(),
        stop_names: (0..5).map(|i| format!("S{i}")).collect(),
        routes: vec![Route {
            stops: vec![0, 1, 2, 3, 4],
            num_stops: 5,
            num_trips: 1,
            stop_times_idx: 0,
            trip_ids: vec!["T0".to_string()],
        }],
        stop_times,
    }
}

pub fn leg(route_idx: u32, trip_order: u32, boarded: u32, arrival: u32) -> Leg {
    Leg {
        trip: GlobalTripIndex { route_idx, trip_order },
        boarded_stop: boarded,
        arrival_stop: arrival,
        boarded_stop_order: boarded,
        arrival_stop_order: arrival,
        boarded_time: 60 * boarded,
        arrival_time: 60 * arrival,
    }
}

pub fn journey(legs: Vec<Leg>, duration: u32) -> Result<Journey, JourneyError> {
    Ok(Journey { legs, duration, cost: Cost { bits: 0 } })
}

use train_ute::journey::AgentJourneyResult;
use train_ute::occupancy::OccupancyBuffer;
use train_ute::simulation::{
    bag_size_for_round, record_step, round_setup, run_simulation_round, CrowdingInput, RoundSetup,
    SimulationResult, SimulationRoundResult, SimulationStep,
};

fn step(departure_time: u32, origin: u32, demand: &[(u32, u32)]) -> SimulationStep {
    let mut s = SimulationStep::new(departure_time, origin);
    for &(d, c) in demand {
        s.push(d, c);
    }
    s
}

fn ok_journey(r: &AgentJourneyResult) -> &train_ute::journey::AgentJourney {
    match &r.result {
        Ok(a) => a,
        Err(e) => panic!("expected a journey, got {e:?}"),
    }
}

#[test]
fn scenario_single_trip_single_agent() {
    let net = line_network();
    let steps = vec![step(0, 0, &[(3, 1)])];
    let journeys = vec![vec![journey(vec![leg(0, 0, 0, 3)], 180)]];
    let r = run_simulation_round(&net, &steps, &journeys);
    assert_eq!(r.population_count, vec![1, 1, 1, 0, 0]);
    assert_eq!(r.agent_journeys.len(), 1);
    let a = ok_journey(&r.agent_journeys[0]);
    assert_eq!(a.duration, 180);
    assert_eq!(a.num_transfers, 0);
    assert_eq!(a.origin_stop, 0);
    assert_eq!(a.dest_stop, 3);
    assert_eq!(a.count, 1);
    assert_eq!(a.start_time, 0);
    assert_eq!(a.legs.len(), 1);
}

#[test]
fn scenario_two_overlapping_agents() {
    let net = line_network();
    let steps = vec![step(0, 0, &[(2, 5)]), step(60, 1, &[(4, 3)])];
    let journeys = vec![
        vec![journey(vec![leg(0, 0, 0, 2)], 120)],
        vec![journey(vec![leg(0, 0, 1, 4)], 180)],
    ];
    let r = run_simulation_round(&net, &steps, &journeys);
    assert_eq!(r.population_count, vec![5, 8, 3, 3, 0]);
    assert_eq!(r.agent_journeys[0].sim_step_idx, 0);
    assert_eq!(r.agent_journeys[1].sim_step_idx, 1);
}

#[test]
fn scenario_one_step_two_destinations() {
    let net = line_network();
    let steps = vec![step(0, 0, &[(2, 2), (3, 4)])];
    let journeys = vec![vec![
        journey(vec![leg(0, 0, 0, 2)], 120),
        journey(vec![leg(0, 0, 0, 3)], 180),
    ]];
    let r = run_simulation_round(&net, &steps, &journeys);
    assert_eq!(r.population_count, vec![6, 6, 4, 0, 0]);
    assert_eq!(r.agent_journeys.len(), 2);
    assert_eq!(r.agent_journeys[0].journey_idx, 0);
    assert_eq!(r.agent_journeys[1].journey_idx, 1);
    assert_eq!(ok_journey(&r.agent_journeys[0]).dest_stop, 2);
    assert_eq!(ok_journey(&r.agent_journeys[1]).dest_stop, 3);
    assert_eq!(ok_journey(&r.agent_journeys[1]).count, 4);
}

#[test]
fn scenario_zero_count_step() {
    let net = line_network();
    let steps = vec![step(0, 0, &[(3, 0)])];
    // A step without demand is not queried.
    let journeys = vec![vec![]];
    let r = run_simulation_round(&net, &steps, &journeys);
    assert_eq!(r.population_count, vec![0, 0, 0, 0, 0]);
    assert_eq!(r.agent_journeys.len(), 1);
    assert!(matches!(r.agent_journeys[0].result, Err(JourneyError::NoJourneyFound)));
}

#[test]
fn zero_demand_with_several_destinations_gives_one_record_each() {
    let net = line_network();
    let steps = vec![step(0, 0, &[(3, 0), (4, 0), (2, 0)])];
    let r = run_simulation_round(&net, &steps, &vec![vec![]]);
    assert_eq!(r.agent_journeys.len(), 3);
    for (j, rec) in r.agent_journeys.iter().enumerate() {
        assert_eq!(rec.journey_idx as usize, j);
        assert!(matches!(rec.result, Err(JourneyError::NoJourneyFound)));
    }
    assert_eq!(r.population_count, vec![0; 5]);
}

#[test]
fn scenario_two_round_feedback() {
    let net = line_network();
    let steps = vec![step(0, 0, &[(3, 1)]), step(0, 0, &[(3, 1)])];

    let setup0 = round_setup(0, 3);
    assert_eq!(setup0, RoundSetup { bag_size: 1, crowding: CrowdingInput::Zero });
    let round0 = run_simulation_round(
        &net,
        &steps,
        &vec![
            vec![journey(vec![leg(0, 0, 0, 3)], 180)],
            vec![journey(vec![leg(0, 0, 0, 3)], 180)],
        ],
    );
    assert_eq!(round0.population_count, vec![2, 2, 2, 0, 0]);

    let setup1 = round_setup(1, 3);
    assert_eq!(setup1, RoundSetup { bag_size: 3, crowding: CrowdingInput::PreviousRound });
    // With crowding known, the second agent rides only part of the way.
    let round1 = run_simulation_round(
        &net,
        &steps,
        &vec![
            vec![journey(vec![leg(0, 0, 0, 3)], 180)],
            vec![journey(vec![leg(0, 0, 1, 3)], 120)],
        ],
    );
    assert_eq!(round1.population_count, vec![1, 2, 2, 0, 0]);

    let rounds = vec![
        SimulationRoundResult {
            population_count: round0.population_count,
            crowding_cost: vec![],
            agent_journeys: round0.agent_journeys,
        },
        SimulationRoundResult {
            population_count: round1.population_count.clone(),
            crowding_cost: vec![],
            agent_journeys: round1.agent_journeys,
        },
    ];
    let result = SimulationResult::from_rounds(rounds);
    assert_eq!(result.population_count, round1.population_count);
    assert_eq!(result.round_agent_journeys.len(), 2);
    assert_eq!(result.round_agent_journeys[1].len(), 2);
    assert_eq!(ok_journey(&result.round_agent_journeys[1][1]).duration, 120);
    assert_eq!(result.stats(), (2, 2));
}

#[test]
fn first_round_uses_bag_size_one_and_zero_crowding() {
    assert_eq!(bag_size_for_round(0, 5), 1);
    assert_eq!(bag_size_for_round(0, 0), 1);
    assert_eq!(round_setup(0, 9).crowding, CrowdingInput::Zero);
}

#[test]
fn later_rounds_clamp_bag_size() {
    assert_eq!(bag_size_for_round(1, 0), 2);
    assert_eq!(bag_size_for_round(1, 1), 2);
    assert_eq!(bag_size_for_round(3, 4), 4);
    assert_eq!(bag_size_for_round(2, 9), 5);
    assert_eq!(round_setup(7, 9), RoundSetup { bag_size: 5, crowding: CrowdingInput::PreviousRound });
}

#[test]
fn query_errors_and_empty_journeys_are_reported() {
    let net = line_network();
    let steps = vec![step(0, 0, &[(3, 1), (4, 2), (2, 3)])];
    let journeys = vec![vec![
        Err(JourneyError::InfiniteLoop),
        journey(vec![], 0),
        journey(vec![leg(0, 0, 0, 2)], 120),
    ]];
    let r = run_simulation_round(&net, &steps, &journeys);
    assert!(matches!(r.agent_journeys[0].result, Err(JourneyError::InfiniteLoop)));
    assert!(matches!(r.agent_journeys[1].result, Err(JourneyError::NoJourneyFound)));
    assert_eq!(ok_journey(&r.agent_journeys[2]).count, 3);
    assert_eq!(r.population_count, vec![3, 3, 0, 0, 0]);
}

/// Two routes, the first with two trips of three stops, the second with one
/// trip of two stops.
fn two_route_network() -> Network {
    let mut stop_times = Vec::new();
    for i in 0..8u32 {
        stop_times.push(StopTime { arrival_time: 100 * i, departure_time: 100 * i + 10 });
    }
    Network {
        date: date(),
        stop_names: vec!["A".to_string(), "B".to_string(), "C".to_string()],
        routes: vec![
            Route {
                stops: vec![0, 1, 2],
                num_stops: 3,
                num_trips: 2,
                stop_times_idx: 0,
                trip_ids: vec!["R0T0".to_string(), "R0T1".to_string()],
            },
            Route {
                stops: vec![2, 0],
                num_stops: 2,
                num_trips: 1,
                stop_times_idx: 6,
                trip_ids: vec!["R1T0".to_string()],
            },
        ],
        stop_times,
    }
}

#[test]
fn transfer_journey_records_first_and_last_trip() {
    let net = two_route_network();
    assert!(net.is_well_formed());
    let steps = vec![step(0, 0, &[(2, 2)])];
    let journeys = vec![vec![journey(vec![leg(0, 1, 0, 2), leg(1, 0, 0, 1)], 500)]];
    let r = run_simulation_round(&net, &steps, &journeys);
    let a = ok_journey(&r.agent_journeys[0]);
    assert_eq!(a.origin_trip.route_idx, 0);
    assert_eq!(a.origin_trip.trip_order, 1);
    assert_eq!(a.dest_trip.route_idx, 1);
    assert_eq!(a.num_transfers, 1);
    assert_eq!(r.population_count, vec![0, 0, 0, 2, 2, 0, 2, 0]);
}

#[test]
fn single_leg_range_code_and_prefix_sum() {
    let net = two_route_network();
    let mut buf = OccupancyBuffer::new(&net);
    // Trip 1 of route 0 occupies entries [3, 6).
    buf.add_leg(&net, leg(0, 1, 0, 2), 7);
    assert_eq!(buf.range_codes(&net), &vec![0, 0, 0, 7, 0, -7, 0, 0]);
    assert_eq!(buf.total(&net), 7);
    assert_eq!(buf.finalize(&net), vec![0, 0, 0, 7, 7, 0, 0, 0]);
}

#[test]
fn leg_raises_only_its_own_span() {
    let net = two_route_network();
    let mut buf = OccupancyBuffer::new(&net);
    buf.add_leg(&net, leg(0, 0, 0, 2), 4);
    buf.add_leg(&net, leg(1, 0, 0, 1), 1);
    let before = {
        let mut b = OccupancyBuffer::new(&net);
        b.add_leg(&net, leg(0, 0, 0, 2), 4);
        b.add_leg(&net, leg(1, 0, 0, 1), 1);
        b.finalize(&net)
    };
    buf.add_leg(&net, leg(0, 0, 1, 2), 3);
    let after = buf.finalize(&net);
    for k in 0..8 {
        let expected = if k == 1 { before[k] + 3 } else { before[k] };
        assert_eq!(after[k], expected);
    }
}

#[test]
fn occupancy_does_not_depend_on_leg_order() {
    let net = two_route_network();
    let legs = [(leg(0, 0, 0, 2), 2), (leg(0, 1, 1, 2), 5), (leg(1, 0, 0, 1), 1), (leg(0, 0, 1, 2), 3)];
    let mut a = OccupancyBuffer::new(&net);
    for &(l, c) in legs.iter() {
        a.add_leg(&net, l, c);
    }
    let mut b = OccupancyBuffer::new(&net);
    for &(l, c) in legs.iter().rev() {
        b.add_leg(&net, l, c);
    }
    assert_eq!(a.finalize(&net), b.finalize(&net));
}

#[test]
fn occupancy_is_never_negative() {
    let net = two_route_network();
    let mut buf = OccupancyBuffer::new(&net);
    buf.add_leg(&net, leg(0, 0, 1, 2), 9);
    buf.add_leg(&net, leg(0, 1, 0, 1), 2);
    buf.add_leg(&net, leg(0, 1, 0, 2), 0);
    let pop = buf.finalize(&net);
    assert!(pop.iter().all(|&x| x >= 0));
    assert_eq!(pop, vec![0, 9, 0, 2, 0, 0, 0, 0]);
}

#[test]
fn record_step_appends_after_earlier_records() {
    let net = line_network();
    let mut occ = OccupancyBuffer::new(&net);
    let mut out = Vec::new();
    let s0 = step(0, 0, &[(3, 1)]);
    record_step(&net, 0, &s0, &vec![journey(vec![leg(0, 0, 0, 3)], 180)], &mut occ, &mut out);
    let s1 = step(60, 1, &[(2, 2)]);
    record_step(&net, 1, &s1, &vec![journey(vec![leg(0, 0, 1, 2)], 60)], &mut occ, &mut out);
    assert_eq!(out.len(), 2);
    assert_eq!(out[0].sim_step_idx, 0);
    assert_eq!(out[1].sim_step_idx, 1);
    assert_eq!(ok_journey(&out[1]).start_time, 60);
    assert_eq!(occ.finalize(&net), vec![1, 3, 1, 0, 0]);
}
