use train_ute::capacity::{TripCapacities, TripCapacity};
use train_ute::crowding::{segment_loads, SegmentLoad};
use train_ute::network::{Network, Route, ServiceDate, StopTime};
use train_ute::simulation::SimulationStep;

fn net(stop_times_idx: [usize; 2], total: usize) -> Network {
    Network {
        date: ServiceDate { year: 2024, month: 1, day: 1 },
        stop_names: vec!["A".to_string(), "B".to_string(), "A".to_string()],
        routes: vec![
            Route { stops: vec![0, 1], num_stops: 2, num_trips: 2, stop_times_idx: stop_times_idx[0], trip_ids: vec!["p".to_string(), "q".to_string()] },
            Route { stops: vec![1, 2, 0], num_stops: 3, num_trips: 1, stop_times_idx: stop_times_idx[1], trip_ids: vec!["r".to_string()] },
        ],
        stop_times: vec![StopTime { arrival_time: 0, departure_time: 0 }; total],
    }
}

#[test]
fn layout_checks() {
    assert!(net([0, 4], 7).is_well_formed());
    assert!(!net([0, 4], 8).is_well_formed());
    assert!(!net([0, 5], 8).is_well_formed());
    assert!(!net([1, 5], 8).is_well_formed());
    let mut n = net([0, 4], 7);
    n.routes[1].trip_ids.push("extra".to_string());
    assert!(!n.is_well_formed());
    let mut n = net([0, 4], 7);
    n.routes[0].stops.pop();
    assert!(!n.is_well_formed());
}

#[test]
fn trip_ranges() {
    let n = net([0, 4], 7);
    assert_eq!(n.trip_range(0, 0), (0, 2));
    assert_eq!(n.trip_range(0, 1), (2, 4));
    assert_eq!(n.trip_range(1, 0), (4, 7));
}

#[test]
fn stop_lookup_by_name() {
    let n = net([0, 4], 7);
    assert_eq!(n.get_stop_idx_from_name(&"A".to_string()), Some(0));
    assert_eq!(n.get_stop_idx_from_name(&"B".to_string()), Some(1));
    assert_eq!(n.get_stop_idx_from_name(&"C".to_string()), None);
}

#[test]
fn segment_loads_price_inputs() {
    let mut n = net([0, 4], 7);
    let times = [(0, 5), (50, 60), (100, 100), (90, 130), (0, 0), (30, 40), (100, 20)];
    n.stop_times = times.iter().map(|&(a, d)| StopTime { arrival_time: a, departure_time: d }).collect();
    let q = TripCapacity { seated: 7, standing: 3 };
    let caps = TripCapacities::new(TripCapacity::default(), vec![("q".to_string(), q)]);
    let pop = vec![1, 0, 2, 0, 4, 5, 0];
    let loads = segment_loads(&n, &caps, &pop);
    let d = TripCapacity::default();
    assert_eq!(
        loads,
        vec![
            SegmentLoad { capacity: d, count: 1, connection_time: None },
            SegmentLoad { capacity: d, count: 0, connection_time: Some(60) },
            SegmentLoad { capacity: q, count: 2, connection_time: None },
            SegmentLoad { capacity: q, count: 0, connection_time: Some(30) },
            SegmentLoad { capacity: d, count: 4, connection_time: None },
            SegmentLoad { capacity: d, count: 5, connection_time: Some(40) },
            // Departure before the previous arrival counts as no time.
            SegmentLoad { capacity: d, count: 0, connection_time: Some(0) },
        ]
    );
}

#[test]
fn simulation_step_accessors() {
    let mut s = SimulationStep::new(300, 2);
    assert_eq!(s.len(), 0);
    assert_eq!(s.count(), 0);
    assert!(s.is_zero_demand());
    s.push(1, 0);
    assert!(s.is_zero_demand());
    s.push(0, 4_000_000_000);
    s.push(3, 1_000_000_000);
    assert_eq!(s.len(), 3);
    assert_eq!(s.count(), 5_000_000_000);
    assert!(!s.is_zero_demand());
    assert_eq!(s.dest_stop(1), 0);
    assert_eq!(s.count_of(2), 1_000_000_000);
    assert_eq!(s.departure_time, 300);
    assert_eq!(s.origin_stop, 2);
}
