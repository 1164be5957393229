use train_ute::capacity::TripCapacity;
use train_ute::import::{
    agent_count_from_i64, build_simulation_steps_from_patronage_data, import_trip_capacities,
    seconds_from_micros, seconds_from_nanos, unknown_station_names, Column, DataImportError,
    DemandRow,
};
use train_ute::network::{Network, Route, ServiceDate, StopTime};

fn station_network() -> Network {
    Network {
        date: ServiceDate { year: 2024, month: 5, day: 10 },
        stop_names: vec!["Flinders Street".to_string(), "Richmond".to_string(), "Box Hill".to_string()],
        routes: vec![Route { stops: vec![0, 1, 2], num_stops: 3, num_trips: 1, stop_times_idx: 0, trip_ids: vec!["T".to_string()] }],
        stop_times: vec![StopTime { arrival_time: 0, departure_time: 0 }; 3],
    }
}

fn row(origin: &str, dest: &str, departure_time: u32, agent_count: u32) -> DemandRow {
    DemandRow {
        origin_station: origin.to_string(),
        destination_station: dest.to_string(),
        departure_time,
        agent_count,
    }
}

fn strings(v: &[&str]) -> Vec<String> {
    v.iter().map(|s| s.to_string()).collect()
}

#[test]
fn scenario_unknown_station_is_skipped() {
    let net = station_network();
    let rows = vec![
        row("Flinders Street", "Richmond", 3600, 4),
        row("Flinders Street", "Nowhere", 3600, 7),
        row("Flinders Street", "Box Hill", 3600, 2),
    ];
    let steps = build_simulation_steps_from_patronage_data(&rows, &net).unwrap();
    assert_eq!(steps.len(), 1);
    assert_eq!(steps[0].departure_time, 3600);
    assert_eq!(steps[0].origin_stop, 0);
    assert_eq!(steps[0].dest_stops, vec![1, 2]);
    assert_eq!(steps[0].counts, vec![4, 2]);
    assert_eq!(unknown_station_names(&rows, &net), vec!["Nowhere".to_string()]);
}

#[test]
fn all_rows_unknown_is_no_data_for_date() {
    let net = station_network();
    let rows = vec![row("Atlantis", "Richmond", 0, 1), row("Richmond", "Nowhere", 0, 1)];
    let r = build_simulation_steps_from_patronage_data(&rows, &net);
    assert!(matches!(r, Err(DataImportError::NoDataForDate(d)) if d == net.date));
    assert!(matches!(
        build_simulation_steps_from_patronage_data(&vec![], &net),
        Err(DataImportError::NoDataForDate(_))
    ));
}

#[test]
fn unknown_names_are_reported_once_each() {
    let net = station_network();
    let rows = vec![
        row("Atlantis", "Nowhere", 0, 1),
        row("Atlantis", "Richmond", 0, 1),
        row("Richmond", "Nowhere", 0, 1),
        row("Richmond", "Nowhere", 10, 1),
        row("Box Hill", "Richmond", 10, 1),
    ];
    // The destination of a row whose origin is unknown is never looked up.
    assert_eq!(unknown_station_names(&rows, &net), strings(&["Atlantis", "Nowhere"]));
}

#[test]
fn rows_group_by_departure_time_and_origin() {
    let net = station_network();
    let rows = vec![
        row("Flinders Street", "Richmond", 100, 1),
        row("Richmond", "Box Hill", 100, 2),
        row("Flinders Street", "Box Hill", 200, 3),
        row("Flinders Street", "Box Hill", 100, 4),
    ];
    let steps = build_simulation_steps_from_patronage_data(&rows, &net).unwrap();
    assert_eq!(steps.len(), 3);
    let find = |t: u32, o: u32| steps.iter().find(|s| s.departure_time == t && s.origin_stop == o).unwrap();
    assert_eq!(find(100, 0).dest_stops, vec![1, 2]);
    assert_eq!(find(100, 0).counts, vec![1, 4]);
    assert_eq!(find(100, 1).dest_stops, vec![2]);
    assert_eq!(find(200, 0).counts, vec![3]);
}

#[test]
fn time_of_day_conversion() {
    assert_eq!(seconds_from_nanos(0), Some(0));
    assert_eq!(seconds_from_nanos(3_600_000_000_000), Some(3600));
    assert_eq!(seconds_from_nanos(3_600_999_999_999), Some(3600));
    assert_eq!(seconds_from_nanos(86_399_999_999_999), Some(86399));
    assert_eq!(seconds_from_nanos(86_400_000_000_000), None);
    assert_eq!(seconds_from_nanos(-1), None);
    assert_eq!(seconds_from_micros(7_200_500_000), Some(7200));
    assert_eq!(seconds_from_micros(-5), None);
    assert_eq!(seconds_from_micros(86_400_000_000), None);
}

#[test]
fn agent_count_conversion() {
    assert_eq!(agent_count_from_i64(0), Some(0));
    assert_eq!(agent_count_from_i64(42), Some(42));
    assert_eq!(agent_count_from_i64(4_294_967_295), Some(u32::MAX));
    assert_eq!(agent_count_from_i64(4_294_967_296), None);
    assert_eq!(agent_count_from_i64(-1), None);
}

#[test]
fn trip_capacities_from_table() {
    let headers = strings(&["trip_id", "seated", "standing"]);
    let records = vec![
        strings(&["a", "100", "50"]),
        strings(&["b", "x", "50"]),
        strings(&["c", "+7", "-3"]),
        strings(&["d", "1"]),
        strings(&["e", "99999999999", "1"]),
        strings(&["f", " 5", "1"]),
    ];
    let caps = import_trip_capacities(&headers, &records).unwrap();
    assert_eq!(
        caps,
        vec![
            ("a".to_string(), TripCapacity { seated: 100, standing: 50 }),
            ("c".to_string(), TripCapacity { seated: 7, standing: -3 }),
        ]
    );
}

#[test]
fn trip_capacities_header_errors() {
    let records = vec![strings(&["a", "1", "2"])];
    assert_eq!(
        import_trip_capacities(&strings(&["id", "seated", "standing"]), &records),
        Err(DataImportError::ColumnNotFound(Column::TripId))
    );
    assert_eq!(
        import_trip_capacities(&strings(&[]), &records),
        Err(DataImportError::ColumnNotFound(Column::TripId))
    );
    assert_eq!(
        import_trip_capacities(&strings(&["trip_id", "standing", "seated"]), &records),
        Err(DataImportError::ColumnNotFound(Column::Seated))
    );
    assert_eq!(
        import_trip_capacities(&strings(&["trip_id", "seated"]), &records),
        Err(DataImportError::ColumnNotFound(Column::Standing))
    );
}

#[test]
fn trip_capacities_empty_is_no_data() {
    let headers = strings(&["trip_id", "seated", "standing"]);
    assert_eq!(import_trip_capacities(&headers, &vec![]), Err(DataImportError::NoData));
    assert_eq!(
        import_trip_capacities(&headers, &vec![strings(&["a", "one", "2"])]),
        Err(DataImportError::NoData)
    );
}
