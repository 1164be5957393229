use train_ute::capacity::{TripCapacities, TripCapacity};

#[test]
fn default_capacity_is_one_and_one() {
    let c = TripCapacity::default();
    assert_eq!(c, TripCapacity { seated: 1, standing: 1 });
    assert_eq!(c.total(), 2);
    assert_eq!(TripCapacity { seated: 264, standing: 133 }.total(), 397);
}

#[test]
fn registry_lookup_override_or_default() {
    let default = TripCapacity { seated: 10, standing: 5 };
    let caps = TripCapacities::new(
        default,
        vec![
            ("x".to_string(), TripCapacity { seated: 1, standing: 2 }),
            ("y".to_string(), TripCapacity { seated: 3, standing: 4 }),
            ("x".to_string(), TripCapacity { seated: 5, standing: 6 }),
        ],
    );
    assert_eq!(caps.get("x"), TripCapacity { seated: 5, standing: 6 });
    assert_eq!(caps.get("y"), TripCapacity { seated: 3, standing: 4 });
    assert_eq!(caps.get("z"), default);
    assert_eq!(caps.get(""), default);
}

#[test]
fn set_default_keeps_overrides() {
    let mut caps = TripCapacities::default();
    assert_eq!(caps.get("any"), TripCapacity { seated: 1, standing: 1 });
    caps = TripCapacities::new(caps.get("any"), vec![("a".to_string(), TripCapacity { seated: 8, standing: 9 })]);
    caps.set_default_capacity(TripCapacity { seated: 400, standing: 300 });
    assert_eq!(caps.get("b"), TripCapacity { seated: 400, standing: 300 });
    assert_eq!(caps.get("a"), TripCapacity { seated: 8, standing: 9 });
}
