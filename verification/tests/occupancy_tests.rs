use home_flow::occupancy::{
    aggregate_occupancy, calibration_key, try_aggregate_occupancy, calibration_step, replace_spaces, target_coordinate,
    update_occupancy, zone_key, Axis, CalibrationAction, OccupancyAction, RoomPresence,
    ZoneCount, ZonePresence, ZoneRecord, CALIBRATION_NS, OCCUPANCY_HOLD_NS,
};

fn zone(name: &str, count: usize) -> ZonePresence {
    ZonePresence { name: name.to_string(), count }
}

fn counts(v: &[ZoneCount]) -> Vec<(String, bool, u8)> {
    v.iter().map(|z| (z.name.clone(), z.occupied, z.targets)).collect()
}

fn count(name: &str, occupied: bool, targets: u8) -> ZoneCount {
    ZoneCount { name: name.to_string(), occupied, targets }
}

fn views(actions: &[OccupancyAction]) -> Vec<(String, &'static str, &'static str)> {
    actions.iter().map(|a| (a.entity_id(), a.domain(), a.service())).collect()
}

#[test]
fn keys_are_lowercase_with_underscores() {
    assert_eq!(zone_key("Living Room"), "living_room");
    assert_eq!(zone_key("ÄRBEIT Zimmer 2"), "ärbeit_zimmer_2");
    assert_eq!(replace_spaces("a b  c"), "a_b__c");
}

#[test]
fn rooms_replace_and_zones_add() {
    let rooms = vec![
        RoomPresence { name: "Kitchen".into(), count: 2, zones: vec![zone("Sofa Area", 1)] },
        RoomPresence { name: "Lounge".into(), count: 0, zones: vec![zone("sofa area", 3), zone("Desk", 0)] },
    ];
    let res = aggregate_occupancy(&rooms);
    assert_eq!(
        counts(&res),
        vec![
            ("kitchen".to_string(), true, 2),
            ("sofa_area".to_string(), true, 4),
            ("lounge".to_string(), false, 0),
            ("desk".to_string(), false, 0),
        ]
    );
}

#[test]
fn room_count_replaces_earlier_zone_count() {
    let rooms = vec![
        RoomPresence { name: "A".into(), count: 1, zones: vec![zone("Hall", 2)] },
        RoomPresence { name: "Hall".into(), count: 0, zones: vec![] },
    ];
    let res = aggregate_occupancy(&rooms);
    assert_eq!(counts(&res), vec![("a".to_string(), true, 1), ("hall".to_string(), false, 0)]);
}

#[test]
fn aggregated_keys_are_unique() {
    let rooms = vec![
        RoomPresence { name: "X".into(), count: 1, zones: vec![zone("x", 1), zone("Y", 1)] },
        RoomPresence { name: "y".into(), count: 2, zones: vec![zone("X", 0)] },
    ];
    let res = aggregate_occupancy(&rooms);
    let mut names: Vec<String> = res.iter().map(|z| z.name.clone()).collect();
    let before = names.len();
    names.sort();
    names.dedup();
    assert_eq!(names.len(), before);
}

#[test]
fn new_zone_is_recorded_and_reports_nothing() {
    let mut records: Vec<ZoneRecord> = Vec::new();
    let actions = update_occupancy(&mut records, &[count("hall", true, 1)], 10);
    assert!(actions.is_empty());
    assert_eq!(records.len(), 1);
    assert_eq!(records[0].name, "hall");
    assert!(records[0].occupied);
    assert_eq!(records[0].targets, 1);
    assert_eq!(records[0].occupied_at, Some(10));
    let actions = update_occupancy(&mut records, &[count("desk", false, 0)], 20);
    assert!(actions.is_empty());
    assert_eq!(records[1].occupied_at, None);
}

#[test]
fn occupancy_rises_at_once_and_falls_after_hold() {
    let mut records = vec![ZoneRecord { name: "hall".into(), occupied: false, targets: 0, occupied_at: None }];
    let a = update_occupancy(&mut records, &[count("hall", true, 2)], 1_000);
    assert_eq!(
        views(&a),
        vec![
            ("input_boolean.hall_occupancy".to_string(), "input_boolean", "turn_on"),
            ("input_number.hall_targets".to_string(), "input_number", "set_value"),
        ]
    );
    assert!(matches!(a[1], OccupancyAction::SetTargets { targets: 2, .. }));
    // Empty again, but within the hold time: only the count changes.
    let b = update_occupancy(&mut records, &[count("hall", false, 0)], 1_000 + OCCUPANCY_HOLD_NS);
    assert_eq!(views(&b), vec![("input_number.hall_targets".to_string(), "input_number", "set_value")]);
    assert!(records[0].occupied);
    // Past the hold time the zone is reported empty.
    let c = update_occupancy(&mut records, &[count("hall", false, 0)], 1_001 + OCCUPANCY_HOLD_NS);
    assert_eq!(views(&c), vec![("input_boolean.hall_occupancy".to_string(), "input_boolean", "turn_off")]);
    assert!(!records[0].occupied);
}

#[test]
fn repeated_observation_reports_nothing() {
    let mut records = vec![ZoneRecord { name: "hall".into(), occupied: true, targets: 1, occupied_at: Some(5) }];
    let first = update_occupancy(&mut records, &[count("hall", false, 3)], 7);
    assert_eq!(first.len(), 1);
    let again = update_occupancy(&mut records, &[count("hall", false, 3)], 7);
    assert!(again.is_empty());
}

#[test]
fn calibration_rounds() {
    assert_eq!(calibration_step(None, false, 5), (None, CalibrationAction::Idle));
    assert_eq!(calibration_step(None, true, 5), (Some(5), CalibrationAction::Collect));
    assert_eq!(calibration_step(Some(5), true, 5 + CALIBRATION_NS), (Some(5), CalibrationAction::Collect));
    assert_eq!(calibration_step(Some(5), true, 6 + CALIBRATION_NS), (None, CalibrationAction::Finish));
    assert_eq!(calibration_step(Some(5), false, 6), (None, CalibrationAction::Idle));
}

#[test]
fn target_sensor_ids() {
    assert_eq!(target_coordinate("sensor.desk_target_1_x", 1), Some(Axis::X));
    assert_eq!(target_coordinate("sensor.desk_target_1_y", 1), Some(Axis::Y));
    assert_eq!(target_coordinate("sensor.desk_target_12_y", 12), Some(Axis::Y));
    assert_eq!(target_coordinate("sensor.desk_target_12_y", 1), None);
    assert_eq!(target_coordinate("sensor.desk_target_1_speed", 1), None);
    assert_eq!(target_coordinate("sensor.desk_target_0_x", 0), Some(Axis::X));
}

#[test]
fn calibration_keys() {
    assert_eq!(calibration_key(1), "calib_1");
    assert_eq!(calibration_key(10), "calib_10");
    assert_eq!(calibration_key(0), "calib_0");
    assert_eq!(calibration_key(u64::MAX), format!("calib_{}", u64::MAX));
}

#[test]
fn counts_beyond_a_byte_are_refused() {
    let rooms = vec![
        RoomPresence { name: "A".into(), count: 0, zones: vec![zone("Z", 200)] },
        RoomPresence { name: "B".into(), count: 0, zones: vec![zone("z", 100)] },
    ];
    assert!(try_aggregate_occupancy(&rooms).is_none());
    let fine = vec![RoomPresence { name: "A".into(), count: 300, zones: vec![zone("Z", 255)] }];
    let res = try_aggregate_occupancy(&fine).unwrap();
    assert_eq!(counts(&res), vec![("a".to_string(), true, 44), ("z".to_string(), true, 255)]);
}
