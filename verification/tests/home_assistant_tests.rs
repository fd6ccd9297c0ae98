use home_flow::home_assistant::{
    full_state_update, is_listed, is_target_coordinate, light_level, split_entity_id,
    state_change_update, ws_route, StateUpdate, WsRoute,
};

fn targets() -> Vec<String> {
    vec!["sensor.kitchen_target_1_x".to_string(), "living_temp".to_string()]
}

#[test]
fn split_at_first_dot() {
    assert_eq!(split_entity_id("light.kitchen"), Some(("light", "kitchen")));
    assert_eq!(split_entity_id("sensor.a.b"), Some(("sensor", "a.b")));
    assert_eq!(split_entity_id(".x"), Some(("", "x")));
    assert_eq!(split_entity_id("nodot"), None);
}

#[test]
fn split_reassembles() {
    for id in ["light.kitchen", "sensor.a.b", "a.", "x.y.z"] {
        let (d, o) = split_entity_id(id).unwrap();
        assert_eq!(format!("{d}.{o}"), id);
        assert!(!d.contains('.'));
    }
}

#[test]
fn light_levels() {
    assert_eq!(light_level(Some(128), false), 128);
    assert_eq!(light_level(Some(300), true), 44);
    assert_eq!(light_level(None, true), 255);
    assert_eq!(light_level(None, false), 0);
}

#[test]
fn listing_and_targets() {
    assert!(is_listed(&targets(), "living_temp"));
    assert!(!is_listed(&targets(), "living"));
    assert!(is_target_coordinate("sensor.desk_target_2_x"));
    assert!(is_target_coordinate("sensor.desk_target_2_speed_y"));
    assert!(!is_target_coordinate("sensor.desk_target_2_speed"));
    assert!(!is_target_coordinate("sensor.desk_x"));
}

#[test]
fn full_states_keep_lights_and_tracked_sensors() {
    match full_state_update("light.hall", "on", None, &targets()) {
        StateUpdate::Light { id, level } => {
            assert_eq!(id, "hall");
            assert_eq!(level, 255);
        }
        other => panic!("unexpected {other:?}"),
    }
    match full_state_update("light.hall", "off", Some(77), &targets()) {
        StateUpdate::Light { level, .. } => assert_eq!(level, 77),
        other => panic!("unexpected {other:?}"),
    }
    match full_state_update("sensor.living_temp", "21.5", None, &targets()) {
        StateUpdate::Sensor { id, value } => {
            assert_eq!(id, "living_temp");
            assert_eq!(value, "21.5");
        }
        other => panic!("unexpected {other:?}"),
    }
    assert!(matches!(full_state_update("sensor.other", "1", None, &targets()), StateUpdate::Ignore));
    assert!(matches!(full_state_update("switch.x", "on", None, &targets()), StateUpdate::Ignore));
    assert!(matches!(full_state_update("nodomain", "on", None, &targets()), StateUpdate::Ignore));
}

#[test]
fn state_changes_and_presence() {
    let (u, p) = state_change_update("sensor.kitchen_target_1_x", Some("1200"), None, &targets());
    match u {
        StateUpdate::Sensor { id, value } => {
            assert_eq!(id, "sensor.kitchen_target_1_x");
            assert_eq!(value, "1200");
        }
        other => panic!("unexpected {other:?}"),
    }
    assert!(p);
    let (u, p) = state_change_update("light.desk", None, None, &targets());
    assert!(matches!(u, StateUpdate::Light { level: 0, .. }));
    assert!(!p);
    let (u, p) = state_change_update("sensor.kitchen_target_1_x", None, None, &targets());
    assert!(matches!(u, StateUpdate::Sensor { ref value, .. } if value == "unknown"));
    assert!(p);
    let (u, p) = state_change_update("sensor.living_temp", Some("3"), None, &targets());
    assert!(matches!(u, StateUpdate::Ignore));
    assert!(!p);
}

#[test]
fn websocket_routes() {
    assert_eq!(ws_route(Some("auth_ok"), None, None), WsRoute::Subscribe);
    assert_eq!(ws_route(Some("event"), Some(1), Some("state_changed")), WsRoute::StateChanged);
    assert_eq!(ws_route(Some("event"), Some(2), Some("state_changed")), WsRoute::Ignore);
    assert_eq!(ws_route(Some("event"), Some(1), Some("other")), WsRoute::Ignore);
    assert_eq!(ws_route(Some("result"), Some(2), None), WsRoute::FullStates);
    assert_eq!(ws_route(Some("result"), Some(1), None), WsRoute::Ignore);
    assert_eq!(ws_route(None, Some(2), None), WsRoute::Ignore);
}
