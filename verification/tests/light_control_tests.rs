use home_flow::light_control::{set_light_group, toggle_target, LightPost, LightState};

fn light(id: &str, state: u8) -> LightState {
    LightState { entity_id: id.to_string(), state, last_manual: 0 }
}

fn post(id: &str, action: &str) -> LightPost {
    LightPost { entity_id: id.to_string(), domain: "light".into(), action: action.into(), brightness_pct: None }
}

fn view(q: &[LightPost]) -> Vec<(String, String, String, Option<u8>)> {
    q.iter().map(|p| (p.entity_id.clone(), p.domain.clone(), p.action.clone(), p.brightness_pct)).collect()
}

#[test]
fn clicks_toggle() {
    assert_eq!(toggle_target(0), 255);
    assert_eq!(toggle_target(129), 255);
    assert_eq!(toggle_target(130), 0);
    assert_eq!(toggle_target(255), 0);
}

#[test]
fn dimmable_group_is_set_and_queued_once() {
    let mut lights = vec![light("kitchen", 10), light("hall", 20), light("kitchen", 30)];
    let mut queue = vec![post("light.kitchen", "turn_off"), post("light.hall", "turn_on"), post("light.kitchen", "turn_on")];
    set_light_group(&mut lights, &mut queue, "kitchen", 128, false, 777);
    assert_eq!((lights[0].state, lights[0].last_manual), (128, 777));
    assert_eq!((lights[1].state, lights[1].last_manual), (20, 0));
    assert_eq!((lights[2].state, lights[2].last_manual), (128, 777));
    assert_eq!(
        view(&queue),
        vec![
            ("light.hall".to_string(), "light".to_string(), "turn_on".to_string(), None),
            ("light.kitchen".to_string(), "light".to_string(), "turn_on".to_string(), Some(50)),
        ]
    );
}

#[test]
fn dimmable_off_and_full() {
    let mut lights = vec![light("a", 5)];
    let mut queue = Vec::new();
    set_light_group(&mut lights, &mut queue, "a", 0, false, 1);
    assert_eq!(view(&queue), vec![("light.a".to_string(), "light".to_string(), "turn_off".to_string(), None)]);
    set_light_group(&mut lights, &mut queue, "a", 255, false, 2);
    assert_eq!(view(&queue), vec![("light.a".to_string(), "light".to_string(), "turn_on".to_string(), Some(100))]);
    set_light_group(&mut lights, &mut queue, "a", 1, false, 3);
    assert_eq!(queue[0].brightness_pct, Some(0));
}

#[test]
fn binary_threshold() {
    let mut lights = vec![light("b", 0)];
    let mut queue = Vec::new();
    set_light_group(&mut lights, &mut queue, "b", 150, true, 1);
    assert_eq!(view(&queue), vec![("light.b".to_string(), "light".to_string(), "turn_off".to_string(), None)]);
    set_light_group(&mut lights, &mut queue, "b", 151, true, 1);
    assert_eq!(view(&queue), vec![("light.b".to_string(), "light".to_string(), "turn_on".to_string(), None)]);
}

#[test]
fn unknown_group_changes_nothing() {
    let mut lights = vec![light("a", 5)];
    let mut queue = vec![post("light.a", "turn_on")];
    set_light_group(&mut lights, &mut queue, "zzz", 200, false, 9);
    assert_eq!((lights[0].state, lights[0].last_manual), (5, 0));
    assert_eq!(view(&queue), vec![("light.a".to_string(), "light".to_string(), "turn_on".to_string(), None)]);
}
