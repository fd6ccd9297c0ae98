use home_flow::packets::{LightPacket, SensorPacket, StatesPacket};
use home_flow::sync::{
    login_step, LoginAction, LoginState,
    accepts_remote_state, get_states, is_unauthorized, load_failure, load_layout, network_failure, post_states, sensor_updates, split_login_response,
    updated_light_state, DownloadLayout, DownloadStates, LayoutAction, PostAction, StatesAction,
    UploadStates, STATE_LOCAL_OVERRIDE_MS, STATE_POST_EVERY_MS, STATE_REFRESH_MS,
};

fn light(id: &str, state: u8) -> LightPacket {
    LightPacket { entity_id: id.to_string(), state }
}

fn sensor(id: &str, state: &str) -> SensorPacket {
    SensorPacket { entity_id: id.to_string(), state: state.to_string() }
}

#[test]
fn layout_download_cycle() {
    let (s, a) = load_layout::<u32>(DownloadLayout::Idle, false);
    assert!(matches!(s, DownloadLayout::InProgress));
    assert!(matches!(a, LayoutAction::Fetch));
    let (s, a) = load_layout::<u32>(DownloadLayout::InProgress, false);
    assert!(matches!(s, DownloadLayout::InProgress));
    assert!(matches!(a, LayoutAction::Nothing));
    let (s, a) = load_layout(DownloadLayout::Done(Ok(7u32)), false);
    assert!(matches!(s, DownloadLayout::Idle));
    assert!(matches!(a, LayoutAction::Install(7)));
    let (s, a) = load_layout::<u32>(
        DownloadLayout::Done(Err("Request failed, status code: 401".to_string())),
        false,
    );
    assert!(matches!(s, DownloadLayout::Idle));
    assert!(matches!(a, LayoutAction::Failed { clear_token: true }));
    let (_, a) = load_layout::<u32>(DownloadLayout::Done(Err("status code: 500".to_string())), false);
    assert!(matches!(a, LayoutAction::Failed { clear_token: false }));
}

#[test]
fn loaded_layout_is_not_fetched_again() {
    let (s, a) = load_layout::<u32>(DownloadLayout::Idle, true);
    assert!(matches!(s, DownloadLayout::Idle));
    assert!(matches!(a, LayoutAction::Nothing));
}

#[test]
fn unauthorized_detection() {
    assert!(is_unauthorized("status code: 401"));
    assert!(!is_unauthorized("status code: 40"));
    assert!(!is_unauthorized(""));
}

#[test]
fn state_download_cycle() {
    let (s, a) = get_states(DownloadStates::Idle, 50);
    assert!(matches!(s, DownloadStates::InProgress));
    assert!(matches!(a, StatesAction::Fetch));
    let packet = StatesPacket { lights: vec![light("l", 3)], sensors: vec![] };
    let (s, a) = get_states(DownloadStates::Done(Ok(packet)), 50);
    assert!(matches!(s, DownloadStates::Waiting(t) if t == 50 + STATE_REFRESH_MS));
    assert!(matches!(a, StatesAction::Apply(ref p) if p.lights.len() == 1 && p.lights[0].state == 3));
    let (s, a) = get_states(DownloadStates::Waiting(1050), 1050);
    assert!(matches!(s, DownloadStates::Waiting(1050)));
    assert!(matches!(a, StatesAction::Nothing));
    let (s, _) = get_states(DownloadStates::Waiting(1050), 1051);
    assert!(matches!(s, DownloadStates::Idle));
    let (s, a) = get_states(DownloadStates::Done(Err("timeout".into())), u64::MAX);
    assert!(matches!(s, DownloadStates::Waiting(u64::MAX)));
    assert!(matches!(a, StatesAction::Failed { clear_token: false }));
}

#[test]
fn upload_cycle() {
    assert_eq!(post_states(UploadStates::Idle, true, 5), (UploadStates::Idle, PostAction::Nothing));
    assert_eq!(
        post_states(UploadStates::Idle, false, 5),
        (UploadStates::InProgress, PostAction::Send { wait_until: 5 + STATE_POST_EVERY_MS })
    );
    assert_eq!(post_states(UploadStates::InProgress, false, 5), (UploadStates::InProgress, PostAction::Nothing));
    assert_eq!(post_states(UploadStates::Waiting(9), false, 9), (UploadStates::Waiting(9), PostAction::Nothing));
    assert_eq!(post_states(UploadStates::Waiting(9), false, 10), (UploadStates::Idle, PostAction::Nothing));
}

#[test]
fn local_changes_override_server_for_a_while() {
    assert!(accepts_remote_state(0, 0));
    assert!(!accepts_remote_state(1000, 1000 + STATE_LOCAL_OVERRIDE_MS));
    assert!(accepts_remote_state(1000, 1001 + STATE_LOCAL_OVERRIDE_MS));
    assert!(!accepts_remote_state(u64::MAX, u64::MAX));
}

#[test]
fn light_takes_last_matching_packet() {
    let packets = vec![light("a", 10), light("b", 20), light("a", 30)];
    assert_eq!(updated_light_state("a", 1, 0, &packets, 0), 30);
    assert_eq!(updated_light_state("b", 1, 0, &packets, 0), 20);
    assert_eq!(updated_light_state("c", 1, 0, &packets, 0), 1);
    assert_eq!(updated_light_state("a", 1, 100, &packets, 200), 1);
}

#[test]
fn sensor_values_in_order() {
    let packets = vec![sensor("t", "1"), sensor("h", "2"), sensor("t", "3")];
    let wanted = vec!["h".to_string(), "t".to_string(), "x".to_string()];
    assert_eq!(
        sensor_updates(&wanted, &packets),
        vec![
            ("h".to_string(), "2".to_string()),
            ("t".to_string(), "1".to_string()),
            ("t".to_string(), "3".to_string()),
        ]
    );
}

#[test]
fn failure_messages() {
    assert_eq!(load_failure("layout", 401), "Failed to load layout, status code: 401");
    assert_eq!(load_failure("states", 0), "Failed to load states, status code: 0");
    assert_eq!(network_failure("states", "timed out"), "Network error loading states: timed out");
    assert!(!is_unauthorized(&network_failure("layout", "offline")));
}

#[test]
fn refused_layout_forgets_token() {
    let message = load_failure("layout", 401);
    assert!(is_unauthorized(&message));
    let (_, a) = load_layout::<u32>(DownloadLayout::Done(Err(message)), false);
    assert!(matches!(a, LayoutAction::Failed { clear_token: true }));
    let (_, a) = load_layout::<u32>(DownloadLayout::Done(Err(load_failure("layout", 500))), false);
    assert!(matches!(a, LayoutAction::Failed { clear_token: false }));
}

#[test]
fn login_response_parts() {
    assert_eq!(split_login_response("Welcome back|abc123"), Some(("Welcome back", "abc123")));
    assert_eq!(split_login_response("Hi|tok|extra"), Some(("Hi", "tok")));
    assert_eq!(split_login_response("|"), Some(("", "")));
    assert_eq!(split_login_response("no token"), None);
}

#[test]
fn login_cycle() {
    let (s, a) = login_step(LoginState::Idle, false);
    assert!(matches!(s, LoginState::Idle) && matches!(a, LoginAction::Nothing));
    let (s, a) = login_step(LoginState::Idle, true);
    assert!(matches!(s, LoginState::InProgress) && matches!(a, LoginAction::Send));
    let (s, a) = login_step(LoginState::InProgress, true);
    assert!(matches!(s, LoginState::InProgress) && matches!(a, LoginAction::Nothing));
    let (s, a) = login_step(LoginState::Done(Ok("Hello Ann|t0k3n".into())), false);
    assert!(matches!(s, LoginState::Idle));
    match a {
        LoginAction::Store { token, message } => {
            assert_eq!(token, "t0k3n");
            assert_eq!(message.as_deref(), Some("Hello Ann"));
        }
        other => panic!("unexpected {other:?}"),
    }
    let (_, a) = login_step(LoginState::Done(Ok("plaintoken".into())), false);
    assert!(matches!(a, LoginAction::Store { ref token, message: None } if token == "plaintoken"));
    let (s, a) = login_step(LoginState::Done(Err("denied".into())), false);
    assert!(matches!(s, LoginState::Idle));
    assert!(matches!(a, LoginAction::Failed(ref e) if e == "denied"));
}
