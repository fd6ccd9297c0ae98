//! How state reports from Home Assistant are turned into updates of the
//! stored light levels and sensor values.
use crate::text::{contains, contains_chars, find_chars, first_occurrence, str_eq};
use vstd::prelude::*;

verus! {

/// The change that one entity state report makes to the stored state.
#[derive(Clone, Debug)]
pub enum StateUpdate {
    /// Store `level` as the brightness of light `id`.
    Light { id: String, level: u8 },
    /// Store `value` as the state of sensor `id`.
    Sensor { id: String, value: String },
    /// The report is about nothing that is tracked.
    Ignore,
}

/// `i` is the position of the first `.` in `s`.
pub open spec fn first_dot(s: Seq<char>, i: int) -> bool {
    &&& 0 <= i < s.len()
    &&& s[i] == '.'
    &&& forall|j: int| 0 <= j < i ==> s[j] != '.'
}

/// An entity id split at its first `.` into domain and object id.
pub open spec fn split_at_dot(s: Seq<char>) -> Option<(Seq<char>, Seq<char>)> {
    if exists|i: int| first_dot(s, i) {
        let i = choose|i: int| first_dot(s, i);
        Some((s.take(i), s.skip(i + 1)))
    } else {
        None
    }
}

/// An entity id has a split exactly when it holds a dot; then it is the
/// domain, a dot and the object id, and the domain holds no dot.
pub proof fn lemma_split_reassembles(s: Seq<char>)
    ensures
        split_at_dot(s) is None <==> !s.contains('.'),
        split_at_dot(s) matches Some((d, o)) ==> d + seq!['.'] + o == s && !d.contains('.'),
{
    if exists|i: int| first_dot(s, i) {
        let i = choose|i: int| first_dot(s, i);
        assert(s.take(i) + seq!['.'] + s.skip(i + 1) =~= s);
        assert(s[i] == '.');
        assert(!s.take(i).contains('.')) by {
            if s.take(i).contains('.') {
                let j = choose|j: int| 0 <= j < s.take(i).len() && s.take(i)[j] == '.';
                assert(s[j] == '.');
            }
        }
    } else if s.contains('.') {
        let j = choose|j: int| 0 <= j < s.len() && s[j] == '.';
        lemma_first_dot_exists(s, j);
    }
}

/// A string with a dot at `j` has a first dot.
proof fn lemma_first_dot_exists(s: Seq<char>, j: int)
    requires
        0 <= j < s.len(),
        s[j] == '.',
    ensures
        exists|i: int| first_dot(s, i),
    decreases j,
{
    if forall|k: int| 0 <= k < j ==> s[k] != '.' {
        assert(first_dot(s, j));
    } else {
        let k = choose|k: int| 0 <= k < j && s[k] == '.';
        lemma_first_dot_exists(s, k);
    }
}

/// The brightness stored for a light: the reported brightness attribute
/// truncated to a byte, or, without one, full when the state is `on` and
/// off otherwise.
pub open spec fn light_level_of(brightness: Option<u64>, state_on: bool) -> u8 {
    match brightness {
        Some(b) => (b % 256) as u8,
        None => if state_on {
            255
        } else {
            0
        },
    }
}

/// `s` is one of the strings in `list`.
pub open spec fn listed(list: Seq<String>, s: Seq<char>) -> bool {
    exists|i: int| 0 <= i < list.len() && #[trigger] list[i]@ == s
}

/// The marker that precedes a presence target's coordinate in a sensor id.
pub open spec fn target_marker() -> Seq<char> {
    seq!['_', 't', 'a', 'r', 'g', 'e', 't', '_']
}

/// A sensor id names a presence target coordinate: after its first
/// `_target_` there is an `_x` or a `_y`.
pub open spec fn names_target_coordinate(s: Seq<char>) -> bool {
    exists|i: int|
        #![trigger first_occurrence(s, target_marker(), i)]
        first_occurrence(s, target_marker(), i) && (contains(
            s.skip(i + target_marker().len()),
            seq!['_', 'x'],
        ) || contains(s.skip(i + target_marker().len()), seq!['_', 'y']))
}

/// Splits an entity id such as `light.kitchen` at its first `.`.
pub fn split_entity_id(entity_id: &str) -> (res: Option<(&str, &str)>)
    ensures
        match res {
            Some((d, o)) => split_at_dot(entity_id@) == Some((d@, o@)),
            None => split_at_dot(entity_id@) is None,
        },
{
    let n = entity_id.unicode_len();
    let mut i: usize = 0;
    while i < n
        invariant
            n == entity_id@.len(),
            i <= n,
            forall|j: int| 0 <= j < i ==> entity_id@[j] != '.',
        decreases n - i,
    {
        if entity_id.get_char(i) == '.' {
            let ghost s = entity_id@;
            proof {
                assert(first_dot(s, i as int));
                let k = choose|k: int| first_dot(s, k);
                assert(k == i) by {
                    if k < i {
                    } else if k > i {
                    }
                }
            }
            let domain = entity_id.substring_char(0, i);
            let object = entity_id.substring_char(i + 1, n);
            proof {
                assert(domain@ =~= s.take(i as int));
                assert(object@ =~= s.skip(i + 1));
            }
            return Some((domain, object));
        }
        i += 1;
    }
    None
}

/// The brightness stored for a light report.
pub fn light_level(brightness: Option<u64>, state_on: bool) -> (res: u8)
    ensures
        res == light_level_of(brightness, state_on),
{
    match brightness {
        Some(b) => (b % 256) as u8,
        None => if state_on {
            255
        } else {
            0
        },
    }
}

/// Whether `s` is one of the strings in `list`.
pub fn is_listed(list: &[String], s: &str) -> (res: bool)
    ensures
        res == listed(list@, s@),
{
    let mut i: usize = 0;
    while i < list.len()
        invariant
            i <= list@.len(),
            forall|j: int| 0 <= j < i ==> list@[j]@ != s@,
        decreases list@.len() - i,
    {
        if str_eq(list[i].as_str(), s) {
            return true;
        }
        i += 1;
    }
    false
}

/// Whether a sensor id names a presence target coordinate.
pub fn is_target_coordinate(entity_id: &str) -> (res: bool)
    ensures
        res == names_target_coordinate(entity_id@),
{
    let marker: [char; 8] = ['_', 't', 'a', 'r', 'g', 'e', 't', '_'];
    let x: [char; 2] = ['_', 'x'];
    let y: [char; 2] = ['_', 'y'];
    proof {
        assert(marker@ =~= target_marker());
        assert(x@ =~= seq!['_', 'x']);
        assert(y@ =~= seq!['_', 'y']);
    }
    match find_chars(entity_id, marker.as_slice()) {
        Some(i) => {
            let n = entity_id.unicode_len();
            let suffix = entity_id.substring_char(i + 8, n);
            let ghost s = entity_id@;
            proof {
                assert(suffix@ =~= s.skip(i + target_marker().len()));
            }
            let res = contains_chars(suffix, x.as_slice()) || contains_chars(suffix, y.as_slice());
            proof {
                if !res {
                    assert forall|k: int|
                        first_occurrence(s, target_marker(), k) implies !(contains(
                        s.skip(k + target_marker().len()),
                        seq!['_', 'x'],
                    ) || contains(s.skip(k + target_marker().len()), seq!['_', 'y'])) by {
                        if k < i {
                        } else if k > i {
                        }
                    }
                }
            }
            res
        },
        None => false,
    }
}

/// The update for one entry of a full state listing: a `light.*` entity sets
/// its light's brightness; a `sensor.*` entity whose object id is tracked
/// sets that sensor's value; anything else is ignored.
pub fn full_state_update(
    entity_id: &str,
    state: &str,
    brightness: Option<u64>,
    target_sensors: &[String],
) -> (res: StateUpdate)
    ensures
        match split_at_dot(entity_id@) {
            Some((domain, object)) => if domain == "light"@ {
                res matches StateUpdate::Light { id, level } && id@ == object && level
                    == light_level_of(brightness, state@ == "on"@)
            } else if domain == "sensor"@ && listed(target_sensors@, object) {
                res matches StateUpdate::Sensor { id, value } && id@ == object && value@ == state@
            } else {
                res is Ignore
            },
            None => res is Ignore,
        },
{
    match split_entity_id(entity_id) {
        Some((domain, object)) => {
            if str_eq(domain, "light") {
                let on = str_eq(state, "on");
                StateUpdate::Light { id: object.to_owned(), level: light_level(brightness, on) }
            } else if str_eq(domain, "sensor") && is_listed(target_sensors, object) {
                StateUpdate::Sensor { id: object.to_owned(), value: state.to_owned() }
            } else {
                StateUpdate::Ignore
            }
        },
        None => StateUpdate::Ignore,
    }
}

/// The update for a single state change, and whether presence must be
/// recomputed. A `light.*` entity sets its light's brightness; a `sensor.*`
/// entity tracked under its full id stores its new state (`unknown` when
/// absent) and asks for a presence update when it is the calibration switch
/// or names a target coordinate; anything else is ignored.
pub fn state_change_update(
    entity_id: &str,
    state: Option<&str>,
    brightness: Option<u64>,
    target_sensors: &[String],
) -> (res: (StateUpdate, bool))
    ensures
        match split_at_dot(entity_id@) {
            Some((domain, object)) => if domain == "light"@ {
                &&& res.0 matches StateUpdate::Light { id, level } && id@ == object && level
                    == light_level_of(
                    brightness,
                    state matches Some(s) && s@ == "on"@,
                )
                &&& !res.1
            } else if domain == "sensor"@ && listed(target_sensors@, entity_id@) {
                &&& res.0 matches StateUpdate::Sensor { id, value } && id@ == entity_id@
                    && value@ == match state {
                    Some(s) => s@,
                    None => "unknown"@,
                }
                &&& res.1 == (entity_id@ == "input_boolean.presence_calibration"@
                    || names_target_coordinate(entity_id@))
            } else {
                &&& res.0 is Ignore
                &&& !res.1
            },
            None => {
                &&& res.0 is Ignore
                &&& !res.1
            },
        },
{
    match split_entity_id(entity_id) {
        Some((domain, object)) => {
            if str_eq(domain, "light") {
                let on = match state {
                    Some(s) => str_eq(s, "on"),
                    None => false,
                };
                (
                    StateUpdate::Light { id: object.to_owned(), level: light_level(brightness, on) },
                    false,
                )
            } else if str_eq(domain, "sensor") && is_listed(target_sensors, entity_id) {
                let value = match state {
                    Some(s) => s.to_owned(),
                    None => "unknown".to_owned(),
                };
                let presence = str_eq(entity_id, "input_boolean.presence_calibration")
                    || is_target_coordinate(entity_id);
                (StateUpdate::Sensor { id: entity_id.to_owned(), value }, presence)
            } else {
                (StateUpdate::Ignore, false)
            }
        },
        None => (StateUpdate::Ignore, false),
    }
}

/// What a message from the Home Assistant websocket calls for.
#[derive(Clone, Copy, Debug, PartialEq, Eq, Structural)]
pub enum WsRoute {
    /// Authentication succeeded: subscribe to state changes and ask for
    /// all states.
    Subscribe,
    /// A state change event of the subscription: apply it.
    StateChanged,
    /// The answer to the request for all states: replace the stored state.
    FullStates,
    /// Anything else.
    Ignore,
}

/// The request id of the subscription to state changes.
pub const SUBSCRIBE_ID: u64 = 1;

/// The request id of the request for all states.
pub const GET_STATES_ID: u64 = 2;

/// The route of a message with the given `type`, `id` and event type (each
/// absent when the message has no such string or number).
pub open spec fn ws_route_of(kind: Option<Seq<char>>, id: Option<u64>, event_type: Option<Seq<char>>) -> WsRoute {
    if kind == Some("auth_ok"@) {
        WsRoute::Subscribe
    } else if kind == Some("event"@) && id == Some(SUBSCRIBE_ID) && event_type == Some(
        "state_changed"@,
    ) {
        WsRoute::StateChanged
    } else if kind == Some("result"@) && id == Some(GET_STATES_ID) {
        WsRoute::FullStates
    } else {
        WsRoute::Ignore
    }
}

/// `s` is present and equal to `lit`.
fn is_some_str(s: Option<&str>, lit: &str) -> (res: bool)
    ensures
        res == (s matches Some(t) && t@ == lit@),
{
    match s {
        Some(t) => str_eq(t, lit),
        None => false,
    }
}

/// Routes a websocket message by its `type`, its `id` and, for events,
/// the type of the event.
pub fn ws_route(kind: Option<&str>, id: Option<u64>, event_type: Option<&str>) -> (res: WsRoute)
    ensures
        res == ws_route_of(
            match kind {
                Some(k) => Some(k@),
                None => None,
            },
            id,
            match event_type {
                Some(e) => Some(e@),
                None => None,
            },
        ),
{
    if is_some_str(kind, "auth_ok") {
        WsRoute::Subscribe
    } else if is_some_str(kind, "event") && id == Some(SUBSCRIBE_ID) && is_some_str(
        event_type,
        "state_changed",
    ) {
        WsRoute::StateChanged
    } else if is_some_str(kind, "result") && id == Some(GET_STATES_ID) {
        WsRoute::FullStates
    } else {
        WsRoute::Ignore
    }
}

} // verus!
