//! The client's polling of the server: when to fetch the layout and the
//! Home Assistant states, when to send queued state changes, and what to do
//! with what comes back. Each poll is a step from the current download or
//! upload state to the next one and an action that the caller carries out.
//! Times are milliseconds on the client's clock.
use crate::packets::{LightPacket, SensorPacket, StatesPacket};
use crate::text::{
    contains, contains_chars, decimal, digit_char, find_chars, first_occurrence, occurs_at, push_decimal, str_eq,
};
use vstd::prelude::*;

verus! {

/// How long after a state download the next one starts.
pub const STATE_REFRESH_MS: u64 = 1000;

/// How long after a local change of a light the server's state for it is
/// ignored.
pub const STATE_LOCAL_OVERRIDE_MS: u64 = 5000;

/// How long after a state upload the next one may start.
pub const STATE_POST_EVERY_MS: u64 = 100;

/// The text by which a failed request is known to have been refused for a
/// missing or expired login.
pub open spec fn unauthorized_marker() -> Seq<char> {
    seq!['s', 't', 'a', 't', 'u', 's', ' ', 'c', 'o', 'd', 'e', ':', ' ', '4', '0', '1']
}

/// The error message says the request was unauthorised.
pub fn is_unauthorized(message: &str) -> (res: bool)
    ensures
        res == contains(message@, unauthorized_marker()),
{
    let marker: [char; 16] = ['s', 't', 'a', 't', 'u', 's', ' ', 'c', 'o', 'd', 'e', ':', ' ', '4', '0', '1'];
    proof {
        assert(marker@ =~= unauthorized_marker());
    }
    contains_chars(message, marker.as_slice())
}

/// The message of a download whose answer could not be read:
/// `Failed to load <what>, status code: <status>`.
pub open spec fn failure_message(what: Seq<char>, status: u16) -> Seq<char> {
    seq!['F', 'a', 'i', 'l', 'e', 'd', ' ', 't', 'o', ' ', 'l', 'o', 'a', 'd', ' '] + what + seq![',', ' ']
        + seq!['s', 't', 'a', 't', 'u', 's', ' ', 'c', 'o', 'd', 'e', ':', ' '] + decimal(status as nat)
}

/// The message of a download that got no answer:
/// `Network error loading <what>: <error>`.
pub open spec fn network_error_message(what: Seq<char>, error: Seq<char>) -> Seq<char> {
    seq!['N', 'e', 't', 'w', 'o', 'r', 'k', ' ', 'e', 'r', 'r', 'o', 'r', ' ', 'l', 'o', 'a', 'd', 'i', 'n', 'g', ' ']
        + what + seq![':', ' '] + error
}

/// The message for an answer with this status that could not be read as
/// the `what` asked for.
pub fn load_failure(what: &str, status: u16) -> (res: String)
    ensures
        res@ == failure_message(what@, status),
{
    let mut s = String::from_str("Failed to load ");
    s.append(what);
    s.append(", status code: ");
    push_decimal(&mut s, status as u64);
    proof {
        reveal_strlit("Failed to load ");
        reveal_strlit(", status code: ");
        assert(s@ =~= failure_message(what@, status));
    }
    s
}

/// The message for a request for `what` that failed with `error` before
/// any answer came.
pub fn network_failure(what: &str, error: &str) -> (res: String)
    ensures
        res@ == network_error_message(what@, error@),
{
    let mut s = String::from_str("Network error loading ");
    s.append(what);
    s.append(": ");
    s.append(error);
    proof {
        reveal_strlit("Network error loading ");
        reveal_strlit(": ");
        assert(s@ =~= network_error_message(what@, error@));
    }
    s
}

/// An answer with status 401 that could not be read makes the client
/// forget its login: its message is recognised as unauthorised.
pub proof fn lemma_refused_is_unauthorized(what: Seq<char>)
    ensures
        contains(failure_message(what, 401), unauthorized_marker()),
{
    let m = failure_message(what, 401);
    assert(decimal(401) == seq![digit_char(4), digit_char(0), digit_char(1)]) by {
        reveal_with_fuel(decimal, 3);
        assert(decimal(4) == seq![digit_char(4)]);
        assert(decimal(40) =~= seq![digit_char(4), digit_char(0)]);
        assert(decimal(401) =~= seq![digit_char(4), digit_char(0), digit_char(1)]);
    }
    let at: int = 17 + what.len() as int;
    assert(m.subrange(at, at + 16) =~= unauthorized_marker());
    assert(occurs_at(m, unauthorized_marker(), at));
}

/// Where the download of the layout stands.
#[derive(Debug)]
pub enum DownloadLayout<T> {
    Idle,
    InProgress,
    Done(Result<T, String>),
}

/// What to do after a layout poll.
#[derive(Debug)]
pub enum LayoutAction<T> {
    Nothing,
    /// Request the layout; when it arrives, the state becomes `Done`.
    Fetch,
    /// Use this layout, both as the server's copy and as the one shown.
    Install(T),
    /// The download failed; forget the login token when `clear_token`.
    Failed { clear_token: bool },
}

/// One poll of the layout download. Nothing happens once a layout is
/// loaded. Otherwise an idle download starts, and a finished one is
/// handed over (or its failure reported) and the download goes idle again.
pub fn load_layout<T>(state: DownloadLayout<T>, has_layout: bool) -> (res: (
    DownloadLayout<T>,
    LayoutAction<T>,
))
    ensures
        has_layout ==> res.0 == state && res.1 is Nothing,
        !has_layout ==> match state {
            DownloadLayout::Idle => res.0 is InProgress && res.1 is Fetch,
            DownloadLayout::InProgress => res.0 is InProgress && res.1 is Nothing,
            DownloadLayout::Done(Ok(layout)) => res.0 is Idle && res.1 == LayoutAction::Install(
                layout,
            ),
            DownloadLayout::Done(Err(e)) => res.0 is Idle && res.1 == LayoutAction::<T>::Failed {
                clear_token: contains(e@, unauthorized_marker()),
            },
        },
{
    if has_layout {
        return (state, LayoutAction::Nothing);
    }
    match state {
        DownloadLayout::Idle => (DownloadLayout::InProgress, LayoutAction::Fetch),
        DownloadLayout::InProgress => (DownloadLayout::InProgress, LayoutAction::Nothing),
        DownloadLayout::Done(Ok(layout)) => (DownloadLayout::Idle, LayoutAction::Install(layout)),
        DownloadLayout::Done(Err(e)) => {
            let clear_token = is_unauthorized(e.as_str());
            (DownloadLayout::Idle, LayoutAction::Failed { clear_token })
        },
    }
}

/// Where the download of the Home Assistant states stands.
#[derive(Debug)]
pub enum DownloadStates {
    Idle,
    /// Idle until the given time has passed.
    Waiting(u64),
    InProgress,
    Done(Result<StatesPacket, String>),
}

/// What to do after a state poll.
#[derive(Debug)]
pub enum StatesAction {
    Nothing,
    /// Request the states of the sensors in the layout; when they arrive,
    /// the state becomes `Done`.
    Fetch,
    /// Apply these states to the layout.
    Apply(StatesPacket),
    /// The download failed; forget the login token when `clear_token`.
    Failed { clear_token: bool },
}

/// The time `delay` after `now`, or the last representable time.
pub open spec fn after(now: u64, delay: u64) -> u64 {
    if now + delay <= u64::MAX {
        (now + delay) as u64
    } else {
        u64::MAX
    }
}

/// One poll of the state download at time `now`. An idle download starts;
/// a waiting one goes idle once its time has passed; a finished one is
/// handed over (or its failure reported) and then waits for the refresh
/// interval.
pub fn get_states(state: DownloadStates, now: u64) -> (res: (DownloadStates, StatesAction))
    ensures
        match state {
            DownloadStates::Idle => res.0 is InProgress && res.1 is Fetch,
            DownloadStates::Waiting(t) => res.1 is Nothing && if now > t {
                res.0 is Idle
            } else {
                res.0 == DownloadStates::Waiting(t)
            },
            DownloadStates::InProgress => res.0 is InProgress && res.1 is Nothing,
            DownloadStates::Done(Ok(states)) => res.0 == DownloadStates::Waiting(
                after(now, STATE_REFRESH_MS),
            ) && res.1 == StatesAction::Apply(states),
            DownloadStates::Done(Err(e)) => res.0 == DownloadStates::Waiting(
                after(now, STATE_REFRESH_MS),
            ) && res.1 == StatesAction::Failed { clear_token: contains(e@, unauthorized_marker()) },
        },
{
    match state {
        DownloadStates::Idle => (DownloadStates::InProgress, StatesAction::Fetch),
        DownloadStates::Waiting(t) => {
            if now > t {
                (DownloadStates::Idle, StatesAction::Nothing)
            } else {
                (DownloadStates::Waiting(t), StatesAction::Nothing)
            }
        },
        DownloadStates::InProgress => (DownloadStates::InProgress, StatesAction::Nothing),
        DownloadStates::Done(Ok(states)) => (
            DownloadStates::Waiting(now.saturating_add(STATE_REFRESH_MS)),
            StatesAction::Apply(states),
        ),
        DownloadStates::Done(Err(e)) => {
            let clear_token = is_unauthorized(e.as_str());
            (
                DownloadStates::Waiting(now.saturating_add(STATE_REFRESH_MS)),
                StatesAction::Failed { clear_token },
            )
        },
    }
}

/// Where the upload of queued state changes stands.
#[derive(Clone, Copy, Debug, PartialEq, Eq, Structural)]
pub enum UploadStates {
    Idle,
    /// Idle until the given time has passed.
    Waiting(u64),
    InProgress,
}

/// What to do after an upload poll.
#[derive(Clone, Copy, Debug, PartialEq, Eq, Structural)]
pub enum PostAction {
    Nothing,
    /// Send the queued changes and clear the queue; once the server has
    /// answered, the state becomes `Waiting(wait_until)`.
    Send { wait_until: u64 },
}

/// One poll of the upload at time `now`, with `queue_empty` telling whether
/// any change is waiting to be sent. Nothing happens while nothing is
/// queued. An idle upload sends the queue; a waiting one goes idle once its
/// time has passed.
pub fn post_states(state: UploadStates, queue_empty: bool, now: u64) -> (res: (UploadStates, PostAction))
    ensures
        queue_empty ==> res == (state, PostAction::Nothing),
        !queue_empty ==> match state {
            UploadStates::Idle => res == (
                UploadStates::InProgress,
                PostAction::Send { wait_until: after(now, STATE_POST_EVERY_MS) },
            ),
            UploadStates::Waiting(t) => res.1 == PostAction::Nothing && res.0 == (if now > t {
                UploadStates::Idle
            } else {
                UploadStates::Waiting(t)
            }),
            UploadStates::InProgress => res == (UploadStates::InProgress, PostAction::Nothing),
        },
{
    if queue_empty {
        return (state, PostAction::Nothing);
    }
    match state {
        UploadStates::Idle => (
            UploadStates::InProgress,
            PostAction::Send { wait_until: now.saturating_add(STATE_POST_EVERY_MS) },
        ),
        UploadStates::Waiting(t) => {
            if now > t {
                (UploadStates::Idle, PostAction::Nothing)
            } else {
                (UploadStates::Waiting(t), PostAction::Nothing)
            }
        },
        UploadStates::InProgress => (UploadStates::InProgress, PostAction::Nothing),
    }
}

/// A light takes the server's state unless it was changed here within the
/// override time (`last_manual` 0: never changed here).
pub open spec fn takes_remote_state(last_manual: u64, now: u64) -> bool {
    last_manual == 0 || now > last_manual + STATE_LOCAL_OVERRIDE_MS
}

/// Whether a light changed here at `last_manual` takes the server's state
/// at `now`.
pub fn accepts_remote_state(last_manual: u64, now: u64) -> (res: bool)
    ensures
        res == takes_remote_state(last_manual, now),
{
    last_manual == 0 || (now as u128) > (last_manual as u128) + (STATE_LOCAL_OVERRIDE_MS as u128)
}

/// The state of the last packet for `entity_id` among the first `k`
/// packets, or `current` when there is none.
pub open spec fn last_reported(packets: Seq<LightPacket>, entity_id: Seq<char>, current: u8, k: int) -> u8
    decreases k,
{
    if k <= 0 {
        current
    } else if packets[k - 1].entity_id@ == entity_id {
        packets[k - 1].state
    } else {
        last_reported(packets, entity_id, current, k - 1)
    }
}

/// The brightness a light shows after a state download at `now`: the state
/// of the last packet for it when it takes the server's state, and its own
/// otherwise.
pub open spec fn light_state_after(
    entity_id: Seq<char>,
    state: u8,
    last_manual: u64,
    packets: Seq<LightPacket>,
    now: u64,
) -> u8 {
    if takes_remote_state(last_manual, now) {
        last_reported(packets, entity_id, state, packets.len() as int)
    } else {
        state
    }
}

/// The last packet for `entity_id` among the first `n` is the one at `k`.
proof fn lemma_last_reported_at(packets: Seq<LightPacket>, entity_id: Seq<char>, state: u8, k: int, n: int)
    requires
        0 <= k < n <= packets.len(),
        packets[k].entity_id@ == entity_id,
        forall|j: int| k < j < n ==> #[trigger] packets[j].entity_id@ != entity_id,
    ensures
        last_reported(packets, entity_id, state, n) == packets[k].state,
    decreases n,
{
    if n - 1 > k {
        lemma_last_reported_at(packets, entity_id, state, k, n - 1);
    }
}

/// Without a packet for `entity_id` among the first `n`, the state stays.
proof fn lemma_last_reported_none(packets: Seq<LightPacket>, entity_id: Seq<char>, state: u8, n: int)
    requires
        0 <= n <= packets.len(),
        forall|j: int| 0 <= j < n ==> #[trigger] packets[j].entity_id@ != entity_id,
    ensures
        last_reported(packets, entity_id, state, n) == state,
    decreases n,
{
    if n > 0 {
        lemma_last_reported_none(packets, entity_id, state, n - 1);
    }
}

/// A light takes the state of the last packet about it when it was never
/// changed here, or when its last local change is more than five seconds
/// (`STATE_LOCAL_OVERRIDE_MS`) before the download; within those five
/// seconds it keeps its own state; without a packet about it, it keeps its
/// state.
pub proof fn lemma_local_override(
    entity_id: Seq<char>,
    state: u8,
    last_manual: u64,
    packets: Seq<LightPacket>,
    now: u64,
    k: int,
)
    ensures
        0 <= k < packets.len() && packets[k].entity_id@ == entity_id && (forall|j: int|
            k < j < packets.len() ==> #[trigger] packets[j].entity_id@ != entity_id) && (last_manual
            == 0 || now > last_manual + 5000) ==> light_state_after(
            entity_id,
            state,
            last_manual,
            packets,
            now,
        ) == packets[k].state,
        last_manual != 0 && now <= last_manual + 5000 ==> light_state_after(
            entity_id,
            state,
            last_manual,
            packets,
            now,
        ) == state,
        (forall|j: int| 0 <= j < packets.len() ==> #[trigger] packets[j].entity_id@ != entity_id)
            ==> light_state_after(entity_id, state, last_manual, packets, now) == state,
{
    if 0 <= k < packets.len() && packets[k].entity_id@ == entity_id && (forall|j: int|
        k < j < packets.len() ==> #[trigger] packets[j].entity_id@ != entity_id) {
        lemma_last_reported_at(packets, entity_id, state, k, packets.len() as int);
    }
    if forall|j: int| 0 <= j < packets.len() ==> #[trigger] packets[j].entity_id@ != entity_id {
        lemma_last_reported_none(packets, entity_id, state, packets.len() as int);
    }
}

/// The brightness a light with this entity id, state and time of its last
/// local change shows after a state download at `now`.
pub fn updated_light_state(entity_id: &str, state: u8, last_manual: u64, packets: &[LightPacket], now: u64) -> (res: u8)
    ensures
        res == light_state_after(entity_id@, state, last_manual, packets@, now),
{
    if !accepts_remote_state(last_manual, now) {
        return state;
    }
    let mut res = state;
    let mut k: usize = 0;
    while k < packets.len()
        invariant
            k <= packets@.len(),
            res == last_reported(packets@, entity_id@, state, k as int),
        decreases packets@.len() - k,
    {
        if str_eq(packets[k].entity_id.as_str(), entity_id) {
            res = packets[k].state;
        }
        k += 1;
    }
    res
}

/// The sensor values to store, in order, for a piece of furniture wanting
/// `wanted`: for each wanted sensor, the state of every packet about it.
pub open spec fn sensor_values(wanted: Seq<String>, packets: Seq<SensorPacket>) -> Seq<(Seq<char>, Seq<char>)>
    decreases wanted.len(),
{
    if wanted.len() == 0 {
        Seq::empty()
    } else {
        sensor_values(wanted.drop_last(), packets) + matching_values(wanted.last()@, packets)
    }
}

/// `(id, state)` for every packet about `id`, in order.
pub open spec fn matching_values(id: Seq<char>, packets: Seq<SensorPacket>) -> Seq<(Seq<char>, Seq<char>)>
    decreases packets.len(),
{
    if packets.len() == 0 {
        Seq::empty()
    } else if packets.last().entity_id@ == id {
        matching_values(id, packets.drop_last()).push((id, packets.last().state@))
    } else {
        matching_values(id, packets.drop_last())
    }
}

/// The pairs as plain values.
pub open spec fn pairs_view(v: Seq<(String, String)>) -> Seq<(Seq<char>, Seq<char>)> {
    v.map_values(|p: (String, String)| (p.0@, p.1@))
}

/// The sensor values to store for a piece of furniture, in the order in
/// which they are stored (a later value for a sensor replaces an earlier).
pub fn sensor_updates(wanted: &[String], packets: &[SensorPacket]) -> (res: Vec<(String, String)>)
    ensures
        pairs_view(res@) == sensor_values(wanted@, packets@),
{
    let mut res: Vec<(String, String)> = Vec::new();
    let mut w: usize = 0;
    proof {
        assert(wanted@.take(0) =~= Seq::<String>::empty());
        assert(pairs_view(res@) =~= sensor_values(wanted@.take(0), packets@));
    }
    while w < wanted.len()
        invariant
            w <= wanted@.len(),
            pairs_view(res@) == sensor_values(wanted@.take(w as int), packets@),
        decreases wanted@.len() - w,
    {
        let ghost before = pairs_view(res@);
        let id = &wanted[w];
        let mut k: usize = 0;
        proof {
            assert(packets@.take(0) =~= Seq::<SensorPacket>::empty());
            assert(pairs_view(res@) =~= before + matching_values(id@, packets@.take(0)));
        }
        while k < packets.len()
            invariant
                k <= packets@.len(),
                id == wanted@[w as int],
                w < wanted@.len(),
                pairs_view(res@) == before + matching_values(id@, packets@.take(k as int)),
            decreases packets@.len() - k,
        {
            proof {
                assert(packets@.take(k as int + 1).drop_last() =~= packets@.take(k as int));
            }
            proof {
                assert(packets@.take(k as int + 1).last() == packets@[k as int]);
            }
            if str_eq(packets[k].entity_id.as_str(), id.as_str()) {
                let ghost prev = res@;
                let pair = (id.clone(), packets[k].state.clone());
                res.push(pair);
                proof {
                    assert(pairs_view(res@) =~= pairs_view(prev).push((id@, packets@[k as int].state@)));
                    assert(pairs_view(res@) =~= before + matching_values(id@, packets@.take(k as int + 1)));
                }
            } else {
                proof {
                    assert(matching_values(id@, packets@.take(k as int + 1)) == matching_values(id@, packets@.take(k as int)));
                }
            }
            k += 1;
        }
        proof {
            assert(packets@.take(packets@.len() as int) =~= packets@);
            assert(wanted@.take(w as int + 1).drop_last() =~= wanted@.take(w as int));
        }
        w += 1;
    }
    proof {
        assert(wanted@.take(wanted@.len() as int) =~= wanted@);
    }
    res
}

/// The part of `s` before its first `|`, if it has one.
pub open spec fn before_bar(s: Seq<char>) -> Option<int> {
    if exists|i: int| first_occurrence(s, seq!['|'], i) {
        Some(choose|i: int| first_occurrence(s, seq!['|'], i))
    } else {
        None
    }
}

/// A login answer `<message>|<token>[|...]` split into the message shown to
/// the user and the token; `None` when the answer holds no `|`.
pub open spec fn login_parts(s: Seq<char>) -> Option<(Seq<char>, Seq<char>)> {
    match before_bar(s) {
        Some(i) => {
            let rest = s.skip(i + 1);
            Some(
                (
                    s.take(i),
                    match before_bar(rest) {
                        Some(j) => rest.take(j),
                        None => rest,
                    },
                ),
            )
        },
        None => None,
    }
}

/// There is only one first occurrence.
proof fn lemma_first_occurrence_unique(s: Seq<char>, pat: Seq<char>, i: int, j: int)
    requires
        first_occurrence(s, pat, i),
        first_occurrence(s, pat, j),
    ensures
        i == j,
{
}

/// The position of the first `|` in `s`.
fn find_bar(s: &str) -> (res: Option<usize>)
    ensures
        match res {
            Some(i) => before_bar(s@) == Some(i as int),
            None => before_bar(s@) is None,
        },
{
    let bar: [char; 1] = ['|'];
    proof {
        assert(bar@ =~= seq!['|']);
    }
    let res = find_chars(s, bar.as_slice());
    proof {
        match res {
            Some(i) => {
                let k = choose|k: int| first_occurrence(s@, seq!['|'], k);
                lemma_first_occurrence_unique(s@, seq!['|'], i as int, k);
            },
            None => {
                assert forall|k: int| !first_occurrence(s@, seq!['|'], k) by {
                    if first_occurrence(s@, seq!['|'], k) {
                        assert(occurs_at(s@, seq!['|'], k));
                    }
                }
            },
        }
    }
    res
}

/// Splits a login answer into the message and the token.
pub fn split_login_response(response: &str) -> (res: Option<(&str, &str)>)
    ensures
        match res {
            Some((m, t)) => login_parts(response@) == Some((m@, t@)),
            None => login_parts(response@) is None,
        },
{
    match find_bar(response) {
        Some(i) => {
            proof {
                assert(occurs_at(response@, seq!['|'], i as int));
            }
            let n = response.unicode_len();
            let message = response.substring_char(0, i);
            let rest = response.substring_char(i + 1, n);
            proof {
                assert(message@ =~= response@.take(i as int));
                assert(rest@ =~= response@.skip(i + 1));
            }
            let token = match find_bar(rest) {
                Some(j) => {
                    proof {
                        assert(occurs_at(rest@, seq!['|'], j as int));
                    }
                    let t = rest.substring_char(0, j);
                    proof {
                        assert(t@ =~= rest@.take(j as int));
                    }
                    t
                },
                None => rest,
            };
            Some((message, token))
        },
        None => None,
    }
}

/// Where logging in stands.
#[derive(Debug)]
pub enum LoginState {
    Idle,
    InProgress,
    /// The server answered: the login answer, or why the request failed.
    Done(Result<String, String>),
}

/// What to do after a login poll.
#[derive(Debug)]
pub enum LoginAction {
    Nothing,
    /// Send the login form; when the answer comes, the state becomes `Done`.
    Send,
    /// Keep `token` as the login token and show `message`, if any.
    Store { token: String, message: Option<String> },
    /// Show why logging in failed.
    Failed(String),
}

/// One poll of the login at the login screen, with `login_clicked` telling
/// whether the login button was pressed. An idle login is sent when the
/// button is pressed. A finished one goes idle again: an answer
/// `<message>|<token>` gives the token and a message to show, any other
/// answer is the token itself, and a failure is shown.
pub fn login_step(state: LoginState, login_clicked: bool) -> (res: (LoginState, LoginAction))
    ensures
        match state {
            LoginState::Idle => if login_clicked {
                res.0 is InProgress && res.1 is Send
            } else {
                res.0 is Idle && res.1 is Nothing
            },
            LoginState::InProgress => res.0 is InProgress && res.1 is Nothing,
            LoginState::Done(Ok(answer)) => {
                &&& res.0 is Idle
                &&& res.1 matches LoginAction::Store { token, message } && match login_parts(answer@) {
                    Some((m, t)) => token@ == t && (message matches Some(mm) && mm@ == m),
                    None => token@ == answer@ && message is None,
                }
            },
            LoginState::Done(Err(e)) => res.0 is Idle && res.1 == LoginAction::Failed(e),
        },
{
    match state {
        LoginState::Idle => if login_clicked {
            (LoginState::InProgress, LoginAction::Send)
        } else {
            (LoginState::Idle, LoginAction::Nothing)
        },
        LoginState::InProgress => (LoginState::InProgress, LoginAction::Nothing),
        LoginState::Done(Ok(answer)) => {
            let action = match split_login_response(answer.as_str()) {
                Some((message, token)) => LoginAction::Store {
                    token: token.to_owned(),
                    message: Some(message.to_owned()),
                },
                None => LoginAction::Store { token: answer.clone(), message: None },
            };
            (LoginState::Idle, action)
        },
        LoginState::Done(Err(e)) => (LoginState::Idle, LoginAction::Failed(e)),
    }
}

} // verus!
