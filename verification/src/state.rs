//! The state machine of a session: which effects an event has, and what state it
//! leaves behind.

use crate::json::{json_in, json_opens, said, well_read, Json, JsonModel};
use crate::text::{same_text, trim, trimmed};
use vstd::prelude::*;

verus! {

#[derive(Debug, Clone, Copy, PartialEq, Eq, Structural)]
pub enum ConnectionPhase {
    Disconnected,
    Connecting,
    Subscribing,
    Running,
    Reconnecting,
    Failed,
}

#[derive(Debug, Clone, Copy, PartialEq, Eq, Structural)]
pub struct Backoff {
    pub attempt: u32,
}

#[derive(Debug, Clone, PartialEq, Eq)]
pub struct SessionState {
    pub phase: ConnectionPhase,
    pub backoff: Option<Backoff>,
}

impl SessionState {
    /// A session that was not started.
    pub fn new() -> (r: Self)
        ensures
            r == initial_state(),
    {
        SessionState { phase: ConnectionPhase::Disconnected, backoff: None }
    }
}

#[derive(Debug, Clone, PartialEq, Eq)]
pub enum Event {
    Start,
    Stop,
    WsOpen,
    WsClosed,
    WsError,
    BackoffElapsed,
    IncomingText(String),
}

/// An event, with the characters of its text.
pub enum EventModel {
    Start,
    Stop,
    WsOpen,
    WsClosed,
    WsError,
    BackoffElapsed,
    IncomingText(Seq<char>),
}

impl View for Event {
    type V = EventModel;

    open spec fn view(&self) -> EventModel {
        match *self {
            Event::Start => EventModel::Start,
            Event::Stop => EventModel::Stop,
            Event::WsOpen => EventModel::WsOpen,
            Event::WsClosed => EventModel::WsClosed,
            Event::WsError => EventModel::WsError,
            Event::BackoffElapsed => EventModel::BackoffElapsed,
            Event::IncomingText(text) => EventModel::IncomingText(text@),
        }
    }
}

#[derive(Debug, Clone, PartialEq)]
pub enum Effect {
    Connect,
    SendText(String),
    ScheduleBackoff { attempt: u32 },
    NotifyConnected,
    NotifyDisconnected,
    ForwardJson(Json),
    Ignore,
}

/// An effect, with the characters of its text and what its value says.
pub enum EffectModel {
    Connect,
    SendText(Seq<char>),
    ScheduleBackoff { attempt: u32 },
    NotifyConnected,
    NotifyDisconnected,
    ForwardJson(JsonModel),
    Ignore,
}

impl View for Effect {
    type V = EffectModel;

    open spec fn view(&self) -> EffectModel {
        match *self {
            Effect::Connect => EffectModel::Connect,
            Effect::SendText(text) => EffectModel::SendText(text@),
            Effect::ScheduleBackoff { attempt } => EffectModel::ScheduleBackoff { attempt },
            Effect::NotifyConnected => EffectModel::NotifyConnected,
            Effect::NotifyDisconnected => EffectModel::NotifyDisconnected,
            Effect::ForwardJson(value) => EffectModel::ForwardJson(value@),
            Effect::Ignore => EffectModel::Ignore,
        }
    }
}

/// The effects, one after the other.
pub open spec fn effects_of(effects: Seq<Effect>) -> Seq<EffectModel> {
    effects.map_values(|effect: Effect| effect@)
}

/// The state of a session that was not started.
pub open spec fn initial_state() -> SessionState {
    SessionState { phase: ConnectionPhase::Disconnected, backoff: None }
}

/// The phases in which messages are read.
pub open spec fn receiving(phase: ConnectionPhase) -> bool {
    phase is Subscribing || phase is Running
}

/// The number of the next attempt to connect again.
pub open spec fn next_attempt(state: SessionState) -> int {
    match state.backoff {
        Some(backoff) => backoff.attempt + 1,
        None => 1,
    }
}

/// Where the event costs the connection, the next attempt has a number.
pub open spec fn attempt_fits(state: SessionState, event: EventModel) -> bool {
    receiving(state.phase) && (event is WsClosed || event is WsError) ==> next_attempt(state)
        <= u32::MAX
}

/// What is answered to a heartbeat: "PONG" to "PING" and "pong" to "ping".
pub open spec fn heartbeat_reply(text: Seq<char>) -> Option<Seq<char>> {
    if trimmed(text) == "PING"@ {
        Some("PONG"@)
    } else if trimmed(text) == "ping"@ {
        Some("pong"@)
    } else {
        None
    }
}

/// The value that the text of an event is.
pub open spec fn event_json(event: EventModel) -> Option<JsonModel> {
    match event {
        EventModel::IncomingText(text) => json_in(text),
        _ => None,
    }
}

/// The loss of the connection is told, and another attempt scheduled.
pub open spec fn lost_connection(state: SessionState) -> (SessionState, Seq<EffectModel>) {
    let attempt = next_attempt(state) as u32;
    (
        SessionState { phase: ConnectionPhase::Reconnecting, backoff: Some(Backoff { attempt }) },
        seq![EffectModel::NotifyDisconnected, EffectModel::ScheduleBackoff { attempt }],
    )
}

/// The state and the effects that an event leads to, where `value` is what its
/// text was read as.
pub open spec fn step(state: SessionState, event: EventModel, value: Option<JsonModel>) -> (
    SessionState,
    Seq<EffectModel>,
) {
    match event {
        EventModel::Stop => (initial_state(), seq![EffectModel::NotifyDisconnected]),
        EventModel::Start if state.phase is Disconnected => (
            SessionState { phase: ConnectionPhase::Connecting, ..state },
            seq![EffectModel::Connect],
        ),
        EventModel::WsOpen if state.phase is Connecting => (
            SessionState { phase: ConnectionPhase::Subscribing, ..state },
            seq![EffectModel::NotifyConnected],
        ),
        EventModel::WsClosed if receiving(state.phase) => lost_connection(state),
        EventModel::WsError if receiving(state.phase) => lost_connection(state),
        EventModel::BackoffElapsed if state.phase is Reconnecting => (
            SessionState { phase: ConnectionPhase::Connecting, ..state },
            seq![EffectModel::Connect],
        ),
        EventModel::IncomingText(text) if receiving(state.phase) => {
            match (heartbeat_reply(text), value) {
                (Some(reply), _) => (state, seq![EffectModel::SendText(reply)]),
                (None, Some(value)) => (
                    SessionState { phase: ConnectionPhase::Running, ..state },
                    seq![EffectModel::ForwardJson(value)],
                ),
                (None, None) => (state, seq![EffectModel::Ignore]),
            }
        },
        _ => (state, seq![]),
    }
}

/// The answer to a heartbeat, if the text is one.
/// - Market/User channels: we send "PING", server replies "PONG"
/// - Sports channel: server sends "ping", we must reply "pong"
fn reply_to_heartbeat(text: &str) -> (r: Option<&'static str>)
    ensures
        r is Some <==> heartbeat_reply(text@) is Some,
        r matches Some(reply) ==> heartbeat_reply(text@) == Some(reply@),
{
    let trimmed_text = trim(text);
    if same_text(trimmed_text, "PING") {
        Some("PONG")
    } else if same_text(trimmed_text, "ping") {
        Some("pong")
    } else {
        None
    }
}

/// Handles an event whose text, if it has one, was read as `value`.
pub fn handle_read_event(state: &mut SessionState, event: Event, value: Option<Json>) -> (r: Vec<
    Effect,
>)
    requires
        attempt_fits(*old(state), event@),
    ensures
        (*final(state), effects_of(r@)) == step(*old(state), event@, said(value)),
{
    let mut effects: Vec<Effect> = Vec::new();
    match (state.phase, event) {
        (ConnectionPhase::Disconnected, Event::Start) => {
            state.phase = ConnectionPhase::Connecting;
            effects.push(Effect::Connect);
        },
        (ConnectionPhase::Connecting, Event::WsOpen) => {
            state.phase = ConnectionPhase::Subscribing;
            // subscription message is injected by runtime
            effects.push(Effect::NotifyConnected);
        },
        (ConnectionPhase::Subscribing, Event::WsClosed)
        | (ConnectionPhase::Running, Event::WsClosed)
        | (ConnectionPhase::Subscribing, Event::WsError)
        | (ConnectionPhase::Running, Event::WsError) => {
            let attempt: u32 = match state.backoff {
                Some(backoff) => backoff.attempt + 1,
                None => 1,
            };
            state.phase = ConnectionPhase::Reconnecting;
            state.backoff = Some(Backoff { attempt });
            effects.push(Effect::NotifyDisconnected);
            effects.push(Effect::ScheduleBackoff { attempt });
        },
        (ConnectionPhase::Reconnecting, Event::BackoffElapsed) => {
            state.phase = ConnectionPhase::Connecting;
            effects.push(Effect::Connect);
        },
        (_, Event::Stop) => {
            state.phase = ConnectionPhase::Disconnected;
            state.backoff = None;
            effects.push(Effect::NotifyDisconnected);
        },
        // Incoming text classification
        (ConnectionPhase::Subscribing, Event::IncomingText(text))
        | (ConnectionPhase::Running, Event::IncomingText(text)) => {
            match reply_to_heartbeat(text.as_str()) {
                Some(reply) => effects.push(Effect::SendText(reply.to_string())),
                None => match value {
                    Some(json) => {
                        // As soon as we see valid JSON market messages, treat as running
                        state.phase = ConnectionPhase::Running;
                        effects.push(Effect::ForwardJson(json));
                    },
                    None => effects.push(Effect::Ignore),
                },
            }
        },
        _ => {},
    }
    assert(effects_of(effects@) =~= step(*old(state), event@, said(value)).1);
    effects
}

/// Reads the text of an event, where the state machine asks for it.
pub fn read_event(state: &SessionState, event: &Event) -> (r: Option<Json>)
    ensures
        ({
            let asked = receiving(state.phase) && event is IncomingText && heartbeat_reply(
                event->IncomingText_0@,
            ) is None;
            match r {
                Some(json) => asked && event_json(event@) == Some(json@) && well_read(json@)
                    && json_opens(event->IncomingText_0@),
                None => !asked || event_json(event@) is None,
            }
        }),
{
    match event {
        Event::IncomingText(text) => match state.phase {
            ConnectionPhase::Subscribing | ConnectionPhase::Running => if reply_to_heartbeat(
                text.as_str(),
            ).is_none() {
                match Json::parse(text.as_str()) {
                    Ok(json) => Some(json),
                    Err(_) => None,
                }
            } else {
                None
            },
            _ => None,
        },
        _ => None,
    }
}

/// The text of the event cannot be that of a value.
pub open spec fn malformed(event: EventModel) -> bool {
    event is IncomingText && !json_opens(event->IncomingText_0)
}

/// Handles an event: moves the state on and says what is to be done.
pub fn handle_event(state: &mut SessionState, event: Event) -> (r: Vec<Effect>)
    requires
        attempt_fits(*old(state), event@),
    ensures
        (*final(state), effects_of(r@)) == step(*old(state), event@, event_json(event@)),
        forall|i: int|
            0 <= i < r@.len() && (#[trigger] r@[i]) is ForwardJson ==> well_read(
                r@[i]->ForwardJson_0@,
            ),
        receiving(old(state).phase) && malformed(event@) && heartbeat_reply(
            event@->IncomingText_0,
        ) is None ==> *final(state) == *old(state) && effects_of(r@) == seq![EffectModel::Ignore],
{
    // Try to parse JSON; on success forward, else ignore
    let value = read_event(state, &event);
    let ghost read = said(value);
    let ghost before = *state;
    let ghost told = event@;
    assert(read is Some ==> well_read(read->0));
    let effects = handle_read_event(state, event, value);
    proof {
        assert forall|i: int|
            0 <= i < effects@.len() && (#[trigger] effects@[i]) is ForwardJson implies well_read(
            effects@[i]->ForwardJson_0@,
        ) by {
            let json = effects@[i]->ForwardJson_0@;
            assert(effects_of(effects@)[i] == EffectModel::ForwardJson(json));
            assert(step(before, told, read).1 == effects_of(effects@));
            law_json_is_forwarded(before, told, read, json);
        }
    }
    effects
}

// ---------------------------------------------------------------------------
// Laws of the state machine
// ---------------------------------------------------------------------------

/// From every state a stop leads back to the initial one, and is told.
pub proof fn law_stop_resets(state: SessionState, value: Option<JsonModel>)
    ensures
        step(state, EventModel::Stop, value) == (
            initial_state(),
            seq![EffectModel::NotifyDisconnected],
        ),
{
}

/// Attempts are counted up by each loss of the connection and forgotten by a stop;
/// no other event touches the count.
pub proof fn law_attempts(state: SessionState, event: EventModel, value: Option<JsonModel>)
    requires
        attempt_fits(state, event),
    ensures
        ({
            let after = step(state, event, value).0;
            let lost = receiving(state.phase) && (event is WsClosed || event is WsError);
            &&& lost ==> after.backoff is Some && after.backoff->0.attempt == next_attempt(state)
            &&& event is Stop ==> after.backoff is None
            &&& !lost && event !is Stop ==> after.backoff == state.backoff
        }),
{
}

/// A backoff is scheduled exactly when the connection is lost, with the number of
/// the attempt that the state then holds.
pub proof fn law_backoff_is_scheduled(
    state: SessionState,
    event: EventModel,
    value: Option<JsonModel>,
    attempt: u32,
)
    requires
        attempt_fits(state, event),
    ensures
        step(state, event, value).1.contains(EffectModel::ScheduleBackoff { attempt }) <==> {
            &&& receiving(state.phase)
            &&& event is WsClosed || event is WsError
            &&& attempt == next_attempt(state)
        },
{
    let effects = step(state, event, value).1;
    if receiving(state.phase) && (event is WsClosed || event is WsError) {
        assert(effects[1] == EffectModel::ScheduleBackoff { attempt: next_attempt(state) as u32 });
    }
}

/// A value is forwarded exactly when a text is received that is no heartbeat and
/// reads as that value; the session then runs.
pub proof fn law_json_is_forwarded(
    state: SessionState,
    event: EventModel,
    value: Option<JsonModel>,
    json: JsonModel,
)
    ensures
        step(state, event, value).1.contains(EffectModel::ForwardJson(json)) <==> {
            &&& receiving(state.phase)
            &&& event is IncomingText
            &&& heartbeat_reply(event->IncomingText_0) is None
            &&& value == Some(json)
        },
        step(state, event, value).1.contains(EffectModel::ForwardJson(json)) ==> step(
            state,
            event,
            value,
        ).0.phase is Running,
{
    let effects = step(state, event, value).1;
    if receiving(state.phase) && event is IncomingText && heartbeat_reply(
        event->IncomingText_0,
    ) is None && value == Some(json) {
        assert(effects[0] == EffectModel::ForwardJson(json));
    }
}

/// A text is sent exactly in answer to a heartbeat, and the state stays as it is.
pub proof fn law_heartbeat_is_answered(
    state: SessionState,
    event: EventModel,
    value: Option<JsonModel>,
    reply: Seq<char>,
)
    ensures
        step(state, event, value).1.contains(EffectModel::SendText(reply)) <==> {
            &&& receiving(state.phase)
            &&& event is IncomingText
            &&& heartbeat_reply(event->IncomingText_0) == Some(reply)
        },
        step(state, event, value).1.contains(EffectModel::SendText(reply)) ==> step(
            state,
            event,
            value,
        ).0 == state,
{
    let effects = step(state, event, value).1;
    if receiving(state.phase) && event is IncomingText && heartbeat_reply(event->IncomingText_0)
        == Some(reply) {
        assert(effects[0] == EffectModel::SendText(reply));
    }
}

/// An event without effects leaves the state as it is.
pub proof fn law_no_effect_no_change(
    state: SessionState,
    event: EventModel,
    value: Option<JsonModel>,
)
    ensures
        step(state, event, value).1.len() == 0 ==> step(state, event, value).0 == state,
{
}

/// No event leads to the failed phase, and only a stop leads out of it.
pub proof fn law_failed(state: SessionState, event: EventModel, value: Option<JsonModel>)
    ensures
        step(state, event, value).0.phase is Failed <==> state.phase is Failed && event !is Stop,
{
}

/// After a loss, the elapsed backoff and the opened connection lead back to the
/// subscription, with the attempt still counted.
pub proof fn law_reconnect(
    state: SessionState,
    loss: EventModel,
    a: Option<JsonModel>,
    b: Option<JsonModel>,
    c: Option<JsonModel>,
)
    requires
        receiving(state.phase),
        loss is WsClosed || loss is WsError,
        attempt_fits(state, loss),
    ensures
        ({
            let lost = step(state, loss, a).0;
            let waited = step(lost, EventModel::BackoffElapsed, b);
            let opened = step(waited.0, EventModel::WsOpen, c);
            &&& lost.phase is Reconnecting
            &&& waited.1 == seq![EffectModel::Connect]
            &&& opened.1 == seq![EffectModel::NotifyConnected]
            &&& opened.0.phase is Subscribing
            &&& opened.0.backoff is Some
            &&& opened.0.backoff->0.attempt == next_attempt(state)
        }),
{
}

} // verus!
