//! How a session is run: what is done about each thing that happens to it.

use crate::config::{build_subscription_payload, subscription_text, AppConfig};
use crate::json::{said, well_read, Json, JsonModel};
use crate::state::{
    effects_of, event_json, handle_event, handle_read_event, heartbeat_reply, initial_state,
    malformed, next_attempt, read_event, receiving, step, ConnectionPhase, Effect, EffectModel,
    Event, EventModel, SessionState,
};
use vstd::arithmetic::power2::pow2;
use vstd::prelude::*;

verus! {

#[derive(Debug, Clone)]
pub struct SessionConfig {
    pub url: String,
    pub subscription_payload: String,
    pub max_backoff_secs: u64,
}

impl SessionConfig {
    pub fn polymarket_default() -> (r: Self)
        ensures
            r.url@ == "wss://ws-subscriptions-clob.polymarket.com/ws/market"@,
            r.subscription_payload@ == r#"{
  "assets_ids": [
    "112493481455469093769281852159558847572704253342416714876781522096078968514094",
    "73624432805780182150964443951045800666977811185963019133914618974858599458273"
  ],
  "type": "market"
}"#@,
            r.max_backoff_secs == 16,
    {
        let payload = r#"{
  "assets_ids": [
    "112493481455469093769281852159558847572704253342416714876781522096078968514094",
    "73624432805780182150964443951045800666977811185963019133914618974858599458273"
  ],
  "type": "market"
}"#.to_string();
        SessionConfig {
            url: "wss://ws-subscriptions-clob.polymarket.com/ws/market".to_string(),
            subscription_payload: payload,
            max_backoff_secs: 16,
        }
    }

    /// The session that an application is configured for.
    pub fn for_app(config: &AppConfig) -> (r: Self)
        ensures
            r.url@ == config.url@,
            r.subscription_payload@ == subscription_text(config.assets@),
            r.max_backoff_secs == 16,
    {
        SessionConfig {
            url: config.url.clone(),
            subscription_payload: build_subscription_payload(config.assets.as_slice()),
            max_backoff_secs: 16,
        }
    }
}

/// How long to wait before an attempt: one second, doubled with each attempt, but
/// not more than the longest wait.
pub open spec fn wait_secs(attempt: nat, max_secs: nat) -> nat {
    let secs = pow2((attempt - 1) as nat);
    if secs < max_secs {
        secs
    } else {
        max_secs
    }
}

pub fn backoff_secs(attempt: u32, max_secs: u64) -> (r: u64)
    requires
        1 <= attempt <= 64,
    ensures
        r == wait_secs(attempt as nat, max_secs as nat),
{
    let shift: u64 = (attempt - 1) as u64;
    proof {
        vstd::arithmetic::power2::lemma2_to64_rest();
        if shift < 63 {
            vstd::arithmetic::power2::lemma_pow2_strictly_increases(shift as nat, 63);
        }
        vstd::bits::lemma_u64_shl_is_mul(1, shift);
    }
    let secs: u64 = 1u64 << shift;
    if secs < max_secs {
        secs
    } else {
        max_secs
    }
}

/// What happens to a session.
#[derive(Debug, Clone, PartialEq, Eq)]
pub enum Input {
    /// The session is started.
    Started,
    /// The connection is open.
    Connected,
    /// A text frame arrived.
    Text(String),
    /// A ping frame arrived.
    Ping,
    /// A close frame arrived.
    Closed,
    /// A frame of another kind arrived.
    OtherFrame,
    /// Receiving failed.
    Failed,
    /// The stream of frames ended.
    Ended,
    /// The heartbeat is due.
    PingDue,
    /// The session is to be shut down.
    ShutdownRequested,
}

/// What is to be done for a session, in order.
#[derive(Debug, Clone, PartialEq)]
pub enum Command {
    /// Open a connection.
    Connect,
    SendText(String),
    SendPong,
    SendClose,
    /// Wait before going on.
    Sleep { secs: u64 },
    TellConnected,
    TellDisconnected,
    TellJson(Json),
    /// The session is over.
    Finish,
}

/// A command, with the characters of its text and what its value says.
pub enum CommandModel {
    Connect,
    SendText(Seq<char>),
    SendPong,
    SendClose,
    Sleep { secs: nat },
    TellConnected,
    TellDisconnected,
    TellJson(JsonModel),
    Finish,
}

impl View for Command {
    type V = CommandModel;

    open spec fn view(&self) -> CommandModel {
        match *self {
            Command::Connect => CommandModel::Connect,
            Command::SendText(text) => CommandModel::SendText(text@),
            Command::SendPong => CommandModel::SendPong,
            Command::SendClose => CommandModel::SendClose,
            Command::Sleep { secs } => CommandModel::Sleep { secs: secs as nat },
            Command::TellConnected => CommandModel::TellConnected,
            Command::TellDisconnected => CommandModel::TellDisconnected,
            Command::TellJson(value) => CommandModel::TellJson(value@),
            Command::Finish => CommandModel::Finish,
        }
    }
}

/// The commands, one after the other.
pub open spec fn commands_of(commands: Seq<Command>) -> Seq<CommandModel> {
    commands.map_values(|command: Command| command@)
}

/// The event that the state machine is told of, if any.
pub open spec fn input_event(input: Input) -> Option<EventModel> {
    match input {
        Input::Started => Some(EventModel::Start),
        Input::Connected => Some(EventModel::WsOpen),
        Input::Text(text) => Some(EventModel::IncomingText(text@)),
        Input::Closed => Some(EventModel::WsClosed),
        Input::Ended => Some(EventModel::WsClosed),
        Input::Failed => Some(EventModel::WsError),
        Input::ShutdownRequested => Some(EventModel::Stop),
        Input::Ping => None,
        Input::OtherFrame => None,
        Input::PingDue => None,
    }
}

/// The connection is gone after this.
pub open spec fn ends_connection(input: Input) -> bool {
    input is Closed || input is Failed || input is Ended
}

/// What is done about an effect. (A connection is opened when the event was
/// dealt with, not here.)
pub open spec fn performed(effect: EffectModel, max_secs: nat) -> Seq<CommandModel> {
    match effect {
        EffectModel::Connect => seq![],
        EffectModel::SendText(text) => seq![CommandModel::SendText(text)],
        EffectModel::ScheduleBackoff { attempt } => seq![
            CommandModel::Sleep { secs: wait_secs(attempt as nat, max_secs) },
        ],
        EffectModel::NotifyConnected => seq![CommandModel::TellConnected],
        EffectModel::NotifyDisconnected => seq![CommandModel::TellDisconnected],
        EffectModel::ForwardJson(value) => seq![CommandModel::TellJson(value)],
        EffectModel::Ignore => seq![],
    }
}

/// What is done about the effects, one after the other.
pub open spec fn all_performed(effects: Seq<EffectModel>, max_secs: nat) -> Seq<CommandModel>
    decreases effects.len(),
{
    if effects.len() == 0 {
        seq![]
    } else {
        all_performed(effects.drop_last(), max_secs) + performed(effects.last(), max_secs)
    }
}

/// The state once a scheduled wait is over.
pub open spec fn waited(state: SessionState) -> SessionState {
    step(state, EventModel::BackoffElapsed, None).0
}

/// The state and the commands that an input leads to, where `value` is what its
/// text was read as.
pub open spec fn reaction(
    config: SessionConfig,
    state: SessionState,
    input: Input,
    value: Option<JsonModel>,
) -> (SessionState, Seq<CommandModel>) {
    match input_event(input) {
        Some(event) => {
            let (next, effects) = step(state, event, value);
            let done = all_performed(effects, config.max_backoff_secs as nat);
            if input is Started {
                (next, done.push(CommandModel::Connect))
            } else if input is Connected {
                (next, done.push(CommandModel::SendText(config.subscription_payload@)))
            } else if ends_connection(input) {
                (
                    if receiving(state.phase) {
                        waited(next)
                    } else {
                        next
                    },
                    done.push(CommandModel::Connect),
                )
            } else if input is ShutdownRequested {
                (next, done.push(CommandModel::SendClose).push(CommandModel::Finish))
            } else {
                (next, done)
            }
        },
        None => if input is Ping {
            (state, seq![CommandModel::SendPong])
        } else if input is PingDue {
            (state, seq![CommandModel::SendText("PING"@)])
        } else {
            (state, seq![])
        },
    }
}

/// Where the input costs the connection, the wait before the next attempt is one
/// of the sixty-four that can be computed.
pub open spec fn wait_fits(state: SessionState, input: Input) -> bool {
    receiving(state.phase) && ends_connection(input) ==> 1 <= next_attempt(state) <= 64
}

/// The value that the text of an input is.
pub open spec fn input_json(input: Input) -> Option<JsonModel> {
    match input_event(input) {
        Some(event) => event_json(event),
        None => None,
    }
}

/// Runs a session: is told what happens, and says what is to be done.
#[derive(Debug)]
pub struct SessionDriver {
    pub config: SessionConfig,
    pub state: SessionState,
}

impl SessionDriver {
    pub fn new(config: SessionConfig) -> (r: Self)
        ensures
            r.config == config,
            r.state == initial_state(),
    {
        SessionDriver { config, state: SessionState::new() }
    }

    /// Whether the wait that the input may lead to can be computed.
    pub fn can_react(&self, input: &Input) -> (r: bool)
        ensures
            r == wait_fits(self.state, *input),
    {
        let receives = match self.state.phase {
            ConnectionPhase::Subscribing => true,
            ConnectionPhase::Running => true,
            _ => false,
        };
        let ends = match input {
            Input::Closed => true,
            Input::Failed => true,
            Input::Ended => true,
            _ => false,
        };
        if receives && ends {
            match self.state.backoff {
                Some(backoff) => backoff.attempt < 64,
                None => true,
            }
        } else {
            true
        }
    }

    /// Says what is to be done about an input.
    pub fn react(&mut self, input: Input) -> (r: Vec<Command>)
        requires
            wait_fits(old(self).state, input),
        ensures
            final(self).config == old(self).config,
            (final(self).state, commands_of(r@)) == reaction(
                old(self).config,
                old(self).state,
                input,
                input_json(input),
            ),
            forall|i: int|
                0 <= i < r@.len() && (#[trigger] r@[i]) is TellJson ==> well_read(
                    r@[i]->TellJson_0@,
                ),
            receiving(old(self).state.phase) && input is Text && malformed(input_event(input)->0)
                && heartbeat_reply(input->Text_0@) is None ==> final(self).state
                == old(self).state && r@.len() == 0,
    {
        let ghost config = self.config;
        let ghost before = self.state;
        match input {
            Input::Text(text) => {
                let event = Event::IncomingText(text);
                let value = read_event(&self.state, &event);
                let ghost read = said(value);
                let commands = self.dispatch(event, value);
                proof {
                    lemma_told_values(config, before, input, read);
                    assert forall|i: int|
                        0 <= i < commands@.len() && (
                        #[trigger] commands@[i]) is TellJson implies well_read(
                        commands@[i]->TellJson_0@,
                    ) by {
                        assert(commands_of(commands@)[i] == commands@[i]@);
                    }
                    reveal_with_fuel(all_performed, 3);
                    assert(commands_of(commands@).len() == commands@.len());
                }
                commands
            },
            other => {
                let commands = self.react_read(other, None);
                proof {
                    lemma_told_values(config, before, other, None);
                    assert forall|i: int|
                        0 <= i < commands@.len() && (
                        #[trigger] commands@[i]) is TellJson implies well_read(
                        commands@[i]->TellJson_0@,
                    ) by {
                        assert(commands_of(commands@)[i] == commands@[i]@);
                    }
                }
                commands
            },
        }
    }

    /// Says what is to be done about an input whose text, if it has one, was read as
    /// `value`.
    pub fn react_read(&mut self, input: Input, value: Option<Json>) -> (r: Vec<Command>)
        requires
            wait_fits(old(self).state, input),
        ensures
            final(self).config == old(self).config,
            (final(self).state, commands_of(r@)) == reaction(
                old(self).config,
                old(self).state,
                input,
                said(value),
            ),
    {
        match input {
            Input::Started => {
                let mut commands = self.dispatch(Event::Start, value);
                commands.push(Command::Connect);
                commands
            },
            Input::Connected => {
                let mut commands = self.dispatch(Event::WsOpen, value);
                // Send subscription immediately.
                commands.push(Command::SendText(self.config.subscription_payload.clone()));
                commands
            },
            Input::Text(text) => self.dispatch(Event::IncomingText(text), value),
            Input::Ping => {
                let mut commands: Vec<Command> = Vec::new();
                commands.push(Command::SendPong);
                commands
            },
            Input::Closed | Input::Ended => {
                let mut commands = self.dispatch(Event::WsClosed, value);
                commands.push(Command::Connect);
                commands
            },
            Input::Failed => {
                let mut commands = self.dispatch(Event::WsError, value);
                commands.push(Command::Connect);
                commands
            },
            // ignore non-text frames
            Input::OtherFrame => Vec::new(),
            Input::PingDue => {
                let mut commands: Vec<Command> = Vec::new();
                // Polymarket market channel: client heartbeat as text "PING".
                commands.push(Command::SendText("PING".to_string()));
                commands
            },
            Input::ShutdownRequested => {
                // One final graceful stop notification to the state machine and observer.
                let mut commands = self.dispatch(Event::Stop, value);
                commands.push(Command::SendClose);
                commands.push(Command::Finish);
                commands
            },
        }
    }

    /// Tells the state machine of an event and turns its effects into commands.
    fn dispatch(&mut self, event: Event, value: Option<Json>) -> (r: Vec<Command>)
        requires
            receiving(old(self).state.phase) && (event is WsClosed || event is WsError) ==> 1
                <= next_attempt(old(self).state) <= 64,
        ensures
            final(self).config == old(self).config,
            ({
                let (next, effects) = step(old(self).state, event@, said(value));
                let lost = receiving(old(self).state.phase) && (event is WsClosed
                    || event is WsError);
                &&& final(self).state == (if lost {
                    waited(next)
                } else {
                    next
                })
                &&& commands_of(r@) == all_performed(
                    effects,
                    old(self).config.max_backoff_secs as nat,
                )
            }),
    {
        let ghost read = said(value);
        let ghost before = self.state;
        let ghost (next, effects_model) = step(before, event@, read);
        let ghost max = self.config.max_backoff_secs as nat;
        let ghost lost = receiving(before.phase) && (event is WsClosed || event is WsError);
        let effects = handle_read_event(&mut self.state, event, value);
        let mut commands: Vec<Command> = Vec::new();
        let ghost total = effects_of(effects@);
        proof {
            assert(total == effects_model);
            assert(lost ==> total.len() == 2);
            assert forall|k: int| 0 <= k < total.len() implies ((
            #[trigger] total[k]) is ScheduleBackoff <==> lost && k == 1) && (
            total[k] is ScheduleBackoff ==> total[k]->attempt == next_attempt(before)) by {}
        }
        assert(commands_of(commands@) =~= all_performed(total.take(0), max));
        for effect in iter: effects.into_iter()
            invariant
                iter.seq() == effects@,
                total == effects_of(effects@),
                lost ==> total.len() == 2,
                forall|k: int|
                    0 <= k < total.len() ==> ((#[trigger] total[k]) is ScheduleBackoff <==> lost
                        && k == 1) && (total[k] is ScheduleBackoff ==> total[k]->attempt
                        == next_attempt(before)),
                lost ==> 1 <= next_attempt(before) <= 64,
                self.config == old(self).config,
                max == self.config.max_backoff_secs,
                self.state == (if lost && iter.index() == 2 {
                    waited(next)
                } else {
                    next
                }),
                commands_of(commands@) == all_performed(total.take(iter.index()), max),
        {
            let ghost k = iter.index();
            assert(total[k] == effect@);
            assert(total.take(k + 1).drop_last() =~= total.take(k));
            assert(total.take(k + 1).last() == total[k]);
            let ghost done = commands@;
            match effect {
                Effect::Connect => {
                    // handled in run loop
                },
                Effect::SendText(text) => commands.push(Command::SendText(text)),
                Effect::ScheduleBackoff { attempt } => {
                    let secs: u64 = backoff_secs(attempt, self.config.max_backoff_secs);
                    commands.push(Command::Sleep { secs });
                    let _effects = handle_event(&mut self.state, Event::BackoffElapsed);
                },
                Effect::NotifyConnected => commands.push(Command::TellConnected),
                Effect::NotifyDisconnected => commands.push(Command::TellDisconnected),
                Effect::ForwardJson(json) => commands.push(Command::TellJson(json)),
                Effect::Ignore => {},
            }
            assert(commands_of(commands@) =~= commands_of(done) + performed(total[k], max));
        }
        assert(total.take(total.len() as int) =~= total);
        commands
    }
}

/// No value is told but the one that was read.
proof fn lemma_told_values(
    config: SessionConfig,
    state: SessionState,
    input: Input,
    value: Option<JsonModel>,
)
    ensures
        forall|i: int|
            0 <= i < reaction(config, state, input, value).1.len() && (#[trigger] reaction(
                config,
                state,
                input,
                value,
            ).1[i]) is TellJson ==> value == Some(
                reaction(config, state, input, value).1[i]->TellJson_0,
            ),
{
    reveal_with_fuel(all_performed, 3);
}

// ---------------------------------------------------------------------------
// Laws of the session
// ---------------------------------------------------------------------------

/// The first wait is a second, a later wait is never shorter, and none is longer
/// than the longest.
pub proof fn law_wait_grows(attempt: nat, max_secs: nat)
    requires
        1 <= attempt,
    ensures
        max_secs >= 1 ==> wait_secs(1, max_secs) == 1,
        wait_secs(attempt, max_secs) <= wait_secs(attempt + 1, max_secs),
        wait_secs(attempt, max_secs) <= max_secs,
{
    vstd::arithmetic::power2::lemma2_to64();
    vstd::arithmetic::power2::lemma_pow2_strictly_increases((attempt - 1) as nat, attempt);
}

/// A new session connects, and once connected tells so and subscribes.
pub proof fn law_start(config: SessionConfig, a: Option<JsonModel>, b: Option<JsonModel>)
    ensures
        ({
            let (started, first) = reaction(config, initial_state(), Input::Started, a);
            let (connected, second) = reaction(config, started, Input::Connected, b);
            &&& first == seq![CommandModel::Connect]
            &&& second == seq![
                CommandModel::TellConnected,
                CommandModel::SendText(config.subscription_payload@),
            ]
            &&& connected.phase is Subscribing
        }),
{
    reveal_with_fuel(all_performed, 3);
    let (started, first) = reaction(config, initial_state(), Input::Started, a);
    let (connected, second) = reaction(config, started, Input::Connected, b);
    assert(first =~= seq![CommandModel::Connect]);
    assert(second =~= seq![
        CommandModel::TellConnected,
        CommandModel::SendText(config.subscription_payload@),
    ]);
}

/// A lost connection is told, waited for, opened again and subscribed again, with
/// the attempt counted.
pub proof fn law_loss(
    config: SessionConfig,
    state: SessionState,
    input: Input,
    a: Option<JsonModel>,
    b: Option<JsonModel>,
)
    requires
        receiving(state.phase),
        ends_connection(input),
        wait_fits(state, input),
    ensures
        ({
            let (lost, first) = reaction(config, state, input, a);
            let (connected, second) = reaction(config, lost, Input::Connected, b);
            &&& first == seq![
                CommandModel::TellDisconnected,
                CommandModel::Sleep {
                    secs: wait_secs(next_attempt(state) as nat, config.max_backoff_secs as nat),
                },
                CommandModel::Connect,
            ]
            &&& lost.phase is Connecting
            &&& lost.backoff is Some && lost.backoff->0.attempt == next_attempt(state)
            &&& second == seq![
                CommandModel::TellConnected,
                CommandModel::SendText(config.subscription_payload@),
            ]
            &&& connected.phase is Subscribing
            &&& connected.backoff == lost.backoff
        }),
{
    reveal_with_fuel(all_performed, 3);
    let (lost, first) = reaction(config, state, input, a);
    let (connected, second) = reaction(config, lost, Input::Connected, b);
    let event = input_event(input)->0;
    let effects = step(state, event, a).1;
    assert(effects.drop_last() =~= seq![EffectModel::NotifyDisconnected]);
    assert(effects.drop_last().drop_last() =~= seq![]);
    assert(first =~= seq![
        CommandModel::TellDisconnected,
        CommandModel::Sleep {
            secs: wait_secs(next_attempt(state) as nat, config.max_backoff_secs as nat),
        },
        CommandModel::Connect,
    ]);
    assert(second =~= seq![
        CommandModel::TellConnected,
        CommandModel::SendText(config.subscription_payload@),
    ]);
}

/// From every state a shutdown is told, closes the connection and ends the session.
pub proof fn law_shutdown(config: SessionConfig, state: SessionState, value: Option<JsonModel>)
    ensures
        reaction(config, state, Input::ShutdownRequested, value) == (
            initial_state(),
            seq![CommandModel::TellDisconnected, CommandModel::SendClose, CommandModel::Finish],
        ),
{
    reveal_with_fuel(all_performed, 3);
    assert(reaction(config, state, Input::ShutdownRequested, value).1 =~= seq![
        CommandModel::TellDisconnected,
        CommandModel::SendClose,
        CommandModel::Finish,
    ]);
}

/// While a connection is open, messages are read: what arrives keeps it so, until
/// the connection ends or the session does.
pub proof fn law_open_connection_is_read(
    config: SessionConfig,
    state: SessionState,
    input: Input,
    value: Option<JsonModel>,
)
    requires
        receiving(state.phase),
        !ends_connection(input),
        input !is ShutdownRequested,
    ensures
        receiving(reaction(config, state, input, value).0.phase),
{
}

// ---------------------------------------------------------------------------
// Whole runs
// ---------------------------------------------------------------------------

/// How far a session has come.
pub enum Stage {
    /// It was not started.
    Idle,
    /// A connection is being opened.
    Opening,
    /// A connection is open.
    Open,
    /// It is over.
    Over,
}

/// How far an input brings the session, if it can come at this stage: a connection is
/// opened when that was asked for, and frames arrive on an open one.
pub open spec fn next_stage(stage: Stage, input: Input) -> Option<Stage> {
    match stage {
        Stage::Idle => if input is Started {
            Some(Stage::Opening)
        } else {
            None
        },
        Stage::Opening => if input is Connected {
            Some(Stage::Open)
        } else {
            None
        },
        Stage::Open => if input is Started || input is Connected {
            None
        } else if ends_connection(input) {
            Some(Stage::Opening)
        } else if input is ShutdownRequested {
            Some(Stage::Over)
        } else {
            Some(Stage::Open)
        },
        Stage::Over => None,
    }
}

/// How far the inputs bring a new session, if they can come in this order.
pub open spec fn stage_of(inputs: Seq<Input>) -> Option<Stage>
    decreases inputs.len(),
{
    if inputs.len() == 0 {
        Some(Stage::Idle)
    } else {
        match stage_of(inputs.drop_last()) {
            Some(stage) => next_stage(stage, inputs.last()),
            None => None,
        }
    }
}

/// The state that the inputs bring a new session to, and the commands on the way, where
/// `values` is what their texts were read as.
pub open spec fn run_of(
    config: SessionConfig,
    inputs: Seq<Input>,
    values: Seq<Option<JsonModel>>,
) -> (SessionState, Seq<CommandModel>)
    decreases inputs.len(),
{
    if inputs.len() == 0 {
        (initial_state(), seq![])
    } else {
        let (state, commands) = run_of(config, inputs.drop_last(), values.drop_last());
        let (next, more) = reaction(config, state, inputs.last(), values.last());
        (next, commands + more)
    }
}

/// Whether the observer, told this, takes the session for connected.
pub open spec fn told_connected(commands: Seq<CommandModel>) -> bool
    decreases commands.len(),
{
    if commands.len() == 0 {
        false
    } else if commands.last() is TellConnected {
        true
    } else if commands.last() is TellDisconnected {
        false
    } else {
        told_connected(commands.drop_last())
    }
}

/// The command may come when the observer takes the session for connected, or not.
pub open spec fn in_turn(connected: bool, command: CommandModel) -> bool {
    match command {
        CommandModel::TellConnected => !connected,
        CommandModel::TellDisconnected => connected,
        CommandModel::TellJson(_) => connected,
        CommandModel::SendText(_) => connected,
        CommandModel::SendPong => connected,
        _ => true,
    }
}

/// Every command comes in its turn. A connection is told right after it was asked for,
/// and right after that the subscription is sent: it is the first frame.
pub open spec fn orderly(commands: Seq<CommandModel>, payload: Seq<char>) -> bool {
    forall|j: int|
        0 <= j < commands.len() ==> in_turn(
            told_connected(#[trigger] commands.take(j)),
            commands[j],
        ) && (commands[j] is TellConnected ==> {
            &&& 0 < j && commands[j - 1] is Connect
            &&& j + 1 < commands.len() && commands[j + 1] == CommandModel::SendText(payload)
        })
}

/// A command that is none of the two that follow a new connection keeps the order.
proof fn lemma_orderly_push(
    commands: Seq<CommandModel>,
    payload: Seq<char>,
    command: CommandModel,
)
    requires
        orderly(commands, payload),
        command !is TellConnected,
        in_turn(told_connected(commands), command),
    ensures
        orderly(commands.push(command), payload),
        told_connected(commands.push(command)) == (told_connected(commands) && !(
        command is TellDisconnected)),
{
    let more = commands.push(command);
    assert(more.drop_last() =~= commands);
    assert forall|j: int| 0 <= j < more.len() implies in_turn(
        told_connected(#[trigger] more.take(j)),
        more[j],
    ) && (more[j] is TellConnected ==> {
        &&& 0 < j && more[j - 1] is Connect
        &&& j + 1 < more.len() && more[j + 1] == CommandModel::SendText(payload)
    }) by {
        if j < commands.len() {
            assert(more.take(j) =~= commands.take(j));
            assert(more[j] == commands[j]);
        } else {
            assert(more.take(j) =~= commands);
        }
    }
}

/// A new connection is told and subscribed.
#[verifier::spinoff_prover]
proof fn lemma_orderly_connect(commands: Seq<CommandModel>, payload: Seq<char>)
    requires
        orderly(commands, payload),
        commands.len() > 0,
        commands.last() is Connect,
        !told_connected(commands),
    ensures
        ({
            let more = commands + seq![
                CommandModel::TellConnected,
                CommandModel::SendText(payload),
            ];
            orderly(more, payload) && told_connected(more)
        }),
{
    let told = commands.push(CommandModel::TellConnected);
    let more = commands + seq![CommandModel::TellConnected, CommandModel::SendText(payload)];
    let n = commands.len() as int;
    assert(more.drop_last() =~= told);
    assert(told.drop_last() =~= commands);
    assert(told.last() is TellConnected);
    assert(told_connected(told));
    assert(more.last() == CommandModel::SendText(payload));
    assert(told_connected(more));
    assert forall|j: int| 0 <= j < more.len() implies in_turn(
        told_connected(#[trigger] more.take(j)),
        more[j],
    ) && (more[j] is TellConnected ==> {
        &&& 0 < j && more[j - 1] is Connect
        &&& j + 1 < more.len() && more[j + 1] == CommandModel::SendText(payload)
    }) by {
        if j < n {
            assert(more.take(j) =~= commands.take(j));
            assert(more[j] == commands[j]);
        } else if j == n {
            assert(more.take(j) =~= commands);
            assert(more[j] is TellConnected);
            assert(more[j - 1] == commands.last());
            assert(more[j + 1] == CommandModel::SendText(payload));
        } else {
            assert(more.take(j) =~= told);
            assert(more[j] == CommandModel::SendText(payload));
        }
    }
    assert(orderly(more, payload));
}

/// What the commands so far, and the state, are at a stage.
pub open spec fn on_course(
    stage: Stage,
    state: SessionState,
    commands: Seq<CommandModel>,
    payload: Seq<char>,
) -> bool {
    &&& orderly(commands, payload)
    &&& told_connected(commands) <==> stage is Open
    &&& receiving(state.phase) <==> stage is Open
    &&& stage is Idle ==> state == initial_state()
    &&& stage is Opening ==> state.phase is Connecting && commands.len() > 0
        && commands.last() is Connect
}

/// What is done about the loss of an open connection.
proof fn lemma_loss_commands(
    config: SessionConfig,
    state: SessionState,
    input: Input,
    value: Option<JsonModel>,
) -> (secs: nat)
    requires
        receiving(state.phase),
        ends_connection(input),
    ensures
        reaction(config, state, input, value).0.phase is Connecting,
        reaction(config, state, input, value).1 == seq![
            CommandModel::TellDisconnected,
            CommandModel::Sleep { secs },
            CommandModel::Connect,
        ],
{
    reveal_with_fuel(all_performed, 3);
    let effects = step(state, input_event(input)->0, value).1;
    assert(effects.drop_last() =~= seq![EffectModel::NotifyDisconnected]);
    assert(effects.drop_last().drop_last() =~= seq![]);
    let secs = wait_secs(effects[1]->attempt as nat, config.max_backoff_secs as nat);
    assert(reaction(config, state, input, value).1 =~= seq![
        CommandModel::TellDisconnected,
        CommandModel::Sleep { secs },
        CommandModel::Connect,
    ]);
    secs
}

/// What is done about the start of a session and about a new connection.
proof fn lemma_opening_commands(
    config: SessionConfig,
    state: SessionState,
    value: Option<JsonModel>,
)
    ensures
        state.phase is Disconnected ==> reaction(config, state, Input::Started, value).1 == seq![
            CommandModel::Connect,
        ],
        state.phase is Connecting ==> reaction(config, state, Input::Connected, value).1 == seq![
            CommandModel::TellConnected,
            CommandModel::SendText(config.subscription_payload@),
        ],
{
    reveal_with_fuel(all_performed, 3);
    if state.phase is Disconnected {
        assert(reaction(config, state, Input::Started, value).1 =~= seq![CommandModel::Connect]);
    }
    if state.phase is Connecting {
        assert(reaction(config, state, Input::Connected, value).1 =~= seq![
            CommandModel::TellConnected,
            CommandModel::SendText(config.subscription_payload@),
        ]);
    }
}

/// What arrives on an open connection and does not end it leads to at most one command.
proof fn lemma_open_commands(
    config: SessionConfig,
    state: SessionState,
    input: Input,
    value: Option<JsonModel>,
)
    requires
        receiving(state.phase),
        next_stage(Stage::Open, input) == Some(Stage::Open),
    ensures
        receiving(reaction(config, state, input, value).0.phase),
        ({
            let more = reaction(config, state, input, value).1;
            more.len() == 0 || (more.len() == 1 && (more[0] is SendText || more[0] is SendPong
                || more[0] is TellJson))
        }),
{
    reveal_with_fuel(all_performed, 3);
}

proof fn lemma_on_course(
    config: SessionConfig,
    stage: Stage,
    state: SessionState,
    commands: Seq<CommandModel>,
    input: Input,
    value: Option<JsonModel>,
)
    requires
        on_course(stage, state, commands, config.subscription_payload@),
        next_stage(stage, input) is Some,
    ensures
        ({
            let (next, more) = reaction(config, state, input, value);
            on_course(
                next_stage(stage, input)->0,
                next,
                commands + more,
                config.subscription_payload@,
            )
        }),
{
    let payload = config.subscription_payload@;
    let more = reaction(config, state, input, value).1;
    if input is Started {
        lemma_opening_commands(config, state, value);
        lemma_orderly_push(commands, payload, CommandModel::Connect);
        assert(commands + more =~= commands.push(CommandModel::Connect));
    } else if input is Connected {
        lemma_opening_commands(config, state, value);
        lemma_orderly_connect(commands, payload);
    } else if ends_connection(input) {
        let secs = lemma_loss_commands(config, state, input, value);
        let wait = CommandModel::Sleep { secs };
        let c1 = commands.push(CommandModel::TellDisconnected);
        lemma_orderly_push(commands, payload, CommandModel::TellDisconnected);
        lemma_orderly_push(c1, payload, wait);
        lemma_orderly_push(c1.push(wait), payload, CommandModel::Connect);
        assert(commands + more =~= c1.push(wait).push(CommandModel::Connect));
    } else if input is ShutdownRequested {
        law_shutdown(config, state, value);
        let c1 = commands.push(CommandModel::TellDisconnected);
        let c2 = c1.push(CommandModel::SendClose);
        lemma_orderly_push(commands, payload, CommandModel::TellDisconnected);
        lemma_orderly_push(c1, payload, CommandModel::SendClose);
        lemma_orderly_push(c2, payload, CommandModel::Finish);
        assert(commands + more =~= c2.push(CommandModel::Finish));
    } else {
        lemma_open_commands(config, state, input, value);
        if more.len() == 0 {
            assert(commands + more =~= commands);
        } else {
            lemma_orderly_push(commands, payload, more[0]);
            assert(commands + more =~= commands.push(more[0]));
        }
    }
}

/// Over a whole run, connections and disconnections are told in turn, beginning with a
/// connection; on each connection the subscription is the first frame; and values are
/// told, and texts and pongs sent, only while the session is told to be connected.
pub proof fn law_run_is_orderly(
    config: SessionConfig,
    inputs: Seq<Input>,
    values: Seq<Option<JsonModel>>,
)
    requires
        inputs.len() == values.len(),
        stage_of(inputs) is Some,
    ensures
        ({
            let (state, commands) = run_of(config, inputs, values);
            on_course(stage_of(inputs)->0, state, commands, config.subscription_payload@)
        }),
    decreases inputs.len(),
{
    if inputs.len() > 0 {
        law_run_is_orderly(config, inputs.drop_last(), values.drop_last());
        let (state, commands) = run_of(config, inputs.drop_last(), values.drop_last());
        lemma_on_course(
            config,
            stage_of(inputs.drop_last())->0,
            state,
            commands,
            inputs.last(),
            values.last(),
        );
    }
}

} // verus!
