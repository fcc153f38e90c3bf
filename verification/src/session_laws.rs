//! What a session does about each event and each input, said of the event itself.

use crate::json::{parsed_json, said, Json, JsonModel};
use crate::session::{
    all_performed, backoff_secs, commands_of, input_event, input_json, reaction, wait_secs, Command,
    CommandModel, Input, SessionConfig, SessionDriver,
};
use crate::state::{
    effects_of, event_json, handle_event, handle_read_event, heartbeat_reply, read_event, step,
    ConnectionPhase, Effect, EffectModel, Event, SessionState,
};
use crate::text_laws::{lemma_trimmed, padded, tight};
use vstd::arithmetic::power2::pow2;
use vstd::prelude::*;

verus! {

// ---------------------------------------------------------------------------
// The state machine
// ---------------------------------------------------------------------------

/// A connection is open.
pub open spec fn connected(phase: ConnectionPhase) -> bool {
    phase == ConnectionPhase::Subscribing || phase == ConnectionPhase::Running
}

/// How many attempts to connect again there will have been after the next one.
pub open spec fn attempts_after(state: SessionState) -> int {
    if state.backoff is Some {
        state.backoff->0.attempt + 1
    } else {
        1
    }
}

/// The text is a heartbeat that is answered in capitals.
pub open spec fn heartbeat_in_capitals(text: Seq<char>) -> bool {
    padded(text, seq!['P', 'I', 'N', 'G'])
}

/// The text is a heartbeat that is answered in small letters.
pub open spec fn heartbeat_in_small(text: Seq<char>) -> bool {
    padded(text, seq!['p', 'i', 'n', 'g'])
}

/// Nothing is done, and the state stays.
pub open spec fn idles(
    before: SessionState,
    after: SessionState,
    effects: Seq<Effect>,
) -> bool {
    effects.len() == 0 && after.phase == before.phase && after.backoff == before.backoff
}

/// What an event leads to when its text, if it has one, is read as `value`.
pub open spec fn moves_on(
    before: SessionState,
    event: Event,
    value: Option<JsonModel>,
    after: SessionState,
    effects: Seq<Effect>,
) -> bool {
    let kept = after.backoff == before.backoff;
    match event {
        // A stop is told, whatever the phase, and everything is forgotten.
        Event::Stop => effects.len() == 1 && effects[0] is NotifyDisconnected && after.phase
            == ConnectionPhase::Disconnected && after.backoff is None,
        Event::Start => if before.phase == ConnectionPhase::Disconnected {
            effects.len() == 1 && effects[0] is Connect && after.phase
                == ConnectionPhase::Connecting && kept
        } else {
            idles(before, after, effects)
        },
        Event::WsOpen => if before.phase == ConnectionPhase::Connecting {
            effects.len() == 1 && effects[0] is NotifyConnected && after.phase
                == ConnectionPhase::Subscribing && kept
        } else {
            idles(before, after, effects)
        },
        // The loss of an open connection is told, counted and followed by a wait.
        Event::WsClosed | Event::WsError => if connected(before.phase) {
            effects.len() == 2 && effects[0] is NotifyDisconnected && effects[1] is ScheduleBackoff
                && effects[1]->attempt == attempts_after(before) && after.phase
                == ConnectionPhase::Reconnecting && after.backoff is Some
                && after.backoff->0.attempt == attempts_after(before)
        } else {
            idles(before, after, effects)
        },
        Event::BackoffElapsed => if before.phase == ConnectionPhase::Reconnecting {
            effects.len() == 1 && effects[0] is Connect && after.phase
                == ConnectionPhase::Connecting && kept
        } else {
            idles(before, after, effects)
        },
        Event::IncomingText(text) => if !connected(before.phase) {
            idles(before, after, effects)
        } else if heartbeat_in_capitals(text@) {
            effects.len() == 1 && effects[0] is SendText && effects[0]->SendText_0@ == seq![
                'P',
                'O',
                'N',
                'G',
            ] && after.phase == before.phase && kept
        } else if heartbeat_in_small(text@) {
            effects.len() == 1 && effects[0] is SendText && effects[0]->SendText_0@ == seq![
                'p',
                'o',
                'n',
                'g',
            ] && after.phase == before.phase && kept
        } else if value is Some {
            effects.len() == 1 && effects[0] is ForwardJson && effects[0]->ForwardJson_0@
                == value->0 && after.phase == ConnectionPhase::Running && kept
        } else {
            effects.len() == 1 && effects[0] is Ignore && after.phase == before.phase && kept
        },
    }
}

/// The value that a text is, if it is one.
pub open spec fn value_of(text: Seq<char>) -> Option<JsonModel> {
    match parsed_json(text) {
        Ok(value) => Some(value),
        Err(_) => None,
    }
}

/// The value that the text of an event is.
pub open spec fn value_in(event: Event) -> Option<JsonModel> {
    match event {
        Event::IncomingText(text) => value_of(text@),
        _ => None,
    }
}

pub proof fn lemma_heartbeats(text: Seq<char>)
    ensures
        heartbeat_reply(text) == (if heartbeat_in_capitals(text) {
            Some(seq!['P', 'O', 'N', 'G'])
        } else if heartbeat_in_small(text) {
            Some(seq!['p', 'o', 'n', 'g'])
        } else {
            None
        }),
{
    reveal_strlit("PING");
    reveal_strlit("ping");
    reveal_strlit("PONG");
    reveal_strlit("pong");
    let big = seq!['P', 'I', 'N', 'G'];
    let small = seq!['p', 'i', 'n', 'g'];
    assert("PING"@ =~= big);
    assert("ping"@ =~= small);
    assert("PONG"@ =~= seq!['P', 'O', 'N', 'G']);
    assert("pong"@ =~= seq!['p', 'o', 'n', 'g']);
    assert(tight(big) && tight(small));
    lemma_trimmed(text, big);
    lemma_trimmed(text, small);
}

proof fn lemma_moves_on(
    before: SessionState,
    event: Event,
    value: Option<JsonModel>,
    after: SessionState,
    effects: Seq<Effect>,
)
    requires
        (after, effects_of(effects)) == step(before, event@, value),
        connected(before.phase) && (event is WsClosed || event is WsError) ==> attempts_after(
            before,
        ) <= u32::MAX,
    ensures
        moves_on(before, event, value, after, effects),
{
    let models = effects_of(effects);
    assert(models == step(before, event@, value).1);
    assert(models.len() == effects.len());
    assert(forall|i: int| 0 <= i < effects.len() ==> #[trigger] models[i] == effects[i]@);
    if effects.len() > 0 {
        assert(models[0] == effects[0]@);
    }
    if effects.len() > 1 {
        assert(models[1] == effects[1]@);
    }
    if let Event::IncomingText(text) = event {
        lemma_heartbeats(text@);
    }
}

/// `handle_event` moves the state on by the event and the value that its text is.
pub proof fn law_handle_event(state: &mut SessionState, event: Event, effects: Vec<Effect>)
    requires
        connected(old(state).phase) && (event is WsClosed || event is WsError) ==> attempts_after(
            *old(state),
        ) <= u32::MAX,
        call_ensures(handle_event, (state, event), effects),
    ensures
        moves_on(*old(state), event, value_in(event), *final(state), effects@),
{
    assert(event_json(event@) == value_in(event));
    lemma_moves_on(*old(state), event, value_in(event), *final(state), effects@);
}

/// `handle_read_event` moves the state on by the event and the value that it is given.
pub proof fn law_handle_read_event(
    state: &mut SessionState,
    event: Event,
    value: Option<Json>,
    effects: Vec<Effect>,
)
    requires
        connected(old(state).phase) && (event is WsClosed || event is WsError) ==> attempts_after(
            *old(state),
        ) <= u32::MAX,
        call_ensures(handle_read_event, (state, event, value), effects),
    ensures
        moves_on(
            *old(state),
            event,
            if value is Some {
                Some(value->0@)
            } else {
                None
            },
            *final(state),
            effects@,
        ),
{
    lemma_moves_on(*old(state), event, said(value), *final(state), effects@);
}

/// The text of an event is read where a connection is open and it is no heartbeat, and is
/// then the value that it is; nothing else is read.
pub proof fn law_read_event(state: &SessionState, event: &Event, r: Option<Json>)
    requires
        call_ensures(read_event, (state, event), r),
    ensures
        ({
            let asked = connected(state.phase) && *event is IncomingText && !heartbeat_in_capitals(
                event->IncomingText_0@,
            ) && !heartbeat_in_small(event->IncomingText_0@);
            &&& !asked ==> r is None
            &&& asked ==> (r is Some <==> value_of(event->IncomingText_0@) is Some)
            &&& asked && r is Some ==> r->0@ == value_of(event->IncomingText_0@)->0
        }),
{
    if *event is IncomingText {
        lemma_heartbeats(event->IncomingText_0@);
    }
}

/// A new session is disconnected, and has not tried to connect again.
pub proof fn law_new_session(state: SessionState)
    requires
        call_ensures(SessionState::new, (), state),
    ensures
        state.phase == ConnectionPhase::Disconnected,
        state.backoff is None,
{
}

// ---------------------------------------------------------------------------
// The waits
// ---------------------------------------------------------------------------

/// The first wait is one second and each next one twice as long, but none is longer than
/// the longest.
pub proof fn law_waits_double(
    attempt: u32,
    max_secs: u64,
    secs: u64,
    next: u64,
    first: u64,
)
    requires
        1 <= attempt < 64,
        call_ensures(backoff_secs, (attempt, max_secs), secs),
        call_ensures(backoff_secs, ((attempt + 1) as u32, max_secs), next),
        call_ensures(backoff_secs, (1u32, max_secs), first),
    ensures
        first == (if max_secs < 1 {
            max_secs as int
        } else {
            1
        }),
        next == (if 2 * secs < max_secs {
            2 * secs
        } else {
            max_secs as int
        }),
{
    vstd::arithmetic::power2::lemma2_to64();
    vstd::arithmetic::power2::lemma_pow2_unfold(attempt as nat);
    assert(pow2(attempt as nat) == 2 * pow2((attempt - 1) as nat));
}

// ---------------------------------------------------------------------------
// The driver
// ---------------------------------------------------------------------------

/// The phase and the count stay.
pub open spec fn same_state(before: SessionState, after: SessionState) -> bool {
    after.phase == before.phase && after.backoff == before.backoff
}

/// The wait before an attempt: a second, doubled with every attempt before it, or the
/// longest wait.
pub open spec fn waits(attempt: int, max_secs: int, secs: int) -> bool {
    let doubled = pow2((attempt - 1) as nat);
    &&& doubled < max_secs ==> secs == doubled
    &&& doubled >= max_secs ==> secs == max_secs
}

/// What is done about an input whose text, if it has one, is read as `value`.
pub open spec fn reacts(
    config: SessionConfig,
    before: SessionState,
    input: Input,
    value: Option<JsonModel>,
    after: SessionState,
    commands: Seq<Command>,
) -> bool {
    let n = commands.len();
    match input {
        // A connection is asked for in any case.
        Input::Started => {
            &&& n == 1 && commands[0] is Connect
            &&& before.phase == ConnectionPhase::Disconnected ==> after.phase
                == ConnectionPhase::Connecting && after.backoff == before.backoff
            &&& before.phase != ConnectionPhase::Disconnected ==> same_state(before, after)
        },
        // The subscription is the last thing that is done about a new connection.
        Input::Connected => {
            &&& n > 0 && commands[n - 1] is SendText && commands[n - 1]->SendText_0@
                == config.subscription_payload@
            &&& before.phase == ConnectionPhase::Connecting ==> n == 2
                && commands[0] is TellConnected && after.phase == ConnectionPhase::Subscribing
                && after.backoff == before.backoff
            &&& before.phase != ConnectionPhase::Connecting ==> n == 1 && same_state(before, after)
        },
        // The loss of an open connection is told, and another is asked for after a wait.
        Input::Closed | Input::Failed | Input::Ended => {
            &&& n > 0 && commands[n - 1] is Connect
            &&& connected(before.phase) ==> n == 3 && commands[0] is TellDisconnected
                && commands[1] is Sleep && waits(
                attempts_after(before),
                config.max_backoff_secs as int,
                commands[1]->secs as int,
            ) && after.phase == ConnectionPhase::Connecting && after.backoff is Some
                && after.backoff->0.attempt == attempts_after(before)
            &&& !connected(before.phase) ==> n == 1 && same_state(before, after)
        },
        Input::ShutdownRequested => n == 3 && commands[0] is TellDisconnected
            && commands[1] is SendClose && commands[2] is Finish && after.phase
            == ConnectionPhase::Disconnected && after.backoff is None,
        Input::Ping => n == 1 && commands[0] is SendPong && same_state(before, after),
        Input::PingDue => n == 1 && commands[0] is SendText && commands[0]->SendText_0@ == seq![
            'P',
            'I',
            'N',
            'G',
        ] && same_state(before, after),
        Input::OtherFrame => n == 0 && same_state(before, after),
        Input::Text(text) => if !connected(before.phase) {
            n == 0 && same_state(before, after)
        } else if heartbeat_in_capitals(text@) {
            n == 1 && commands[0] is SendText && commands[0]->SendText_0@ == seq![
                'P',
                'O',
                'N',
                'G',
            ] && same_state(before, after)
        } else if heartbeat_in_small(text@) {
            n == 1 && commands[0] is SendText && commands[0]->SendText_0@ == seq![
                'p',
                'o',
                'n',
                'g',
            ] && same_state(before, after)
        } else if value is Some {
            n == 1 && commands[0] is TellJson && commands[0]->TellJson_0@ == value->0
                && after.phase == ConnectionPhase::Running && after.backoff == before.backoff
        } else {
            n == 0 && same_state(before, after)
        },
    }
}

proof fn lemma_reacts(
    config: SessionConfig,
    before: SessionState,
    input: Input,
    value: Option<JsonModel>,
    after: SessionState,
    commands: Seq<Command>,
)
    requires
        (after, commands_of(commands)) == reaction(config, before, input, value),
        connected(before.phase) && (input is Closed || input is Failed || input is Ended)
            ==> attempts_after(before) <= 64,
    ensures
        reacts(config, before, input, value, after, commands),
{
    let models = commands_of(commands);
    let max = config.max_backoff_secs as nat;
    reveal_with_fuel(all_performed, 3);
    reveal_strlit("PING");
    assert("PING"@ =~= seq!['P', 'I', 'N', 'G']);
    assert(models == reaction(config, before, input, value).1);
    assert(models.len() == commands.len());
    assert(forall|i: int| 0 <= i < commands.len() ==> #[trigger] models[i] == commands[i]@);
    if let Input::Text(text) = input {
        lemma_heartbeats(text@);
    }
    if connected(before.phase) && (input is Closed || input is Failed || input is Ended) {
        let effects = step(before, input_event(input)->0, value).1;
        assert(effects.drop_last() =~= seq![EffectModel::NotifyDisconnected]);
        assert(effects.drop_last().drop_last() =~= seq![]);
        assert(models =~= seq![
            CommandModel::TellDisconnected,
            CommandModel::Sleep { secs: wait_secs(attempts_after(before) as nat, max) },
            CommandModel::Connect,
        ]);
        assert(models[1] == commands[1]@);
    }
    if commands.len() > 0 {
        assert(models[0] == commands[0]@);
        assert(models[commands.len() - 1] == commands[commands.len() - 1]@);
    }
    if commands.len() > 1 {
        assert(models[1] == commands[1]@);
    }
}

/// `react` does about an input what is to be done about it and the value that its text is.
pub proof fn law_react(driver: &mut SessionDriver, input: Input, commands: Vec<Command>)
    requires
        connected(old(driver).state.phase) && (input is Closed || input is Failed
            || input is Ended) ==> attempts_after(old(driver).state) <= 64,
        call_ensures(SessionDriver::react, (driver, input), commands),
    ensures
        final(driver).config == old(driver).config,
        reacts(
            old(driver).config,
            old(driver).state,
            input,
            if input is Text {
                value_of(input->Text_0@)
            } else {
                None
            },
            final(driver).state,
            commands@,
        ),
{
    let value = if input is Text {
        value_of(input->Text_0@)
    } else {
        None
    };
    assert(input_json(input) == value);
    lemma_reacts(
        old(driver).config,
        old(driver).state,
        input,
        value,
        final(driver).state,
        commands@,
    );
}

/// `react_read` does about an input what is to be done about it and the value that it is
/// given.
pub proof fn law_react_read(
    driver: &mut SessionDriver,
    input: Input,
    value: Option<Json>,
    commands: Vec<Command>,
)
    requires
        connected(old(driver).state.phase) && (input is Closed || input is Failed
            || input is Ended) ==> attempts_after(old(driver).state) <= 64,
        call_ensures(SessionDriver::react_read, (driver, input, value), commands),
    ensures
        final(driver).config == old(driver).config,
        reacts(
            old(driver).config,
            old(driver).state,
            input,
            if value is Some {
                Some(value->0@)
            } else {
                None
            },
            final(driver).state,
            commands@,
        ),
{
    lemma_reacts(
        old(driver).config,
        old(driver).state,
        input,
        said(value),
        final(driver).state,
        commands@,
    );
}

/// `can_react` denies exactly the loss of an open connection after which the attempt would
/// be one too many to wait for.
pub proof fn law_can_react(driver: &SessionDriver, input: &Input, r: bool)
    requires
        call_ensures(SessionDriver::can_react, (driver, input), r),
    ensures
        !r <==> connected(driver.state.phase) && (*input is Closed || *input is Failed
            || *input is Ended) && attempts_after(driver.state) > 64,
{
}

/// A new driver keeps its configuration, and its session is a new one.
pub proof fn law_new_driver(config: SessionConfig, driver: SessionDriver, state: SessionState)
    requires
        call_ensures(SessionDriver::new, (config,), driver),
        call_ensures(SessionState::new, (), state),
    ensures
        driver.config == config,
        same_state(driver.state, state),
{
}

} // verus!
