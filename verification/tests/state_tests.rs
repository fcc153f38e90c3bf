use ws_session::json::Json;
use ws_session::state::{
    handle_event, handle_read_event, read_event, Backoff, ConnectionPhase, Effect, Event,
    SessionState,
};

#[test]
fn start_from_disconnected_connects() {
    let mut state = SessionState::new();
    assert_eq!(state.phase, ConnectionPhase::Disconnected);

    let effects = handle_event(&mut state, Event::Start);

    assert_eq!(state.phase, ConnectionPhase::Connecting);
    assert!(effects.contains(&Effect::Connect));
}

#[test]
fn open_moves_to_subscribing_and_notifies() {
    let mut state = SessionState::new();
    let _ = handle_event(&mut state, Event::Start);
    assert_eq!(state.phase, ConnectionPhase::Connecting);

    let effects = handle_event(&mut state, Event::WsOpen);

    assert_eq!(state.phase, ConnectionPhase::Subscribing);
    assert!(effects.contains(&Effect::NotifyConnected));
}

#[test]
fn json_message_is_forwarded_and_enters_running() {
    let mut state = SessionState { phase: ConnectionPhase::Subscribing, backoff: None };

    let effects = handle_event(
        &mut state,
        Event::IncomingText(r#"{"event_type":"book"}"#.to_string()),
    );

    assert_eq!(state.phase, ConnectionPhase::Running);

    let has_forward = effects.iter().any(|e| matches!(e, Effect::ForwardJson(_)));
    assert!(has_forward);
}

#[test]
fn error_triggers_reconnect_with_backoff() {
    let mut state = SessionState { phase: ConnectionPhase::Running, backoff: None };

    let effects = handle_event(&mut state, Event::WsError);

    assert_eq!(state.phase, ConnectionPhase::Reconnecting);
    assert!(effects.iter().any(|e| matches!(e, Effect::NotifyDisconnected)));
    let backoff_effect = effects.iter().find_map(|e| {
        if let Effect::ScheduleBackoff { attempt } = e {
            Some(*attempt)
        } else {
            None
        }
    });
    assert_eq!(backoff_effect, Some(1));
}

#[test]
fn close_triggers_reconnect_with_backoff() {
    let mut state = SessionState { phase: ConnectionPhase::Running, backoff: None };

    let effects = handle_event(&mut state, Event::WsClosed);

    assert_eq!(state.phase, ConnectionPhase::Reconnecting);
    assert!(effects.iter().any(|e| matches!(e, Effect::NotifyDisconnected)));
    let backoff_effect = effects.iter().find_map(|e| {
        if let Effect::ScheduleBackoff { attempt } = e {
            Some(*attempt)
        } else {
            None
        }
    });
    assert_eq!(backoff_effect, Some(1));
}

#[test]
fn stop_resets_state_and_notifies() {
    let mut state = SessionState {
        phase: ConnectionPhase::Running,
        backoff: Some(Backoff { attempt: 3 }),
    };

    let effects = handle_event(&mut state, Event::Stop);

    assert_eq!(state.phase, ConnectionPhase::Disconnected);
    assert!(state.backoff.is_none());
    assert!(effects.iter().any(|e| matches!(e, Effect::NotifyDisconnected)));
}

#[test]
fn invalid_json_is_ignored_and_phase_unchanged() {
    let mut state = SessionState { phase: ConnectionPhase::Subscribing, backoff: None };

    let effects = handle_event(&mut state, Event::IncomingText("not-json".to_string()));

    assert_eq!(state.phase, ConnectionPhase::Subscribing);
    assert!(effects.iter().any(|e| matches!(e, Effect::Ignore)));
}

#[test]
fn backoff_elapsed_reenters_connecting_and_requests_connect() {
    let mut state = SessionState {
        phase: ConnectionPhase::Reconnecting,
        backoff: Some(Backoff { attempt: 2 }),
    };

    let effects = handle_event(&mut state, Event::BackoffElapsed);

    assert_eq!(state.phase, ConnectionPhase::Connecting);
    assert!(effects.iter().any(|e| matches!(e, Effect::Connect)));
}

fn text(s: &str) -> Event {
    Event::IncomingText(s.to_string())
}

#[test]
fn heartbeats_are_answered_in_kind() {
    for phase in [ConnectionPhase::Subscribing, ConnectionPhase::Running] {
        let mut state = SessionState { phase, backoff: None };
        assert_eq!(
            handle_event(&mut state, text("PING")),
            vec![Effect::SendText("PONG".to_string())]
        );
        assert_eq!(
            handle_event(&mut state, text(" \u{a0}ping\r\n\u{3000}")),
            vec![Effect::SendText("pong".to_string())]
        );
        assert_eq!(state.phase, phase);
        // Anything else is no heartbeat.
        assert_eq!(handle_event(&mut state, text("Ping")), vec![Effect::Ignore]);
        assert_eq!(handle_event(&mut state, text("PONG")), vec![Effect::Ignore]);
        assert_eq!(handle_event(&mut state, text("pi ng")), vec![Effect::Ignore]);
    }
}

#[test]
fn forwarded_value_is_the_one_received() {
    let mut state = SessionState { phase: ConnectionPhase::Running, backoff: None };
    assert_eq!(
        handle_event(&mut state, text(" [null, true, -1.5, \"a\\u0041\", {\"k\": []}] ")),
        vec![Effect::ForwardJson(Json::Array(vec![
            Json::Null,
            Json::Bool(true),
            Json::Number("-1.5".to_string()),
            Json::Text("aA".to_string()),
            Json::Object(vec![("k".to_string(), Json::Array(vec![]))]),
        ]))]
    );
}

#[test]
fn events_out_of_phase_have_no_effect() {
    let mut state = SessionState {
        phase: ConnectionPhase::Connecting,
        backoff: Some(Backoff { attempt: 2 }),
    };
    for event in [
        Event::Start,
        Event::WsClosed,
        Event::WsError,
        Event::BackoffElapsed,
        text("PING"),
        text("{}"),
    ] {
        assert_eq!(handle_event(&mut state, event), vec![]);
        assert_eq!(state.phase, ConnectionPhase::Connecting);
        assert_eq!(state.backoff, Some(Backoff { attempt: 2 }));
    }
}

#[test]
fn failed_phase_is_left_by_stop_alone() {
    let mut state = SessionState { phase: ConnectionPhase::Failed, backoff: None };
    for event in [Event::Start, Event::WsOpen, Event::BackoffElapsed, text("{}")] {
        assert!(handle_event(&mut state, event).is_empty());
        assert_eq!(state.phase, ConnectionPhase::Failed);
    }
    assert_eq!(handle_event(&mut state, Event::Stop), vec![Effect::NotifyDisconnected]);
    assert_eq!(state, SessionState::new());
}

#[test]
fn attempts_count_up_until_a_stop() {
    let mut state = SessionState { phase: ConnectionPhase::Subscribing, backoff: None };
    for attempt in 1..=5u32 {
        assert_eq!(
            handle_event(&mut state, Event::WsClosed),
            vec![Effect::NotifyDisconnected, Effect::ScheduleBackoff { attempt }]
        );
        assert_eq!(handle_event(&mut state, Event::BackoffElapsed), vec![Effect::Connect]);
        assert_eq!(handle_event(&mut state, Event::WsOpen), vec![Effect::NotifyConnected]);
        assert_eq!(state.backoff, Some(Backoff { attempt }));
    }
    handle_event(&mut state, Event::Stop);
    assert_eq!(state.backoff, None);
}

#[test]
fn text_is_read_only_where_it_is_asked_for() {
    let running = SessionState { phase: ConnectionPhase::Running, backoff: None };
    let stopped = SessionState::new();
    assert_eq!(read_event(&running, &text("{}")), Some(Json::Object(vec![])));
    assert_eq!(read_event(&running, &text("{")), None);
    assert_eq!(read_event(&running, &Event::WsOpen), None);
    assert_eq!(read_event(&stopped, &text("{}")), None);
}

#[test]
fn what_was_read_decides() {
    let mut state = SessionState { phase: ConnectionPhase::Subscribing, backoff: None };
    assert_eq!(
        handle_read_event(&mut state, text("whatever"), None),
        vec![Effect::Ignore]
    );
    assert_eq!(state.phase, ConnectionPhase::Subscribing);
    assert_eq!(
        handle_read_event(&mut state, text("whatever"), Some(Json::Null)),
        vec![Effect::ForwardJson(Json::Null)]
    );
    assert_eq!(state.phase, ConnectionPhase::Running);
}
