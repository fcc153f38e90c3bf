use ws_session::json::Json;
use ws_session::session::{backoff_secs, Command, Input, SessionDriver};
use ws_session::state::{Backoff, ConnectionPhase};
use ws_session::SessionConfig;

fn config() -> SessionConfig {
    SessionConfig {
        url: "wss://example".to_string(),
        subscription_payload: "subscribe".to_string(),
        max_backoff_secs: 16,
    }
}

fn text(s: &str) -> Input {
    Input::Text(s.to_string())
}

fn connected() -> SessionDriver {
    let mut driver = SessionDriver::new(config());
    driver.react(Input::Started);
    driver.react(Input::Connected);
    driver
}

#[test]
fn default_configuration() {
    let config = SessionConfig::polymarket_default();
    assert_eq!(config.url, "wss://ws-subscriptions-clob.polymarket.com/ws/market");
    assert_eq!(config.max_backoff_secs, 16);
    let payload = Json::parse(&config.subscription_payload).unwrap();
    assert_eq!(payload.text_at("type"), Some("market"));
    assert_eq!(payload.items_at("assets_ids").unwrap().len(), 2);
    assert!(config.subscription_payload.starts_with("{\n  \"assets_ids\": [\n    \"11249"));
}

#[test]
fn waits_double_up_to_the_longest() {
    let waits: Vec<u64> = (1..=7).map(|attempt| backoff_secs(attempt, 16)).collect();
    assert_eq!(waits, vec![1, 2, 4, 8, 16, 16, 16]);
    assert_eq!(backoff_secs(1, 0), 0);
    assert_eq!(backoff_secs(64, u64::MAX), 1 << 63);
    assert_eq!(backoff_secs(64, 16), 16);
}

#[test]
fn a_session_connects_and_subscribes() {
    let mut driver = SessionDriver::new(config());
    assert_eq!(driver.react(Input::Started), vec![Command::Connect]);
    assert_eq!(
        driver.react(Input::Connected),
        vec![Command::TellConnected, Command::SendText("subscribe".to_string())]
    );
    assert_eq!(driver.state.phase, ConnectionPhase::Subscribing);
}

#[test]
fn frames_are_dealt_with() {
    let mut driver = connected();
    assert_eq!(driver.react(Input::Ping), vec![Command::SendPong]);
    assert_eq!(driver.react(Input::OtherFrame), vec![]);
    assert_eq!(driver.react(Input::PingDue), vec![Command::SendText("PING".to_string())]);
    assert_eq!(driver.react(text("PING")), vec![Command::SendText("PONG".to_string())]);
    assert_eq!(driver.react(text("PONG")), vec![]);
    assert_eq!(driver.state.phase, ConnectionPhase::Subscribing);
    assert_eq!(driver.react(text("[]")), vec![Command::TellJson(Json::Array(vec![]))]);
    assert_eq!(driver.state.phase, ConnectionPhase::Running);
}

#[test]
fn a_lost_connection_is_opened_again() {
    for input in [Input::Closed, Input::Ended, Input::Failed] {
        let mut driver = connected();
        assert_eq!(
            driver.react(input.clone()),
            vec![Command::TellDisconnected, Command::Sleep { secs: 1 }, Command::Connect]
        );
        assert_eq!(driver.state.phase, ConnectionPhase::Connecting);
        assert_eq!(
            driver.react(Input::Connected),
            vec![Command::TellConnected, Command::SendText("subscribe".to_string())]
        );
        // The attempts are not forgotten by a connection that opens.
        assert_eq!(
            driver.react(input),
            vec![Command::TellDisconnected, Command::Sleep { secs: 2 }, Command::Connect]
        );
        assert_eq!(driver.state.backoff, Some(Backoff { attempt: 2 }));
    }
}

#[test]
fn a_connection_that_ends_before_it_opened_is_tried_again_at_once() {
    let mut driver = SessionDriver::new(config());
    driver.react(Input::Started);
    assert_eq!(driver.react(Input::Ended), vec![Command::Connect]);
    assert_eq!(driver.state.phase, ConnectionPhase::Connecting);
}

#[test]
fn a_shutdown_ends_the_session() {
    let mut driver = connected();
    assert_eq!(
        driver.react(Input::ShutdownRequested),
        vec![Command::TellDisconnected, Command::SendClose, Command::Finish]
    );
    assert_eq!(driver.state.phase, ConnectionPhase::Disconnected);
    assert_eq!(driver.state.backoff, None);
}

#[test]
fn the_sixty_fifth_attempt_has_no_wait() {
    let mut driver = connected();
    driver.state.backoff = Some(Backoff { attempt: 63 });
    assert!(driver.can_react(&Input::Closed));
    driver.state.backoff = Some(Backoff { attempt: 64 });
    assert!(!driver.can_react(&Input::Closed));
    assert!(!driver.can_react(&Input::Failed));
    assert!(driver.can_react(&Input::Ping));
    driver.state.phase = ConnectionPhase::Connecting;
    assert!(driver.can_react(&Input::Closed));
}

#[test]
fn what_was_read_is_told() {
    let mut driver = connected();
    assert_eq!(
        driver.react_read(text("..."), Some(Json::Bool(true))),
        vec![Command::TellJson(Json::Bool(true))]
    );
    assert_eq!(driver.react_read(text("..."), None), vec![]);
}

#[test]
fn a_run_tells_connections_in_turn() {
    let mut driver = SessionDriver::new(config());
    let inputs = vec![
        Input::Started,
        Input::Connected,
        text("[1]"),
        Input::Closed,
        Input::Connected,
        Input::PingDue,
        Input::Failed,
        Input::Connected,
        Input::ShutdownRequested,
    ];
    let commands: Vec<Command> =
        inputs.into_iter().flat_map(|input| driver.react(input)).collect();
    let mut connected = false;
    let mut connections = 0;
    for (i, command) in commands.iter().enumerate() {
        match command {
            Command::TellConnected => {
                assert!(!connected);
                assert_eq!(commands[i - 1], Command::Connect);
                assert_eq!(commands[i + 1], Command::SendText("subscribe".to_string()));
                connected = true;
                connections += 1;
            }
            Command::TellDisconnected => {
                assert!(connected);
                connected = false;
            }
            Command::TellJson(_) | Command::SendText(_) | Command::SendPong => assert!(connected),
            _ => {}
        }
    }
    assert_eq!(connections, 3);
    assert!(!connected);
    assert_eq!(commands.last(), Some(&Command::Finish));
}
