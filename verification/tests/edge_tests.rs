use ws_session::config::{build_subscription_payload, AppAssetConfig, AppConfig};
use ws_session::http::{build_orderbook_html_page, request_path, Dashboard, Notice};
use ws_session::json::Json;
use ws_session::observer::{AssetConfig, ObserverConfig, OrderbookObserver};
use ws_session::replay::{capture_line, records, replay_record, Replayed};
use ws_session::text::{align_right, is_white, next_line, number_text, trim};
use ws_session::{OrderbookLike, SessionConfig, SkipOrderbook};

fn assets(ids: &[&str]) -> Vec<AppAssetConfig> {
    ids.iter()
        .map(|id| AppAssetConfig { id: id.to_string(), label: "label".to_string() })
        .collect()
}

#[test]
fn subscription_payload_lists_the_ids() {
    assert_eq!(build_subscription_payload(&[]), r#"{"assets_ids":[],"type":"market"}"#);
    assert_eq!(
        build_subscription_payload(&assets(&["1"])),
        r#"{"assets_ids":["1"],"type":"market"}"#
    );
    assert_eq!(
        build_subscription_payload(&assets(&["1", "2", "1"])),
        r#"{"assets_ids":["1","2","1"],"type":"market"}"#
    );
}

#[test]
fn subscription_payload_escapes_the_ids() {
    let ids = ["a\"b\\c", "\u{8}\t\n\u{c}\r\u{1}\u{1f}\u{7f}", "\u{e9}\u{1F600}/"];
    let payload = build_subscription_payload(&assets(&ids));
    assert_eq!(
        payload,
        "{\"assets_ids\":[\"a\\\"b\\\\c\",\"\\b\\t\\n\\f\\r\\u0001\\u001f\u{7f}\",\"\u{e9}\u{1F600}/\"],\"type\":\"market\"}"
    );
    let read = Json::parse(&payload).unwrap();
    let listed: Vec<&str> =
        read.items_at("assets_ids").unwrap().iter().map(|id| id.as_str().unwrap()).collect();
    assert_eq!(listed, ids);
}

#[test]
fn configuration_is_plain_data() {
    let config = AppConfig { url: "u".to_string(), assets: assets(&["1"]), cpu: None };
    assert_eq!(config.assets[0].label, "label");
    assert_eq!(config.cpu, None);
    let session = SessionConfig::for_app(&config);
    assert_eq!(session.url, "u");
    assert_eq!(session.subscription_payload, r#"{"assets_ids":["1"],"type":"market"}"#);
    assert_eq!(session.max_backoff_secs, 16);
    let observed = ObserverConfig::for_app(config, true);
    assert!(observed.verbose);
    assert_eq!(observed.assets.len(), 1);
    assert_eq!(observed.assets[0].id, "1");
    assert_eq!(observed.assets[0].label, "label");
}

#[test]
fn json_values_are_read() {
    let value = Json::parse(r#" {"b": [1, 2.5, "x"], "a": null, "t": "v", "b2": {"c": true}} "#);
    let value = value.unwrap();
    assert_eq!(value.text_at("t"), Some("v"));
    assert_eq!(value.text_at("a"), None);
    assert_eq!(value.text_at("missing"), None);
    assert_eq!(value.get("a"), Some(&Json::Null));
    assert_eq!(value.get("b2").unwrap().get("c"), Some(&Json::Bool(true)));
    let items = value.items_at("b").unwrap();
    assert_eq!(items[0], Json::Number("1".to_string()));
    assert_eq!(items[1], Json::Number("2.5".to_string()));
    assert_eq!(items[2].as_str(), Some("x"));
    assert_eq!(items[2].get("x"), None);
    assert!(value.as_array().is_none());
    assert!(value.items_at("t").is_none());
    assert_eq!(value.clone(), value);
    assert_eq!(Json::Null.into_items(), Err(Json::Null));
    assert_eq!(Json::Array(vec![Json::Null]).into_items(), Ok(vec![Json::Null]));
}

#[test]
fn text_that_is_no_json_is_refused() {
    for text in ["", "nul", "{", "[1,]", "{} {}", "'a'", "{\"a\":}", "not-json", "+1", "\u{a0}1"] {
        assert!(Json::parse(text).is_err());
    }
    assert_eq!(
        Json::parse("not-json"),
        Err("expected ident at line 1 column 2".to_string()),
    );
    for text in [" \t\r\n1", "true", "false", "null", "-1", "\"\"", "[]", "{}"] {
        assert!(Json::parse(text).is_ok());
    }
}

#[test]
fn json_values_are_printed_without_white_space() {
    let text = r#"{"a":[],"b":[null,true,false,18446744073709551615,{}],"c":"q\"\\\n"}"#;
    let value = Json::parse(&format!(" {text} ")).unwrap();
    assert_eq!(value.to_text(), text);
    assert_eq!(Json::parse(&value.to_text()), Ok(value));
    assert_eq!(Json::Number("-0.5".to_string()).to_text(), "-0.5");
    // Names come back in order.
    let value = Json::parse(r#"{"b":1,"a":2}"#).unwrap();
    assert_eq!(value.to_text(), r#"{"a":2,"b":1}"#);
}

#[test]
fn nesting_is_limited() {
    let nested = |depth: usize| format!("{}{}", "[".repeat(depth), "]".repeat(depth));
    assert!(Json::parse(&nested(127)).is_ok());
    assert_eq!(
        Json::parse(&nested(128)),
        Err("recursion limit exceeded at line 1 column 128".to_string()),
    );
}

#[test]
fn the_last_of_equal_names_counts() {
    let value = Json::parse(r#"{"a": "1", "a": "2"}"#).unwrap();
    assert_eq!(value.text_at("a"), Some("2"));
    // A value that was put together is read from the front.
    let twice = Json::Object(vec![
        ("a".to_string(), Json::Text("1".to_string())),
        ("a".to_string(), Json::Text("2".to_string())),
    ]);
    assert_eq!(twice.text_at("a"), Some("1"));
}

#[test]
fn request_paths() {
    assert_eq!(request_path("GET /api/books HTTP/1.1\r\nHost: x\r\n\r\n"), "/api/books");
    assert_eq!(request_path("GET   \t/x"), "/x");
    assert_eq!(request_path("  GET /y z"), "/y");
    assert_eq!(request_path("GET"), "/");
    assert_eq!(request_path(""), "/");
    assert_eq!(request_path("\nGET /x"), "/");
    assert_eq!(request_path("GET \u{e9}\u{3000}b"), "\u{e9}");
}

#[test]
fn dashboard_answers() {
    let mut dashboard = Dashboard::new();
    let request = b"GET /api/books HTTP/1.1\r\n\r\n";
    assert_eq!(
        dashboard.on_request(request).unwrap(),
        "HTTP/1.1 200 OK\r\nContent-Type: application/json; charset=utf-8\r\nContent-Length: 13\r\nConnection: close\r\n\r\n{\"assets\":[]}"
    );
    assert!(dashboard.on_notice(Notice::Snapshot(Some("{\"l\":\"\u{e9}\"}".to_string()))));
    assert!(dashboard.on_notice(Notice::Lagged));
    // The length counts bytes.
    assert_eq!(
        dashboard.on_request(request).unwrap(),
        "HTTP/1.1 200 OK\r\nContent-Type: application/json; charset=utf-8\r\nContent-Length: 10\r\nConnection: close\r\n\r\n{\"l\":\"\u{e9}\"}"
    );
    assert!(!dashboard.on_notice(Notice::Closed));
    assert!(dashboard.on_notice(Notice::Snapshot(None)));
    assert!(dashboard.on_request(request).unwrap().ends_with("\r\n\r\n{\"assets\":[]}"));
    assert_eq!(dashboard.on_request(b""), None);
}

#[test]
fn every_other_path_is_the_page() {
    let dashboard = Dashboard::new();
    let page = build_orderbook_html_page();
    assert!(page.starts_with("<!DOCTYPE html>\n<html lang=\"en\">"));
    assert!(page.ends_with("</html>\n"));
    let head = format!(
        "HTTP/1.1 200 OK\r\nContent-Type: text/html; charset=utf-8\r\nContent-Length: {}\r\nConnection: close\r\n\r\n",
        page.len()
    );
    for request in ["GET / HTTP/1.1", "GET /api/books/ HTTP/1.1", "x"] {
        let response = dashboard.on_request(request.as_bytes()).unwrap();
        assert!(response.starts_with(&head));
        assert!(response.ends_with(&page));
        assert_eq!(response.len(), head.len() + page.len());
    }
}

#[test]
fn requests_need_not_be_text() {
    let dashboard = Dashboard::new();
    let response = dashboard.on_request(b"GET /api/books\xff HTTP/1.1").unwrap();
    assert!(response.contains("text/html"));
    let response = dashboard.on_request(b"\xff\xfe /api/books \xc3").unwrap();
    assert!(response.contains("application/json"));
}

#[test]
fn records_are_the_lines_that_are_not_blank() {
    assert_eq!(records("{}\r\n\n  [1] \n\u{a0}\n\"x\""), vec!["{}", "[1]", "\"x\""]);
    assert_eq!(records(""), Vec::<&str>::new());
    assert_eq!(records("\n"), Vec::<&str>::new());
    assert_eq!(records("a"), vec!["a"]);
    assert_eq!(records("a\rb\n"), vec!["a\rb"]);
}

/// The names come in the order of their characters, whatever order the text has.
#[test]
fn values_that_are_read_are_read_back() {
    let value = Json::parse("{\"\u{1f600}\":-1,\"\u{ffff}\":[{\"b\":0,\"a\":7}],\"Z\":\"x\\ny\"}").unwrap();
    let line = capture_line(&value);
    assert_eq!(line, "{\"Z\":\"x\\ny\",\"\u{ffff}\":[{\"a\":7,\"b\":0}],\"\u{1f600}\":-1}\n");
    assert_eq!(Json::parse(records(&line)[0]), Ok(value));
}

#[test]
fn what_was_captured_is_replayed() {
    let values = ["{\"a\":\"b\\n\"}", "[1,-9223372036854775808,2.5,1e+300]", "null"];
    let read: Vec<Json> = values.iter().map(|value| Json::parse(value).unwrap()).collect();
    let captured: String = read.iter().map(capture_line).collect();
    assert_eq!(captured, "{\"a\":\"b\\n\"}\n[1,-9223372036854775808,2.5,1e+300]\nnull\n");
    assert_eq!(records(&captured), values);
    let again: Vec<Json> =
        records(&captured).iter().map(|record| Json::parse(record).unwrap()).collect();
    assert_eq!(again, read);
}

#[test]
fn records_are_fed_to_the_observer() {
    let mut observer = OrderbookObserver::<SkipOrderbook>::new(ObserverConfig {
        assets: vec![AssetConfig { id: "1".to_string(), label: "one".to_string() }],
        verbose: false,
    });
    match replay_record(&mut observer, "{oops") {
        Replayed::Unreadable(reason) => {
            assert_eq!(reason, "key must be a string at line 1 column 2");
        }
        _ => panic!("the record is no value"),
    }
    let book = r#"{"event_type":"book","asset_id":"1","bids":[{"price":"0.5","size":"1"}],"asks":[]}"#;
    match replay_record(&mut observer, book) {
        Replayed::Handled(published) => assert_eq!(published.len(), 1),
        _ => panic!("the record is a snapshot"),
    }
    assert_eq!(observer.books().get("1").unwrap().bids().count(), 1);
    let largest = "79228162514264337593543950335";
    let change = format!(
        r#"{{"event_type":"price_change","price_changes":[{{"asset_id":"1","price":"0.4","size":"{largest}","side":"BUY"}}]}}"#
    );
    assert!(matches!(replay_record(&mut observer, &change), Replayed::Interrupted(told) if told.is_empty()));
}

#[test]
fn text_is_trimmed_and_aligned() {
    assert_eq!(trim("  a b \t\n"), "a b");
    assert_eq!(trim("\u{2003}\u{85}"), "");
    assert_eq!(trim("\u{200b}a"), "\u{200b}a");
    assert_eq!(align_right("ab", 5), "   ab");
    assert_eq!(align_right("\u{e9}", 2), " \u{e9}");
    assert_eq!(align_right("abc", 2), "abc");
    assert_eq!(next_line("a\nb\nc"), ("a", Some("b\nc")));
    assert_eq!(next_line("a"), ("a", None));
    assert_eq!(next_line("\n"), ("", Some("")));
    for n in [0, 7, 10, 99, 100, 65536, usize::MAX] {
        assert_eq!(number_text(n), n.to_string());
    }
}

#[test]
fn white_space_is_that_of_unicode() {
    for code in 0..=0x10ffff_u32 {
        if let Some(c) = char::from_u32(code) {
            assert_eq!(is_white(c), c.is_whitespace());
        }
    }
}
