use ws_session::basic_orderbook::{BasicOrderbook, Level, OrderbookLike, Price, Quantity};
use ws_session::json::Json;
use ws_session::observer::{
    AssetConfig, ObserverConfig, OrderbookObserver, Publication, Report, SessionObserver,
    SessionObserverError,
};
use ws_session::{FastOrderbook, SkipOrderbook};

const YES_ASSET_ID: &str = "YES_ASSET";
const NO_ASSET_ID: &str = "NO_ASSET";

fn p(s: &str) -> Price {
    Price::from_str(s).expect("valid price")
}

fn q(s: &str) -> Quantity {
    Quantity::from_str(s).expect("valid quantity")
}

fn text(s: &str) -> Json {
    Json::Text(s.to_string())
}

fn object(entries: Vec<(&str, Json)>) -> Json {
    Json::Object(entries.into_iter().map(|(name, value)| (name.to_string(), value)).collect())
}

fn level(price: &str, size: &str) -> Json {
    object(vec![("price", text(price)), ("size", text(size))])
}

fn change(asset_id: &str, price: &str, size: &str, side: &str) -> Json {
    object(vec![
        ("asset_id", text(asset_id)),
        ("price", text(price)),
        ("size", text(size)),
        ("side", text(side)),
    ])
}

fn book(asset_id: &str, bids: Vec<Json>, asks: Vec<Json>) -> Json {
    object(vec![
        ("event_type", text("book")),
        ("asset_id", text(asset_id)),
        ("market", text("condition")),
        ("bids", Json::Array(bids)),
        ("asks", Json::Array(asks)),
        ("timestamp", text("1")),
        ("hash", text("0x0")),
    ])
}

fn price_change(changes: Vec<Json>) -> Json {
    object(vec![
        ("event_type", text("price_change")),
        ("market", text("condition")),
        ("price_changes", Json::Array(changes)),
        ("timestamp", text("2")),
    ])
}

fn asset(id: &str, label: &str) -> AssetConfig {
    AssetConfig { id: id.to_string(), label: label.to_string() }
}

fn observer<B: OrderbookLike>(assets: Vec<AssetConfig>, verbose: bool) -> OrderbookObserver<B> {
    OrderbookObserver::<B>::new(ObserverConfig { assets, verbose })
}

fn handled<B: OrderbookLike>(obs: &mut OrderbookObserver<B>, value: Json) -> Vec<Publication> {
    publications(obs.on_json_message(value).unwrap())
}

fn publications(reports: Vec<Report>) -> Vec<Publication> {
    reports
        .into_iter()
        .filter_map(|report| match report {
            Report::Published(publication) => Some(publication),
            Report::Warning(_) => None,
        })
        .collect()
}

fn warnings(reports: &[Report]) -> Vec<&str> {
    reports
        .iter()
        .filter_map(|report| match report {
            Report::Warning(text) => Some(text.as_str()),
            Report::Published(_) => None,
        })
        .collect()
}

#[test]
fn book_snapshot_is_applied_for_yes_asset() {
    let mut obs = observer::<BasicOrderbook>(
        vec![asset(YES_ASSET_ID, "YES"), asset(NO_ASSET_ID, "NO")],
        true,
    );

    let msg = object(vec![
        ("event_type", text("book")),
        ("asset_id", text(YES_ASSET_ID)),
        ("market", text("condition")),
        ("bids", Json::Array(vec![level("0.48", "30"), level("0.49", "20")])),
        ("asks", Json::Array(vec![level("0.52", "25"), level("0.53", "60")])),
        ("timestamp", text("123456789000")),
        ("hash", text("0x0")),
    ]);

    handled(&mut obs, msg);

    let book = obs.books().get(YES_ASSET_ID).expect("book for YES asset");
    assert_eq!(book.bids().count(), 2);
    assert_eq!(book.asks().count(), 2);
    assert_eq!(book.bids().next().unwrap().price, p("0.49"));
    assert_eq!(book.asks().next().unwrap().price, p("0.52"));
}

#[test]
fn price_change_updates_existing_levels_after_snapshot() {
    let mut obs = observer::<BasicOrderbook>(vec![asset(YES_ASSET_ID, "YES")], true);

    handled(
        &mut obs,
        book(YES_ASSET_ID, vec![level("0.50", "100")], vec![level("0.52", "80")]),
    );
    handled(
        &mut obs,
        price_change(vec![
            change(YES_ASSET_ID, "0.50", "200", "BUY"),
            change(YES_ASSET_ID, "0.52", "0", "SELL"),
        ]),
    );

    let book = obs.books().get(YES_ASSET_ID).expect("book for YES asset");
    assert_eq!(book.bids().count(), 1);
    assert_eq!(book.bids().next().unwrap().price, p("0.50"));
    assert_eq!(book.bids().next().unwrap().size, q("200"));
    // ask level at 0.52 should have been removed
    assert!(book.asks().next().is_none());
}

#[test]
fn array_of_messages_is_processed_sequentially() {
    let mut obs = observer::<BasicOrderbook>(vec![asset(YES_ASSET_ID, "YES")], true);

    handled(
        &mut obs,
        Json::Array(vec![
            book(YES_ASSET_ID, vec![level("0.50", "100")], vec![level("0.52", "80")]),
            price_change(vec![change(YES_ASSET_ID, "0.51", "60", "SELL")]),
        ]),
    );

    let book = obs.books().get(YES_ASSET_ID).expect("book for YES asset");
    assert_eq!(book.bids().count(), 1);
    assert_eq!(book.bids().next().unwrap().price, p("0.50"));
    assert_eq!(book.asks().count(), 2);
    assert_eq!(book.asks().next().unwrap().price, p("0.51"));
    assert_eq!(book.asks().next().unwrap().size, q("60"));
}

#[test]
fn price_change_before_snapshot_does_not_create_book() {
    let mut obs = observer::<BasicOrderbook>(vec![asset(YES_ASSET_ID, "YES")], true);

    handled(&mut obs, price_change(vec![change(YES_ASSET_ID, "0.50", "200", "BUY")]));

    // No snapshot was received for YES_ASSET_ID, so no book should exist.
    assert!(obs.books().get(YES_ASSET_ID).is_none());
}

#[test]
fn assets_that_are_not_observed_are_ignored() {
    let mut obs = observer::<FastOrderbook>(vec![asset(YES_ASSET_ID, "YES")], false);
    let published = handled(
        &mut obs,
        Json::Array(vec![
            book(NO_ASSET_ID, vec![level("0.5", "1")], vec![]),
            price_change(vec![change(NO_ASSET_ID, "0.5", "1", "BUY")]),
        ]),
    );
    assert!(published.is_empty());
    assert!(obs.books().assets().is_empty());
}

#[test]
fn unusable_messages_change_nothing() {
    let mut obs = observer::<SkipOrderbook>(vec![asset(YES_ASSET_ID, "YES")], false);
    handled(&mut obs, book(YES_ASSET_ID, vec![level("0.5", "1")], vec![]));

    let unusable = vec![
        Json::Null,
        text("book"),
        Json::Array(vec![]),
        object(vec![("event_type", Json::Bool(true))]),
        object(vec![("event_type", text("last_trade_price")), ("asset_id", text(YES_ASSET_ID))]),
        object(vec![("event_type", text("book"))]),
        object(vec![("event_type", text("book")), ("asset_id", text(YES_ASSET_ID))]),
        object(vec![
            ("event_type", text("book")),
            ("asset_id", text(YES_ASSET_ID)),
            ("bids", Json::Array(vec![])),
        ]),
        object(vec![
            ("event_type", text("book")),
            ("asset_id", text(YES_ASSET_ID)),
            ("bids", Json::Array(vec![])),
            ("asks", text("none")),
        ]),
        book(YES_ASSET_ID, vec![level("0.7", "1"), level("x", "1")], vec![]),
        book(YES_ASSET_ID, vec![], vec![level("0.7", "")]),
        book(YES_ASSET_ID, vec![], vec![object(vec![("price", text("0.7"))])]),
        object(vec![("event_type", text("price_change"))]),
        price_change(vec![
            Json::Null,
            change(YES_ASSET_ID, "0.5", "2", "HOLD"),
            change(YES_ASSET_ID, "0.5", "two", "BUY"),
            change(YES_ASSET_ID, "half", "2", "BUY"),
            object(vec![("asset_id", text(YES_ASSET_ID)), ("side", text("BUY"))]),
        ]),
    ];
    for message in unusable {
        assert!(handled(&mut obs, message).is_empty());
        let book = obs.books().get(YES_ASSET_ID).unwrap();
        let bids: Vec<Level> = book.bids().collect();
        assert_eq!(bids, vec![Level { price: p("0.5"), size: q("1") }]);
        assert!(book.best_ask().is_none());
    }
}

#[test]
fn good_changes_beside_bad_ones_are_applied() {
    let mut obs = observer::<SkipOrderbook>(vec![asset(YES_ASSET_ID, "YES")], false);
    handled(&mut obs, book(YES_ASSET_ID, vec![level("0.5", "1")], vec![]));
    handled(
        &mut obs,
        price_change(vec![
            change(YES_ASSET_ID, "0.5", "2", "HOLD"),
            change(YES_ASSET_ID, "0.50", "3", "BUY"),
            change(NO_ASSET_ID, "0.5", "4", "BUY"),
        ]),
    );
    let book = obs.books().get(YES_ASSET_ID).unwrap();
    assert_eq!(book.best_bid(), Some(Level { price: p("0.5"), size: q("3") }));
}

#[test]
fn books_are_printed_in_columns() {
    let mut obs = observer::<FastOrderbook>(vec![asset(YES_ASSET_ID, "YES")], true);
    let published = handled(
        &mut obs,
        book(
            YES_ASSET_ID,
            vec![level("0.48", "30"), level("0.49", "20.5")],
            vec![level("0.52", "25")],
        ),
    );
    assert_eq!(published.len(), 1);
    let expected = [
        "=== YES Orderbook ===",
        "        BIDS                          ASKS",
        "    Price |            Size |          Cumul.        Price |            Size |          Cumul.",
        "     0.49 |            20.5 |            20.5         0.52 |              25 |              25",
        "     0.48 |              30 |            50.5",
        "  Spread: 0.03 | Best Bid: 0.49 | Best Ask: 0.52",
        "",
        "",
    ]
    .join("\n");
    assert_eq!(published[0].text.as_deref(), Some(expected.as_str()));
}

#[test]
fn rows_without_a_bid_are_blank_on_the_left() {
    let mut obs = observer::<FastOrderbook>(vec![asset(YES_ASSET_ID, "YES")], true);
    let published =
        handled(&mut obs, book(YES_ASSET_ID, vec![], vec![level("0.520000001", "25")]));
    let printed = published[0].text.clone().unwrap();
    let lines: Vec<&str> = printed.lines().collect();
    assert_eq!(
        lines[3],
        "          |                 |                      0.520000001 |              25 |              25"
    );
    // No spread without bids.
    assert_eq!(lines[4], "");
    assert_eq!(lines.len(), 5);
}

#[test]
fn snapshot_has_five_levels_and_sums() {
    let mut obs = observer::<SkipOrderbook>(
        vec![asset(NO_ASSET_ID, "NO"), asset(YES_ASSET_ID, "YES")],
        false,
    );
    let bids = (1..=7).map(|i| level(&format!("0.{i}"), &format!("{i}"))).collect();
    let published = handled(&mut obs, book(YES_ASSET_ID, bids, vec![level("0.9", "1.0")]));
    assert_eq!(published.len(), 1);
    assert!(published[0].text.is_none());
    // Only assets with a book are published.
    assert_eq!(published[0].snapshot.assets.len(), 1);
    let shown = &published[0].snapshot.assets[0];
    assert_eq!(shown.asset_id, YES_ASSET_ID);
    assert_eq!(shown.label, "YES");
    let prices: Vec<&str> = shown.bids.iter().map(|l| l.price.as_str()).collect();
    assert_eq!(prices, vec!["0.7", "0.6", "0.5", "0.4", "0.3"]);
    let sums: Vec<&str> = shown.bids.iter().map(|l| l.cumulative.as_str()).collect();
    assert_eq!(sums, vec!["7", "13", "18", "22", "25"]);
    assert_eq!(shown.asks[0].size, "1.0");
    assert_eq!(shown.asks[0].cumulative, "1.0");
    assert_eq!(shown.spread.as_deref(), Some("0.2"));
    assert_eq!(shown.best_bid.as_deref(), Some("0.7"));
    assert_eq!(shown.best_ask.as_deref(), Some("0.9"));
}

#[test]
fn best_prices_are_published_with_the_spread_only() {
    let mut obs = observer::<BasicOrderbook>(vec![asset(YES_ASSET_ID, "YES")], false);
    let published = handled(&mut obs, book(YES_ASSET_ID, vec![level("0.5", "1")], vec![]));
    let shown = &published[0].snapshot.assets[0];
    assert_eq!(shown.spread, None);
    assert_eq!(shown.best_bid, None);
    assert_eq!(shown.best_ask, None);
    assert_eq!(shown.bids.len(), 1);
}

#[test]
fn books_are_published_only_when_the_top_changes() {
    let mut obs = observer::<FastOrderbook>(vec![asset(YES_ASSET_ID, "YES")], false);
    let bids = || (1..=6).map(|i| level(&format!("0.{i}"), "1")).collect::<Vec<Json>>();

    assert_eq!(handled(&mut obs, book(YES_ASSET_ID, bids(), vec![])).len(), 1);
    // The same snapshot again.
    assert_eq!(handled(&mut obs, book(YES_ASSET_ID, bids(), vec![])).len(), 0);
    // A change below the fifth level.
    let deep = price_change(vec![change(YES_ASSET_ID, "0.1", "2", "BUY")]);
    assert_eq!(handled(&mut obs, deep).len(), 0);
    // Adding at the bottom, too.
    let bottom = price_change(vec![change(YES_ASSET_ID, "0.05", "2", "BUY")]);
    assert_eq!(handled(&mut obs, bottom).len(), 0);
    // A change within the top, even to the same size.
    let top = price_change(vec![change(YES_ASSET_ID, "0.6", "1", "BUY")]);
    assert_eq!(handled(&mut obs, top).len(), 1);
    // Several changes are published once.
    let both = price_change(vec![
        change(YES_ASSET_ID, "0.6", "0", "BUY"),
        change(YES_ASSET_ID, "0.7", "1", "BUY"),
    ]);
    assert_eq!(handled(&mut obs, both).len(), 1);
    // Removing a price that is not there.
    let absent = price_change(vec![change(YES_ASSET_ID, "0.65", "0", "BUY")]);
    assert_eq!(handled(&mut obs, absent).len(), 0);
    // An empty snapshot of an asset without a book creates one and shows nothing new.
    let mut fresh = observer::<FastOrderbook>(vec![asset(NO_ASSET_ID, "NO")], false);
    assert_eq!(handled(&mut fresh, book(NO_ASSET_ID, vec![], vec![])).len(), 0);
    assert!(fresh.books().get(NO_ASSET_ID).is_some());
}

#[test]
fn each_message_of_an_array_is_published_on_its_own() {
    let mut obs = observer::<BasicOrderbook>(vec![asset(YES_ASSET_ID, "YES")], false);
    let published = handled(
        &mut obs,
        Json::Array(vec![
            book(YES_ASSET_ID, vec![level("0.5", "1")], vec![]),
            price_change(vec![change(YES_ASSET_ID, "0.5", "2", "BUY")]),
        ]),
    );
    let sizes: Vec<&str> =
        published.iter().map(|p| p.snapshot.assets[0].bids[0].size.as_str()).collect();
    assert_eq!(sizes, vec!["1", "2"]);
}

#[test]
fn a_sum_that_no_decimal_can_hold_is_reported() {
    let largest = "79228162514264337593543950335";
    let mut obs = observer::<BasicOrderbook>(vec![asset(YES_ASSET_ID, "YES")], true);
    let fits = book(YES_ASSET_ID, vec![level("0.5", largest)], vec![]);
    assert!(obs.on_json_message(fits).is_ok());
    assert!(obs.can_publish());
    let overflows =
        book(YES_ASSET_ID, vec![level("0.5", largest), level("0.4", largest)], vec![]);
    assert!(obs.on_json_message(overflows).unwrap_err().reports.is_empty());
    assert!(!obs.can_publish());
    assert!(obs.publish_and_print_books().is_err());
}

#[test]
fn a_spread_that_no_decimal_can_hold_is_reported() {
    let mut obs = observer::<BasicOrderbook>(vec![asset(YES_ASSET_ID, "YES")], false);
    let message = book(
        YES_ASSET_ID,
        vec![level("-79228162514264337593543950335", "1")],
        vec![level("79228162514264337593543950335", "1")],
    );
    assert!(obs.on_json_message(message).unwrap_err().reports.is_empty());
}

#[test]
fn what_was_published_before_an_overflow_is_kept() {
    let largest = "79228162514264337593543950335";
    let mut obs = observer::<BasicOrderbook>(
        vec![asset(YES_ASSET_ID, "YES"), asset(NO_ASSET_ID, "NO")],
        false,
    );
    let values = Json::Array(vec![
        book(YES_ASSET_ID, vec![level("0.5", "1")], vec![]),
        price_change(vec![
            change(NO_ASSET_ID, "0.5", "1", "BUY"),
            change(YES_ASSET_ID, "0.4", largest, "BUY"),
        ]),
        book(YES_ASSET_ID, vec![], vec![]),
    ]);
    let reports = obs.on_json_message(values).unwrap_err().reports;
    assert_eq!(reports.len(), 2);
    assert!(matches!(&reports[0], Report::Published(p) if p.snapshot.assets.len() == 1));
    assert!(matches!(&reports[1], Report::Warning(_)));
    // What comes after is not handled.
    assert_eq!(obs.books().get(YES_ASSET_ID).unwrap().bids().count(), 2);
}

#[test]
fn changes_before_any_snapshot_are_warned_of() {
    let mut obs = observer::<SkipOrderbook>(
        vec![asset(YES_ASSET_ID, "YES"), asset(NO_ASSET_ID, "NO")],
        false,
    );
    handled(&mut obs, book(YES_ASSET_ID, vec![level("0.5", "1")], vec![]));
    let reports = obs
        .on_json_message(price_change(vec![
            change(NO_ASSET_ID, "0.5", "1", "BUY"),
            change(YES_ASSET_ID, "0.5", "2", "BUY"),
            // Not whole, or not observed: no warning.
            change(NO_ASSET_ID, "x", "1", "BUY"),
            change(NO_ASSET_ID, "0.5", "1", "HOLD"),
            change("OTHER", "0.5", "1", "SELL"),
            change(NO_ASSET_ID, "0.6", "1", "SELL"),
        ]))
        .unwrap();
    let expected = "protocol violation: received price_change for asset `NO_ASSET` \
                    before any book snapshot";
    assert_eq!(warnings(&reports), vec![expected, expected]);
    // The books are published behind the warnings.
    assert_eq!(reports.len(), 3);
    assert!(matches!(reports[2], Report::Published(_)));
    assert!(obs.books().get(NO_ASSET_ID).is_none());
}

#[test]
fn a_change_that_cannot_be_used_is_skipped_alone() {
    let bad = vec![
        Json::Null,
        change("OTHER", "0.5", "7", "BUY"),
        change(NO_ASSET_ID, "0.5", "7", "BUY"),
        change(YES_ASSET_ID, "?", "7", "BUY"),
        change(YES_ASSET_ID, "0.5", "", "BUY"),
        change(YES_ASSET_ID, "0.5", "7", "buy"),
        object(vec![("asset_id", text(YES_ASSET_ID)), ("price", text("0.5"))]),
    ];
    for entry in bad {
        let mut with = observer::<FastOrderbook>(
            vec![asset(YES_ASSET_ID, "YES"), asset(NO_ASSET_ID, "NO")],
            false,
        );
        let mut without = observer::<FastOrderbook>(
            vec![asset(YES_ASSET_ID, "YES"), asset(NO_ASSET_ID, "NO")],
            false,
        );
        let first = || change(YES_ASSET_ID, "0.5", "2", "BUY");
        let last = || change(YES_ASSET_ID, "0.6", "3", "SELL");
        handled(&mut with, book(YES_ASSET_ID, vec![], vec![]));
        handled(&mut without, book(YES_ASSET_ID, vec![], vec![]));
        let told = handled(&mut with, price_change(vec![first(), entry, last()]));
        let want = handled(&mut without, price_change(vec![first(), last()]));
        assert_eq!(told.len(), want.len());
        let a = with.books().get(YES_ASSET_ID).unwrap();
        let b = without.books().get(YES_ASSET_ID).unwrap();
        assert_eq!(a.bids().collect::<Vec<Level>>(), b.bids().collect::<Vec<Level>>());
        assert_eq!(a.asks().collect::<Vec<Level>>(), b.asks().collect::<Vec<Level>>());
    }
}

#[test]
fn snapshots_and_changes_are_handled_whatever_they_are_called() {
    let mut obs = observer::<BasicOrderbook>(
        vec![asset(YES_ASSET_ID, "YES"), asset(NO_ASSET_ID, "NO")],
        false,
    );
    let mut reports: Vec<Report> = Vec::new();
    let snapshot = object(vec![
        ("asset_id", text(YES_ASSET_ID)),
        ("bids", Json::Array(vec![level("0.5", "1")])),
        ("asks", Json::Array(vec![])),
    ]);
    assert_eq!(obs.handle_book(&snapshot, &mut reports), Ok(true));
    assert_eq!(obs.handle_book(&snapshot, &mut reports), Ok(false));
    assert_eq!(reports.len(), 1);
    let changes = object(vec![(
        "price_changes",
        Json::Array(vec![
            change(NO_ASSET_ID, "0.5", "2", "BUY"),
            change(YES_ASSET_ID, "0.5", "2", "BUY"),
        ]),
    )]);
    assert_eq!(obs.handle_price_change(&changes, &mut reports), Ok(true));
    assert_eq!(reports.len(), 3);
    assert_eq!(warnings(&reports).len(), 1);
    // By itself it is a message of no kind.
    assert_eq!(obs.handle_single_message(&snapshot, &mut reports), Ok(false));
    assert_eq!(reports.len(), 3);
    let largest = "79228162514264337593543950335";
    let overflows = price_change(vec![change(YES_ASSET_ID, "0.4", largest, "BUY")]);
    assert!(obs.handle_single_message(&overflows, &mut reports).is_err());
    assert_eq!(reports.len(), 3);
}

#[test]
fn a_repeated_snapshot_is_silent() {
    let mut obs = observer::<SkipOrderbook>(vec![asset(YES_ASSET_ID, "YES")], false);
    // Repeated prices and empty levels make no difference.
    let message = || {
        book(
            YES_ASSET_ID,
            vec![level("0.5", "1"), level("0.50", "2"), level("0.4", "0")],
            vec![level("0.6", "1")],
        )
    };
    assert_eq!(handled(&mut obs, message()).len(), 1);
    assert_eq!(handled(&mut obs, message()).len(), 0);
    // Nothing of an earlier book is left.
    handled(&mut obs, book(YES_ASSET_ID, vec![level("0.1", "1")], vec![]));
    let kept = obs.books().get(YES_ASSET_ID).unwrap();
    assert_eq!(
        kept.bids().collect::<Vec<Level>>(),
        vec![Level { price: p("0.1"), size: q("1") }],
    );
    assert_eq!(kept.asks().count(), 0);
}

#[test]
fn the_last_label_of_an_asset_counts() {
    let mut obs = observer::<BasicOrderbook>(
        vec![asset(YES_ASSET_ID, "first"), asset(YES_ASSET_ID, "second")],
        false,
    );
    let published = handled(&mut obs, book(YES_ASSET_ID, vec![level("0.5", "1")], vec![]));
    assert_eq!(published[0].snapshot.assets.len(), 1);
    assert_eq!(published[0].snapshot.assets[0].label, "second");
}

#[test]
fn observer_errors_are_told() {
    let error = SessionObserverError::Other("lost".to_string());
    assert_eq!(error.to_string(), "observer error: lost");
}

struct Silent {
    told: u32,
}

impl SessionObserver for Silent {
    fn on_connected(&mut self) {
        self.told += 1;
    }
}

#[test]
fn what_is_not_overridden_does_nothing() {
    let mut silent = Silent { told: 0 };
    silent.on_connected();
    silent.on_disconnected();
    silent.on_json_message(Json::Null);
    silent.on_error(SessionObserverError::Other(String::new()));
    assert_eq!(silent.told, 1);
}
