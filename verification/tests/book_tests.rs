use ws_session::basic_orderbook::{equal_levels, Overflow};
use ws_session::decimal::Decimal;
use ws_session::{
    BasicOrderbook, FastOrderbook, Level, OrderbookLike, Orderbooks, Price, Quantity, Side,
    SkipOrderbook,
};

fn l(price: &str, size: &str) -> Level {
    Level { price: Price::from_str(price).unwrap(), size: Quantity::from_str(size).unwrap() }
}

fn p(s: &str) -> Price {
    Price::from_str(s).unwrap()
}

fn q(s: &str) -> Quantity {
    Quantity::from_str(s).unwrap()
}

/// The levels as text, so that scales show.
fn listed(levels: impl Iterator<Item = Level>) -> Vec<String> {
    levels.map(|level| format!("{}x{}", level.price.to_string(), level.size.to_string())).collect()
}

fn after_snapshot<O: OrderbookLike>(bids: Vec<Level>, asks: Vec<Level>) -> O {
    let mut book = O::default();
    book.apply_snapshot(bids, asks);
    book
}

/// A small generator of changes, the same in every run.
fn changes(n: u64) -> Vec<(Side, Price, Quantity)> {
    let mut x: u64 = 12345;
    let mut out = Vec::new();
    for _ in 0..n {
        x = x.wrapping_mul(6364136223846793005).wrapping_add(1442695040888963407);
        let side = if (x >> 33) % 2 == 0 { Side::Bid } else { Side::Ask };
        let price = Price(Decimal::from((x >> 40) as u32 % 40));
        let size = Quantity(Decimal::from((x >> 50) as u32 % 4));
        out.push((side, price, size));
    }
    out
}

#[test]
fn books_of_all_kinds_agree() {
    let mut basic = BasicOrderbook::default();
    let mut fast = FastOrderbook::default();
    let mut skip = SkipOrderbook::default();
    let bids: Vec<Level> = (1..30).map(|i| l(&format!("{}", i * 7 % 31), "5")).collect();
    let asks: Vec<Level> = (1..30).map(|i| l(&format!("{}", i * 11 % 31), "6")).collect();
    basic.apply_snapshot(bids.clone(), asks.clone());
    fast.apply_snapshot(bids.clone(), asks.clone());
    skip.apply_snapshot(bids, asks);
    for (side, price, size) in changes(2000) {
        basic.apply_price_change(side, price, size);
        fast.apply_price_change(side, price, size);
        skip.apply_price_change(side, price, size);
        let want: Vec<String> = listed(basic.bids());
        assert_eq!(listed(fast.bids()), want);
        assert_eq!(listed(skip.bids()), want);
        let want: Vec<String> = listed(basic.asks());
        assert_eq!(listed(fast.asks()), want);
        assert_eq!(listed(skip.asks()), want);
        assert_eq!(basic.spread(), skip.spread());
    }
}

fn equal_numbers_are_one_price<O: OrderbookLike>() {
    let mut book: O = after_snapshot(vec![l("0.50", "1")], vec![]);
    // The price keeps the notation in which it came first.
    book.apply_price_change(Side::Bid, p("0.5"), q("2.0"));
    assert_eq!(listed(book.bids()), vec!["0.50x2.0"]);
    book.apply_price_change(Side::Bid, p("0.5000"), q("0.0"));
    assert!(book.best_bid().is_none());
    // Zero is one price too, whatever its sign.
    book.apply_price_change(Side::Ask, p("0"), q("1"));
    book.apply_price_change(Side::Ask, p("-0.00"), q("3"));
    assert_eq!(listed(book.asks()), vec!["0x3"]);
}

#[test]
fn equal_numbers_are_one_price_everywhere() {
    equal_numbers_are_one_price::<BasicOrderbook>();
    equal_numbers_are_one_price::<FastOrderbook>();
    equal_numbers_are_one_price::<SkipOrderbook>();
}

#[test]
fn repeated_prices_in_a_snapshot() {
    let bids = || vec![l("1", "1"), l("2", "2"), l("1.0", "3"), l("2.0", "4")];

    // The reference keeps them in the order in which they came; a change goes to the
    // first, a removal takes all.
    let mut basic: BasicOrderbook = after_snapshot(bids(), vec![]);
    assert_eq!(listed(basic.bids()), vec!["2x2", "2.0x4", "1x1", "1.0x3"]);
    basic.apply_price_change(Side::Bid, p("2"), q("9"));
    assert_eq!(listed(basic.bids()), vec!["2x9", "2.0x4", "1x1", "1.0x3"]);
    basic.apply_price_change(Side::Bid, p("2"), q("0"));
    assert_eq!(listed(basic.bids()), vec!["1x1", "1.0x3"]);

    // The list finds the latest, which stands last.
    let mut fast: FastOrderbook = after_snapshot(bids(), vec![]);
    assert_eq!(listed(fast.bids()), vec!["2x2", "2.0x4", "1x1", "1.0x3"]);
    fast.apply_price_change(Side::Bid, p("2"), q("9"));
    assert_eq!(listed(fast.bids()), vec!["2x2", "2.0x9", "1x1", "1.0x3"]);
    fast.apply_price_change(Side::Bid, p("2"), q("0"));
    assert_eq!(listed(fast.bids()), vec!["2x2", "1x1", "1.0x3"]);
    // What is left of the price is not found any more.
    fast.apply_price_change(Side::Bid, p("2"), q("0"));
    assert_eq!(listed(fast.bids()), vec!["2x2", "1x1", "1.0x3"]);

    // The skip list finds the latest, which stands first.
    let mut skip: SkipOrderbook = after_snapshot(bids(), vec![]);
    assert_eq!(listed(skip.bids()), vec!["2.0x4", "2x2", "1.0x3", "1x1"]);
    skip.apply_price_change(Side::Bid, p("2"), q("0"));
    assert_eq!(listed(skip.bids()), vec!["2x2", "1.0x3", "1x1"]);
}

#[test]
fn empty_levels_in_a_snapshot() {
    let bids = || vec![l("1", "0"), l("2", "0.00"), l("3", "1")];
    let basic: BasicOrderbook = after_snapshot(bids(), vec![]);
    assert_eq!(listed(basic.bids()), vec!["3x1", "2x0.00", "1x0"]);
    let fast: FastOrderbook = after_snapshot(bids(), vec![]);
    assert_eq!(listed(fast.bids()), vec!["3x1"]);
    let skip: SkipOrderbook = after_snapshot(bids(), vec![]);
    assert_eq!(listed(skip.bids()), vec!["3x1"]);
}

fn snapshot_replaces<O: OrderbookLike>() {
    let mut book: O = after_snapshot(vec![l("1", "1"), l("2", "1")], vec![l("3", "1")]);
    book.apply_snapshot(vec![l("5", "1")], vec![]);
    assert_eq!(listed(book.bids()), vec!["5x1"]);
    assert_eq!(listed(book.asks()), Vec::<String>::new());
}

#[test]
fn a_snapshot_replaces_everything() {
    snapshot_replaces::<BasicOrderbook>();
    snapshot_replaces::<FastOrderbook>();
    snapshot_replaces::<SkipOrderbook>();
}

fn insertion_is_undone<O: OrderbookLike>() {
    let mut book: O = after_snapshot(vec![l("1", "1"), l("3", "1")], vec![l("4", "1")]);
    let before = listed(book.bids());
    book.apply_price_change(Side::Bid, p("2"), q("7"));
    assert_eq!(listed(book.bids()), vec!["3x1", "2x7", "1x1"]);
    // Once more changes nothing.
    book.apply_price_change(Side::Bid, p("2"), q("7"));
    assert_eq!(listed(book.bids()), vec!["3x1", "2x7", "1x1"]);
    assert_eq!(listed(book.asks()), vec!["4x1"]);
    book.apply_price_change(Side::Bid, p("2"), q("0"));
    assert_eq!(listed(book.bids()), before);
}

#[test]
fn removal_undoes_insertion() {
    insertion_is_undone::<BasicOrderbook>();
    insertion_is_undone::<FastOrderbook>();
    insertion_is_undone::<SkipOrderbook>();
}

#[test]
fn crossed_books_have_no_spread_to_speak_of() {
    let book: FastOrderbook = after_snapshot(vec![l("2", "1")], vec![l("1.5", "1")]);
    assert_eq!(book.spread().unwrap().to_string(), "0");
    let touching: FastOrderbook = after_snapshot(vec![l("2", "1")], vec![l("2.0", "1")]);
    assert_eq!(touching.spread().unwrap().to_string(), "0");
    assert_eq!(touching.checked_spread(), Ok(Some(p("0"))));
    let open: BasicOrderbook = after_snapshot(vec![l("0.49", "1")], vec![l("0.5", "1")]);
    assert_eq!(open.spread().unwrap().to_string(), "0.01");
}

#[test]
fn spreads_that_no_decimal_can_hold() {
    let largest = "79228162514264337593543950335";
    let smallest = "-79228162514264337593543950335";
    let book: BasicOrderbook = after_snapshot(vec![l(smallest, "1")], vec![l(largest, "1")]);
    assert_eq!(book.checked_spread(), Err(Overflow));
    let one_sided: BasicOrderbook = after_snapshot(vec![l(smallest, "1")], vec![]);
    assert_eq!(one_sided.checked_spread(), Ok(None));
}

#[test]
fn negative_sizes_are_levels_too() {
    let mut book = FastOrderbook::new();
    book.apply_price_change(Side::Ask, p("-1"), q("-5"));
    book.apply_price_change(Side::Ask, p("-2"), q("5"));
    assert_eq!(listed(book.asks()), vec!["-2x5", "-1x-5"]);
    book.apply_price_change(Side::Bid, p("-1"), q("1"));
    book.apply_price_change(Side::Bid, p("-2"), q("1"));
    assert_eq!(listed(book.bids()), vec!["-1x1", "-2x1"]);
}

#[test]
fn reference_books_are_compared_by_number() {
    let a: BasicOrderbook = after_snapshot(vec![l("1", "1")], vec![l("2", "1")]);
    let b: BasicOrderbook = after_snapshot(vec![l("1.0", "1.00")], vec![l("2", "1")]);
    let c: BasicOrderbook = after_snapshot(vec![l("1", "2")], vec![l("2", "1")]);
    assert_eq!(a, b);
    assert_ne!(a, c);
    assert_eq!(a.clone(), a);
    assert!(equal_levels(&vec![l("1", "1")], &vec![l("1.0", "1")]));
    assert!(!equal_levels(&vec![l("1", "1")], &vec![]));
}

#[test]
fn each_asset_has_one_book() {
    let mut books: Orderbooks<BasicOrderbook> = Orderbooks::new();
    assert!(books.get("a").is_none());
    assert!(books.get_mut("a").is_none());
    books.book_mut("a").apply_price_change(Side::Bid, p("1"), q("1"));
    books.book_mut("b");
    books.book_mut("a").apply_price_change(Side::Bid, p("2"), q("1"));
    assert_eq!(books.get("a").unwrap().bids().count(), 2);
    assert_eq!(books.get("b").unwrap().bids().count(), 0);
    books.get_mut("b").unwrap().apply_price_change(Side::Ask, p("1"), q("1"));
    assert_eq!(books.get("b").unwrap().asks().count(), 1);
    let mut ids: Vec<String> = books.assets().iter().map(|(id, _)| id.to_string()).collect();
    ids.sort();
    assert_eq!(ids, vec!["a", "b"]);
    assert!(Orderbooks::<BasicOrderbook>::default().assets().is_empty());
}

fn same_after<O: OrderbookLike>(bids: &[Level], asks: &[Level]) {
    let fresh: O = after_snapshot(bids.to_vec(), asks.to_vec());
    let mut used: O = after_snapshot(vec![l("0.7", "1"), l("0.3", "2")], vec![l("0.8", "3")]);
    used.apply_price_change(Side::Bid, p("0.3"), q("0"));
    used.apply_snapshot(bids.to_vec(), asks.to_vec());
    assert_eq!(listed(used.bids()), listed(fresh.bids()));
    assert_eq!(listed(used.asks()), listed(fresh.asks()));
}

#[test]
fn a_snapshot_leaves_nothing_of_what_was_listed() {
    let bids = vec![l("0.5", "1"), l("0.50", "2"), l("0.4", "0"), l("0.6", "3"), l("0.5", "4")];
    let asks = vec![l("0.7", "0"), l("0.9", "1"), l("0.8", "2")];
    same_after::<BasicOrderbook>(&bids, &asks);
    same_after::<FastOrderbook>(&bids, &asks);
    same_after::<SkipOrderbook>(&bids, &asks);
}

fn without_empty_levels<O: OrderbookLike>() {
    let book: O = after_snapshot(
        vec![l("0.5", "0"), l("0.4", "1"), l("0.5", "2"), l("0.3", "0.00")],
        vec![l("0.6", "0")],
    );
    assert_eq!(listed(book.bids()), vec!["0.5x2", "0.4x1"]);
    assert_eq!(book.asks().count(), 0);
}

#[test]
fn lists_drop_the_empty_levels_of_a_snapshot() {
    without_empty_levels::<FastOrderbook>();
    without_empty_levels::<SkipOrderbook>();
}
