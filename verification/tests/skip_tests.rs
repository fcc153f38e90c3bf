use ws_session::decimal::Decimal;
use ws_session::skip_orderbook::MAX_HEIGHT;
use ws_session::{Level, OrderbookLike, Price, Quantity, Side, SkipOrderbook};

fn p(s: &str) -> Price {
    Price::from_str(s).unwrap()
}

fn q(s: &str) -> Quantity {
    Quantity::from_str(s).unwrap()
}

fn comes_before(side: Side, a: Price, b: Price) -> bool {
    match side {
        Side::Bid => a > b,
        Side::Ask => a < b,
    }
}

/// Verify that the level-h walk is a strict subsequence of the level-0 walk
/// and that all express lanes respect the ordering invariant.
fn assert_skip_invariants(ob: &SkipOrderbook, side: Side) {
    let level0 = ob.lane_nodes(side, 0);
    let price_of = |node: u32| ob.node_level(side, node).unwrap().price;

    // Every node reachable at level 0 must be found by its price.
    for &node in &level0 {
        assert_eq!(ob.node_at(side, price_of(node)), Some(node));
    }

    // Prices along level 0 must be strictly ordered.
    for w in level0.windows(2) {
        let a = price_of(w[0]);
        let b = price_of(w[1]);
        assert!(comes_before(side, a, b), "level-0 ordering violated: {a:?} should come before {b:?}");
    }

    // Every level-h walk must be an ordered subsequence of level 0.
    for h in 1..MAX_HEIGHT {
        let mut prev_price: Option<Price> = None;
        let mut at = 0;
        for node in ob.lane_nodes(side, h) {
            let price = price_of(node);
            assert!(level0.contains(&node), "node {node} at level {h} not in level-0");
            assert!(ob.node_height(side, node).unwrap() as usize > h);
            if let Some(p) = prev_price {
                assert!(comes_before(side, p, price), "level-{h} ordering violated");
            }
            prev_price = Some(price);
            // Same order as at level 0.
            at += level0[at..].iter().position(|&n| n == node).unwrap() + 1;
        }
    }
}

#[test]
fn skip_invariants_after_snapshot() {
    let mut ob = SkipOrderbook::new();
    ob.apply_snapshot(
        vec![
            Level { price: p("0.48"), size: q("10") },
            Level { price: p("0.50"), size: q("20") },
            Level { price: p("0.49"), size: q("15") },
            Level { price: p("0.47"), size: q("5") },
        ],
        vec![
            Level { price: p("0.53"), size: q("30") },
            Level { price: p("0.51"), size: q("40") },
            Level { price: p("0.52"), size: q("25") },
            Level { price: p("0.54"), size: q("10") },
        ],
    );
    assert_skip_invariants(&ob, Side::Bid);
    assert_skip_invariants(&ob, Side::Ask);
}

#[test]
fn skip_invariants_after_insert_and_remove() {
    let mut ob = SkipOrderbook::new();
    ob.apply_snapshot(
        (1..=20)
            .map(|i| Level { price: p(&format!("0.{i:02}")), size: q("100") })
            .collect(),
        (30..=50)
            .map(|i| Level { price: p(&format!("0.{i:02}")), size: q("100") })
            .collect(),
    );

    assert_skip_invariants(&ob, Side::Bid);
    assert_skip_invariants(&ob, Side::Ask);

    // Remove several levels.
    for i in [5u32, 10, 15] {
        ob.apply_price_change(Side::Bid, p(&format!("0.{i:02}")), q("0"));
    }
    for i in [35u32, 40, 45] {
        ob.apply_price_change(Side::Ask, p(&format!("0.{i:02}")), q("0"));
    }

    assert_skip_invariants(&ob, Side::Bid);
    assert_skip_invariants(&ob, Side::Ask);

    // Insert new levels interleaved with existing ones.
    ob.apply_price_change(Side::Bid, p("0.05"), q("50"));
    ob.apply_price_change(Side::Ask, p("0.35"), q("50"));

    assert_skip_invariants(&ob, Side::Bid);
    assert_skip_invariants(&ob, Side::Ask);
}

#[test]
fn express_lanes_reach_deep_level_via_skips() {
    // Build a 64-level bid side and verify that at least one node at height >= 2
    // exists, demonstrating that express lanes were actually promoted.
    let mut ob = SkipOrderbook::new();
    ob.apply_snapshot(
        (1..=64)
            .map(|i| Level { price: Price(Decimal::from(i)), size: q("1") })
            .collect(),
        vec![],
    );

    assert_skip_invariants(&ob, Side::Bid);

    // With 64 nodes at p=0.25, about 16 are expected at level >= 1 (height >= 2).
    // The probability of zero promotions is (3/4)^64, about 1e-8: effectively impossible.
    let has_express_lane =
        (0..64).any(|node| ob.node_height(Side::Bid, node).unwrap() >= 2);
    assert!(has_express_lane, "no node was promoted to level 1; rng may be broken");

    // Bids iterate from highest to lowest (descending).
    let bids: Vec<Level> = ob.bids().collect();
    assert_eq!(bids.first().unwrap().price, Price(Decimal::from(64)));
    assert_eq!(bids.last().unwrap().price, Price(Decimal::from(1)));
    assert_eq!(bids.len(), 64);
}

#[test]
fn size_update_does_not_change_skip_structure() {
    let mut ob = SkipOrderbook::new();
    ob.apply_snapshot(
        vec![
            Level { price: p("0.50"), size: q("100") },
            Level { price: p("0.49"), size: q("50") },
        ],
        vec![],
    );

    // Record which node holds 0.50 before the update.
    let node = ob.node_at(Side::Bid, p("0.50")).unwrap();

    ob.apply_price_change(Side::Bid, p("0.50"), q("200"));

    // Same node, updated size, structure unchanged.
    assert_eq!(ob.node_at(Side::Bid, p("0.50")).unwrap(), node);
    assert_eq!(ob.bids().next().unwrap().size, q("200"));
    assert_skip_invariants(&ob, Side::Bid);
}

#[test]
fn snapshot_recycles_nodes_correctly() {
    let mut ob = SkipOrderbook::new();
    ob.apply_snapshot(
        vec![Level { price: p("0.50"), size: q("10") }],
        vec![Level { price: p("0.51"), size: q("10") }],
    );
    ob.apply_snapshot(
        vec![
            Level { price: p("0.48"), size: q("5") },
            Level { price: p("0.49"), size: q("3") },
        ],
        vec![Level { price: p("0.52"), size: q("7") }],
    );

    // Old ticks must be gone; new ones must be present.
    assert!(ob.node_at(Side::Bid, p("0.50")).is_none());
    assert!(ob.node_at(Side::Ask, p("0.51")).is_none());
    assert_eq!(ob.bids().next().unwrap().price, p("0.49"));
    assert_eq!(ob.asks().next().unwrap().price, p("0.52"));

    assert_skip_invariants(&ob, Side::Bid);
    assert_skip_invariants(&ob, Side::Ask);
}

/// The heights follow from the seed, so they are the same in every run.
#[test]
fn heights_are_those_of_the_generator() {
    let mut rng: u64 = 0xdead_beef_cafe_babe;
    let mut ob = SkipOrderbook::new();
    for node in 0..100u32 {
        rng ^= rng << 13;
        rng ^= rng >> 7;
        rng ^= rng << 17;
        let height = 1 + (rng.trailing_zeros() / 2).min(3) as u8;
        ob.apply_price_change(Side::Ask, Price(Decimal::from(node + 1)), q("1"));
        assert_eq!(ob.node_height(Side::Ask, node), Some(height));
    }
    assert_skip_invariants(&ob, Side::Ask);
}

/// A removed node is used again for the next level.
#[test]
fn freed_nodes_are_used_again() {
    let mut ob = SkipOrderbook::new();
    ob.apply_price_change(Side::Bid, p("1"), q("1"));
    ob.apply_price_change(Side::Bid, p("2"), q("1"));
    let node = ob.node_at(Side::Bid, p("1")).unwrap();
    ob.apply_price_change(Side::Bid, p("1.0"), q("0.00"));
    assert_eq!(ob.node_at(Side::Bid, p("1")), None);
    ob.apply_price_change(Side::Bid, p("3"), q("1"));
    assert_eq!(ob.node_at(Side::Bid, p("3")), Some(node));
    assert_eq!(ob.node_level(Side::Bid, 7), None);
    assert_eq!(ob.node_height(Side::Bid, 7), None);
}
