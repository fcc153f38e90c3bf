//! What a book lists after each operation, said price by price.

use crate::basic_orderbook::{BasicOrderbook, Level, OrderbookLike, Overflow, Price, Quantity, Side};
use crate::decimal::{decimal_difference, lemma_zero_decimal};
use crate::fast_orderbook::FastOrderbook;
use crate::ladder::{
    as_good_as, better_than, changed_ladder, distinct_prices, first_at, indexed_change,
    indexed_snapshot, indexed_wf, latest_at, latest_place, lemma_as_good_as, lemma_better_than,
    lemma_entered_wf, lemma_first_at, lemma_snapshot_drops_empty, lemma_sorted_ladder,
    no_empty_level, ordered, pool_limit, rank, rank_of, sorted_ladder, strictly_ordered,
    without_empty, without_price, IndexedSide,
};
use crate::laws::levels_on;
use crate::skip_orderbook::SkipOrderbook;
use vstd::prelude::*;
use vstd::std_specs::iter::IteratorSpec;

verus! {

/// Whether a level has the price.
pub open spec fn priced(value: int) -> spec_fn(Level) -> bool {
    |level: Level| level.price.0.value() == value
}

/// The levels at a price, in the order in which they stand.
pub open spec fn at_price(s: Seq<Level>, value: int) -> Seq<Level> {
    s.filter(priced(value))
}

/// Prices go down.
pub open spec fn descending(s: Seq<Level>) -> bool {
    forall|i: int, j: int|
        0 <= i < j < s.len() ==> s[i].price.0.value() >= s[j].price.0.value()
}

/// Prices go up.
pub open spec fn ascending(s: Seq<Level>) -> bool {
    forall|i: int, j: int|
        0 <= i < j < s.len() ==> s[i].price.0.value() <= s[j].price.0.value()
}

/// Levels that a side can list as they are: no price twice, none empty, and not more than
/// there are node numbers.
pub open spec fn listable(s: Seq<Level>) -> bool {
    &&& forall|i: int, j: int|
        0 <= i < j < s.len() ==> s[i].price.0.value() != s[j].price.0.value()
    &&& forall|i: int| 0 <= i < s.len() ==> (#[trigger] s[i]).size.0.magnitude() != 0
    &&& s.len() <= 0xffff_ffff
}

/// The levels that are not empty.
pub open spec fn filled(s: Seq<Level>) -> Seq<Level> {
    s.filter(|level: Level| level.size.0.magnitude() != 0)
}

// ---------------------------------------------------------------------------
// Levels at a price
// ---------------------------------------------------------------------------

proof fn lemma_at_none(s: Seq<Level>, value: int)
    requires
        forall|i: int| 0 <= i < s.len() ==> (#[trigger] s[i]).price.0.value() != value,
    ensures
        at_price(s, value) == Seq::<Level>::empty(),
    decreases s.len(),
{
    reveal(Seq::filter);
    if s.len() > 0 {
        lemma_at_none(s.drop_last(), value);
    }
}

proof fn lemma_at_one(level: Level, value: int)
    ensures
        at_price(seq![level], value) == (if level.price.0.value() == value {
            seq![level]
        } else {
            seq![]
        }),
{
    reveal(Seq::filter);
    let s = seq![level];
    assert(s.drop_last() =~= seq![]);
    assert(s.drop_last().filter(priced(value)) =~= seq![]);
    assert(at_price(s, value) =~= (if level.price.0.value() == value {
        seq![level]
    } else {
        seq![]
    }));
}

proof fn lemma_at_split(s: Seq<Level>, k: int, value: int)
    requires
        0 <= k <= s.len(),
    ensures
        at_price(s, value) == at_price(s.take(k), value) + at_price(s.skip(k), value),
{
    assert(s =~= s.take(k) + s.skip(k));
    Seq::filter_distributes_over_add(s.take(k), s.skip(k), priced(value));
}

proof fn lemma_at_insert(s: Seq<Level>, k: int, level: Level, value: int)
    requires
        0 <= k <= s.len(),
    ensures
        at_price(s.insert(k, level), value) == at_price(s.take(k), value) + at_price(
            seq![level],
            value,
        ) + at_price(s.skip(k), value),
{
    let front = s.take(k) + seq![level];
    assert(s.insert(k, level) =~= front + s.skip(k));
    Seq::filter_distributes_over_add(front, s.skip(k), priced(value));
    Seq::filter_distributes_over_add(s.take(k), seq![level], priced(value));
}

proof fn lemma_at_push(s: Seq<Level>, value: int)
    requires
        s.len() > 0,
    ensures
        at_price(s, value) == (if s.last().price.0.value() == value {
            at_price(s.drop_last(), value).push(s.last())
        } else {
            at_price(s.drop_last(), value)
        }),
{
    reveal(Seq::filter);
}

/// A level that enters behind those of its price comes last among them.
proof fn lemma_at_insert_behind(is_bid: bool, s: Seq<Level>, level: Level, value: int)
    requires
        ordered(is_bid, s),
    ensures
        ({
            let t = s.insert(as_good_as(is_bid, s, rank(is_bid, level)) as int, level);
            at_price(t, value) == (if level.price.0.value() == value {
                at_price(s, value).push(level)
            } else {
                at_price(s, value)
            })
        }),
{
    let r = rank(is_bid, level);
    let k = as_good_as(is_bid, s, r) as int;
    lemma_as_good_as(is_bid, s, r);
    lemma_at_insert(s, k, level, value);
    lemma_at_split(s, k, value);
    lemma_at_one(level, value);
    if level.price.0.value() == value {
        assert forall|i: int| 0 <= i < s.skip(k).len() implies (
        #[trigger] s.skip(k)[i]).price.0.value() != value by {
            assert(rank(is_bid, s[k + i]) > r);
        }
        lemma_at_none(s.skip(k), value);
    }
    assert(at_price(s.insert(k, level), value) =~= (if level.price.0.value() == value {
        at_price(s, value).push(level)
    } else {
        at_price(s, value)
    }));
}

/// A level that enters in front of those of its price comes first among them.
proof fn lemma_at_insert_in_front(is_bid: bool, s: Seq<Level>, level: Level, value: int)
    requires
        ordered(is_bid, s),
    ensures
        ({
            let t = s.insert(better_than(is_bid, s, rank(is_bid, level)) as int, level);
            at_price(t, value) == (if level.price.0.value() == value {
                seq![level] + at_price(s, value)
            } else {
                at_price(s, value)
            })
        }),
{
    let r = rank(is_bid, level);
    let k = better_than(is_bid, s, r) as int;
    lemma_better_than(is_bid, s, r);
    lemma_at_insert(s, k, level, value);
    lemma_at_split(s, k, value);
    lemma_at_one(level, value);
    if level.price.0.value() == value {
        assert forall|i: int| 0 <= i < s.take(k).len() implies (
        #[trigger] s.take(k)[i]).price.0.value() != value by {
            assert(rank(is_bid, s[i]) < r);
        }
        lemma_at_none(s.take(k), value);
    }
    assert(at_price(s.insert(k, level), value) =~= (if level.price.0.value() == value {
        seq![level] + at_price(s, value)
    } else {
        at_price(s, value)
    }));
}

proof fn lemma_at_sorted(is_bid: bool, s: Seq<Level>, value: int)
    ensures
        at_price(sorted_ladder(is_bid, s), value) == at_price(s, value),
    decreases s.len(),
{
    if s.len() > 0 {
        let t = sorted_ladder(is_bid, s.drop_last());
        lemma_at_sorted(is_bid, s.drop_last(), value);
        lemma_sorted_ladder(is_bid, s.drop_last());
        lemma_at_insert_behind(is_bid, t, s.last(), value);
        lemma_at_push(s, value);
    }
}

proof fn lemma_at_without(s: Seq<Level>, gone: int, value: int)
    ensures
        at_price(without_price(s, gone), value) == (if value == gone {
            seq![]
        } else {
            at_price(s, value)
        }),
    decreases s.len(),
{
    reveal(Seq::filter);
    if s.len() > 0 {
        let t = without_price(s.drop_last(), gone);
        lemma_at_without(s.drop_last(), gone, value);
        lemma_at_push(s, value);
        if s.last().price.0.value() != gone {
            lemma_at_push(t.push(s.last()), value);
            assert(t.push(s.last()).drop_last() =~= t);
        }
    }
    assert(at_price(without_price(s, gone), value) =~= (if value == gone {
        seq![]
    } else {
        at_price(s, value)
    }));
}

/// Changing the first level at its price changes the first of those.
proof fn lemma_at_first_updated(s: Seq<Level>, k: int, level: Level, value: int)
    requires
        0 <= k < s.len(),
        level.price.0.value() == s[k].price.0.value(),
        forall|i: int| 0 <= i < k ==> (#[trigger] s[i]).price.0.value() != level.price.0.value(),
    ensures
        at_price(s.update(k, level), value) == (if value == level.price.0.value() {
            at_price(s, value).update(0, level)
        } else {
            at_price(s, value)
        }),
        value == level.price.0.value() ==> at_price(s, value).len() > 0 && at_price(s, value)[0]
            == s[k],
{
    let t = s.update(k, level);
    lemma_at_split(s, k, value);
    lemma_at_split(t, k, value);
    assert(t.take(k) =~= s.take(k));
    let rest = s.skip(k + 1);
    assert(s.skip(k) =~= seq![s[k]] + rest);
    assert(t.skip(k) =~= seq![level] + rest);
    Seq::filter_distributes_over_add(seq![s[k]], rest, priced(value));
    Seq::filter_distributes_over_add(seq![level], rest, priced(value));
    lemma_at_one(s[k], value);
    lemma_at_one(level, value);
    if value == level.price.0.value() {
        lemma_at_none(s.take(k), value);
        assert(at_price(s, value) =~= seq![s[k]] + at_price(rest, value));
        assert(at_price(t, value) =~= at_price(s, value).update(0, level));
    } else {
        assert(at_price(t, value) =~= at_price(s, value));
    }
}

proof fn lemma_at_nothing(s: Seq<Level>, value: int)
    requires
        at_price(s, value).len() == 0,
    ensures
        forall|i: int| 0 <= i < s.len() ==> (#[trigger] s[i]).price.0.value() != value,
{
    assert forall|i: int| 0 <= i < s.len() implies (#[trigger] s[i]).price.0.value() != value by {
        if s[i].price.0.value() == value {
            s.lemma_filter_contains(priced(value), i);
        }
    }
}

/// What a change does at each price, on a side in order of price.
proof fn lemma_at_changed(is_bid: bool, s: Seq<Level>, price: Price, size: Quantity, value: int)
    requires
        ordered(is_bid, s),
    ensures
        at_price(changed_ladder(is_bid, s, price, size), value) == (if value != price.0.value() {
            at_price(s, value)
        } else if size.0.magnitude() == 0 {
            seq![]
        } else if at_price(s, value).len() > 0 {
            at_price(s, value).update(
                0,
                Level { price: at_price(s, value)[0].price, size },
            )
        } else {
            seq![Level { price, size }]
        }),
{
    let v = price.0.value();
    let k = first_at(s, v) as int;
    lemma_first_at(s, v);
    if size.0.magnitude() == 0 {
        lemma_at_without(s, v, value);
    } else if k < s.len() {
        lemma_at_first_updated(s, k, Level { price: s[k].price, size }, value);
    } else {
        lemma_at_insert_behind(is_bid, s, Level { price, size }, value);
        lemma_at_none(s, v);
        assert(Seq::<Level>::empty().push(Level { price, size }) =~= seq![Level { price, size }]);
    }
}

pub proof fn lemma_directions(s: Seq<Level>)
    ensures
        ordered(true, s) <==> descending(s),
        ordered(false, s) <==> ascending(s),
{
    if ordered(true, s) {
        assert forall|i: int, j: int| 0 <= i < j < s.len() implies s[i].price.0.value()
            >= s[j].price.0.value() by {
            assert(rank(true, s[i]) <= rank(true, s[j]));
        }
    }
    if ordered(false, s) {
        assert forall|i: int, j: int| 0 <= i < j < s.len() implies s[i].price.0.value()
            <= s[j].price.0.value() by {
            assert(rank(false, s[i]) <= rank(false, s[j]));
        }
    }
}

// ---------------------------------------------------------------------------
// Every kind of book
// ---------------------------------------------------------------------------

/// A side in order of price lists, at every price, what a snapshot names there.
pub proof fn lemma_snapshot_at<B: OrderbookLike>(bids: Seq<Level>, asks: Seq<Level>, after: &B)
    requires
        B::snapshot_gives(bids, asks, after),
    ensures
        listable(bids) ==> after.regular(Side::Bid) && forall|value: int| #[trigger]
            at_price(after.bid_levels(), value) == at_price(bids, value),
        listable(asks) ==> after.regular(Side::Ask) && forall|value: int| #[trigger]
            at_price(after.ask_levels(), value) == at_price(asks, value),
{
    B::law_snapshot(bids, asks, after);
    if listable(bids) {
        assert(distinct_prices(bids) && no_empty_level(bids));
        assert forall|value: int| #[trigger]
            at_price(after.bid_levels(), value) == at_price(bids, value) by {
            lemma_at_sorted(true, bids, value);
        }
    }
    if listable(asks) {
        assert(distinct_prices(asks) && no_empty_level(asks));
        assert forall|value: int| #[trigger]
            at_price(after.ask_levels(), value) == at_price(asks, value) by {
            lemma_at_sorted(false, asks, value);
        }
    }
}

/// After a snapshot without repeated prices and empty levels, a book of any kind lists at
/// every price what the snapshot names there and nothing else, bids with the prices going
/// down and asks with the prices going up, whatever it listed before.
pub proof fn law_apply_snapshot<B: OrderbookLike>(
    book: &mut B,
    bids: Vec<Level>,
    asks: Vec<Level>,
    done: (),
)
    requires
        call_ensures(B::apply_snapshot, (book, bids, asks), done),
    ensures
        descending(final(book).bid_levels()),
        ascending(final(book).ask_levels()),
        listable(bids@) ==> final(book).regular(Side::Bid) && forall|value: int| #[trigger]
            at_price(final(book).bid_levels(), value) == at_price(bids@, value),
        listable(asks@) ==> final(book).regular(Side::Ask) && forall|value: int| #[trigger]
            at_price(final(book).ask_levels(), value) == at_price(asks@, value),
{
    let after = *final(book);
    lemma_snapshot_at(bids@, asks@, &after);
    B::law_ordered(&after);
    lemma_directions(after.bid_levels());
    lemma_directions(after.ask_levels());
}

/// What a change to a regular side does at each price.
pub open spec fn change_at(
    before: Seq<Level>,
    price: Price,
    size: Quantity,
    after: Seq<Level>,
) -> bool {
    let value = price.0.value();
    &&& forall|other: int|
        other != value ==> #[trigger] at_price(after, other) == at_price(before, other)
    &&& size.0.magnitude() == 0 ==> at_price(after, value).len() == 0
    &&& size.0.magnitude() != 0 ==> at_price(after, value) == seq![
        Level {
            price: if at_price(before, value).len() > 0 {
                at_price(before, value)[0].price
            } else {
                price
            },
            size,
        },
    ]
}

pub proof fn lemma_change_at<B: OrderbookLike>(
    before: &B,
    side: Side,
    price: Price,
    size: Quantity,
    after: &B,
)
    requires
        before.wf(),
        before.regular(side),
        levels_on(before, side).len() < pool_limit(),
        B::change_gives(before, side, price, size, after),
    ensures
        change_at(levels_on(before, side), price, size, levels_on(after, side)),
        after.regular(side),
        side is Bid ==> after.ask_levels() == before.ask_levels(),
        side is Ask ==> after.bid_levels() == before.bid_levels(),
{
    let s = levels_on(before, side);
    let t = levels_on(after, side);
    let value = price.0.value();
    B::law_change(before, side, price, size, after);
    B::law_ordered(before);
    assert forall|other: int| other != value implies #[trigger] at_price(t, other) == at_price(
        s,
        other,
    ) by {
        lemma_at_changed(side is Bid, s, price, size, other);
    }
    lemma_at_changed(side is Bid, s, price, size, value);
    if at_price(s, value).len() > 0 {
        lemma_at_regular(side is Bid, s, value);
        let level = Level { price: at_price(s, value)[0].price, size };
        assert(at_price(s, value).update(0, level) =~= seq![level]);
    }
}

/// On a strictly ordered side no price has two levels.
proof fn lemma_at_regular(is_bid: bool, s: Seq<Level>, value: int)
    requires
        strictly_ordered(is_bid, s),
    ensures
        at_price(s, value).len() <= 1,
    decreases s.len(),
{
    if s.len() > 0 {
        let t = s.drop_last();
        lemma_at_push(s, value);
        assert(forall|i: int| 0 <= i < t.len() ==> #[trigger] t[i] == s[i]);
        lemma_at_regular(is_bid, t, value);
        if s.last().price.0.value() == value {
            assert forall|i: int| 0 <= i < t.len() implies (#[trigger] t[i]).price.0.value()
                != value by {
                assert(rank(is_bid, s[i]) < rank(is_bid, s[s.len() - 1]));
            }
            lemma_at_none(t, value);
        }
    } else {
        lemma_at_none(s, value);
    }
}

/// A change sets the level at its price, or takes it away where its size is zero, whatever
/// place the price has; every other price and the other side list what they did.
pub proof fn law_apply_price_change<B: OrderbookLike>(
    book: &mut B,
    side: Side,
    price: Price,
    size: Quantity,
    done: (),
)
    requires
        old(book).wf(),
        call_ensures(B::apply_price_change, (book, side, price, size), done),
    ensures
        descending(final(book).bid_levels()),
        ascending(final(book).ask_levels()),
        side is Bid ==> final(book).ask_levels() == old(book).ask_levels(),
        side is Ask ==> final(book).bid_levels() == old(book).bid_levels(),
        side is Bid && old(book).regular(Side::Bid) && old(book).bid_levels().len() < 0xffff_ffff
            ==> final(book).regular(Side::Bid) && change_at(
            old(book).bid_levels(),
            price,
            size,
            final(book).bid_levels(),
        ),
        side is Ask && old(book).regular(Side::Ask) && old(book).ask_levels().len() < 0xffff_ffff
            ==> final(book).regular(Side::Ask) && change_at(
            old(book).ask_levels(),
            price,
            size,
            final(book).ask_levels(),
        ),
{
    let before = *old(book);
    let after = *final(book);
    B::law_ordered(&after);
    B::law_change(&before, side, price, size, &after);
    lemma_directions(after.bid_levels());
    lemma_directions(after.ask_levels());
    if before.regular(side) && levels_on(&before, side).len() < pool_limit() {
        lemma_change_at(&before, side, price, size, &after);
    }
}

/// What is walked on a side are its levels, all of them and in order.
pub proof fn law_bids_and_asks<'a, B: OrderbookLike>(
    book: &'a B,
    bids: B::BidIter<'a>,
    asks: B::AskIter<'a>,
)
    requires
        book.wf(),
        call_ensures(B::bids, (book,), bids),
        call_ensures(B::asks, (book,), asks),
    ensures
        bids.remaining() == book.bid_levels(),
        asks.remaining() == book.ask_levels(),
        descending(bids.remaining()),
        ascending(asks.remaining()),
{
    B::law_ordered(book);
    lemma_directions(book.bid_levels());
    lemma_directions(book.ask_levels());
}

/// The best bid is the highest of the bids and the best ask the lowest of the asks; there
/// is none exactly where the side is empty.
pub proof fn law_best<B: OrderbookLike>(book: &B, bid: Option<Level>, ask: Option<Level>)
    requires
        book.wf(),
        call_ensures(B::best_bid, (book,), bid),
        call_ensures(B::best_ask, (book,), ask),
    ensures
        bid is Some <==> book.bid_levels().len() > 0,
        ask is Some <==> book.ask_levels().len() > 0,
        bid is Some ==> bid->0 == book.bid_levels()[0] && forall|k: int|
            0 <= k < book.bid_levels().len() ==> (
            #[trigger] book.bid_levels()[k]).price.0.value() <= bid->0.price.0.value(),
        ask is Some ==> ask->0 == book.ask_levels()[0] && forall|k: int|
            0 <= k < book.ask_levels().len() ==> (
            #[trigger] book.ask_levels()[k]).price.0.value() >= ask->0.price.0.value(),
{
    B::law_ordered(book);
    lemma_directions(book.bid_levels());
    lemma_directions(book.ask_levels());
    if bid is Some {
        assert(book.bid_levels()[0] == bid->0);
    }
    if ask is Some {
        assert(book.ask_levels()[0] == ask->0);
    }
}

/// The spread is what the best ask is above the best bid, zero where it is not above it;
/// there is none where a side is empty.
pub proof fn law_spread_between_the_best<B: OrderbookLike>(
    book: &B,
    bid: Option<Level>,
    ask: Option<Level>,
    spread: Option<Price>,
    checked: Result<Option<Price>, Overflow>,
)
    requires
        book.wf(),
        call_ensures(B::best_bid, (book,), bid),
        call_ensures(B::best_ask, (book,), ask),
        call_ensures(B::spread, (book,), spread),
        call_ensures(B::checked_spread, (book,), checked),
    ensures
        spread is Some <==> bid is Some && ask is Some,
        bid is Some && ask is Some && ask->0.price.0.value() <= bid->0.price.0.value() ==> {
            &&& (spread->0).0.value() == 0
            &&& (spread->0).0.text() == seq!['0']
        },
        bid is Some && ask is Some && bid->0.price.0.value() < ask->0.price.0.value() ==> {
            let difference = decimal_difference(ask->0.price.0, bid->0.price.0);
            &&& checked is Err <==> difference is None
            &&& difference is Some ==> spread == Some(Price(difference->0))
        },
        checked is Err ==> bid is Some && ask is Some && bid->0.price.0.value()
            < ask->0.price.0.value(),
        checked is Ok ==> checked->Ok_0 == spread,
{
    lemma_zero_decimal();
}

// ---------------------------------------------------------------------------
// Each kind of book, whatever it is given
// ---------------------------------------------------------------------------

/// The reference book lists every level of a snapshot, also the empty ones and those of a
/// repeated price, which keep the order in which they came.
pub proof fn law_basic_snapshot(
    book: &mut BasicOrderbook,
    bids: Vec<Level>,
    asks: Vec<Level>,
    done: (),
    value: int,
)
    requires
        call_ensures(BasicOrderbook::apply_snapshot, (book, bids, asks), done),
    ensures
        at_price(final(book).bid_levels(), value) == at_price(bids@, value),
        at_price(final(book).ask_levels(), value) == at_price(asks@, value),
{
    lemma_at_sorted(true, bids@, value);
    lemma_at_sorted(false, asks@, value);
}

/// A change to the reference book takes away every level at its price where its size is
/// zero, and else changes the first of them or adds one.
pub proof fn law_basic_change(
    book: &mut BasicOrderbook,
    side: Side,
    price: Price,
    size: Quantity,
    done: (),
    value: int,
)
    requires
        old(book).wf(),
        call_ensures(BasicOrderbook::apply_price_change, (book, side, price, size), done),
    ensures
        ({
            let before = if side is Bid {
                old(book).bid_levels()
            } else {
                old(book).ask_levels()
            };
            let after = if side is Bid {
                final(book).bid_levels()
            } else {
                final(book).ask_levels()
            };
            let there = at_price(before, value);
            at_price(after, value) == (if value != price.0.value() {
                there
            } else if size.0.magnitude() == 0 {
                seq![]
            } else if there.len() > 0 {
                there.update(0, Level { price: there[0].price, size })
            } else {
                seq![Level { price, size }]
            })
        }),
{
    let before = *old(book);
    lemma_at_changed(side is Bid, levels_on(&before, side), price, size, value);
}

proof fn lemma_filled(s: Seq<Level>)
    ensures
        filled(s) == without_empty(s),
    decreases s.len(),
{
    reveal(Seq::filter);
    if s.len() > 0 {
        lemma_filled(s.drop_last());
    }
}

/// Levels that enter one after the other: behind those of their price, or in front.
proof fn lemma_at_entered(is_bid: bool, in_front: bool, s: Seq<Level>, value: int)
    requires
        no_empty_level(s),
        s.len() <= pool_limit(),
    ensures
        indexed_wf(is_bid, in_front, indexed_snapshot(is_bid, in_front, s)),
        indexed_snapshot(is_bid, in_front, s).levels.len() == s.len(),
        at_price(indexed_snapshot(is_bid, in_front, s).levels, value) == (if in_front {
            at_price(s, value).reverse()
        } else {
            at_price(s, value)
        }),
    decreases s.len(),
{
    if s.len() == 0 {
        lemma_at_none(s, value);
        lemma_at_none(indexed_snapshot(is_bid, in_front, s).levels, value);
        assert(at_price(s, value).reverse() =~= seq![]);
    } else {
        let t = s.drop_last();
        let level = s.last();
        let side = indexed_snapshot(is_bid, in_front, t);
        assert(forall|i: int| 0 <= i < t.len() ==> #[trigger] t[i] == s[i]);
        lemma_at_entered(is_bid, in_front, t, value);
        assert(level == s[s.len() - 1]);
        lemma_entered_wf(is_bid, in_front, side, level);
        lemma_at_push(s, value);
        lemma_better_than(is_bid, side.levels, rank(is_bid, level));
        lemma_as_good_as(is_bid, side.levels, rank(is_bid, level));
        if in_front {
            lemma_at_insert_in_front(is_bid, side.levels, level, value);
            if level.price.0.value() == value {
                assert(at_price(s, value).reverse() =~= seq![level] + at_price(t, value).reverse());
            }
        } else {
            lemma_at_insert_behind(is_bid, side.levels, level, value);
        }
    }
}

proof fn lemma_at_indexed(is_bid: bool, in_front: bool, s: Seq<Level>, value: int)
    requires
        filled(s).len() <= pool_limit(),
    ensures
        at_price(indexed_snapshot(is_bid, in_front, s).levels, value) == (if in_front {
            at_price(filled(s), value).reverse()
        } else {
            at_price(filled(s), value)
        }),
{
    lemma_filled(s);
    lemma_snapshot_drops_empty(is_bid, in_front, s);
    lemma_at_entered(is_bid, in_front, without_empty(s), value);
}

/// The list book lists every level of a snapshot that is not empty; those of a repeated
/// price keep the order in which they came.
pub proof fn law_fast_snapshot(
    book: &mut FastOrderbook,
    bids: Vec<Level>,
    asks: Vec<Level>,
    done: (),
    value: int,
)
    requires
        call_ensures(FastOrderbook::apply_snapshot, (book, bids, asks), done),
    ensures
        filled(bids@).len() <= 0xffff_ffff ==> at_price(final(book).bid_levels(), value)
            == at_price(filled(bids@), value),
        filled(asks@).len() <= 0xffff_ffff ==> at_price(final(book).ask_levels(), value)
            == at_price(filled(asks@), value),
{
    if filled(bids@).len() <= pool_limit() {
        lemma_at_indexed(true, false, bids@, value);
    }
    if filled(asks@).len() <= pool_limit() {
        lemma_at_indexed(false, false, asks@, value);
    }
}

/// The skip-list book lists every level of a snapshot that is not empty; of those of a
/// repeated price the one that came last stands first.
pub proof fn law_skip_snapshot(
    book: &mut SkipOrderbook,
    bids: Vec<Level>,
    asks: Vec<Level>,
    done: (),
    value: int,
)
    requires
        call_ensures(SkipOrderbook::apply_snapshot, (book, bids, asks), done),
    ensures
        filled(bids@).len() <= 0xffff_ffff ==> at_price(final(book).bid_levels(), value)
            == at_price(filled(bids@), value).reverse(),
        filled(asks@).len() <= 0xffff_ffff ==> at_price(final(book).ask_levels(), value)
            == at_price(filled(asks@), value).reverse(),
{
    if filled(bids@).len() <= pool_limit() {
        lemma_at_indexed(true, true, bids@, value);
    }
    if filled(asks@).len() <= pool_limit() {
        lemma_at_indexed(false, true, asks@, value);
    }
}

/// A price is found exactly where a level of it entered.
proof fn lemma_entered_found(is_bid: bool, in_front: bool, s: Seq<Level>, value: int)
    requires
        no_empty_level(s),
        s.len() <= pool_limit(),
    ensures
        indexed_snapshot(is_bid, in_front, s).indexed.contains(value) <==> at_price(
            s,
            value,
        ).len() > 0,
    decreases s.len(),
{
    if s.len() == 0 {
        lemma_at_none(s, value);
    } else {
        let t = s.drop_last();
        assert(forall|i: int| 0 <= i < t.len() ==> #[trigger] t[i] == s[i]);
        assert(s.last() == s[s.len() - 1]);
        lemma_at_entered(is_bid, in_front, t, value);
        lemma_at_push(s, value);
        lemma_entered_found(is_bid, in_front, t, value);
    }
}

/// The levels at a price in front of a place, at it and behind it.
proof fn lemma_at_parts(s: Seq<Level>, k: int, level: Level, value: int)
    requires
        0 <= k < s.len(),
    ensures
        at_price(s, value) == at_price(s.take(k), value) + at_price(seq![s[k]], value) + at_price(
            s.skip(k + 1),
            value,
        ),
        at_price(s.remove(k), value) == at_price(s.take(k), value) + at_price(
            s.skip(k + 1),
            value,
        ),
        at_price(s.update(k, level), value) == at_price(s.take(k), value) + at_price(
            seq![level],
            value,
        ) + at_price(s.skip(k + 1), value),
{
    let front = s.take(k);
    let rest = s.skip(k + 1);
    assert(s =~= front + seq![s[k]] + rest);
    assert(s.remove(k) =~= front + rest);
    assert(s.update(k, level) =~= front + seq![level] + rest);
    Seq::filter_distributes_over_add(front + seq![s[k]], rest, priced(value));
    Seq::filter_distributes_over_add(front, seq![s[k]], priced(value));
    Seq::filter_distributes_over_add(front, rest, priced(value));
    Seq::filter_distributes_over_add(front + seq![level], rest, priced(value));
    Seq::filter_distributes_over_add(front, seq![level], priced(value));
}

/// What a change does at each price to a side on which its price is found: it goes by the
/// level of it that entered last.
#[verifier::spinoff_prover]
#[verifier::rlimit(60)]
proof fn lemma_at_indexed_change(
    is_bid: bool,
    in_front: bool,
    side: IndexedSide,
    price: Price,
    size: Quantity,
    value: int,
)
    requires
        indexed_wf(is_bid, in_front, side),
        side.indexed.contains(price.0.value()),
    ensures
        ({
            let there = at_price(side.levels, value);
            let last = if in_front {
                0
            } else {
                there.len() - 1
            };
            let after = indexed_change(is_bid, in_front, side, price, size).levels;
            &&& value == price.0.value() ==> there.len() > 0
            &&& at_price(after, value) == (if value != price.0.value() {
                there
            } else if size.0.magnitude() == 0 {
                there.remove(last)
            } else {
                there.update(last, Level { price: there[last].price, size })
            })
        }),
{
    let s = side.levels;
    let v = price.0.value();
    let k = latest_place(is_bid, in_front, s, v);
    assert(latest_at(is_bid, in_front, s, v));
    let level = Level { price: s[k].price, size };
    lemma_at_parts(s, k, level, value);
    lemma_at_one(s[k], value);
    lemma_at_one(level, value);
    lemma_at_apart(is_bid, in_front, s, v);
    let front = at_price(s.take(k), value);
    let rest = at_price(s.skip(k + 1), value);
    let there = at_price(s, value);
    if value == v {
        if in_front {
            assert(there =~= seq![s[k]] + rest);
            assert(there.remove(0) =~= rest);
            assert(there.update(0, level) =~= seq![level] + rest);
            assert(front + rest =~= rest);
            assert(front + seq![level] + rest =~= seq![level] + rest);
        } else {
            let last = there.len() - 1;
            assert(there =~= front + seq![s[k]]);
            assert(there.remove(last) =~= front);
            assert(there.update(last, level) =~= front + seq![level]);
            assert(front + rest =~= front);
            assert(front + seq![level] + rest =~= front + seq![level]);
        }
    } else {
        assert(there =~= front + rest);
        assert(front + seq![] + rest =~= front + rest);
    }
}

/// No level of the price stands in front of its first one, and none behind its last.
proof fn lemma_at_apart(is_bid: bool, in_front: bool, s: Seq<Level>, v: int)
    requires
        ordered(is_bid, s),
        latest_at(is_bid, in_front, s, v),
    ensures
        ({
            let k = latest_place(is_bid, in_front, s, v);
            &&& in_front ==> at_price(s.take(k), v) == Seq::<Level>::empty()
            &&& !in_front ==> at_price(s.skip(k + 1), v) == Seq::<Level>::empty()
        }),
{
    let r = rank_of(is_bid, v);
    let k = latest_place(is_bid, in_front, s, v);
    lemma_better_than(is_bid, s, r);
    lemma_as_good_as(is_bid, s, r);
    if in_front {
        let front = s.take(k);
        assert forall|i: int| 0 <= i < front.len() implies (#[trigger] front[i]).price.0.value()
            != v by {
            assert(rank(is_bid, s[i]) < r);
        }
        lemma_at_none(front, v);
    } else {
        let rest = s.skip(k + 1);
        assert forall|i: int| 0 <= i < rest.len() implies (#[trigger] rest[i]).price.0.value()
            != v by {
            assert(rank(is_bid, s[k + 1 + i]) > r);
        }
        lemma_at_none(rest, v);
    }
}

/// What a change does at each price to a side with an index: the level that came last at
/// its price, if the price is found, leaves or gets the size; else one is added, unless
/// the size is zero.
proof fn lemma_indexed_change_at(
    is_bid: bool,
    in_front: bool,
    side: IndexedSide,
    price: Price,
    size: Quantity,
    value: int,
)
    requires
        indexed_wf(is_bid, in_front, side),
    ensures
        ({
            let after = indexed_change(is_bid, in_front, side, price, size);
            let there = at_price(side.levels, value);
            let now = at_price(after.levels, value);
            let v = price.0.value();
            let last = if in_front {
                0
            } else {
                there.len() - 1
            };
            let room = side.levels.len() < pool_limit();
            &&& value != v ==> now == there && (after.indexed.contains(value)
                <==> side.indexed.contains(value))
            &&& value == v && size.0.magnitude() == 0 ==> !after.indexed.contains(v)
            &&& value == v && size.0.magnitude() != 0 && room ==> after.indexed.contains(v)
            &&& value == v && side.indexed.contains(v) ==> there.len() > 0 && now == (
            if size.0.magnitude() == 0 {
                there.remove(last)
            } else {
                there.update(last, Level { price: there[last].price, size })
            })
            &&& value == v && !side.indexed.contains(v) && size.0.magnitude() == 0 ==> now == there
            &&& value == v && !side.indexed.contains(v) && size.0.magnitude() != 0 && room ==> now
                == (if in_front {
                seq![Level { price, size }] + there
            } else {
                there.push(Level { price, size })
            })
        }),
{
    if side.indexed.contains(price.0.value()) {
        lemma_at_indexed_change(is_bid, in_front, side, price, size, value);
    } else if size.0.magnitude() != 0 {
        let level = Level { price, size };
        lemma_at_insert_in_front(is_bid, side.levels, level, value);
        lemma_at_insert_behind(is_bid, side.levels, level, value);
    }
}

/// The side of a list book: its levels, and the prices at which a level is found.
pub open spec fn fast_side(book: &FastOrderbook, side: Side) -> IndexedSide {
    match side {
        Side::Bid => book.bid_side(),
        Side::Ask => book.ask_side(),
    }
}

/// A change to a list book goes by the last level at its price, if the price is found there:
/// the level leaves where the size is zero, and else gets the size. Where the price is not
/// found, a level is added behind those of the price, unless the size is zero. The price is
/// then found exactly where the size is not zero. Nothing else is touched.
pub proof fn law_fast_change(
    book: &mut FastOrderbook,
    side: Side,
    price: Price,
    size: Quantity,
    done: (),
    value: int,
)
    requires
        old(book).wf(),
        levels_on(old(book), side).len() < 0xffff_ffff,
        call_ensures(FastOrderbook::apply_price_change, (book, side, price, size), done),
    ensures
        ({
            let there = at_price(levels_on(old(book), side), value);
            let now = at_price(levels_on(final(book), side), value);
            let found = fast_side(old(book), side).indexed;
            let found_now = fast_side(final(book), side).indexed;
            let v = price.0.value();
            &&& value != v ==> now == there && (found_now.contains(value) <==> found.contains(
                value,
            ))
            &&& found_now.contains(v) <==> size.0.magnitude() != 0
            &&& value == v && found.contains(v) ==> there.len() > 0 && now == (
            if size.0.magnitude() == 0 {
                there.drop_last()
            } else {
                there.update(there.len() - 1, Level { price: there.last().price, size })
            })
            &&& value == v && !found.contains(v) ==> now == (if size.0.magnitude() == 0 {
                there
            } else {
                there.push(Level { price, size })
            })
        }),
{
    let before = *old(book);
    before.law_sides();
    let s = fast_side(&before, side);
    lemma_indexed_change_at(side is Bid, false, s, price, size, value);
    lemma_indexed_change_at(side is Bid, false, s, price, size, price.0.value());
    let there = at_price(s.levels, value);
    if value == price.0.value() && s.indexed.contains(value) {
        assert(there.remove(there.len() - 1) =~= there.drop_last());
    }
}

/// After a snapshot the prices that it names with a size are found, and no others.
pub proof fn law_fast_snapshot_is_found(
    book: &mut FastOrderbook,
    bids: Vec<Level>,
    asks: Vec<Level>,
    done: (),
    value: int,
)
    requires
        call_ensures(FastOrderbook::apply_snapshot, (book, bids, asks), done),
    ensures
        filled(bids@).len() <= 0xffff_ffff ==> (final(book).bid_side().indexed.contains(value)
            <==> at_price(filled(bids@), value).len() > 0),
        filled(asks@).len() <= 0xffff_ffff ==> (final(book).ask_side().indexed.contains(value)
            <==> at_price(filled(asks@), value).len() > 0),
{
    if filled(bids@).len() <= pool_limit() {
        lemma_snapshot_found(true, false, bids@, value);
    }
    if filled(asks@).len() <= pool_limit() {
        lemma_snapshot_found(false, false, asks@, value);
    }
}

/// A change to a skip-list book goes by the first level at its price, if the price is found
/// there: the level leaves where the size is zero, and else gets the size. Where the price is
/// not found, a level is added in front of those of the price, unless the size is zero. The
/// price is then found exactly where the size is not zero. Nothing else is touched.
pub proof fn law_skip_change(
    book: &mut SkipOrderbook,
    side: Side,
    price: Price,
    size: Quantity,
    done: (),
    value: int,
)
    requires
        old(book).wf(),
        levels_on(old(book), side).len() < 0xffff_ffff,
        call_ensures(SkipOrderbook::apply_price_change, (book, side, price, size), done),
    ensures
        ({
            let there = at_price(levels_on(old(book), side), value);
            let now = at_price(levels_on(final(book), side), value);
            let found = old(book).side(side).indexed;
            let v = price.0.value();
            &&& value != v ==> now == there && (final(book).side(side).indexed.contains(value)
                <==> found.contains(value))
            &&& final(book).side(side).indexed.contains(v) <==> size.0.magnitude() != 0
            &&& value == v && found.contains(v) ==> there.len() > 0 && now == (
            if size.0.magnitude() == 0 {
                there.drop_first()
            } else {
                there.update(0, Level { price: there[0].price, size })
            })
            &&& value == v && !found.contains(v) ==> now == (if size.0.magnitude() == 0 {
                there
            } else {
                seq![Level { price, size }] + there
            })
        }),
{
    let before = *old(book);
    before.law_sides(side);
    let s = before.side(side);
    lemma_indexed_change_at(side is Bid, true, s, price, size, value);
    lemma_indexed_change_at(side is Bid, true, s, price, size, price.0.value());
    let there = at_price(s.levels, value);
    if value == price.0.value() && s.indexed.contains(value) {
        assert(there.remove(0) =~= there.drop_first());
    }
}

/// After a snapshot the prices that it names with a size are found, and no others.
pub proof fn law_skip_snapshot_is_found(
    book: &mut SkipOrderbook,
    bids: Vec<Level>,
    asks: Vec<Level>,
    done: (),
    value: int,
)
    requires
        call_ensures(SkipOrderbook::apply_snapshot, (book, bids, asks), done),
    ensures
        filled(bids@).len() <= 0xffff_ffff ==> (final(book).side(Side::Bid).indexed.contains(value)
            <==> at_price(filled(bids@), value).len() > 0),
        filled(asks@).len() <= 0xffff_ffff ==> (final(book).side(Side::Ask).indexed.contains(value)
            <==> at_price(filled(asks@), value).len() > 0),
{
    if filled(bids@).len() <= pool_limit() {
        lemma_snapshot_found(true, true, bids@, value);
    }
    if filled(asks@).len() <= pool_limit() {
        lemma_snapshot_found(false, true, asks@, value);
    }
}

proof fn lemma_snapshot_found(is_bid: bool, in_front: bool, s: Seq<Level>, value: int)
    requires
        filled(s).len() <= pool_limit(),
    ensures
        indexed_snapshot(is_bid, in_front, s).indexed.contains(value) <==> at_price(
            filled(s),
            value,
        ).len() > 0,
{
    lemma_filled(s);
    lemma_snapshot_drops_empty(is_bid, in_front, s);
    lemma_entered_found(is_bid, in_front, without_empty(s), value);
}

/// A new book of any kind lists nothing.
pub proof fn law_new_books(
    basic: BasicOrderbook,
    fast: FastOrderbook,
    fast_default: FastOrderbook,
    skip: SkipOrderbook,
    skip_default: SkipOrderbook,
)
    requires
        call_ensures(BasicOrderbook::default, (), basic),
        call_ensures(FastOrderbook::new, (), fast),
        call_ensures(FastOrderbook::default, (), fast_default),
        call_ensures(SkipOrderbook::new, (), skip),
        call_ensures(SkipOrderbook::default, (), skip_default),
    ensures
        basic.bid_levels().len() == 0 && basic.ask_levels().len() == 0,
        fast.bid_levels().len() == 0 && fast.ask_levels().len() == 0,
        fast_default.bid_levels().len() == 0 && fast_default.ask_levels().len() == 0,
        skip.bid_levels().len() == 0 && skip.ask_levels().len() == 0,
        skip_default.bid_levels().len() == 0 && skip_default.ask_levels().len() == 0,
        basic.wf() && fast.wf() && fast_default.wf() && skip.wf() && skip_default.wf(),
{
    BasicOrderbook::law_default(&basic);
}

} // verus!
