//! What holds of every order book, whichever way it stores its levels.

use crate::basic_orderbook::{
    best_of, spread_of, Level, OrderbookLike, Price, Quantity, Side,
};
use crate::decimal::lemma_zero_decimal;
use crate::ladder::{
    as_good_as, changed_ladder, distinct_prices, first_at, lemma_as_good_as, lemma_changed_strict,
    lemma_first_at, lemma_found, lemma_insert_strict, lemma_sorted_ladder, lemma_sorted_strict,
    lemma_without_absent, lemma_without_found, no_empty_level, pool_limit, rank, sorted_ladder,
    strictly_ordered,
};
use vstd::prelude::*;

verus! {

/// The levels on a side, best first.
pub open spec fn levels_on<B: OrderbookLike>(book: &B, side: Side) -> Seq<Level> {
    match side {
        Side::Bid => book.bid_levels(),
        Side::Ask => book.ask_levels(),
    }
}

/// The size listed at a price, if the price is listed.
pub open spec fn size_at(s: Seq<Level>, value: int) -> Option<Quantity> {
    let k = first_at(s, value) as int;
    if k < s.len() {
        Some(s[k].size)
    } else {
        None
    }
}

proof fn lemma_size_at(is_bid: bool, s: Seq<Level>, k: int)
    requires
        strictly_ordered(is_bid, s),
        0 <= k < s.len(),
    ensures
        size_at(s, s[k].price.0.value()) == Some(s[k].size),
{
    lemma_found(is_bid, s, k);
}

proof fn lemma_size_absent(s: Seq<Level>, value: int)
    requires
        forall|k: int| 0 <= k < s.len() ==> (#[trigger] s[k]).price.0.value() != value,
    ensures
        size_at(s, value) is None,
{
    lemma_first_at(s, value);
}

/// Two sides that list the same levels, up to their places, name the same sizes.
proof fn lemma_size_kept(is_bid: bool, s: Seq<Level>, t: Seq<Level>, value: int)
    requires
        strictly_ordered(is_bid, s),
        strictly_ordered(is_bid, t),
        forall|x: Level|
            x.price.0.value() == value ==> (#[trigger] s.contains(x) <==> t.contains(x)),
    ensures
        size_at(s, value) == size_at(t, value),
{
    lemma_first_at(s, value);
    lemma_first_at(t, value);
    let j = first_at(s, value) as int;
    let k = first_at(t, value) as int;
    if j < s.len() {
        assert(s.contains(s[j]));
        assert(t.contains(s[j]));
        let m = choose|m: int| 0 <= m < t.len() && t[m] == s[j];
        lemma_size_at(is_bid, t, m);
    } else if k < t.len() {
        assert(t.contains(t[k]));
        assert(s.contains(t[k]));
        let m = choose|m: int| 0 <= m < s.len() && s[m] == t[k];
        lemma_size_at(is_bid, s, m);
    }
}

proof fn lemma_changed_sizes(
    is_bid: bool,
    s: Seq<Level>,
    price: Price,
    size: Quantity,
    value: int,
)
    requires
        strictly_ordered(is_bid, s),
    ensures
        size_at(changed_ladder(is_bid, s, price, size), value) == (if value != price.0.value() {
            size_at(s, value)
        } else if size.0.magnitude() == 0 {
            None
        } else {
            Some(size)
        }),
{
    let v = price.0.value();
    let k = first_at(s, v) as int;
    let t = changed_ladder(is_bid, s, price, size);
    lemma_first_at(s, v);
    lemma_changed_strict(is_bid, s, price, size);
    if k < s.len() {
        lemma_without_found(is_bid, s, k);
        if size.0.magnitude() == 0 {
            assert(t == s.remove(k));
            if value == v {
                assert forall|j: int| 0 <= j < t.len() implies (
                #[trigger] t[j]).price.0.value() != v by {
                    let i = if j < k {
                        j
                    } else {
                        j + 1
                    };
                    assert(t[j] == s[i]);
                    assert(rank(is_bid, s[i]) != rank(is_bid, s[k]));
                }
                lemma_size_absent(t, v);
            } else {
                assert forall|x: Level| x.price.0.value() == value implies (
                #[trigger] s.contains(x) <==> t.contains(x)) by {
                    if s.contains(x) {
                        let i = choose|i: int| 0 <= i < s.len() && s[i] == x;
                        assert(t[if i < k {
                            i
                        } else {
                            i - 1
                        }] == x);
                    }
                    if t.contains(x) {
                        let i = choose|i: int| 0 <= i < t.len() && t[i] == x;
                        assert(s[if i < k {
                            i
                        } else {
                            i + 1
                        }] == x);
                    }
                }
                lemma_size_kept(is_bid, s, t, value);
            }
        } else {
            assert(t[k].price.0.value() == v);
            if value == v {
                lemma_size_at(is_bid, t, k);
            } else {
                assert forall|x: Level| x.price.0.value() == value implies (
                #[trigger] s.contains(x) <==> t.contains(x)) by {
                    if s.contains(x) {
                        let i = choose|i: int| 0 <= i < s.len() && s[i] == x;
                        assert(t[i] == x);
                    }
                    if t.contains(x) {
                        let i = choose|i: int| 0 <= i < t.len() && t[i] == x;
                        assert(s[i] == x);
                    }
                }
                lemma_size_kept(is_bid, s, t, value);
            }
        }
    } else {
        lemma_without_absent(s, v);
        if size.0.magnitude() != 0 {
            let level = Level { price, size };
            let p = as_good_as(is_bid, s, rank(is_bid, level)) as int;
            lemma_as_good_as(is_bid, s, rank(is_bid, level));
            assert(t == s.insert(p, level));
            assert(t[p] == level);
            if value == v {
                lemma_size_at(is_bid, t, p);
            } else {
                assert forall|x: Level| x.price.0.value() == value implies (
                #[trigger] s.contains(x) <==> t.contains(x)) by {
                    if s.contains(x) {
                        let i = choose|i: int| 0 <= i < s.len() && s[i] == x;
                        assert(t[if i < p {
                            i
                        } else {
                            i + 1
                        }] == x);
                    }
                    if t.contains(x) {
                        let i = choose|i: int| 0 <= i < t.len() && t[i] == x;
                        assert(s[if i < p {
                            i
                        } else {
                            i - 1
                        }] == x);
                    }
                }
                lemma_size_kept(is_bid, s, t, value);
            }
        } else if value == v {
            lemma_size_absent(s, v);
        }
    }
}

/// After a change the price lists the new size, or nothing where the size is zero,
/// and every other price lists what it did. The other side is as it was.
pub proof fn law_change_sets_one_price<B: OrderbookLike>(
    before: &B,
    side: Side,
    price: Price,
    size: Quantity,
    after: &B,
    value: int,
)
    requires
        before.wf(),
        before.regular(side),
        levels_on(before, side).len() < pool_limit(),
        B::change_gives(before, side, price, size, after),
    ensures
        size_at(levels_on(after, side), value) == (if value != price.0.value() {
            size_at(levels_on(before, side), value)
        } else if size.0.magnitude() == 0 {
            None
        } else {
            Some(size)
        }),
        after.regular(side),
        side is Bid ==> after.ask_levels() == before.ask_levels(),
        side is Ask ==> after.bid_levels() == before.bid_levels(),
{
    B::law_change(before, side, price, size, after);
    B::law_ordered(before);
    lemma_changed_sizes(side is Bid, levels_on(before, side), price, size, value);
}

/// After a snapshot that names no price twice and no empty level, each price lists the
/// size that the snapshot names for it, and any other price nothing.
pub proof fn law_snapshot_sets_every_price<B: OrderbookLike>(
    bids: Seq<Level>,
    asks: Seq<Level>,
    after: &B,
    side: Side,
    value: int,
)
    requires
        distinct_prices(bids),
        distinct_prices(asks),
        no_empty_level(bids),
        no_empty_level(asks),
        bids.len() <= pool_limit(),
        asks.len() <= pool_limit(),
        B::snapshot_gives(bids, asks, after),
    ensures
        size_at(levels_on(after, side), value) == size_at(
            if side is Bid {
                bids
            } else {
                asks
            },
            value,
        ),
        after.regular(side),
{
    let is_bid = side is Bid;
    let s = if is_bid {
        bids
    } else {
        asks
    };
    let t = levels_on(after, side);
    B::law_snapshot(bids, asks, after);
    lemma_sorted_ladder(is_bid, s);
    lemma_sorted_strict(is_bid, s);
    lemma_first_at(s, value);
    lemma_first_at(t, value);
    let j = first_at(s, value) as int;
    let k = first_at(t, value) as int;
    if j < s.len() {
        assert(s.contains(s[j]));
        assert(t.contains(s[j]));
        let m = choose|m: int| 0 <= m < t.len() && t[m] == s[j];
        lemma_size_at(is_bid, t, m);
    } else if k < t.len() {
        assert(t.contains(t[k]));
        assert(s.contains(t[k]));
        let m = choose|m: int| 0 <= m < s.len() && s[m] == t[k];
        assert(s[m].price.0.value() == value);
    }
}

/// A level that a change adds is taken away by giving its price no size.
pub proof fn law_removal_undoes_insertion<B: OrderbookLike>(
    before: &B,
    side: Side,
    price: Price,
    size: Quantity,
    between: &B,
    none: Quantity,
    after: &B,
)
    requires
        before.wf(),
        before.regular(side),
        levels_on(before, side).len() + 1 < pool_limit(),
        size_at(levels_on(before, side), price.0.value()) is None,
        size.0.magnitude() != 0,
        none.0.magnitude() == 0,
        between.wf(),
        B::change_gives(before, side, price, size, between),
        B::change_gives(between, side, price, none, after),
    ensures
        after.bid_levels() == before.bid_levels(),
        after.ask_levels() == before.ask_levels(),
{
    let is_bid = side is Bid;
    let s = levels_on(before, side);
    let level = Level { price, size };
    B::law_change(before, side, price, size, between);
    B::law_change(between, side, price, none, after);
    B::law_ordered(before);
    lemma_first_at(s, price.0.value());
    lemma_insert_strict(is_bid, s, level);
    lemma_as_good_as(is_bid, s, rank(is_bid, level));
    let p = as_good_as(is_bid, s, rank(is_bid, level)) as int;
    let t = s.insert(p, level);
    assert(levels_on(between, side) == t);
    assert(t[p] == level);
    lemma_without_found(is_bid, t, p);
    assert(t.remove(p) =~= s);
}

/// Giving a price the size it was just given changes nothing.
pub proof fn law_change_is_idempotent<B: OrderbookLike>(
    before: &B,
    side: Side,
    price: Price,
    size: Quantity,
    between: &B,
    after: &B,
)
    requires
        before.wf(),
        before.regular(side),
        levels_on(before, side).len() + 1 < pool_limit(),
        between.wf(),
        B::change_gives(before, side, price, size, between),
        B::change_gives(between, side, price, size, after),
    ensures
        after.bid_levels() == between.bid_levels(),
        after.ask_levels() == between.ask_levels(),
{
    let v = price.0.value();
    let s = levels_on(before, side);
    let t = levels_on(between, side);
    B::law_change(before, side, price, size, between);
    B::law_ordered(before);
    lemma_changed_sizes(side is Bid, s, price, size, v);
    lemma_changed_strict(side is Bid, s, price, size);
    lemma_first_at(s, v);
    if first_at(s, v) < s.len() {
        lemma_without_found(side is Bid, s, first_at(s, v) as int);
    } else {
        lemma_without_absent(s, v);
        lemma_as_good_as(side is Bid, s, rank(side is Bid, Level { price, size }));
    }
    B::law_change(between, side, price, size, after);
    lemma_first_at(t, v);
    if size.0.magnitude() == 0 {
        lemma_without_absent(t, v);
    } else {
        let k = first_at(t, v) as int;
        assert(t.update(k, Level { price: t[k].price, size }) =~= t);
    }
}

/// Books of any two kinds that were given the same snapshot, one that names no
/// price twice and no empty level, list the same levels.
pub proof fn law_books_agree_on_snapshot<A: OrderbookLike, B: OrderbookLike>(
    bids: Seq<Level>,
    asks: Seq<Level>,
    a: &A,
    b: &B,
)
    requires
        distinct_prices(bids),
        distinct_prices(asks),
        no_empty_level(bids),
        no_empty_level(asks),
        bids.len() <= pool_limit(),
        asks.len() <= pool_limit(),
        A::snapshot_gives(bids, asks, a),
        B::snapshot_gives(bids, asks, b),
    ensures
        a.bid_levels() == b.bid_levels(),
        a.ask_levels() == b.ask_levels(),
        a.bid_levels() == sorted_ladder(true, bids),
        a.ask_levels() == sorted_ladder(false, asks),
        a.regular(Side::Bid) && a.regular(Side::Ask),
        b.regular(Side::Bid) && b.regular(Side::Ask),
{
    A::law_snapshot(bids, asks, a);
    B::law_snapshot(bids, asks, b);
}

/// Books of any two kinds that list the same levels still do after the same change.
pub proof fn law_books_agree_on_change<A: OrderbookLike, B: OrderbookLike>(
    a0: &A,
    b0: &B,
    side: Side,
    price: Price,
    size: Quantity,
    a1: &A,
    b1: &B,
)
    requires
        a0.wf(),
        b0.wf(),
        a0.bid_levels() == b0.bid_levels(),
        a0.ask_levels() == b0.ask_levels(),
        a0.regular(side),
        b0.regular(side),
        levels_on(a0, side).len() < pool_limit(),
        A::change_gives(a0, side, price, size, a1),
        B::change_gives(b0, side, price, size, b1),
    ensures
        a1.bid_levels() == b1.bid_levels(),
        a1.ask_levels() == b1.ask_levels(),
        a1.regular(side),
        b1.regular(side),
{
    A::law_change(a0, side, price, size, a1);
    B::law_change(b0, side, price, size, b1);
}

/// One change to a book.
pub struct BookChange {
    pub side: Side,
    pub price: Price,
    pub size: Quantity,
}

/// `course` has a book before the first change, after it, and so on, with room for
/// each change.
pub open spec fn takes_course<B: OrderbookLike>(changes: Seq<BookChange>, course: Seq<B>) -> bool {
    &&& course.len() == changes.len() + 1
    &&& forall|i: int| 0 <= i < course.len() ==> (#[trigger] course[i]).wf()
    &&& forall|i: int|
        0 <= i < changes.len() ==> {
            let change = #[trigger] changes[i];
            &&& levels_on(&course[i], change.side).len() < pool_limit()
            &&& B::change_gives(
                &course[i],
                change.side,
                change.price,
                change.size,
                &course[i + 1],
            )
        }
}

/// Books of any two kinds that are given the same snapshot and then the same changes,
/// however many, list the same levels all along.
pub proof fn law_books_agree_throughout<A: OrderbookLike, B: OrderbookLike>(
    bids: Seq<Level>,
    asks: Seq<Level>,
    changes: Seq<BookChange>,
    a: Seq<A>,
    b: Seq<B>,
    n: int,
)
    requires
        distinct_prices(bids),
        distinct_prices(asks),
        no_empty_level(bids),
        no_empty_level(asks),
        bids.len() <= pool_limit(),
        asks.len() <= pool_limit(),
        takes_course(changes, a),
        takes_course(changes, b),
        A::snapshot_gives(bids, asks, &a[0]),
        B::snapshot_gives(bids, asks, &b[0]),
        0 <= n <= changes.len(),
    ensures
        a[n].bid_levels() == b[n].bid_levels(),
        a[n].ask_levels() == b[n].ask_levels(),
        a[n].regular(Side::Bid) && a[n].regular(Side::Ask),
        b[n].regular(Side::Bid) && b[n].regular(Side::Ask),
    decreases n,
{
    if n == 0 {
        law_books_agree_on_snapshot(bids, asks, &a[0], &b[0]);
    } else {
        law_books_agree_throughout(bids, asks, changes, a, b, n - 1);
        let change = changes[n - 1];
        let (a0, a1) = (a[n - 1], a[n - 1 + 1]);
        let (b0, b1) = (b[n - 1], b[n - 1 + 1]);
        assert(a0.wf() && b0.wf());
        law_books_agree_on_change(&a0, &b0, change.side, change.price, change.size, &a1, &b1);
        A::law_change(&a0, change.side, change.price, change.size, &a1);
        B::law_change(&b0, change.side, change.price, change.size, &b1);
    }
}

/// No bid is above the best bid and no ask below the best ask.
pub proof fn law_best_is_best<B: OrderbookLike>(book: &B, k: int)
    requires
        book.wf(),
    ensures
        0 <= k < book.bid_levels().len() ==> book.bid_levels()[k].price.0.value()
            <= best_of(book.bid_levels())->0.price.0.value(),
        0 <= k < book.ask_levels().len() ==> best_of(book.ask_levels())->0.price.0.value()
            <= book.ask_levels()[k].price.0.value(),
{
    B::law_ordered(book);
    if 0 < k < book.bid_levels().len() {
        assert(rank(true, book.bid_levels()[0]) <= rank(true, book.bid_levels()[k]));
    }
    if 0 < k < book.ask_levels().len() {
        assert(rank(false, book.ask_levels()[0]) <= rank(false, book.ask_levels()[k]));
    }
}

/// There is a spread where both sides have a level, and it is zero where the best ask
/// is not above the best bid.
pub proof fn law_spread<B: OrderbookLike>(book: &B)
    requires
        book.wf(),
    ensures
        ({
            let spread = spread_of(book.bid_levels(), book.ask_levels());
            let bid = best_of(book.bid_levels());
            let ask = best_of(book.ask_levels());
            &&& spread is Some <==> bid is Some && ask is Some
            &&& bid is Some && ask is Some && ask->0.price.0.value() <= bid->0.price.0.value() ==> {
                &&& (spread->0).0.value() == 0
                &&& (spread->0).0.text() == seq!['0']
            }
        }),
{
    lemma_zero_decimal();
}

} // verus!
