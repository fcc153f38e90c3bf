//! Levels, the interface of an order book, and the reference implementation.

pub use crate::orderbooks::Orderbooks;

use crate::decimal::{
    decimal_difference, decimal_notation, difference_is_exact, zero_decimal, Decimal,
};
use crate::ladder::{
    changed_ladder, distinct_prices, first_at, insert_behind, lemma_as_good_as_is,
    lemma_changed_ordered, lemma_changed_strict, lemma_first_at, lemma_parts_changed,
    lemma_sorted_ladder, lemma_sorted_strict, no_empty_level, ordered, parts_at, pool_limit, rank,
    rank_of, sorted_ladder, strictly_ordered, without_price,
};
use crate::level_iter::LevelIter;
use core::cmp::Ordering;
use vstd::prelude::*;
use vstd::std_specs::iter::IteratorSpec;

verus! {

#[derive(Debug, Clone, Copy, PartialEq, Eq, Structural)]
pub enum Side {
    Bid,
    Ask,
}

/// A price. Prices are compared as numbers: 0.5 and 0.50 are the same price.
#[derive(Debug, Clone, Copy)]
pub struct Price(pub Decimal);

impl Price {
    /// Reads a price in decimal notation.
    pub fn from_str(s: &str) -> (r: Option<Self>)
        ensures
            r == (match crate::decimal::parsed_decimal(s@) {
                Some(number) => Some(Price(number)),
                None => None,
            }),
            r is Some ==> decimal_notation(s@),
            forall|d: Decimal|
                d.wf() && !(d.negative() && d.magnitude() == 0) && s@ == #[trigger] d.text() ==> r
                    == Some(Price(d)),
    {
        match Decimal::from_str(s) {
            Some(d) => Some(Price(d)),
            None => None,
        }
    }

    /// Writes the price in decimal notation.
    pub fn to_string(&self) -> (r: String)
        ensures
            r@ == self.0.text(),
    {
        self.0.to_string()
    }
}

impl PartialEq for Price {
    fn eq(&self, other: &Price) -> (r: bool) {
        self.0 == other.0
    }
}

impl vstd::std_specs::cmp::PartialEqSpecImpl for Price {
    open spec fn obeys_eq_spec() -> bool {
        true
    }

    open spec fn eq_spec(&self, other: &Price) -> bool {
        self.0.value() == other.0.value()
    }
}

impl Eq for Price {

}

impl PartialOrd for Price {
    fn partial_cmp(&self, other: &Price) -> (r: Option<Ordering>) {
        self.0.partial_cmp(&other.0)
    }
}

impl vstd::std_specs::cmp::PartialOrdSpecImpl for Price {
    open spec fn obeys_partial_cmp_spec() -> bool {
        true
    }

    open spec fn partial_cmp_spec(&self, other: &Price) -> Option<Ordering> {
        if self.0.value() < other.0.value() {
            Some(Ordering::Less)
        } else if self.0.value() == other.0.value() {
            Some(Ordering::Equal)
        } else {
            Some(Ordering::Greater)
        }
    }
}

/// A quantity. Quantities are compared as numbers.
#[derive(Debug, Clone, Copy)]
pub struct Quantity(pub Decimal);

impl Quantity {
    /// Reads a quantity in decimal notation.
    pub fn from_str(s: &str) -> (r: Option<Self>)
        ensures
            r == (match crate::decimal::parsed_decimal(s@) {
                Some(number) => Some(Quantity(number)),
                None => None,
            }),
            r is Some ==> decimal_notation(s@),
            forall|d: Decimal|
                d.wf() && !(d.negative() && d.magnitude() == 0) && s@ == #[trigger] d.text() ==> r
                    == Some(Quantity(d)),
    {
        match Decimal::from_str(s) {
            Some(d) => Some(Quantity(d)),
            None => None,
        }
    }

    /// Writes the quantity in decimal notation.
    pub fn to_string(&self) -> (r: String)
        ensures
            r@ == self.0.text(),
    {
        self.0.to_string()
    }
}

impl PartialEq for Quantity {
    fn eq(&self, other: &Quantity) -> (r: bool) {
        self.0 == other.0
    }
}

impl vstd::std_specs::cmp::PartialEqSpecImpl for Quantity {
    open spec fn obeys_eq_spec() -> bool {
        true
    }

    open spec fn eq_spec(&self, other: &Quantity) -> bool {
        self.0.value() == other.0.value()
    }
}

impl Eq for Quantity {

}

impl PartialOrd for Quantity {
    fn partial_cmp(&self, other: &Quantity) -> (r: Option<Ordering>) {
        self.0.partial_cmp(&other.0)
    }
}

impl vstd::std_specs::cmp::PartialOrdSpecImpl for Quantity {
    open spec fn obeys_partial_cmp_spec() -> bool {
        true
    }

    open spec fn partial_cmp_spec(&self, other: &Quantity) -> Option<Ordering> {
        if self.0.value() < other.0.value() {
            Some(Ordering::Less)
        } else if self.0.value() == other.0.value() {
            Some(Ordering::Equal)
        } else {
            Some(Ordering::Greater)
        }
    }
}

/// One price level of a book.
#[derive(Debug, Clone, Copy)]
pub struct Level {
    pub price: Price,
    pub size: Quantity,
}

impl PartialEq for Level {
    fn eq(&self, other: &Level) -> (r: bool) {
        self.price == other.price && self.size == other.size
    }
}

impl vstd::std_specs::cmp::PartialEqSpecImpl for Level {
    open spec fn obeys_eq_spec() -> bool {
        true
    }

    open spec fn eq_spec(&self, other: &Level) -> bool {
        &&& self.price.0.value() == other.price.0.value()
        &&& self.size.0.value() == other.size.0.value()
    }
}

impl Eq for Level {

}

/// A result that no decimal can hold.
#[derive(Debug, Clone, Copy, PartialEq, Eq, Structural)]
pub struct Overflow;

/// The best level of a side, if it has one.
pub open spec fn best_of(levels: Seq<Level>) -> Option<Level> {
    if levels.len() > 0 {
        Some(levels[0])
    } else {
        None
    }
}

/// Whether the distance between the best prices, where there is one to compute,
/// is a number that a decimal can hold.
pub open spec fn spread_fits(bids: Seq<Level>, asks: Seq<Level>) -> bool {
    bids.len() > 0 && asks.len() > 0 && asks[0].price.0.value() > bids[0].price.0.value()
        ==> decimal_difference(asks[0].price.0, bids[0].price.0) is Some
}

/// The distance between the best prices, if both sides have a level: the
/// difference, or zero where the ask is not above the bid.
pub open spec fn spread_of(bids: Seq<Level>, asks: Seq<Level>) -> Option<Price> {
    if bids.len() == 0 || asks.len() == 0 {
        None
    } else if asks[0].price.0.value() > bids[0].price.0.value() {
        Some(Price(decimal_difference(asks[0].price.0, bids[0].price.0)->0))
    } else {
        Some(Price(zero_decimal()))
    }
}

/// Common interface for any orderbook implementation.
///
/// Of the executable methods only `bids` and `asks` (plus the two mutation methods) are
/// required: the rest (best level, spread) has a default impl derived from the iterators.
/// An implementation also says what its books list and what the mutations do to them, and
/// proves the laws below.
pub trait OrderbookLike: Default {
    type BidIter<'a>: Iterator<Item = Level> where Self: 'a;

    type AskIter<'a>: Iterator<Item = Level> where Self: 'a;

    /// The book is as its operations leave it.
    spec fn wf(&self) -> bool;

    /// The levels on the bid side, best first.
    spec fn bid_levels(&self) -> Seq<Level>;

    /// The levels on the ask side, best first.
    spec fn ask_levels(&self) -> Seq<Level>;

    /// No price occurs twice on the side, and each level of it can be changed.
    spec fn regular(&self, side: Side) -> bool;

    /// `after` is a book to which the snapshot was applied.
    spec fn snapshot_gives(bids: Seq<Level>, asks: Seq<Level>, after: &Self) -> bool;

    /// `after` is `before` after the change.
    spec fn change_gives(
        before: &Self,
        side: Side,
        price: Price,
        size: Quantity,
        after: &Self,
    ) -> bool;

    /// Both books list the same levels, and go on to do so.
    spec fn alike(&self, other: &Self) -> bool;

    /// A new book has no level.
    proof fn law_default(book: &Self)
        requires
            call_ensures(Self::default, (), *book),
        ensures
            book.wf(),
            book.bid_levels() == Seq::<Level>::empty(),
            book.ask_levels() == Seq::<Level>::empty(),
            book.regular(Side::Bid),
            book.regular(Side::Ask),
    ;

    /// Bids stand in descending, asks in ascending price order.
    proof fn law_ordered(book: &Self)
        requires
            book.wf(),
        ensures
            ordered(true, book.bid_levels()),
            ordered(false, book.ask_levels()),
            book.regular(Side::Bid) ==> strictly_ordered(true, book.bid_levels()),
            book.regular(Side::Ask) ==> strictly_ordered(false, book.ask_levels()),
    ;

    /// A snapshot that names no price twice and no empty level is listed in order
    /// of price, and nothing else is.
    proof fn law_snapshot(bids: Seq<Level>, asks: Seq<Level>, after: &Self)
        requires
            Self::snapshot_gives(bids, asks, after),
        ensures
            distinct_prices(bids) && no_empty_level(bids) && bids.len() <= pool_limit()
                ==> after.bid_levels() == sorted_ladder(true, bids) && after.regular(Side::Bid),
            distinct_prices(asks) && no_empty_level(asks) && asks.len() <= pool_limit()
                ==> after.ask_levels() == sorted_ladder(false, asks) && after.regular(Side::Ask),
    ;

    /// A change leaves the other side alone. On a regular side with room for one
    /// more level it sets the level at the price, or removes it.
    proof fn law_change(before: &Self, side: Side, price: Price, size: Quantity, after: &Self)
        requires
            before.wf(),
            Self::change_gives(before, side, price, size, after),
        ensures
            side is Ask ==> after.bid_levels() == before.bid_levels() && after.regular(Side::Bid)
                == before.regular(Side::Bid),
            side is Bid ==> after.ask_levels() == before.ask_levels() && after.regular(Side::Ask)
                == before.regular(Side::Ask),
            side is Bid && before.regular(Side::Bid) && before.bid_levels().len() < pool_limit()
                ==> after.bid_levels() == changed_ladder(true, before.bid_levels(), price, size)
                && after.regular(Side::Bid),
            side is Ask && before.regular(Side::Ask) && before.ask_levels().len() < pool_limit()
                ==> after.ask_levels() == changed_ladder(false, before.ask_levels(), price, size)
                && after.regular(Side::Ask),
    ;

    /// A change is seen at its price first, on any side.
    proof fn law_change_at_its_price(
        before: &Self,
        side: Side,
        price: Price,
        size: Quantity,
        after: &Self,
    )
        requires
            before.wf(),
            Self::change_gives(before, side, price, size, after),
        ensures
            side is Bid ==> parts_at(before.bid_levels(), after.bid_levels(), price.0.value()),
            side is Ask ==> parts_at(before.ask_levels(), after.ask_levels(), price.0.value()),
    ;

    /// Being alike is an equivalence, and books that are alike list the same levels.
    proof fn law_alike(a: &Self, b: &Self, c: &Self)
        ensures
            a.alike(a),
            a.alike(b) ==> b.alike(a),
            a.alike(b) && b.alike(c) ==> a.alike(c),
            a.alike(b) ==> a.bid_levels() == b.bid_levels() && a.ask_levels() == b.ask_levels(),
            a.alike(b) ==> a.regular(Side::Bid) == b.regular(Side::Bid) && a.regular(Side::Ask)
                == b.regular(Side::Ask),
    ;

    /// Books to which the same snapshot was applied are alike, whatever they listed
    /// before and whatever the snapshot names.
    proof fn law_same_snapshot(bids: Seq<Level>, asks: Seq<Level>, a: &Self, b: &Self)
        requires
            Self::snapshot_gives(bids, asks, a),
            Self::snapshot_gives(bids, asks, b),
        ensures
            a.alike(b),
    ;

    /// Books that are alike are so after the same change.
    proof fn law_same_change(
        a: &Self,
        b: &Self,
        side: Side,
        price: Price,
        size: Quantity,
        after_a: &Self,
        after_b: &Self,
    )
        requires
            a.alike(b),
            Self::change_gives(a, side, price, size, after_a),
            Self::change_gives(b, side, price, size, after_b),
        ensures
            after_a.alike(after_b),
    ;

    fn apply_snapshot(&mut self, bids: Vec<Level>, asks: Vec<Level>)
        requires
            old(self).wf(),
        ensures
            final(self).wf(),
            Self::snapshot_gives(bids@, asks@, final(self)),
    ;

    fn apply_price_change(&mut self, side: Side, price: Price, size: Quantity)
        requires
            old(self).wf(),
        ensures
            final(self).wf(),
            Self::change_gives(old(self), side, price, size, final(self)),
    ;

    /// Levels on the bid side in descending price order.
    fn bids(&self) -> (r: Self::BidIter<'_>)
        requires
            self.wf(),
        ensures
            r.obeys_prophetic_iter_laws(),
            r.decrease() is Some,
            r.remaining() == self.bid_levels(),
    ;

    /// Levels on the ask side in ascending price order.
    fn asks(&self) -> (r: Self::AskIter<'_>)
        requires
            self.wf(),
        ensures
            r.obeys_prophetic_iter_laws(),
            r.decrease() is Some,
            r.remaining() == self.ask_levels(),
    ;

    fn best_bid(&self) -> (r: Option<Level>)
        requires
            self.wf(),
        ensures
            r == best_of(self.bid_levels()),
    {
        self.bids().next()
    }

    fn best_ask(&self) -> (r: Option<Level>)
        requires
            self.wf(),
        ensures
            r == best_of(self.ask_levels()),
    {
        self.asks().next()
    }

    fn spread(&self) -> (r: Option<Price>)
        requires
            self.wf(),
            spread_fits(self.bid_levels(), self.ask_levels()),
        ensures
            r == spread_of(self.bid_levels(), self.ask_levels()),
            ({
                let bid = self.bid_levels()[0].price.0;
                let ask = self.ask_levels()[0].price.0;
                r is Some && bid.value() < ask.value() && difference_is_exact(ask, bid)
                    ==> (r->0).0.value() == ask.value() - bid.value()
            }),
    {
        let best_bid = self.best_bid()?;
        let best_ask = self.best_ask()?;
        if best_bid.price.0.less_than(&best_ask.price.0) {
            match best_ask.price.0.checked_sub(best_bid.price.0) {
                Some(difference) => Some(Price(difference)),
                None => None,
            }
        } else {
            Some(Price(Decimal::zero()))
        }
    }

    /// The spread, where it is a number that a decimal can hold.
    fn checked_spread(&self) -> (r: Result<Option<Price>, Overflow>)
        requires
            self.wf(),
        ensures
            r == (if spread_fits(self.bid_levels(), self.ask_levels()) {
                Ok(spread_of(self.bid_levels(), self.ask_levels()))
            } else {
                Err(Overflow)
            }),
    {
        match (self.best_bid(), self.best_ask()) {
            (Some(best_bid), Some(best_ask)) => if best_bid.price.0.less_than(&best_ask.price.0)
                && best_ask.price.0.checked_sub(best_bid.price.0).is_none() {
                Err(Overflow)
            } else {
                Ok(self.spread())
            },
            _ => Ok(None),
        }
    }
}

/// One side of the reference book: its levels in a vector, best first.
#[derive(Debug, Clone)]
struct BookSide {
    levels: Vec<Level>,
}

impl BookSide {
    fn new() -> (r: Self)
        ensures
            r.levels@ == Seq::<Level>::empty(),
    {
        BookSide { levels: Vec::new() }
    }

    /// Whether `a` is the better price.
    fn comes_before(side: Side, a: Price, b: Price) -> (r: bool)
        ensures
            r == (rank_of(side is Bid, a.0.value()) < rank_of(side is Bid, b.0.value())),
    {
        match side {
            Side::Bid => b.0.less_than(&a.0),
            Side::Ask => a.0.less_than(&b.0),
        }
    }

    /// Adds a level, behind those of the same price.
    fn insert(&mut self, side: Side, level: Level)
        requires
            ordered(side is Bid, old(self).levels@),
        ensures
            final(self).levels@ == insert_behind(side is Bid, old(self).levels@, level),
    {
        let ghost is_bid = side is Bid;
        let ghost r = rank(is_bid, level);
        let mut k: usize = self.levels.len();
        while k > 0 && Self::comes_before(side, level.price, self.levels[k - 1].price)
            invariant
                k <= self.levels@.len(),
                is_bid == (side is Bid),
                r == rank(is_bid, level),
                k < self.levels@.len() ==> rank(is_bid, self.levels@[k as int]) > r,
            decreases k,
        {
            k = k - 1;
        }
        proof {
            lemma_as_good_as_is(is_bid, self.levels@, r, k as int);
        }
        self.levels.insert(k, level);
    }

    fn from_levels(levels: Vec<Level>, side: Side) -> (r: Self)
        ensures
            r.levels@ == sorted_ladder(side is Bid, levels@),
    {
        let mut sorted = BookSide::new();
        let mut i: usize = 0;
        assert(levels@.take(0) =~= Seq::<Level>::empty());
        while i < levels.len()
            invariant
                i <= levels@.len(),
                sorted.levels@ == sorted_ladder(side is Bid, levels@.take(i as int)),
            decreases levels@.len() - i,
        {
            proof {
                lemma_sorted_ladder(side is Bid, levels@.take(i as int));
                assert(levels@.take(i + 1).drop_last() =~= levels@.take(i as int));
            }
            sorted.insert(side, levels[i]);
            i = i + 1;
        }
        assert(levels@.take(i as int) =~= levels@);
        sorted
    }

    /// Removes the levels at the price.
    fn remove(&mut self, price: Price)
        ensures
            final(self).levels@ == without_price(old(self).levels@, price.0.value()),
    {
        let mut kept: Vec<Level> = Vec::new();
        let mut i: usize = 0;
        assert(self.levels@.take(0) =~= Seq::<Level>::empty());
        while i < self.levels.len()
            invariant
                i <= self.levels@.len(),
                kept@ == without_price(self.levels@.take(i as int), price.0.value()),
            decreases self.levels@.len() - i,
        {
            assert(self.levels@.take(i + 1).drop_last() =~= self.levels@.take(i as int));
            let level = self.levels[i];
            if level.price != price {
                kept.push(level);
            }
            i = i + 1;
        }
        assert(self.levels@.take(i as int) =~= self.levels@);
        self.levels = kept;
    }

    /// The index of the first level at the price, or the number of levels.
    fn position(&self, price: Price) -> (k: usize)
        ensures
            k == first_at(self.levels@, price.0.value()),
    {
        let ghost v = price.0.value();
        let mut k: usize = 0;
        proof {
            lemma_first_at(self.levels@, v);
        }
        while k < self.levels.len()
            invariant
                k <= first_at(self.levels@, v) <= self.levels@.len(),
                v == price.0.value(),
                first_at(self.levels@, v) < self.levels@.len() ==> self.levels@[first_at(
                    self.levels@,
                    v,
                ) as int].price.0.value() == v,
                forall|i: int|
                    0 <= i < first_at(self.levels@, v) ==> (
                    #[trigger] self.levels@[i]).price.0.value() != v,
            decreases self.levels@.len() - k,
        {
            if self.levels[k].price == price {
                return k;
            }
            k = k + 1;
        }
        k
    }

    fn apply_level(&mut self, side: Side, price: Price, size: Quantity)
        requires
            ordered(side is Bid, old(self).levels@),
        ensures
            final(self).levels@ == changed_ladder(side is Bid, old(self).levels@, price, size),
    {
        if size.0.is_zero() {
            self.remove(price);
            return ;
        }
        let k: usize = self.position(price);
        if k < self.levels.len() {
            let level = self.levels[k];
            self.levels.set(k, Level { price: level.price, size });
        } else {
            self.insert(side, Level { price, size });
        }
    }
}

/// Whether two lists of levels are the same, level by level.
pub fn equal_levels(a: &Vec<Level>, b: &Vec<Level>) -> (r: bool)
    ensures
        r == same_levels(a@, b@),
{
    if a.len() != b.len() {
        return false;
    }
    let mut i: usize = 0;
    while i < a.len()
        invariant
            i <= a@.len() == b@.len(),
            forall|j: int| 0 <= j < i ==> same_level(#[trigger] a@[j], b@[j]),
        decreases a@.len() - i,
    {
        if a[i] != b[i] {
            assert(!same_level(a@[i as int], b@[i as int]));
            return false;
        }
        i = i + 1;
    }
    true
}

/// The same price and the same size, compared as numbers.
pub open spec fn same_level(a: Level, b: Level) -> bool {
    &&& a.price.0.value() == b.price.0.value()
    &&& a.size.0.value() == b.size.0.value()
}

/// Level by level the same.
pub open spec fn same_levels(a: Seq<Level>, b: Seq<Level>) -> bool {
    &&& a.len() == b.len()
    &&& forall|i: int| 0 <= i < a.len() ==> same_level(#[trigger] a[i], b[i])
}

/// Reference implementation: simple Vec-based, used for testing.
#[derive(Debug, Clone)]
pub struct BasicOrderbook {
    bids: BookSide,
    asks: BookSide,
}

impl BasicOrderbook {
    /// The levels of the bid side, best first.
    pub closed spec fn bid_side(&self) -> Seq<Level> {
        self.bids.levels@
    }

    /// The levels of the ask side, best first.
    pub closed spec fn ask_side(&self) -> Seq<Level> {
        self.asks.levels@
    }
}

impl PartialEq for BasicOrderbook {
    fn eq(&self, other: &BasicOrderbook) -> (r: bool) {
        equal_levels(&self.bids.levels, &other.bids.levels) && equal_levels(
            &self.asks.levels,
            &other.asks.levels,
        )
    }
}

impl vstd::std_specs::cmp::PartialEqSpecImpl for BasicOrderbook {
    open spec fn obeys_eq_spec() -> bool {
        true
    }

    open spec fn eq_spec(&self, other: &BasicOrderbook) -> bool {
        &&& same_levels(self.bid_side(), other.bid_side())
        &&& same_levels(self.ask_side(), other.ask_side())
    }
}

impl Eq for BasicOrderbook {

}

impl Default for BasicOrderbook {
    fn default() -> (r: Self)
        ensures
            r.bid_side() == Seq::<Level>::empty(),
            r.ask_side() == Seq::<Level>::empty(),
    {
        BasicOrderbook { bids: BookSide::new(), asks: BookSide::new() }
    }
}

impl OrderbookLike for BasicOrderbook {
    type BidIter<'a> = LevelIter<'a>;

    type AskIter<'a> = LevelIter<'a>;

    open spec fn wf(&self) -> bool {
        &&& ordered(true, self.bid_levels())
        &&& ordered(false, self.ask_levels())
    }

    open spec fn bid_levels(&self) -> Seq<Level> {
        self.bid_side()
    }

    open spec fn ask_levels(&self) -> Seq<Level> {
        self.ask_side()
    }

    open spec fn regular(&self, side: Side) -> bool {
        match side {
            Side::Bid => strictly_ordered(true, self.bid_levels()),
            Side::Ask => strictly_ordered(false, self.ask_levels()),
        }
    }

    open spec fn snapshot_gives(bids: Seq<Level>, asks: Seq<Level>, after: &Self) -> bool {
        &&& after.bid_levels() == sorted_ladder(true, bids)
        &&& after.ask_levels() == sorted_ladder(false, asks)
    }

    open spec fn change_gives(
        before: &Self,
        side: Side,
        price: Price,
        size: Quantity,
        after: &Self,
    ) -> bool {
        match side {
            Side::Bid => {
                &&& after.bid_levels() == changed_ladder(true, before.bid_levels(), price, size)
                &&& after.ask_levels() == before.ask_levels()
            },
            Side::Ask => {
                &&& after.bid_levels() == before.bid_levels()
                &&& after.ask_levels() == changed_ladder(false, before.ask_levels(), price, size)
            },
        }
    }

    open spec fn alike(&self, other: &Self) -> bool {
        &&& self.bid_levels() == other.bid_levels()
        &&& self.ask_levels() == other.ask_levels()
    }

    proof fn law_default(book: &Self) {
    }

    proof fn law_ordered(book: &Self) {
    }

    proof fn law_snapshot(bids: Seq<Level>, asks: Seq<Level>, after: &Self) {
        if distinct_prices(bids) {
            lemma_sorted_strict(true, bids);
        }
        if distinct_prices(asks) {
            lemma_sorted_strict(false, asks);
        }
    }

    proof fn law_change(before: &Self, side: Side, price: Price, size: Quantity, after: &Self) {
        if before.regular(Side::Bid) {
            lemma_changed_strict(true, before.bid_levels(), price, size);
        }
        if before.regular(Side::Ask) {
            lemma_changed_strict(false, before.ask_levels(), price, size);
        }
    }

    proof fn law_change_at_its_price(
        before: &Self,
        side: Side,
        price: Price,
        size: Quantity,
        after: &Self,
    ) {
        lemma_parts_changed(true, before.bid_levels(), price, size);
        lemma_parts_changed(false, before.ask_levels(), price, size);
    }

    proof fn law_alike(a: &Self, b: &Self, c: &Self) {
    }

    proof fn law_same_snapshot(bids: Seq<Level>, asks: Seq<Level>, a: &Self, b: &Self) {
    }

    proof fn law_same_change(
        a: &Self,
        b: &Self,
        side: Side,
        price: Price,
        size: Quantity,
        after_a: &Self,
        after_b: &Self,
    ) {
    }

    fn apply_snapshot(&mut self, bids: Vec<Level>, asks: Vec<Level>) {
        proof {
            lemma_sorted_ladder(true, bids@);
            lemma_sorted_ladder(false, asks@);
        }
        self.bids = BookSide::from_levels(bids, Side::Bid);
        self.asks = BookSide::from_levels(asks, Side::Ask);
    }

    fn apply_price_change(&mut self, side: Side, price: Price, size: Quantity) {
        proof {
            if side is Bid {
                lemma_changed_ordered(true, self.bids.levels@, price, size);
            } else {
                lemma_changed_ordered(false, self.asks.levels@, price, size);
            }
        }
        match side {
            Side::Bid => self.bids.apply_level(Side::Bid, price, size),
            Side::Ask => self.asks.apply_level(Side::Ask, price, size),
        }
    }

    fn bids(&self) -> (r: LevelIter<'_>) {
        LevelIter::new(self.bids.levels.as_slice())
    }

    fn asks(&self) -> (r: LevelIter<'_>) {
        LevelIter::new(self.asks.levels.as_slice())
    }
}

} // verus!
