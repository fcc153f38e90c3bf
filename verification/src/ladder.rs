//! The levels of one side of a book as a mathematical sequence, best price first.

use crate::basic_orderbook::{Level, Price, Quantity};
use crate::decimal::{lemma_tick_injective, tick_of};
use vstd::prelude::*;

verus! {

/// Where a price stands on a side: the smaller the rank, the better the price.
/// Bids are ranked by descending price, asks by ascending price.
pub open spec fn rank_of(is_bid: bool, value: int) -> int {
    if is_bid {
        -value
    } else {
        value
    }
}

/// The rank of a level.
pub open spec fn rank(is_bid: bool, level: Level) -> int {
    rank_of(is_bid, level.price.0.value())
}

/// No level stands behind a worse one.
pub open spec fn ordered(is_bid: bool, s: Seq<Level>) -> bool {
    forall|i: int, j: int| 0 <= i < j < s.len() ==> rank(is_bid, s[i]) <= rank(is_bid, s[j])
}

/// Every level stands behind better ones only, so no price occurs twice.
pub open spec fn strictly_ordered(is_bid: bool, s: Seq<Level>) -> bool {
    forall|i: int, j: int| 0 <= i < j < s.len() ==> rank(is_bid, s[i]) < rank(is_bid, s[j])
}

/// No price occurs twice.
pub open spec fn distinct_prices(s: Seq<Level>) -> bool {
    forall|i: int, j: int|
        0 <= i < j < s.len() ==> s[i].price.0.value() != s[j].price.0.value()
}

/// No level is empty.
pub open spec fn no_empty_level(s: Seq<Level>) -> bool {
    forall|i: int| 0 <= i < s.len() ==> (#[trigger] s[i]).size.0.magnitude() != 0
}

/// How many levels at the front of an ordered side are better than `r`.
pub open spec fn better_than(is_bid: bool, s: Seq<Level>, r: int) -> nat
    decreases s.len(),
{
    if s.len() == 0 {
        0
    } else if rank(is_bid, s.last()) < r {
        s.len()
    } else {
        better_than(is_bid, s.drop_last(), r)
    }
}

/// How many levels at the front of an ordered side are as good as `r`, or better.
pub open spec fn as_good_as(is_bid: bool, s: Seq<Level>, r: int) -> nat
    decreases s.len(),
{
    if s.len() == 0 {
        0
    } else if rank(is_bid, s.last()) <= r {
        s.len()
    } else {
        as_good_as(is_bid, s.drop_last(), r)
    }
}

/// The side with one more level, behind those of the same price.
pub open spec fn insert_behind(is_bid: bool, s: Seq<Level>, level: Level) -> Seq<Level> {
    s.insert(as_good_as(is_bid, s, rank(is_bid, level)) as int, level)
}

/// The levels in order of price; levels of one price keep their order.
pub open spec fn sorted_ladder(is_bid: bool, s: Seq<Level>) -> Seq<Level>
    decreases s.len(),
{
    if s.len() == 0 {
        s
    } else {
        insert_behind(is_bid, sorted_ladder(is_bid, s.drop_last()), s.last())
    }
}

/// The index of the first level with the price, or the number of levels.
pub open spec fn first_at(s: Seq<Level>, value: int) -> nat
    decreases s.len(),
{
    if s.len() == 0 {
        0
    } else if s[0].price.0.value() == value {
        0
    } else {
        1 + first_at(s.drop_first(), value)
    }
}

/// The side without the levels of one price.
pub open spec fn without_price(s: Seq<Level>, value: int) -> Seq<Level>
    decreases s.len(),
{
    if s.len() == 0 {
        s
    } else if s.last().price.0.value() == value {
        without_price(s.drop_last(), value)
    } else {
        without_price(s.drop_last(), value).push(s.last())
    }
}

/// The side after the level at `price` was given `size`: an empty level leaves, a
/// level that is there changes its size, any other enters in order.
pub open spec fn changed_ladder(
    is_bid: bool,
    s: Seq<Level>,
    price: Price,
    size: Quantity,
) -> Seq<Level> {
    let k = first_at(s, price.0.value()) as int;
    if size.0.magnitude() == 0 {
        without_price(s, price.0.value())
    } else if k < s.len() {
        s.update(k, Level { price: s[k].price, size })
    } else {
        insert_behind(is_bid, s, Level { price, size })
    }
}

// ---------------------------------------------------------------------------
// Places
// ---------------------------------------------------------------------------

pub proof fn lemma_better_than(is_bid: bool, s: Seq<Level>, r: int)
    requires
        ordered(is_bid, s),
    ensures
        better_than(is_bid, s, r) <= s.len(),
        forall|i: int| 0 <= i < better_than(is_bid, s, r) ==> rank(is_bid, #[trigger] s[i]) < r,
        forall|i: int|
            better_than(is_bid, s, r) <= i < s.len() ==> rank(is_bid, #[trigger] s[i]) >= r,
    decreases s.len(),
{
    if s.len() > 0 {
        let t = s.drop_last();
        lemma_better_than(is_bid, t, r);
        assert(forall|i: int| 0 <= i < t.len() ==> #[trigger] s[i] == t[i]);
    }
}

pub proof fn lemma_as_good_as(is_bid: bool, s: Seq<Level>, r: int)
    requires
        ordered(is_bid, s),
    ensures
        as_good_as(is_bid, s, r) <= s.len(),
        forall|i: int| 0 <= i < as_good_as(is_bid, s, r) ==> rank(is_bid, #[trigger] s[i]) <= r,
        forall|i: int|
            as_good_as(is_bid, s, r) <= i < s.len() ==> rank(is_bid, #[trigger] s[i]) > r,
    decreases s.len(),
{
    if s.len() > 0 {
        let t = s.drop_last();
        lemma_as_good_as(is_bid, t, r);
        assert(forall|i: int| 0 <= i < t.len() ==> #[trigger] s[i] == t[i]);
    }
}

/// `better_than` is the only place that parts an ordered side at `r`.
pub proof fn lemma_better_than_is(is_bid: bool, s: Seq<Level>, r: int, k: int)
    requires
        ordered(is_bid, s),
        0 <= k <= s.len(),
        k > 0 ==> rank(is_bid, s[k - 1]) < r,
        k < s.len() ==> rank(is_bid, s[k]) >= r,
    ensures
        better_than(is_bid, s, r) == k,
{
    lemma_better_than(is_bid, s, r);
}

/// `as_good_as` is the only place that parts an ordered side behind `r`.
pub proof fn lemma_as_good_as_is(is_bid: bool, s: Seq<Level>, r: int, k: int)
    requires
        ordered(is_bid, s),
        0 <= k <= s.len(),
        k > 0 ==> rank(is_bid, s[k - 1]) <= r,
        k < s.len() ==> rank(is_bid, s[k]) > r,
    ensures
        as_good_as(is_bid, s, r) == k,
{
    lemma_as_good_as(is_bid, s, r);
}

pub proof fn lemma_first_at(s: Seq<Level>, value: int)
    ensures
        first_at(s, value) <= s.len(),
        forall|i: int| 0 <= i < first_at(s, value) ==> (#[trigger] s[i]).price.0.value() != value,
        first_at(s, value) < s.len() ==> s[first_at(s, value) as int].price.0.value() == value,
    decreases s.len(),
{
    if s.len() > 0 && s[0].price.0.value() != value {
        let t = s.drop_first();
        lemma_first_at(t, value);
        assert(forall|i: int| 0 < i < s.len() ==> #[trigger] s[i] == t[i - 1]);
    }
}

pub proof fn lemma_insert_ordered(is_bid: bool, s: Seq<Level>, level: Level, k: int)
    requires
        ordered(is_bid, s),
        0 <= k <= s.len(),
        k > 0 ==> rank(is_bid, s[k - 1]) <= rank(is_bid, level),
        k < s.len() ==> rank(is_bid, level) <= rank(is_bid, s[k]),
    ensures
        ordered(is_bid, s.insert(k, level)),
{
}

// ---------------------------------------------------------------------------
// What sorting and changing keep
// ---------------------------------------------------------------------------

pub proof fn lemma_insert_behind_ordered(is_bid: bool, s: Seq<Level>, level: Level)
    requires
        ordered(is_bid, s),
    ensures
        ordered(is_bid, insert_behind(is_bid, s, level)),
{
    let r = rank(is_bid, level);
    lemma_as_good_as(is_bid, s, r);
    lemma_insert_ordered(is_bid, s, level, as_good_as(is_bid, s, r) as int);
}

/// Sorting orders the levels and neither adds nor loses one.
pub proof fn lemma_sorted_ladder(is_bid: bool, s: Seq<Level>)
    ensures
        ordered(is_bid, sorted_ladder(is_bid, s)),
        sorted_ladder(is_bid, s).len() == s.len(),
        forall|x: Level| #[trigger] sorted_ladder(is_bid, s).contains(x) <==> s.contains(x),
    decreases s.len(),
{
    if s.len() > 0 {
        let t = s.drop_last();
        let level = s.last();
        let u = sorted_ladder(is_bid, t);
        let r = rank(is_bid, level);
        let k = as_good_as(is_bid, u, r) as int;
        let v = u.insert(k, level);
        lemma_sorted_ladder(is_bid, t);
        lemma_as_good_as(is_bid, u, r);
        lemma_insert_behind_ordered(is_bid, u, level);
        assert forall|x: Level| #[trigger] v.contains(x) <==> s.contains(x) by {
            if v.contains(x) && x != level {
                let i = choose|i: int| 0 <= i < v.len() && v[i] == x;
                assert(u[if i < k {
                    i
                } else {
                    i - 1
                }] == x);
                assert(u.contains(x));
                let j = choose|j: int| 0 <= j < t.len() && t[j] == x;
                assert(s[j] == x);
            }
            if s.contains(x) && x != level {
                let j = choose|j: int| 0 <= j < s.len() && s[j] == x;
                assert(t[j] == x);
                assert(t.contains(x));
                assert(u.contains(x));
                let i = choose|i: int| 0 <= i < u.len() && u[i] == x;
                assert(v[if i < k {
                    i
                } else {
                    i + 1
                }] == x);
            }
            if x == level {
                assert(v[k] == x);
                assert(s[s.len() - 1] == x);
            }
        }
    }
}

/// A new price keeps a side strictly ordered.
pub proof fn lemma_insert_strict(is_bid: bool, s: Seq<Level>, level: Level)
    requires
        strictly_ordered(is_bid, s),
        forall|i: int|
            0 <= i < s.len() ==> (#[trigger] s[i]).price.0.value() != level.price.0.value(),
    ensures
        strictly_ordered(is_bid, insert_behind(is_bid, s, level)),
        better_than(is_bid, s, rank(is_bid, level)) == as_good_as(is_bid, s, rank(is_bid, level)),
{
    let r = rank(is_bid, level);
    let k = as_good_as(is_bid, s, r) as int;
    lemma_as_good_as(is_bid, s, r);
    assert(forall|i: int| 0 <= i < s.len() ==> rank(is_bid, #[trigger] s[i]) != r);
    lemma_better_than_is(is_bid, s, r, k);
    let t = s.insert(k, level);
    assert forall|i: int, j: int| 0 <= i < j < t.len() implies rank(is_bid, t[i]) < rank(
        is_bid,
        t[j],
    ) by {
        let a = if i < k {
            s[i]
        } else if i == k {
            level
        } else {
            s[i - 1]
        };
        let b = if j < k {
            s[j]
        } else if j == k {
            level
        } else {
            s[j - 1]
        };
        assert(t[i] == a && t[j] == b);
    }
}

/// Levels of distinct prices are strictly ordered by sorting.
pub proof fn lemma_sorted_strict(is_bid: bool, s: Seq<Level>)
    requires
        distinct_prices(s),
    ensures
        strictly_ordered(is_bid, sorted_ladder(is_bid, s)),
    decreases s.len(),
{
    if s.len() > 0 {
        let t = s.drop_last();
        assert(forall|i: int| 0 <= i < t.len() ==> #[trigger] s[i] == t[i]);
        assert(distinct_prices(t));
        lemma_sorted_strict(is_bid, t);
        lemma_sorted_ladder(is_bid, t);
        let u = sorted_ladder(is_bid, t);
        assert forall|i: int| 0 <= i < u.len() implies (#[trigger] u[i]).price.0.value()
            != s.last().price.0.value() by {
            assert(u.contains(u[i]));
            let j = choose|j: int| 0 <= j < t.len() && t[j] == u[i];
            assert(s[j] == t[j]);
        }
        lemma_insert_strict(is_bid, u, s.last());
    }
}

/// On a strictly ordered side a price is found where its rank belongs.
pub proof fn lemma_found(is_bid: bool, s: Seq<Level>, k: int)
    requires
        strictly_ordered(is_bid, s),
        0 <= k < s.len(),
    ensures
        first_at(s, s[k].price.0.value()) == k,
        better_than(is_bid, s, rank(is_bid, s[k])) == k,
        as_good_as(is_bid, s, rank(is_bid, s[k])) == k + 1,
{
    let v = s[k].price.0.value();
    lemma_first_at(s, v);
    let f = first_at(s, v) as int;
    assert(f <= k);
    lemma_better_than_is(is_bid, s, rank(is_bid, s[k]), k);
    lemma_as_good_as_is(is_bid, s, rank(is_bid, s[k]), k + 1);
}

pub proof fn lemma_without_absent(s: Seq<Level>, value: int)
    requires
        forall|i: int| 0 <= i < s.len() ==> (#[trigger] s[i]).price.0.value() != value,
    ensures
        without_price(s, value) == s,
    decreases s.len(),
{
    if s.len() > 0 {
        let t = s.drop_last();
        assert(forall|i: int| 0 <= i < t.len() ==> #[trigger] t[i] == s[i]);
        lemma_without_absent(t, value);
        assert(t.push(s.last()) =~= s);
    }
}

/// On a strictly ordered side a price leaves with the one level that has it.
pub proof fn lemma_without_found(is_bid: bool, s: Seq<Level>, k: int)
    requires
        strictly_ordered(is_bid, s),
        0 <= k < s.len(),
    ensures
        without_price(s, s[k].price.0.value()) == s.remove(k),
    decreases s.len(),
{
    let v = s[k].price.0.value();
    let t = s.drop_last();
    assert(forall|i: int| 0 <= i < t.len() ==> #[trigger] t[i] == s[i]);
    if k == s.len() - 1 {
        assert forall|i: int| 0 <= i < t.len() implies (#[trigger] t[i]).price.0.value() != v by {
            assert(rank(is_bid, s[i]) < rank(is_bid, s[k]));
        }
        lemma_without_absent(t, v);
        assert(s.remove(k) =~= t);
    } else {
        assert(strictly_ordered(is_bid, t));
        lemma_without_found(is_bid, t, k);
        assert(rank(is_bid, s[k]) < rank(is_bid, s.last()));
        assert(s.remove(k) =~= t.remove(k).push(s.last()));
    }
}

/// Removing a price keeps the order of the rest.
pub proof fn lemma_without_ordered(is_bid: bool, s: Seq<Level>, value: int)
    requires
        ordered(is_bid, s),
    ensures
        ordered(is_bid, without_price(s, value)),
        forall|i: int|
            0 <= i < without_price(s, value).len() ==> s.contains(
                #[trigger] without_price(s, value)[i],
            ) && without_price(s, value)[i].price.0.value() != value,
    decreases s.len(),
{
    if s.len() > 0 {
        let t = s.drop_last();
        let u = without_price(t, value);
        let w = without_price(s, value);
        assert(forall|i: int| 0 <= i < t.len() ==> #[trigger] t[i] == s[i]);
        lemma_without_ordered(is_bid, t, value);
        assert forall|i: int| 0 <= i < u.len() implies s.contains(#[trigger] u[i]) && rank(
            is_bid,
            u[i],
        ) <= rank(is_bid, s.last()) by {
            let j = choose|j: int| 0 <= j < t.len() && t[j] == u[i];
            assert(s[j] == u[i]);
        }
        assert(s[s.len() - 1] == s.last());
        assert forall|i: int| 0 <= i < w.len() implies s.contains(#[trigger] w[i])
            && w[i].price.0.value() != value by {
            if i < u.len() {
                assert(w[i] == u[i]);
            }
        }
    }
}

/// A change keeps a side ordered.
pub proof fn lemma_changed_ordered(is_bid: bool, s: Seq<Level>, price: Price, size: Quantity)
    requires
        ordered(is_bid, s),
    ensures
        ordered(is_bid, changed_ladder(is_bid, s, price, size)),
{
    lemma_without_ordered(is_bid, s, price.0.value());
    lemma_insert_behind_ordered(is_bid, s, Level { price, size });
    lemma_first_at(s, price.0.value());
}

/// A change keeps a side strictly ordered.
pub proof fn lemma_changed_strict(is_bid: bool, s: Seq<Level>, price: Price, size: Quantity)
    requires
        strictly_ordered(is_bid, s),
    ensures
        strictly_ordered(is_bid, changed_ladder(is_bid, s, price, size)),
{
    let v = price.0.value();
    let k = first_at(s, v) as int;
    lemma_first_at(s, v);
    if k < s.len() {
        lemma_without_found(is_bid, s, k);
    } else {
        lemma_without_absent(s, v);
        lemma_insert_strict(is_bid, s, Level { price, size });
    }
}

// ---------------------------------------------------------------------------
// Sides that find a level through an index of prices
// ---------------------------------------------------------------------------

/// The most levels that a side with 32-bit node numbers can list.
pub open spec fn pool_limit() -> nat {
    0xffff_ffff
}

/// A side whose levels are found through an index of prices. A snapshot may name
/// a price twice; both levels are then listed, and the index knows the later one.
pub struct IndexedSide {
    pub levels: Seq<Level>,
    pub indexed: Set<int>,
}

/// The side with no level.
pub open spec fn empty_side() -> IndexedSide {
    IndexedSide { levels: Seq::empty(), indexed: Set::empty() }
}

/// Where a new level goes: in front of those of its price, or behind them.
pub open spec fn entry_place(is_bid: bool, in_front: bool, s: Seq<Level>, value: int) -> int {
    if in_front {
        better_than(is_bid, s, rank_of(is_bid, value)) as int
    } else {
        as_good_as(is_bid, s, rank_of(is_bid, value)) as int
    }
}

/// Where the latest level of a price stands: the first of those of its price, or
/// the last of them.
pub open spec fn latest_place(is_bid: bool, in_front: bool, s: Seq<Level>, value: int) -> int {
    if in_front {
        better_than(is_bid, s, rank_of(is_bid, value)) as int
    } else {
        as_good_as(is_bid, s, rank_of(is_bid, value)) - 1
    }
}

/// The side with one more level, as long as the pool has room for it.
pub open spec fn entered(
    is_bid: bool,
    in_front: bool,
    side: IndexedSide,
    level: Level,
) -> IndexedSide {
    let value = level.price.0.value();
    if side.levels.len() < pool_limit() {
        IndexedSide {
            levels: side.levels.insert(entry_place(is_bid, in_front, side.levels, value), level),
            indexed: side.indexed.insert(value),
        }
    } else {
        side
    }
}

/// The side that a snapshot gives: its levels enter one after the other, the
/// empty ones left out.
pub open spec fn indexed_snapshot(is_bid: bool, in_front: bool, s: Seq<Level>) -> IndexedSide
    decreases s.len(),
{
    if s.len() == 0 {
        empty_side()
    } else if s.last().size.0.magnitude() == 0 {
        indexed_snapshot(is_bid, in_front, s.drop_last())
    } else {
        entered(is_bid, in_front, indexed_snapshot(is_bid, in_front, s.drop_last()), s.last())
    }
}

/// The side after the level at `price` was given `size`: an empty level leaves, an
/// indexed level changes its size, any other enters.
pub open spec fn indexed_change(
    is_bid: bool,
    in_front: bool,
    side: IndexedSide,
    price: Price,
    size: Quantity,
) -> IndexedSide {
    let value = price.0.value();
    let k = latest_place(is_bid, in_front, side.levels, value);
    if size.0.magnitude() == 0 {
        if side.indexed.contains(value) {
            IndexedSide { levels: side.levels.remove(k), indexed: side.indexed.remove(value) }
        } else {
            side
        }
    } else if side.indexed.contains(value) {
        IndexedSide {
            levels: side.levels.update(k, Level { price: side.levels[k].price, size }),
            indexed: side.indexed,
        }
    } else {
        entered(is_bid, in_front, side, Level { price, size })
    }
}

/// What every operation keeps: the levels are ordered and not empty, and the
/// latest level of an indexed price is where it is looked for.
pub open spec fn indexed_wf(is_bid: bool, in_front: bool, side: IndexedSide) -> bool {
    &&& ordered(is_bid, side.levels)
    &&& no_empty_level(side.levels)
    &&& side.levels.len() <= pool_limit()
    &&& forall|v: int| #[trigger]
        side.indexed.contains(v) ==> latest_at(is_bid, in_front, side.levels, v)
}

/// The latest level of the price stands at `latest_place`.
pub open spec fn latest_at(is_bid: bool, in_front: bool, s: Seq<Level>, v: int) -> bool {
    let k = latest_place(is_bid, in_front, s, v);
    0 <= k < s.len() && s[k].price.0.value() == v
}

/// Entering a level of another price moves a place by the index shift alone.
pub proof fn lemma_place_after_insert(
    is_bid: bool,
    in_front: bool,
    s: Seq<Level>,
    k: int,
    level: Level,
    v: int,
)
    requires
        ordered(is_bid, s),
        ordered(is_bid, s.insert(k, level)),
        0 <= k <= s.len(),
        level.price.0.value() != v,
        latest_at(is_bid, in_front, s, v),
    ensures
        latest_at(is_bid, in_front, s.insert(k, level), v),
        latest_place(is_bid, in_front, s.insert(k, level), v) == (if latest_place(
            is_bid,
            in_front,
            s,
            v,
        ) < k {
            latest_place(is_bid, in_front, s, v)
        } else {
            latest_place(is_bid, in_front, s, v) + 1
        }),
{
    let t = s.insert(k, level);
    let p = latest_place(is_bid, in_front, s, v);
    let q = if p < k {
        p
    } else {
        p + 1
    };
    let r = rank_of(is_bid, v);
    lemma_better_than(is_bid, s, r);
    lemma_as_good_as(is_bid, s, r);
    assert(t[q] == s[p]);
    assert(t[k] == level);
    if in_front {
        if q > 0 {
            assert(t[q - 1] == (if q - 1 < k {
                s[q - 1]
            } else if q - 1 == k {
                level
            } else {
                s[q - 2]
            }));
            assert(rank(is_bid, t[q - 1]) <= rank(is_bid, t[q]));
        }
        lemma_better_than_is(is_bid, t, r, q);
    } else {
        if q + 1 < t.len() {
            assert(t[q + 1] == (if q + 1 < k {
                s[q + 1]
            } else if q + 1 == k {
                level
            } else {
                s[q]
            }));
            assert(rank(is_bid, t[q]) <= rank(is_bid, t[q + 1]));
        }
        lemma_as_good_as_is(is_bid, t, r, q + 1);
    }
}

/// Removing a level of another price moves a place by the index shift alone.
pub proof fn lemma_place_after_remove(
    is_bid: bool,
    in_front: bool,
    s: Seq<Level>,
    k: int,
    v: int,
)
    requires
        ordered(is_bid, s),
        0 <= k < s.len(),
        s[k].price.0.value() != v,
        latest_at(is_bid, in_front, s, v),
    ensures
        ordered(is_bid, s.remove(k)),
        latest_at(is_bid, in_front, s.remove(k), v),
        latest_place(is_bid, in_front, s.remove(k), v) == (if latest_place(is_bid, in_front, s, v)
            < k {
            latest_place(is_bid, in_front, s, v)
        } else {
            latest_place(is_bid, in_front, s, v) - 1
        }),
{
    let t = s.remove(k);
    let p = latest_place(is_bid, in_front, s, v);
    let q = if p < k {
        p
    } else {
        p - 1
    };
    let r = rank_of(is_bid, v);
    lemma_better_than(is_bid, s, r);
    lemma_as_good_as(is_bid, s, r);
    assert(t[q] == s[p]);
    if in_front {
        if q > 0 {
            assert(t[q - 1] == (if q - 1 < k {
                s[q - 1]
            } else {
                s[q]
            }));
        }
        lemma_better_than_is(is_bid, t, r, q);
    } else {
        if q + 1 < t.len() {
            assert(t[q + 1] == (if q + 1 < k {
                s[q + 1]
            } else {
                s[q + 2]
            }));
        }
        lemma_as_good_as_is(is_bid, t, r, q + 1);
    }
}

/// Changing a size moves nothing.
pub proof fn lemma_place_after_update(
    is_bid: bool,
    in_front: bool,
    s: Seq<Level>,
    k: int,
    size: Quantity,
    v: int,
)
    requires
        ordered(is_bid, s),
        0 <= k < s.len(),
        latest_at(is_bid, in_front, s, v),
    ensures
        ordered(is_bid, s.update(k, Level { price: s[k].price, size })),
        latest_at(is_bid, in_front, s.update(k, Level { price: s[k].price, size }), v),
        latest_place(is_bid, in_front, s.update(k, Level { price: s[k].price, size }), v)
            == latest_place(is_bid, in_front, s, v),
{
    let t = s.update(k, Level { price: s[k].price, size });
    let p = latest_place(is_bid, in_front, s, v);
    let r = rank_of(is_bid, v);
    lemma_better_than(is_bid, s, r);
    lemma_as_good_as(is_bid, s, r);
    assert(forall|i: int| 0 <= i < s.len() ==> rank(is_bid, #[trigger] t[i]) == rank(is_bid, s[i]));
    if in_front {
        lemma_better_than_is(is_bid, t, r, p);
    } else {
        lemma_as_good_as_is(is_bid, t, r, p + 1);
    }
}

/// A level enters in order, and is then the latest of its price.
pub proof fn lemma_entered(is_bid: bool, in_front: bool, s: Seq<Level>, level: Level)
    requires
        ordered(is_bid, s),
    ensures
        ({
            let value = level.price.0.value();
            let k = entry_place(is_bid, in_front, s, value);
            &&& 0 <= k <= s.len()
            &&& ordered(is_bid, s.insert(k, level))
            &&& latest_place(is_bid, in_front, s.insert(k, level), value) == k
        }),
{
    let value = level.price.0.value();
    let r = rank_of(is_bid, value);
    let k = entry_place(is_bid, in_front, s, value);
    let t = s.insert(k, level);
    lemma_better_than(is_bid, s, r);
    lemma_as_good_as(is_bid, s, r);
    lemma_insert_ordered(is_bid, s, level, k);
    assert(t[k] == level);
    if in_front {
        if k > 0 {
            assert(t[k - 1] == s[k - 1]);
        }
        lemma_better_than_is(is_bid, t, r, k);
    } else {
        if k + 1 < t.len() {
            assert(t[k + 1] == s[k]);
        }
        lemma_as_good_as_is(is_bid, t, r, k + 1);
    }
}

pub proof fn lemma_entered_wf(is_bid: bool, in_front: bool, side: IndexedSide, level: Level)
    requires
        indexed_wf(is_bid, in_front, side),
        level.size.0.magnitude() != 0,
    ensures
        indexed_wf(is_bid, in_front, entered(is_bid, in_front, side, level)),
{
    let value = level.price.0.value();
    let s = side.levels;
    lemma_entered(is_bid, in_front, s, level);
    let k = entry_place(is_bid, in_front, s, value);
    let t = s.insert(k, level);
    let after = entered(is_bid, in_front, side, level);
    if s.len() < pool_limit() {
        assert forall|v: int| #[trigger] after.indexed.contains(v) implies latest_at(
            is_bid,
            in_front,
            t,
            v,
        ) by {
            if v != value {
                assert(side.indexed.contains(v));
                lemma_place_after_insert(is_bid, in_front, s, k, level, v);
            }
        }
        assert forall|i: int| 0 <= i < t.len() implies (#[trigger] t[i]).size.0.magnitude() != 0 by {
            if i < k {
                assert(t[i] == s[i]);
            } else if i > k {
                assert(t[i] == s[i - 1]);
            }
        }
    }
}

/// What a snapshot gives is well formed.
pub proof fn lemma_indexed_snapshot_wf(is_bid: bool, in_front: bool, s: Seq<Level>)
    ensures
        indexed_wf(is_bid, in_front, indexed_snapshot(is_bid, in_front, s)),
    decreases s.len(),
{
    if s.len() > 0 {
        lemma_indexed_snapshot_wf(is_bid, in_front, s.drop_last());
        if s.last().size.0.magnitude() != 0 {
            lemma_entered_wf(
                is_bid,
                in_front,
                indexed_snapshot(is_bid, in_front, s.drop_last()),
                s.last(),
            );
        }
    }
}

/// A change keeps a side well formed.
pub proof fn lemma_indexed_change_wf(
    is_bid: bool,
    in_front: bool,
    side: IndexedSide,
    price: Price,
    size: Quantity,
)
    requires
        indexed_wf(is_bid, in_front, side),
    ensures
        indexed_wf(is_bid, in_front, indexed_change(is_bid, in_front, side, price, size)),
{
    let value = price.0.value();
    let s = side.levels;
    let k = latest_place(is_bid, in_front, s, value);
    let after = indexed_change(is_bid, in_front, side, price, size);
    if side.indexed.contains(value) {
        assert(latest_at(is_bid, in_front, s, value));
        if size.0.magnitude() == 0 {
            let t = s.remove(k);
            assert forall|v: int| #[trigger] after.indexed.contains(v) implies latest_at(
                is_bid,
                in_front,
                t,
                v,
            ) by {
                assert(side.indexed.contains(v));
                lemma_place_after_remove(is_bid, in_front, s, k, v);
            }
        } else {
            let t = s.update(k, Level { price: s[k].price, size });
            assert forall|v: int| #[trigger] after.indexed.contains(v) implies latest_at(
                is_bid,
                in_front,
                t,
                v,
            ) by {
                lemma_place_after_update(is_bid, in_front, s, k, size, v);
            }
        }
    } else if size.0.magnitude() != 0 {
        lemma_entered_wf(is_bid, in_front, side, Level { price, size });
    }
}

/// Every listed price is indexed and none is listed twice.
pub open spec fn indexed_regular(is_bid: bool, side: IndexedSide) -> bool {
    &&& strictly_ordered(is_bid, side.levels)
    &&& forall|k: int|
        0 <= k < side.levels.len() ==> side.indexed.contains(
            (#[trigger] side.levels[k]).price.0.value(),
        )
}

/// A new price enters a regular side where sorting puts it.
proof fn lemma_entered_regular(is_bid: bool, in_front: bool, side: IndexedSide, level: Level)
    requires
        indexed_regular(is_bid, side),
        side.levels.len() < pool_limit(),
        forall|k: int|
            0 <= k < side.levels.len() ==> (#[trigger] side.levels[k]).price.0.value()
                != level.price.0.value(),
    ensures
        entered(is_bid, in_front, side, level).levels == insert_behind(is_bid, side.levels, level),
        indexed_regular(is_bid, entered(is_bid, in_front, side, level)),
{
    let s = side.levels;
    let r = rank(is_bid, level);
    let k = as_good_as(is_bid, s, r) as int;
    let after = entered(is_bid, in_front, side, level);
    lemma_insert_strict(is_bid, s, level);
    lemma_as_good_as(is_bid, s, r);
    assert forall|j: int| 0 <= j < after.levels.len() implies after.indexed.contains(
        (#[trigger] after.levels[j]).price.0.value(),
    ) by {
        if j != k {
            let i = if j < k {
                j
            } else {
                j - 1
            };
            assert(after.levels[j] == s[i]);
        }
    }
}

/// A snapshot that names no price twice and no empty level gives a regular side
/// with its levels in order.
pub proof fn lemma_snapshot_regular(is_bid: bool, in_front: bool, s: Seq<Level>)
    requires
        distinct_prices(s),
        no_empty_level(s),
        s.len() <= pool_limit(),
    ensures
        indexed_snapshot(is_bid, in_front, s).levels == sorted_ladder(is_bid, s),
        indexed_regular(is_bid, indexed_snapshot(is_bid, in_front, s)),
    decreases s.len(),
{
    if s.len() > 0 {
        let t = s.drop_last();
        assert(forall|i: int| 0 <= i < t.len() ==> #[trigger] s[i] == t[i]);
        lemma_snapshot_regular(is_bid, in_front, t);
        lemma_sorted_ladder(is_bid, t);
        let side = indexed_snapshot(is_bid, in_front, t);
        assert(s.last() == s[s.len() - 1]);
        assert forall|i: int| 0 <= i < side.levels.len() implies (
        #[trigger] side.levels[i]).price.0.value() != s.last().price.0.value() by {
            assert(side.levels.contains(side.levels[i]));
            let j = choose|j: int| 0 <= j < t.len() && t[j] == side.levels[i];
            assert(s[j] == t[j]);
        }
        lemma_entered_regular(is_bid, in_front, side, s.last());
    }
}

/// The levels that are not empty.
pub open spec fn without_empty(s: Seq<Level>) -> Seq<Level>
    decreases s.len(),
{
    if s.len() == 0 {
        seq![]
    } else if s.last().size.0.magnitude() == 0 {
        without_empty(s.drop_last())
    } else {
        without_empty(s.drop_last()).push(s.last())
    }
}

/// A snapshot gives the side that its levels give without the empty ones. Where these
/// name no price twice the side is regular, with them in order.
pub proof fn lemma_snapshot_drops_empty(is_bid: bool, in_front: bool, s: Seq<Level>)
    ensures
        no_empty_level(without_empty(s)),
        without_empty(s).len() <= s.len(),
        indexed_snapshot(is_bid, in_front, s) == indexed_snapshot(
            is_bid,
            in_front,
            without_empty(s),
        ),
        distinct_prices(without_empty(s)) && without_empty(s).len() <= pool_limit() ==> {
            let side = indexed_snapshot(is_bid, in_front, s);
            &&& side.levels == sorted_ladder(is_bid, without_empty(s))
            &&& indexed_regular(is_bid, side)
        },
    decreases s.len(),
{
    let kept = without_empty(s);
    if s.len() > 0 {
        lemma_snapshot_drops_empty(is_bid, in_front, s.drop_last());
        if s.last().size.0.magnitude() != 0 {
            assert(kept.drop_last() =~= without_empty(s.drop_last()));
        }
    }
    if distinct_prices(kept) && kept.len() <= pool_limit() {
        lemma_snapshot_regular(is_bid, in_front, kept);
    }
}

/// On a regular side with room for one more level a change does what it does to
/// the plain sequence of levels.
pub proof fn lemma_change_regular(
    is_bid: bool,
    in_front: bool,
    side: IndexedSide,
    price: Price,
    size: Quantity,
)
    requires
        indexed_wf(is_bid, in_front, side),
        indexed_regular(is_bid, side),
        side.levels.len() < pool_limit(),
    ensures
        indexed_change(is_bid, in_front, side, price, size).levels == changed_ladder(
            is_bid,
            side.levels,
            price,
            size,
        ),
        indexed_regular(is_bid, indexed_change(is_bid, in_front, side, price, size)),
{
    let s = side.levels;
    let v = price.0.value();
    let after = indexed_change(is_bid, in_front, side, price, size);
    let k = first_at(s, v) as int;
    lemma_first_at(s, v);
    lemma_changed_strict(is_bid, s, price, size);
    if k < s.len() {
        lemma_found(is_bid, s, k);
        lemma_without_found(is_bid, s, k);
        assert(side.indexed.contains(s[k].price.0.value()));
        if size.0.magnitude() == 0 {
            assert forall|j: int| 0 <= j < after.levels.len() implies after.indexed.contains(
                (#[trigger] after.levels[j]).price.0.value(),
            ) by {
                let i = if j < k {
                    j
                } else {
                    j + 1
                };
                assert(after.levels[j] == s[i]);
                assert(rank(is_bid, s[i]) != rank(is_bid, s[k]));
            }
        } else {
            assert forall|j: int| 0 <= j < after.levels.len() implies after.indexed.contains(
                (#[trigger] after.levels[j]).price.0.value(),
            ) by {
                assert(after.levels[j].price == s[j].price);
            }
        }
    } else {
        if side.indexed.contains(v) {
            assert(latest_at(is_bid, in_front, s, v));
        }
        lemma_without_absent(s, v);
        if size.0.magnitude() != 0 {
            lemma_entered_regular(is_bid, in_front, side, Level { price, size });
        }
    }
}

// ---------------------------------------------------------------------------
// Levels in a pool of nodes, found by the tick of their price
// ---------------------------------------------------------------------------

/// No element occurs twice.
pub open spec fn distinct(s: Seq<u32>) -> bool {
    forall|j: int, k: int| 0 <= j < k < s.len() ==> s[j] != s[k]
}

/// No element of one occurs in the other.
pub open spec fn apart(s: Seq<u32>, t: Seq<u32>) -> bool {
    forall|j: int, k: int| 0 <= j < s.len() && 0 <= k < t.len() ==> s[j] != t[k]
}

/// The element at `k`, or the mark for none.
pub open spec fn link_at(s: Seq<u32>, k: int) -> u32 {
    if 0 <= k < s.len() {
        s[k]
    } else {
        u32::MAX
    }
}

/// The `n` nodes of a pool are those that hold a level, in order, and the free ones.
pub open spec fn pooled(order: Seq<u32>, free: Seq<u32>, n: nat) -> bool {
    &&& n <= u32::MAX
    &&& order.len() + free.len() == n
    &&& distinct(order)
    &&& distinct(free)
    &&& apart(order, free)
    &&& forall|k: int| 0 <= k < order.len() ==> (#[trigger] order[k]) < n
    &&& forall|k: int| 0 <= k < free.len() ==> (#[trigger] free[k]) < n
}

/// As `pooled`, with one node that neither holds a level nor is free.
pub open spec fn pooled_but(order: Seq<u32>, free: Seq<u32>, i: u32, n: nat) -> bool {
    &&& n <= u32::MAX
    &&& order.len() + free.len() + 1 == n
    &&& distinct(order)
    &&& distinct(free)
    &&& apart(order, free)
    &&& i < n
    &&& forall|k: int| 0 <= k < order.len() ==> (#[trigger] order[k]) < n && order[k] != i
    &&& forall|k: int| 0 <= k < free.len() ==> (#[trigger] free[k]) < n && free[k] != i
}

/// The tick is indexed.
pub open spec fn tick_indexed(index: Map<u128, u32>, v: int) -> bool {
    0 <= tick_of(v) <= u128::MAX && index.contains_key(tick_of(v) as u128)
}

/// The numbers whose tick is indexed.
pub open spec fn indexed_values(index: Map<u128, u32>) -> Set<int> {
    Set::new(|v: int| tick_indexed(index, v))
}

/// An indexed price leads to the node of its latest level.
pub open spec fn index_follows(
    is_bid: bool,
    in_front: bool,
    index: Map<u128, u32>,
    order: Seq<u32>,
    s: Seq<Level>,
) -> bool {
    forall|v: int| #[trigger]
        tick_indexed(index, v) ==> index[tick_of(v) as u128] == order[latest_place(
            is_bid,
            in_front,
            s,
            v,
        )]
}

/// Indexing a tick adds its number, and no other.
pub proof fn lemma_index_insert(index: Map<u128, u32>, value: int, i: u32)
    requires
        0 <= tick_of(value) <= u128::MAX,
    ensures
        indexed_values(index.insert(tick_of(value) as u128, i)) == indexed_values(index).insert(
            value,
        ),
{
    let tick = tick_of(value) as u128;
    assert forall|v: int|
        indexed_values(index.insert(tick, i)).contains(v) == indexed_values(index).insert(
            value,
        ).contains(v) by {
        lemma_tick_injective(v, value);
    }
    assert(indexed_values(index.insert(tick, i)) =~= indexed_values(index).insert(value));
}

/// Taking a tick out takes its number out, and no other.
pub proof fn lemma_index_remove(index: Map<u128, u32>, value: int)
    requires
        0 <= tick_of(value) <= u128::MAX,
    ensures
        indexed_values(index.remove(tick_of(value) as u128)) == indexed_values(index).remove(value),
{
    let tick = tick_of(value) as u128;
    assert forall|v: int|
        indexed_values(index.remove(tick)).contains(v) == indexed_values(index).remove(
            value,
        ).contains(v) by {
        lemma_tick_injective(v, value);
    }
    assert(indexed_values(index.remove(tick)) =~= indexed_values(index).remove(value));
}

/// The index follows a level that enters.
pub proof fn lemma_follows_insert(
    is_bid: bool,
    in_front: bool,
    index: Map<u128, u32>,
    order: Seq<u32>,
    s: Seq<Level>,
    level: Level,
    i: u32,
)
    requires
        index_follows(is_bid, in_front, index, order, s),
        indexed_wf(is_bid, in_front, (IndexedSide { levels: s, indexed: indexed_values(index) })),
        order.len() == s.len(),
        0 <= tick_of(level.price.0.value()) <= u128::MAX,
    ensures
        ({
            let value = level.price.0.value();
            let k = entry_place(is_bid, in_front, s, value);
            &&& 0 <= k <= s.len()
            &&& index_follows(
                is_bid,
                in_front,
                index.insert(tick_of(value) as u128, i),
                order.insert(k, i),
                s.insert(k, level),
            )
        }),
{
    let side = IndexedSide { levels: s, indexed: indexed_values(index) };
    let value = level.price.0.value();
    let k = entry_place(is_bid, in_front, s, value);
    let t = s.insert(k, level);
    let index2 = index.insert(tick_of(value) as u128, i);
    lemma_entered(is_bid, in_front, s, level);
    assert forall|v: int| #[trigger] tick_indexed(index2, v) implies index2[tick_of(v) as u128]
        == order.insert(k, i)[latest_place(is_bid, in_front, t, v)] by {
        lemma_tick_injective(v, value);
        if v != value {
            assert(tick_indexed(index, v));
            assert(side.indexed.contains(v));
            lemma_place_after_insert(is_bid, in_front, s, k, level, v);
        }
    }
}

/// The index follows a level that leaves.
pub proof fn lemma_follows_remove(
    is_bid: bool,
    in_front: bool,
    index: Map<u128, u32>,
    order: Seq<u32>,
    s: Seq<Level>,
    value: int,
)
    requires
        index_follows(is_bid, in_front, index, order, s),
        indexed_wf(is_bid, in_front, (IndexedSide { levels: s, indexed: indexed_values(index) })),
        order.len() == s.len(),
        tick_indexed(index, value),
    ensures
        ({
            let k = latest_place(is_bid, in_front, s, value);
            &&& 0 <= k < s.len()
            &&& s[k].price.0.value() == value
            &&& index_follows(
                is_bid,
                in_front,
                index.remove(tick_of(value) as u128),
                order.remove(k),
                s.remove(k),
            )
        }),
{
    let side = IndexedSide { levels: s, indexed: indexed_values(index) };
    let k = latest_place(is_bid, in_front, s, value);
    let index2 = index.remove(tick_of(value) as u128);
    assert(side.indexed.contains(value));
    assert(latest_at(is_bid, in_front, s, value));
    assert forall|v: int| #[trigger] tick_indexed(index2, v) implies index2[tick_of(v) as u128]
        == order.remove(k)[latest_place(is_bid, in_front, s.remove(k), v)] by {
        lemma_tick_injective(v, value);
        assert(tick_indexed(index, v));
        assert(side.indexed.contains(v));
        assert(latest_at(is_bid, in_front, s, v));
        lemma_place_after_remove(is_bid, in_front, s, k, v);
    }
}

/// The index follows a level that changes its size.
pub proof fn lemma_follows_update(
    is_bid: bool,
    in_front: bool,
    index: Map<u128, u32>,
    order: Seq<u32>,
    s: Seq<Level>,
    value: int,
    size: Quantity,
)
    requires
        index_follows(is_bid, in_front, index, order, s),
        indexed_wf(is_bid, in_front, (IndexedSide { levels: s, indexed: indexed_values(index) })),
        order.len() == s.len(),
        tick_indexed(index, value),
    ensures
        ({
            let k = latest_place(is_bid, in_front, s, value);
            &&& 0 <= k < s.len()
            &&& s[k].price.0.value() == value
            &&& index_follows(
                is_bid,
                in_front,
                index,
                order,
                s.update(k, Level { price: s[k].price, size }),
            )
        }),
{
    let side = IndexedSide { levels: s, indexed: indexed_values(index) };
    let k = latest_place(is_bid, in_front, s, value);
    assert(side.indexed.contains(value));
    assert(latest_at(is_bid, in_front, s, value));
    let t = s.update(k, Level { price: s[k].price, size });
    assert forall|v: int| #[trigger] tick_indexed(index, v) implies index[tick_of(v) as u128]
        == order[latest_place(is_bid, in_front, t, v)] by {
        assert(side.indexed.contains(v));
        assert(latest_at(is_bid, in_front, s, v));
        lemma_place_after_update(is_bid, in_front, s, k, size, v);
    }
}

// ---------------------------------------------------------------------------
// Where a change is seen
// ---------------------------------------------------------------------------

/// The sides are the same, or they are so up to a place at which one of them has a level
/// of the price.
pub open spec fn parts_at(s: Seq<Level>, t: Seq<Level>, value: int) -> bool {
    s == t || exists|k: int|
        #![trigger s.take(k)]
        0 <= k <= s.len() && k <= t.len() && s.take(k) == t.take(k) && ((k < s.len()
            && s[k].price.0.value() == value) || (k < t.len() && t[k].price.0.value() == value))
}

/// The levels in front of the first one of a price stay when the price leaves.
proof fn lemma_without_front(s: Seq<Level>, value: int, k: int)
    requires
        0 <= k <= s.len(),
        forall|i: int| 0 <= i < k ==> (#[trigger] s[i]).price.0.value() != value,
    ensures
        k <= without_price(s, value).len(),
        without_price(s, value).take(k) == s.take(k),
    decreases s.len(),
{
    if k == s.len() {
        lemma_without_absent(s, value);
    } else {
        let t = s.drop_last();
        assert(forall|i: int| 0 <= i < t.len() ==> #[trigger] t[i] == s[i]);
        lemma_without_front(t, value, k);
        assert(s.take(k) =~= t.take(k));
        let u = without_price(t, value);
        assert(u.push(s.last()).take(k) =~= u.take(k));
    }
}

/// A change is seen at its price first.
pub proof fn lemma_parts_changed(is_bid: bool, s: Seq<Level>, price: Price, size: Quantity)
    requires
        ordered(is_bid, s),
    ensures
        parts_at(s, changed_ladder(is_bid, s, price, size), price.0.value()),
{
    let value = price.0.value();
    let t = changed_ladder(is_bid, s, price, size);
    let k = first_at(s, value) as int;
    lemma_first_at(s, value);
    if size.0.magnitude() == 0 {
        if k < s.len() {
            lemma_without_front(s, value, k);
        } else {
            lemma_without_absent(s, value);
        }
    } else if k < s.len() {
        assert(s.take(k) =~= t.take(k));
    } else {
        let level = Level { price, size };
        let j = as_good_as(is_bid, s, rank(is_bid, level)) as int;
        lemma_as_good_as(is_bid, s, rank(is_bid, level));
        assert(s.take(j) =~= t.take(j));
        assert(t[j] == level);
    }
}

/// A change to an indexed side is seen at its price first.
pub proof fn lemma_parts_indexed(
    is_bid: bool,
    in_front: bool,
    side: IndexedSide,
    price: Price,
    size: Quantity,
)
    requires
        indexed_wf(is_bid, in_front, side),
    ensures
        parts_at(
            side.levels,
            indexed_change(is_bid, in_front, side, price, size).levels,
            price.0.value(),
        ),
{
    let value = price.0.value();
    let s = side.levels;
    let t = indexed_change(is_bid, in_front, side, price, size).levels;
    if side.indexed.contains(value) {
        let k = latest_place(is_bid, in_front, s, value);
        assert(latest_at(is_bid, in_front, s, value));
        assert(s.take(k) =~= t.take(k));
    } else if size.0.magnitude() != 0 && s.len() < pool_limit() {
        let j = entry_place(is_bid, in_front, s, value);
        lemma_better_than(is_bid, s, rank_of(is_bid, value));
        lemma_as_good_as(is_bid, s, rank_of(is_bid, value));
        assert(s.take(j) =~= t.take(j));
        assert(t[j] == Level { price, size });
    }
}

} // verus!
