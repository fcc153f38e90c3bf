//! What the skip list is made of, said by what its nodes have in common.

use crate::ladder::{
    entry_place, indexed_snapshot, latest_at, latest_place, lemma_as_good_as, lemma_better_than,
    lemma_indexed_snapshot_wf, rank_of,
};
use crate::basic_orderbook::{Level, OrderbookLike, Price, Quantity, Side};
use crate::lanes::{lane, levels_in};
use crate::laws::levels_on;
use crate::skip_orderbook::{sampled_height, xorshift64, SkipOrderbook, Towers};
use vstd::prelude::*;

verus! {

proof fn lemma_lane_filters(heights: Seq<u8>, order: Seq<u32>, h: int)
    ensures
        lane(heights, order, h) == order.filter(|node: u32| heights[node as int] > h),
    decreases order.len(),
{
    reveal(Seq::filter);
    if order.len() > 0 {
        lemma_lane_filters(heights, order.drop_last(), h);
    }
}

/// A lane has the nodes of the full list that are higher than it, all of them and in the
/// same order; and every node is in the full list, and in four lanes at most.
pub proof fn law_lane_nodes(
    book: &SkipOrderbook,
    side: Side,
    h: usize,
    r: Vec<u32>,
    all: Vec<u32>,
    k: int,
    height: Option<u8>,
)
    requires
        book.wf(),
        h < 4,
        call_ensures(SkipOrderbook::lane_nodes, (book, side, h), r),
        call_ensures(SkipOrderbook::lane_nodes, (book, side, 0usize), all),
        0 <= k < all@.len(),
        call_ensures(SkipOrderbook::node_height, (book, side, all@[k]), height),
    ensures
        r@ == all@.filter(|node: u32| book.node_heights(side)[node as int] > h),
        height is Some,
        height->0 == book.node_heights(side)[all@[k] as int],
        1 <= height->0 <= 4,
{
    book.law_lanes(side, h as int);
    book.law_heights(side, k);
    lemma_lane_filters(book.node_heights(side), book.node_order(side), h as int);
}

/// The nodes of the full list hold the levels of the side, best first, and on a regular side
/// every listed price is found at its node.
pub proof fn law_nodes_hold_the_levels(
    book: &SkipOrderbook,
    side: Side,
    all: Vec<u32>,
    k: int,
    level: Option<Level>,
    price: Price,
    found: Option<u32>,
)
    requires
        book.wf(),
        call_ensures(SkipOrderbook::lane_nodes, (book, side, 0usize), all),
        0 <= k < all@.len(),
        call_ensures(SkipOrderbook::node_level, (book, side, all@[k]), level),
        call_ensures(SkipOrderbook::node_at, (book, side, price), found),
    ensures
        all@.len() == levels_on(book, side).len(),
        level == Some(levels_on(book, side)[k]),
        found is Some ==> exists|i: int|
            0 <= i < all@.len() && #[trigger] all@[i] == found->0 && levels_on(
                book,
                side,
            )[i].price.0.value() == price.0.value(),
        book.regular(side) && levels_on(book, side)[k].price.0.value() == price.0.value()
            ==> found == Some(all@[k]),
{
    book.law_lanes(side, 0);
    book.law_heights(side, k);
    let held = book.node_levels(side);
    let levels = book.side(side).levels;
    assert(levels == levels_in(held, all@));
    assert(levels[k] == held[all@[k] as int]);
    if found is Some {
        let i = book.law_index_is_listed(side, price.0.value());
        assert(all@[i] == found->0);
        assert(levels[i] == held[all@[i] as int]);
    }
    if book.regular(side) && levels[k].price.0.value() == price.0.value() {
        book.law_index(side, k);
    }
}

/// A node is one higher for every pair of low bits of its number that are zero, up to four.
pub proof fn law_heights_are_a_matter_of_zeros(x: u64)
    ensures
        1 <= sampled_height(x) <= 4,
        sampled_height(x) >= 2 <==> x % 4 == 0,
        sampled_height(x) >= 3 <==> x % 16 == 0,
        sampled_height(x) >= 4 <==> x % 64 == 0,
{
    assert(x & 3 == 0 <==> x % 4 == 0) by (bit_vector);
    assert(x & 3 == 0 && (x >> 2u64) & 3 == 0 <==> x % 16 == 0) by (bit_vector);
    assert(x & 3 == 0 && (x >> 2u64) & 3 == 0 && ((x >> 2u64) >> 2u64) & 3 == 0 <==> x % 64 == 0)
        by (bit_vector);
    assert(x % 64 == 0 ==> x % 16 == 0);
    assert(x % 16 == 0 ==> x % 4 == 0);
}

/// The generator is linear: what it gives for two numbers that are put together bit by bit
/// is put together of what it gives for each. No two numbers are followed by the same one.
pub proof fn law_generator_is_linear(x: u64, y: u64)
    ensures
        xorshift64(x ^ y) == xorshift64(x) ^ xorshift64(y),
        xorshift64(x) == xorshift64(y) ==> x == y,
        xorshift64(1) == 0x4082_2041,
{
    let a = x ^ (x << 13u64);
    let b = a ^ (a >> 7u64);
    let c = y ^ (y << 13u64);
    let d = c ^ (c >> 7u64);
    let e = (x ^ y) ^ ((x ^ y) << 13u64);
    assert((x ^ y) ^ ((x ^ y) << 13u64) == (x ^ (x << 13u64)) ^ (y ^ (y << 13u64)))
        by (bit_vector);
    assert((a ^ c) ^ ((a ^ c) >> 7u64) == (a ^ (a >> 7u64)) ^ (c ^ (c >> 7u64))) by (bit_vector);
    assert((b ^ d) ^ ((b ^ d) << 17u64) == (b ^ (b << 17u64)) ^ (d ^ (d << 17u64)))
        by (bit_vector);
    assert(x ^ (x << 13u64) == y ^ (y << 13u64) ==> x == y) by (bit_vector);
    assert(a ^ (a >> 7u64) == c ^ (c >> 7u64) ==> a == c) by (bit_vector);
    assert(b ^ (b << 17u64) == d ^ (d << 17u64) ==> b == d) by (bit_vector);
    assert(1u64 ^ (1u64 << 13u64) == 0x2001u64) by (bit_vector);
    assert(0x2001u64 ^ (0x2001u64 >> 7u64) == 0x2041u64) by (bit_vector);
    assert(0x2041u64 ^ (0x2041u64 << 17u64) == 0x4082_2041u64) by (bit_vector);
}

/// A level was added at a place, and with it a node whose height is that of the next number
/// of the generator.
pub open spec fn one_more(
    before: Seq<Level>,
    towers: Towers,
    level: Level,
    after: Seq<Level>,
    new_towers: Towers,
    k: int,
) -> bool {
    &&& 0 <= k <= before.len()
    &&& after == before.insert(k, level)
    &&& new_towers.seed == xorshift64(towers.seed)
    &&& new_towers.heights == towers.heights.insert(k, sampled_height(new_towers.seed))
}

/// A level left from a place, and with it its node.
pub open spec fn one_less(
    before: Seq<Level>,
    towers: Towers,
    after: Seq<Level>,
    new_towers: Towers,
    k: int,
) -> bool {
    &&& 0 <= k < before.len()
    &&& after == before.remove(k)
    &&& new_towers.seed == towers.seed
    &&& new_towers.heights == towers.heights.remove(k)
}

/// A change draws a number exactly where it adds a level, for the height of the new node;
/// the node of a level that leaves goes with it; and all others stay as they are, as does
/// the other side.
pub proof fn law_change_draws(
    book: &mut SkipOrderbook,
    side: Side,
    price: Price,
    size: Quantity,
    done: (),
)
    requires
        old(book).wf(),
        levels_on(old(book), side).len() < 0xffff_ffff,
        call_ensures(SkipOrderbook::apply_price_change, (book, side, price, size), done),
    ensures
        ({
            let before = levels_on(old(book), side);
            let after = levels_on(final(book), side);
            let towers = old(book).towers(side);
            let now = final(book).towers(side);
            &&& after.len() > before.len() ==> exists|k: int| #[trigger]
                one_more(before, towers, Level { price, size }, after, now, k)
            &&& after.len() < before.len() ==> exists|k: int| #[trigger]
                one_less(before, towers, after, now, k)
            &&& after.len() == before.len() ==> now == towers
        }),
        side is Bid ==> final(book).towers(Side::Ask) == old(book).towers(Side::Ask),
        side is Ask ==> final(book).towers(Side::Bid) == old(book).towers(Side::Bid),
{
    let b = *old(book);
    b.law_sides(side);
    let s = b.side(side);
    let value = price.0.value();
    let before = s.levels;
    let after = levels_on(final(book), side);
    let towers = old(book).towers(side);
    let now = final(book).towers(side);
    lemma_better_than(side is Bid, before, rank_of(side is Bid, value));
    if s.indexed.contains(value) {
        let k = latest_place(side is Bid, true, before, value);
        assert(latest_at(side is Bid, true, before, value));
        if size.0.magnitude() == 0 {
            assert(one_less(before, towers, after, now, k));
        }
    } else if size.0.magnitude() != 0 {
        let k = entry_place(side is Bid, true, before, value);
        assert(one_more(before, towers, Level { price, size }, after, now, k));
    }
}

/// A snapshot with one more level on a side draws one more number, for the height of its
/// node, unless the level is empty; and one without levels draws none.
pub proof fn law_snapshot_draws(
    book: &mut SkipOrderbook,
    bids: Vec<Level>,
    asks: Vec<Level>,
    done: (),
    other: &mut SkipOrderbook,
    other_bids: Vec<Level>,
    other_asks: Vec<Level>,
    other_done: (),
    side: Side,
    level: Level,
)
    requires
        old(book).wf(),
        *old(other) == *old(book),
        call_ensures(SkipOrderbook::apply_snapshot, (book, bids, asks), done),
        call_ensures(SkipOrderbook::apply_snapshot, (other, other_bids, other_asks), other_done),
        side is Bid ==> other_bids@ == bids@.push(level) && bids@.len() < 0xffff_ffff,
        side is Ask ==> other_asks@ == asks@.push(level) && asks@.len() < 0xffff_ffff,
    ensures
        (side is Bid ==> bids@.len() == 0) && (side is Ask ==> asks@.len() == 0)
            ==> final(book).towers(side).seed == old(book).towers(side).seed,
        level.size.0.magnitude() == 0 ==> final(other).towers(side) == final(book).towers(side),
        level.size.0.magnitude() != 0 ==> exists|k: int| #[trigger]
            one_more(
                levels_on(final(book), side),
                final(book).towers(side),
                level,
                levels_on(final(other), side),
                final(other).towers(side),
                k,
            ),
{
    let few = if side is Bid {
        bids@
    } else {
        asks@
    };
    let many = few.push(level);
    let s = indexed_snapshot(side is Bid, true, few);
    assert(many.drop_last() =~= few);
    assert(many.last() == level);
    lemma_snapshot_len(side is Bid, true, few);
    if level.size.0.magnitude() != 0 {
        let value = level.price.0.value();
        let k = entry_place(side is Bid, true, s.levels, value);
        lemma_indexed_snapshot_wf(side is Bid, true, few);
        lemma_better_than(side is Bid, s.levels, rank_of(side is Bid, value));
        assert(one_more(
            levels_on(final(book), side),
            final(book).towers(side),
            level,
            levels_on(final(other), side),
            final(other).towers(side),
            k,
        ));
    }
}

proof fn lemma_snapshot_len(is_bid: bool, in_front: bool, s: Seq<Level>)
    ensures
        indexed_snapshot(is_bid, in_front, s).levels.len() <= s.len(),
    decreases s.len(),
{
    if s.len() > 0 {
        let t = s.drop_last();
        lemma_snapshot_len(is_bid, in_front, t);
        let side = indexed_snapshot(is_bid, in_front, t);
        let value = s.last().price.0.value();
        lemma_indexed_snapshot_wf(is_bid, in_front, t);
        lemma_better_than(is_bid, side.levels, rank_of(is_bid, value));
        lemma_as_good_as(is_bid, side.levels, rank_of(is_bid, value));
    }
}

} // verus!
