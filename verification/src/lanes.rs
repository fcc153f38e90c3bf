//! The lanes of a skip list: those nodes of the full list that are tall enough.

use crate::basic_orderbook::Level;
use crate::ladder::{
    better_than, distinct, lemma_better_than, lemma_better_than_is, ordered, rank, strictly_ordered,
};
use vstd::prelude::*;

verus! {

/// The nodes of the list that take part in lane `h`, in the order of the list.
pub open spec fn lane(heights: Seq<u8>, order: Seq<u32>, h: int) -> Seq<u32>
    decreases order.len(),
{
    if order.len() == 0 {
        order
    } else if heights[order.last() as int] > h {
        lane(heights, order.drop_last(), h).push(order.last())
    } else {
        lane(heights, order.drop_last(), h)
    }
}

/// The levels that nodes hold, in the order given.
pub open spec fn levels_in(held: Seq<Level>, s: Seq<u32>) -> Seq<Level> {
    Seq::new(s.len(), |k: int| held[s[k] as int])
}

/// The place in lane `h` that belongs to place `k` in the list.
pub open spec fn lane_place(heights: Seq<u8>, order: Seq<u32>, h: int, k: int) -> int {
    lane(heights, order.take(k), h).len() as int
}

pub proof fn lemma_lane_concat(heights: Seq<u8>, a: Seq<u32>, b: Seq<u32>, h: int)
    ensures
        lane(heights, a + b, h) == lane(heights, a, h) + lane(heights, b, h),
    decreases b.len(),
{
    if b.len() == 0 {
        assert(a + b =~= a);
        assert(lane(heights, a, h) + lane(heights, b, h) =~= lane(heights, a, h));
    } else {
        lemma_lane_concat(heights, a, b.drop_last(), h);
        assert((a + b).drop_last() =~= a + b.drop_last());
        assert(lane(heights, a + b, h) =~= lane(heights, a, h) + lane(heights, b, h));
    }
}

/// A lane has the nodes of the list that are tall enough, and no others.
pub proof fn lemma_lane_members(heights: Seq<u8>, order: Seq<u32>, h: int)
    ensures
        lane(heights, order, h).len() <= order.len(),
        forall|x: u32| #[trigger]
            lane(heights, order, h).contains(x) <==> order.contains(x) && heights[x as int] > h,
    decreases order.len(),
{
    if order.len() > 0 {
        let t = order.drop_last();
        let l = lane(heights, order, h);
        lemma_lane_members(heights, t, h);
        assert forall|x: u32| #[trigger] l.contains(x) <==> order.contains(x) && heights[x as int]
            > h by {
            let lt = lane(heights, t, h);
            if l.contains(x) {
                let j = choose|j: int| 0 <= j < l.len() && l[j] == x;
                if j < lt.len() {
                    assert(lt[j] == x);
                    assert(lt.contains(x));
                    let m = choose|m: int| 0 <= m < t.len() && t[m] == x;
                    assert(order[m] == x);
                } else {
                    assert(order[order.len() - 1] == x);
                }
            }
            if order.contains(x) && heights[x as int] > h {
                let m = choose|m: int| 0 <= m < order.len() && order[m] == x;
                if m < t.len() {
                    assert(t[m] == x);
                    assert(lt.contains(x));
                    let j = choose|j: int| 0 <= j < lt.len() && lt[j] == x;
                    assert(l[j] == x);
                } else {
                    assert(l[l.len() - 1] == x);
                }
            }
        }
    }
}

/// A node of a lane, by its index in the lane, is in the list.
pub proof fn lemma_lane_member(heights: Seq<u8>, order: Seq<u32>, h: int, j: int) -> (m: int)
    requires
        0 <= j < lane(heights, order, h).len(),
    ensures
        0 <= m < order.len(),
        order[m] == lane(heights, order, h)[j],
        heights[order[m] as int] > h,
{
    let l = lane(heights, order, h);
    lemma_lane_members(heights, order, h);
    assert(l.contains(l[j]));
    choose|m: int| 0 <= m < order.len() && order[m] == l[j]
}

/// The lane of a list without repetition has none either.
pub proof fn lemma_lane_distinct(heights: Seq<u8>, order: Seq<u32>, h: int)
    requires
        distinct(order),
    ensures
        distinct(lane(heights, order, h)),
    decreases order.len(),
{
    if order.len() > 0 {
        let t = order.drop_last();
        let l = lane(heights, order, h);
        let lt = lane(heights, t, h);
        assert(forall|j: int| 0 <= j < t.len() ==> #[trigger] t[j] == order[j]);
        lemma_lane_distinct(heights, t, h);
        assert forall|j: int, k: int| 0 <= j < k < l.len() implies l[j] != l[k] by {
            if k >= lt.len() {
                let m = lemma_lane_member(heights, t, h, j);
                assert(l[j] == t[m]);
                assert(t[m] == order[m]);
            }
        }
    }
}

/// Only the heights of the nodes in the list matter.
pub proof fn lemma_lane_same(a: Seq<u8>, b: Seq<u8>, order: Seq<u32>, h: int)
    requires
        forall|k: int| 0 <= k < order.len() ==> a[#[trigger] order[k] as int] == b[order[k] as int],
    ensures
        lane(a, order, h) == lane(b, order, h),
    decreases order.len(),
{
    if order.len() > 0 {
        let t = order.drop_last();
        assert(forall|j: int| 0 <= j < t.len() ==> #[trigger] t[j] == order[j]);
        assert(order.last() == order[order.len() - 1]);
        lemma_lane_same(a, b, t, h);
    }
}

/// Every node takes part in the full list.
pub proof fn lemma_full_lane(heights: Seq<u8>, order: Seq<u32>)
    requires
        forall|k: int| 0 <= k < order.len() ==> heights[#[trigger] order[k] as int] > 0,
    ensures
        lane(heights, order, 0) == order,
    decreases order.len(),
{
    if order.len() > 0 {
        let t = order.drop_last();
        assert(forall|j: int| 0 <= j < t.len() ==> #[trigger] t[j] == order[j]);
        assert(order.last() == order[order.len() - 1]);
        lemma_full_lane(heights, t);
        assert(t.push(order.last()) =~= order);
    }
}

/// A node that enters the list at `k` enters the lanes it is tall enough for.
pub proof fn lemma_lane_insert(heights: Seq<u8>, order: Seq<u32>, h: int, k: int, i: u32)
    requires
        0 <= k <= order.len(),
    ensures
        0 <= lane_place(heights, order, h, k) <= lane(heights, order, h).len(),
        lane(heights, order.insert(k, i), h) == (if heights[i as int] > h {
            lane(heights, order, h).insert(lane_place(heights, order, h, k), i)
        } else {
            lane(heights, order, h)
        }),
{
    let a = order.take(k);
    let b = order.skip(k);
    assert(order =~= a + b);
    assert(order.insert(k, i) =~= a.push(i) + b);
    lemma_lane_concat(heights, a, b, h);
    lemma_lane_concat(heights, a.push(i), b, h);
    assert(a.push(i).drop_last() =~= a);
    if heights[i as int] > h {
        assert(lane(heights, order.insert(k, i), h) =~= lane(heights, order, h).insert(
            lane_place(heights, order, h, k),
            i,
        ));
    }
}

/// A node that leaves the list at `k` leaves the lanes it was in.
pub proof fn lemma_lane_remove(heights: Seq<u8>, order: Seq<u32>, h: int, k: int)
    requires
        0 <= k < order.len(),
    ensures
        heights[order[k] as int] > h ==> {
            &&& 0 <= lane_place(heights, order, h, k) < lane(heights, order, h).len()
            &&& lane(heights, order, h)[lane_place(heights, order, h, k)] == order[k]
        },
        lane(heights, order.remove(k), h) == (if heights[order[k] as int] > h {
            lane(heights, order, h).remove(lane_place(heights, order, h, k))
        } else {
            lane(heights, order, h)
        }),
{
    let i = order[k];
    let rest = order.remove(k);
    lemma_lane_insert(heights, rest, h, k, i);
    assert(rest.insert(k, i) =~= order);
    assert(rest.take(k) =~= order.take(k));
    if heights[i as int] > h {
        assert(lane(heights, rest, h) =~= lane(heights, order, h).remove(
            lane_place(heights, order, h, k),
        ));
    }
}

/// The lanes of an ordered list are ordered, and a rank parts a lane where it
/// parts the list.
pub proof fn lemma_lane_parted(
    is_bid: bool,
    heights: Seq<u8>,
    held: Seq<Level>,
    order: Seq<u32>,
    h: int,
    r: int,
)
    requires
        ordered(is_bid, levels_in(held, order)),
    ensures
        ordered(is_bid, levels_in(held, lane(heights, order, h))),
        better_than(is_bid, levels_in(held, lane(heights, order, h)), r) == lane_place(
            heights,
            order,
            h,
            better_than(is_bid, levels_in(held, order), r) as int,
        ),
{
    let s = levels_in(held, order);
    let l = lane(heights, order, h);
    lemma_lane_ordered(is_bid, heights, held, order, h);
    lemma_better_than(is_bid, s, r);
    let k = better_than(is_bid, s, r) as int;
    let a = order.take(k);
    let b = order.skip(k);
    assert(order =~= a + b);
    lemma_lane_concat(heights, a, b, h);
    let p = lane_place(heights, order, h, k);
    if p > 0 {
        let m = lemma_lane_member(heights, a, h, p - 1);
        assert(l[p - 1] == order[m]);
        assert(s[m] == levels_in(held, l)[p - 1]);
    }
    if p < l.len() {
        let m = lemma_lane_member(heights, b, h, 0);
        assert(l[p] == order[k + m]);
        assert(s[k + m] == levels_in(held, l)[p]);
    }
    lemma_better_than_is(is_bid, levels_in(held, l), r, p);
}

pub proof fn lemma_lane_ordered(
    is_bid: bool,
    heights: Seq<u8>,
    held: Seq<Level>,
    order: Seq<u32>,
    h: int,
)
    requires
        ordered(is_bid, levels_in(held, order)),
    ensures
        ordered(is_bid, levels_in(held, lane(heights, order, h))),
    decreases order.len(),
{
    if order.len() > 0 {
        let t = order.drop_last();
        let s = levels_in(held, order);
        let l = lane(heights, order, h);
        let lt = lane(heights, t, h);
        assert forall|j: int, k: int| 0 <= j < k < t.len() implies rank(
            is_bid,
            levels_in(held, t)[j],
        ) <= rank(is_bid, levels_in(held, t)[k]) by {
            assert(s[j] == levels_in(held, t)[j] && s[k] == levels_in(held, t)[k]);
        }
        lemma_lane_ordered(is_bid, heights, held, t, h);
        let u = levels_in(held, l);
        assert forall|j: int, k: int| 0 <= j < k < l.len() implies rank(is_bid, u[j]) <= rank(
            is_bid,
            u[k],
        ) by {
            if k < lt.len() {
                assert(u[j] == levels_in(held, lt)[j] && u[k] == levels_in(held, lt)[k]);
            } else {
                let m = lemma_lane_member(heights, t, h, j);
                assert(u[j] == s[m]);
                assert(u[k] == s[s.len() - 1]);
            }
        }
    }
}

/// A lane has the nodes of the lane below it that are tall enough, in the same order.
pub proof fn lemma_lane_of_lane(heights: Seq<u8>, order: Seq<u32>, g: int, h: int)
    requires
        g <= h,
    ensures
        lane(heights, lane(heights, order, g), h) == lane(heights, order, h),
    decreases order.len(),
{
    if order.len() > 0 {
        let t = order.drop_last();
        lemma_lane_of_lane(heights, t, g, h);
        let l = lane(heights, order, g);
        if heights[order.last() as int] > g {
            assert(l.drop_last() =~= lane(heights, t, g));
        }
    }
}

/// A strict order on the list is one on each lane.
pub proof fn lemma_lane_strict(
    is_bid: bool,
    heights: Seq<u8>,
    held: Seq<Level>,
    order: Seq<u32>,
    h: int,
)
    requires
        strictly_ordered(is_bid, levels_in(held, order)),
    ensures
        strictly_ordered(is_bid, levels_in(held, lane(heights, order, h))),
    decreases order.len(),
{
    if order.len() > 0 {
        let t = order.drop_last();
        let s = levels_in(held, order);
        let l = lane(heights, order, h);
        let lt = lane(heights, t, h);
        assert forall|j: int, k: int| 0 <= j < k < t.len() implies rank(
            is_bid,
            levels_in(held, t)[j],
        ) < rank(is_bid, levels_in(held, t)[k]) by {
            assert(s[j] == levels_in(held, t)[j] && s[k] == levels_in(held, t)[k]);
        }
        lemma_lane_strict(is_bid, heights, held, t, h);
        let u = levels_in(held, l);
        assert forall|j: int, k: int| 0 <= j < k < l.len() implies rank(is_bid, u[j]) < rank(
            is_bid,
            u[k],
        ) by {
            if k < lt.len() {
                assert(u[j] == levels_in(held, lt)[j] && u[k] == levels_in(held, lt)[k]);
            } else {
                let m = lemma_lane_member(heights, t, h, j);
                assert(u[j] == s[m]);
                assert(u[k] == s[s.len() - 1]);
            }
        }
    }
}

} // verus!
