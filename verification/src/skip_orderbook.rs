//! Intrusive skip-list orderbook: pool-allocated nodes, O(1) lookup by price tick,
//! O(log n) insert/remove, O(log k) to reach depth k, O(1) for the best level.
//! IS_BID is a const generic: the comparison operator is resolved at compile time.
//!
//! ## Layout
//!
//! Each `LevelNode` is stored in a flat `Vec` (the pool) and referenced by u32 index.
//! `forwards[0]` is the full linked-list forward pointer (every node in sorted order).
//! `forwards[h]` for h > 0 are express-lane pointers that skip ~4^h nodes on average,
//! giving O(log k) traversal to depth k while still starting iteration from `head[0]`
//! (the best bid / best ask) in O(1).

use crate::basic_orderbook::{Level, OrderbookLike, Price, Quantity, Side};
use crate::decimal::{tick_of, Decimal};
use crate::ladder::{
    better_than, distinct, distinct_prices, empty_side, entered, entry_place, index_follows,
    indexed_change, indexed_regular, indexed_snapshot, indexed_values, indexed_wf, latest_at,
    latest_place, lemma_better_than, lemma_change_regular, lemma_entered, lemma_entered_wf,
    lemma_follows_insert, lemma_follows_remove, lemma_follows_update, lemma_found,
    lemma_index_insert, lemma_index_remove, lemma_indexed_change_wf, lemma_parts_indexed,
    lemma_snapshot_drops_empty, lemma_snapshot_regular, link_at, no_empty_level, ordered,
    pool_limit, pooled, pooled_but, rank, rank_of, sorted_ladder, strictly_ordered, tick_indexed,
    without_empty, IndexedSide,
};
use crate::lanes::{
    lane, lane_place, lemma_full_lane, lemma_lane_distinct, lemma_lane_insert, lemma_lane_member,
    lemma_lane_members, lemma_lane_of_lane, lemma_lane_ordered, lemma_lane_parted,
    lemma_lane_remove, lemma_lane_same, lemma_lane_strict, levels_in,
};
use std::collections::HashMap;
use vstd::prelude::*;
use vstd::std_specs::iter::{IteratorSpec, IteratorSpecImpl};

verus! {

broadcast use vstd::std_specs::hash::group_hash_axioms;

const NONE: u32 = u32::MAX;

/// Maximum skip list height. With p=0.25 promotion probability, each level requires
/// ~4x more nodes to populate. MAX_HEIGHT=4 supports ~4^4 = 256 price levels before
/// performance degrades.
pub const MAX_HEIGHT: usize = 4;

/// One node in the intrusive skip list.
///
/// `forwards[0]` is the level-0 (full-list) forward pointer, equivalent to `next`
/// in a plain linked list.  When on the free list, `forwards[0]` is the free-list link.
struct LevelNode {
    price: Decimal,
    size: Decimal,
    height: u8,
    forwards: [u32; MAX_HEIGHT],
}

/// The levels that the nodes of the pool hold.
spec fn held(nodes: Seq<LevelNode>) -> Seq<Level> {
    Seq::new(
        nodes.len(),
        |j: int| Level { price: Price(nodes[j].price), size: Quantity(nodes[j].size) },
    )
}

/// The heights of the nodes of the pool.
spec fn heights(nodes: Seq<LevelNode>) -> Seq<u8> {
    Seq::new(nodes.len(), |j: int| nodes[j].height)
}

/// At level `h`, `first` leads to the first of the nodes, and each to the one behind it.
spec fn lane_linked(nodes: Seq<LevelNode>, s: Seq<u32>, h: int, first: u32) -> bool {
    &&& first == link_at(s, 0)
    &&& forall|k: int|
        0 <= k < s.len() ==> (#[trigger] nodes[s[k] as int]).forwards@[h] == link_at(s, k + 1)
}

/// The number that xorshift64 gives after `x`.
pub open spec fn xorshift64(x: u64) -> u64 {
    let a = x ^ (x << 13u64);
    let b = a ^ (a >> 7u64);
    b ^ (b << 17u64)
}

/// One more than the number of pairs of zero bits at the low end, at most four.
pub open spec fn sampled_height(x: u64) -> u8 {
    if x & 3 != 0 {
        1
    } else if (x >> 2u64) & 3 != 0 {
        2
    } else if ((x >> 2u64) >> 2u64) & 3 != 0 {
        3
    } else {
        4
    }
}

/// The heights of a side's nodes, best first, and the state of the generator that
/// they are sampled from.
#[verifier::ext_equal]
pub struct Towers {
    pub heights: Seq<u8>,
    pub seed: u64,
}

/// A side with no node whose generator has not been used.
pub open spec fn no_towers() -> Towers {
    Towers { heights: Seq::empty(), seed: 0xdead_beef_cafe_babe }
}

/// The next number of the generator gives the height of the node for a new level.
/// Where the pool has no room, the number is drawn all the same.
pub open spec fn raised(is_bid: bool, levels: Seq<Level>, towers: Towers, value: int) -> Towers {
    let seed = xorshift64(towers.seed);
    Towers {
        heights: if levels.len() < pool_limit() {
            towers.heights.insert(entry_place(is_bid, true, levels, value), sampled_height(seed))
        } else {
            towers.heights
        },
        seed,
    }
}

/// The nodes that a snapshot gives, with the generator at `seed` before it.
pub open spec fn snapshot_towers(is_bid: bool, seed: u64, s: Seq<Level>) -> Towers
    decreases s.len(),
{
    if s.len() == 0 {
        Towers { heights: Seq::empty(), seed }
    } else if s.last().size.0.magnitude() == 0 {
        snapshot_towers(is_bid, seed, s.drop_last())
    } else {
        raised(
            is_bid,
            indexed_snapshot(is_bid, true, s.drop_last()).levels,
            snapshot_towers(is_bid, seed, s.drop_last()),
            s.last().price.0.value(),
        )
    }
}

/// The nodes after the level at `price` was given `size`: that of an empty level
/// leaves, that of a found level stays, any other level gets a node.
pub open spec fn changed_towers(
    is_bid: bool,
    side: IndexedSide,
    towers: Towers,
    price: Price,
    size: Quantity,
) -> Towers {
    let value = price.0.value();
    if size.0.magnitude() == 0 {
        if side.indexed.contains(value) {
            let k = latest_place(is_bid, true, side.levels, value);
            Towers { heights: towers.heights.remove(k), seed: towers.seed }
        } else {
            towers
        }
    } else if side.indexed.contains(value) {
        towers
    } else {
        raised(is_bid, side.levels, towers, value)
    }
}

/// The generator never gets stuck: from a state other than zero it only comes to such
/// states.
pub proof fn law_generator_never_stuck(x: u64)
    requires
        x != 0,
    ensures
        xorshift64(x) != 0,
{
    let a = x ^ (x << 13u64);
    let b = a ^ (a >> 7u64);
    assert(x != 0 ==> x ^ (x << 13u64) != 0) by (bit_vector);
    assert(a != 0 ==> a ^ (a >> 7u64) != 0) by (bit_vector);
    assert(b != 0 ==> b ^ (b << 17u64) != 0) by (bit_vector);
}

/// Neither a snapshot nor a change brings the generator of a side to zero.
pub proof fn law_seed_never_zero(
    is_bid: bool,
    s: Seq<Level>,
    side: IndexedSide,
    towers: Towers,
    price: Price,
    size: Quantity,
)
    requires
        towers.seed != 0,
    ensures
        no_towers().seed != 0,
        snapshot_towers(is_bid, towers.seed, s).seed != 0,
        changed_towers(is_bid, side, towers, price, size).seed != 0,
    decreases s.len(),
{
    law_generator_never_stuck(towers.seed);
    if s.len() > 0 {
        law_seed_never_zero(is_bid, s.drop_last(), side, towers, price, size);
        law_generator_never_stuck(snapshot_towers(is_bid, towers.seed, s.drop_last()).seed);
    }
}

/// One side (bids or asks) of the skip-list orderbook.
///
/// `IS_BID = true`: descending price order (highest first).
/// `IS_BID = false`: ascending price order (lowest first).
struct SkipBookSide<const IS_BID: bool> {
    nodes: Vec<LevelNode>,
    free_head: u32,
    /// Entry pointer for each skip level.  `head[0]` is the best level of the book.
    head: [u32; MAX_HEIGHT],
    tick_to_node: HashMap<u128, u32>,
    /// xorshift64 state, no external rand dependency.
    rng: u64,
    /// The nodes of the full list, best first.
    order: Ghost<Seq<u32>>,
    /// The nodes on the free list.
    free: Ghost<Seq<u32>>,
}

impl<const IS_BID: bool> SkipBookSide<IS_BID> {
    spec fn levels(&self) -> Seq<Level> {
        levels_in(held(self.nodes@), self.order@)
    }

    spec fn model(&self) -> IndexedSide {
        IndexedSide { levels: self.levels(), indexed: indexed_values(self.tick_to_node@) }
    }

    spec fn towers(&self) -> Towers {
        Towers {
            heights: Seq::new(
                self.order@.len(),
                |k: int| self.nodes@[self.order@[k] as int].height,
            ),
            seed: self.rng,
        }
    }

    /// The nodes that take part in level `h`.
    spec fn lane_at(&self, h: int) -> Seq<u32> {
        lane(heights(self.nodes@), self.order@, h)
    }

    spec fn lane_chained(&self, h: int) -> bool {
        lane_linked(self.nodes@, self.lane_at(h), h, self.head@[h])
    }

    /// The links follow the lanes and the free list.
    spec fn chained(&self) -> bool {
        &&& forall|h: int| 0 <= h < 4 ==> #[trigger] self.lane_chained(h)
        &&& lane_linked(self.nodes@, self.free@, 0, self.free_head)
    }

    /// Every listed node takes part in at least the full list.
    spec fn tall(&self) -> bool {
        forall|k: int|
            0 <= k < self.order@.len() ==> 1 <= (
            #[trigger] self.nodes@[self.order@[k] as int]).height <= 4
    }

    spec fn wf(&self) -> bool {
        &&& pooled(self.order@, self.free@, self.nodes@.len())
        &&& self.tall()
        &&& self.chained()
        &&& indexed_wf(IS_BID, true, self.model())
        &&& index_follows(IS_BID, true, self.tick_to_node@, self.order@, self.levels())
    }

    fn new() -> (r: Self)
        ensures
            r.wf(),
            r.model() == empty_side(),
            r.towers() == no_towers(),
    {
        let r = SkipBookSide {
            nodes: Vec::new(),
            free_head: NONE,
            head: [NONE, NONE, NONE, NONE],
            tick_to_node: HashMap::with_capacity(64),
            rng: 0x_dead_beef_cafe_babe,
            order: Ghost(Seq::empty()),
            free: Ghost(Seq::empty()),
        };
        assert(r.levels() =~= Seq::<Level>::empty());
        assert(r.model().indexed =~= Set::<int>::empty());
        r
    }

    /// True when `a` should appear before `b` in this side's ordering.
    fn comes_before(a: Decimal, b: Decimal) -> (r: bool)
        ensures
            r == (rank_of(IS_BID, a.value()) < rank_of(IS_BID, b.value())),
    {
        if IS_BID {
            b.less_than(&a)
        } else {
            a.less_than(&b)
        }
    }

    /// Samples a node height using xorshift64.
    /// Each additional level is promoted with probability 1/4 (p = 0.25),
    /// giving expected height log4(n) = 0.5 log2(n).
    fn random_height(&mut self) -> (r: u8)
        ensures
            r == sampled_height(xorshift64(old(self).rng)),
            1 <= r <= 4,
            *final(self) == (SkipBookSide { rng: xorshift64(old(self).rng), ..*old(self) }),
    {
        let mut x: u64 = self.rng;
        x = x ^ (x << 13u64);
        x = x ^ (x >> 7u64);
        x = x ^ (x << 17u64);
        self.rng = x;
        let mut h: u8 = 1;
        let mut bits: u64 = x;
        while h < MAX_HEIGHT as u8 && (bits & 3) == 0
            invariant
                1 <= h <= 4,
                h == 1 ==> bits == x,
                h >= 2 ==> x & 3 == 0,
                h == 2 ==> bits == x >> 2u64,
                h >= 3 ==> (x >> 2u64) & 3 == 0,
                h == 3 ==> bits == (x >> 2u64) >> 2u64,
                h >= 4 ==> ((x >> 2u64) >> 2u64) & 3 == 0,
            decreases 4 - h,
        {
            h = h + 1;
            bits = bits >> 2u64;
        }
        h
    }

    /// Walk the skip list from the top level down, collecting `update[h]` = the index
    /// of the rightmost predecessor at level h for `price` (NONE = before `head[h]`).
    ///
    /// Carry-over: when descending from level h+1 to h, we resume from the position
    /// where we stopped at h+1.  This is safe because any node accessible at level h+1
    /// has height of at least h+2, and therefore also participates in level h
    /// (forwards[h] is valid).
    fn find_update(&self, price: Decimal) -> (update: [u32; MAX_HEIGHT])
        requires
            self.nodes@.len() <= u32::MAX,
            forall|k: int|
                0 <= k < self.order@.len() ==> (#[trigger] self.order@[k]) < self.nodes@.len(),
            distinct(self.order@),
            self.chained(),
            ordered(IS_BID, self.levels()),
        ensures
            forall|h: int| 0 <= h < 4 ==> #[trigger] update@[h] == self.pred_at(h, price.value()),
    {
        let ghost r = rank_of(IS_BID, price.value());
        let ghost hs = heights(self.nodes@);
        let ghost order = self.order@;
        let mut update: [u32; MAX_HEIGHT] = [NONE, NONE, NONE, NONE];
        let mut cur: u32 = NONE;  // NONE == "we are at the virtual head"
        let mut h: usize = MAX_HEIGHT;
        while h > 0
            invariant
                h <= 4,
                self.nodes@.len() <= u32::MAX,
                forall|k: int|
                    0 <= k < self.order@.len() ==> (#[trigger] self.order@[k]) < self.nodes@.len(),
                self.chained(),
                ordered(IS_BID, self.levels()),
                order == self.order@,
                hs == heights(self.nodes@),
                r == rank_of(IS_BID, price.value()),
                cur != NONE ==> order.contains(cur) && hs[cur as int] > h && rank(
                    IS_BID,
                    held(self.nodes@)[cur as int],
                ) < r,
                forall|g: int|
                    h <= g < 4 ==> #[trigger] update@[g] == self.pred_at(g, price.value()),
            decreases h,
        {
            h = h - 1;
            let ghost l = self.lane_at(h as int);
            let ghost u = levels_in(held(self.nodes@), l);
            let ghost p = better_than(IS_BID, u, r);
            let ghost mut m: int = -1;
            proof {
                lemma_lane_parted(IS_BID, hs, held(self.nodes@), order, h as int, r);
                lemma_lane_members(hs, order, h as int);
                lemma_better_than(IS_BID, u, r);
                assert(self.lane_chained(h as int));
                if cur != NONE {
                    assert(l.contains(cur));
                    m = choose|m: int| 0 <= m < l.len() && l[m] == cur;
                    assert(u[m] == held(self.nodes@)[cur as int]);
                    let k = choose|k: int| 0 <= k < order.len() && order[k] == cur;
                    assert(order[k] < self.nodes@.len());
                }
                assert forall|j: int| 0 <= j < l.len() implies (#[trigger] l[j]) < self.nodes@.len()
                    && hs[l[j] as int] > h by {
                    let k = lemma_lane_member(hs, order, h as int, j);
                }
            }
            // Resume from where the level above stopped; start from head[h] if at the top.
            let mut probe: u32 = if cur == NONE {
                self.head[h]
            } else {
                self.nodes[cur as usize].forwards[h]
            };
            while probe != NONE
                invariant_except_break
                    probe == link_at(l, m + 1),
                invariant
                    h < 4,
                    self.nodes@.len() <= u32::MAX,
                    l == self.lane_at(h as int),
                    u == levels_in(held(self.nodes@), l),
                    p == better_than(IS_BID, u, r),
                    p <= l.len(),
                    r == rank_of(IS_BID, price.value()),
                    self.lane_chained(h as int),
                    forall|i: int| 0 <= i < p ==> rank(IS_BID, #[trigger] u[i]) < r,
                    forall|i: int| p <= i < u.len() ==> rank(IS_BID, #[trigger] u[i]) >= r,
                    forall|j: int|
                        0 <= j < l.len() ==> (#[trigger] l[j]) < self.nodes@.len()
                            && hs[l[j] as int] > h,
                    -1 <= m < p,
                    cur == link_at(l, m),
                ensures
                    m + 1 == p,
                decreases l.len() - m,
            {
                assert(u[m + 1] == held(self.nodes@)[probe as int]);
                if Self::comes_before(self.nodes[probe as usize].price, price) {
                    cur = probe;
                    probe = self.nodes[cur as usize].forwards[h];
                    proof {
                        m = m + 1;
                        assert(self.nodes@[l[m] as int].forwards@[h as int] == link_at(l, m + 1));
                    }
                } else {
                    break ;
                }
            }
            update[h] = cur;
            proof {
                if m >= 0 {
                    assert(u[m] == held(self.nodes@)[cur as int]);
                    let k = lemma_lane_member(hs, order, h as int, m);
                    assert(order.contains(cur));
                }
            }
        }
        update
    }

    /// The node behind which a level of the price enters level `h`.
    spec fn pred_at(&self, h: int, value: int) -> u32 {
        let k = better_than(IS_BID, self.levels(), rank_of(IS_BID, value)) as int;
        link_at(self.lane_at(h), lane_place(heights(self.nodes@), self.order@, h, k) - 1)
    }

    /// Takes a node off the free list, or adds one to the pool.
    fn alloc_node(&mut self, price: Decimal, size: Decimal, height: u8) -> (r: Option<u32>)
        requires
            pooled(old(self).order@, old(self).free@, old(self).nodes@.len()),
            old(self).tall(),
            old(self).chained(),
        ensures
            r is None <==> old(self).order@.len() == u32::MAX,
            final(self).order@ == old(self).order@,
            final(self).tick_to_node@ == old(self).tick_to_node@,
            final(self).levels() == old(self).levels(),
            final(self).towers() == old(self).towers(),
            final(self).tall(),
            final(self).chained(),
            r is None ==> pooled(final(self).order@, final(self).free@, final(self).nodes@.len()),
            r matches Some(i) ==> {
                &&& pooled_but(final(self).order@, final(self).free@, i, final(self).nodes@.len())
                &&& held(final(self).nodes@)[i as int] == (Level {
                    price: Price(price),
                    size: Quantity(size),
                })
                &&& final(self).nodes@[i as int].height == height
            },
    {
        let ghost n0 = self.nodes@;
        let ghost order = self.order@;
        if self.free_head != NONE {
            let i: u32 = self.free_head;
            let ghost free = self.free@;
            self.free_head = self.nodes[i as usize].forwards[0];
            self.nodes.set(
                i as usize,
                LevelNode { price, size, height, forwards: [NONE, NONE, NONE, NONE] },
            );
            self.free = Ghost(free.drop_first());
            proof {
                assert(free[0] == i);
                assert forall|k: int| 0 <= k < self.free@.len() implies self.free@[k] == free[k + 1]
                    && (#[trigger] self.nodes@[self.free@[k] as int]).forwards@[0] == link_at(
                    self.free@,
                    k + 1,
                ) by {
                    assert(free[k + 1] != free[0]);
                    assert(n0[free[k + 1] as int].forwards@[0] == link_at(free, k + 2));
                }
                assert(n0[free[0] as int].forwards@[0] == link_at(free, 1));
                lemma_others_kept(n0, self.nodes@, order, self.head@, i);
                assert(self.levels() =~= old(self).levels());
                assert forall|h: int| 0 <= h < 4 implies #[trigger] self.lane_chained(h) by {
                    assert(old(self).lane_chained(h));
                }
            }
            Some(i)
        } else {
            let i: u32 = self.nodes.len() as u32;
            assert(self.free@.len() == 0) by {
                if self.free@.len() > 0 {
                    assert(self.free@[0] < self.nodes@.len());
                }
            }
            if i == NONE {
                return None;
            }
            self.nodes.push(LevelNode { price, size, height, forwards: [NONE, NONE, NONE, NONE] });
            proof {
                lemma_others_kept(n0, self.nodes@, order, self.head@, i);
                assert(self.levels() =~= old(self).levels());
                assert forall|h: int| 0 <= h < 4 implies #[trigger] self.lane_chained(h) by {
                    assert(old(self).lane_chained(h));
                }
            }
            Some(i)
        }
    }

    /// Takes the node's price out of the map and puts the node on the free list.
    fn free_node(&mut self, i: u32)
        requires
            pooled_but(old(self).order@, old(self).free@, i, old(self).nodes@.len()),
            old(self).tall(),
            old(self).chained(),
        ensures
            final(self).order@ == old(self).order@,
            final(self).levels() == old(self).levels(),
            final(self).towers() == old(self).towers(),
            final(self).tick_to_node@ == old(self).tick_to_node@.remove(
                tick_of(old(self).nodes@[i as int].price.value()) as u128,
            ),
            pooled(final(self).order@, final(self).free@, final(self).nodes@.len()),
            final(self).tall(),
            final(self).chained(),
    {
        let ghost n0 = self.nodes@;
        let tick: u128 = self.nodes[i as usize].price.tick();
        self.tick_to_node.remove(&tick);
        self.nodes[i as usize].forwards[0] = self.free_head;
        self.free_head = i;
        let ghost free = self.free@;
        self.free = Ghost(free.insert(0, i));
        proof {
            assert(forall|k: int|
                0 < k < self.free@.len() ==> #[trigger] self.free@[k] == free[k - 1]);
            assert forall|k: int| 0 <= k < self.free@.len() implies (
            #[trigger] self.nodes@[self.free@[k] as int]).forwards@[0] == link_at(
                self.free@,
                k + 1,
            ) by {
                if k > 0 {
                    assert(n0[free[k - 1] as int].forwards@[0] == link_at(free, k));
                }
            }
            lemma_others_kept(n0, self.nodes@, self.order@, self.head@, i);
            assert(self.levels() =~= old(self).levels());
            assert forall|h: int| 0 <= h < 4 implies #[trigger] self.lane_chained(h) by {
                assert(old(self).lane_chained(h));
            }
        }
    }

    /// Splice node `i` into the skip list at every level in `0..height`.
    fn link(&mut self, i: u32)
        requires
            pooled_but(old(self).order@, old(self).free@, i, old(self).nodes@.len()),
            1 <= old(self).nodes@[i as int].height <= 4,
            old(self).tall(),
            old(self).chained(),
            ordered(IS_BID, old(self).levels()),
        ensures
            ({
                let value = old(self).nodes@[i as int].price.value();
                &&& final(self).order@ == old(self).order@.insert(
                    entry_place(IS_BID, true, old(self).levels(), value),
                    i,
                )
                &&& 0 <= tick_of(value) <= u128::MAX
                &&& final(self).tick_to_node@ == old(self).tick_to_node@.insert(
                    tick_of(value) as u128,
                    i,
                )
            }),
            held(final(self).nodes@) == held(old(self).nodes@),
            heights(final(self).nodes@) == heights(old(self).nodes@),
            final(self).rng == old(self).rng,
            pooled(final(self).order@, final(self).free@, final(self).nodes@.len()),
            final(self).tall(),
            final(self).chained(),
    {
        let price = self.nodes[i as usize].price;
        let height: usize = self.nodes[i as usize].height as usize;
        let tick: u128 = price.tick();
        self.tick_to_node.insert(tick, i);
        assert forall|g: int| 0 <= g < 4 implies #[trigger] self.lane_chained(g) by {
            assert(old(self).lane_chained(g));
        }
        let update = self.find_update(price);
        let ghost order = self.order@;
        let ghost free = self.free@;
        let ghost n0 = self.nodes@;
        let ghost hs = heights(n0);
        let ghost k = better_than(IS_BID, self.levels(), rank_of(IS_BID, price.value())) as int;
        let ghost after = order.insert(k, i);
        proof {
            lemma_better_than(IS_BID, self.levels(), rank_of(IS_BID, price.value()));
            assert forall|g: int| 0 <= g < 4 implies #[trigger] lane_linked(
                n0,
                lane(hs, order, g),
                g,
                self.head@[g],
            ) by {
                assert(self.lane_chained(g));
            }
        }
        let mut h: usize = 0;
        while h < height
            invariant
                h <= height <= 4,
                pooled_but(order, free, i, n0.len()),
                hs == heights(n0),
                height == hs[i as int],
                0 <= k <= order.len(),
                after == order.insert(k, i),
                forall|g: int|
                    0 <= g < 4 ==> #[trigger] update@[g] == link_at(
                        lane(hs, order, g),
                        lane_place(hs, order, g, k) - 1,
                    ),
                self.order@ == order,
                self.free@ == free,
                self.rng == old(self).rng,
                self.tick_to_node@ == old(self).tick_to_node@.insert(tick, i),
                same_held(self.nodes@, n0),
                forall|g: int|
                    h <= g < 4 ==> #[trigger] lane_linked(
                        self.nodes@,
                        lane(hs, order, g),
                        g,
                        self.head@[g],
                    ),
                forall|g: int|
                    0 <= g < h ==> #[trigger] lane_linked(
                        self.nodes@,
                        lane(hs, after, g),
                        g,
                        self.head@[g],
                    ),
                lane_linked(self.nodes@, free, 0, self.free_head),
            decreases height - h,
        {
            let ghost n1 = self.nodes@;
            let ghost head1 = self.head@;
            let ghost l = lane(hs, order, h as int);
            let ghost pos = lane_place(hs, order, h as int, k);
            proof {
                lemma_lane_insert(hs, order, h as int, k, i);
                lemma_lane_nodes(hs, order, h as int, n0.len());
                assert(lane_linked(n1, l, h as int, head1[h as int]));
                assert(update@[h as int] == link_at(l, pos - 1));
                assert forall|j: int| 0 <= j < l.len() implies (#[trigger] l[j]) != i by {
                    let m = lemma_lane_member(hs, order, h as int, j);
                }
                if pos > 0 {
                    let m = lemma_lane_member(hs, order, h as int, pos - 1);
                    assert(n1[l[pos - 1] as int].forwards@[h as int] == link_at(l, pos));
                }
            }
            if update[h] == NONE {
                self.nodes[i as usize].forwards[h] = self.head[h];
                self.head[h] = i;
            } else {
                let pred: u32 = update[h];
                self.nodes[i as usize].forwards[h] = self.nodes[pred as usize].forwards[h];
                self.nodes[pred as usize].forwards[h] = i;
            }
            proof {
                lemma_spliced_in(
                    n1,
                    self.nodes@,
                    l,
                    h as int,
                    pos,
                    i,
                    head1[h as int],
                    self.head@[h as int],
                );
                assert forall|g: int| h < g < 4 implies #[trigger] lane_linked(
                    self.nodes@,
                    lane(hs, order, g),
                    g,
                    self.head@[g],
                ) by {
                    assert(lane_linked(n1, lane(hs, order, g), g, head1[g]));
                    lemma_lane_nodes(hs, order, g, n0.len());
                    lemma_lane_kept(n1, self.nodes@, lane(hs, order, g), g, head1[g]);
                }
                assert forall|g: int| 0 <= g <= h implies #[trigger] lane_linked(
                    self.nodes@,
                    lane(hs, after, g),
                    g,
                    self.head@[g],
                ) by {
                    if g < h {
                        assert(lane_linked(n1, lane(hs, after, g), g, head1[g]));
                        lemma_lane_nodes(hs, after, g, n0.len());
                        lemma_lane_kept(n1, self.nodes@, lane(hs, after, g), g, head1[g]);
                    }
                }
                assert(lane_linked(self.nodes@, free, 0, self.free_head)) by {
                    assert(lane_linked(n1, free, 0, self.free_head));
                    lemma_lane_kept(n1, self.nodes@, free, 0, self.free_head);
                }
            }
            h = h + 1;
        }
        self.order = Ghost(after);
        proof {
            assert(heights(self.nodes@) =~= hs);
            assert(held(self.nodes@) =~= held(n0));
            assert forall|g: int| 0 <= g < 4 implies #[trigger] self.lane_chained(g) by {
                if g < height {
                    assert(lane_linked(self.nodes@, lane(hs, after, g), g, self.head@[g]));
                } else {
                    lemma_lane_insert(hs, order, g, k, i);
                    assert(lane_linked(self.nodes@, lane(hs, order, g), g, self.head@[g]));
                }
            }
            assert(forall|j: int| 0 <= j < k ==> #[trigger] after[j] == order[j]);
            assert(forall|j: int| k < j < after.len() ==> #[trigger] after[j] == order[j - 1]);
            assert forall|j: int| 0 <= j < after.len() implies 1 <= (
            #[trigger] self.nodes@[after[j] as int]).height <= 4 by {
                if j < k {
                    assert(1 <= n0[order[j] as int].height <= 4);
                } else if j > k {
                    assert(1 <= n0[order[j - 1] as int].height <= 4);
                }
            }
        }
    }

    /// Remove node `i` from every level in `0..height`.
    fn unlink(&mut self, i: u32, Ghost(k): Ghost<int>)
        requires
            pooled(old(self).order@, old(self).free@, old(self).nodes@.len()),
            old(self).tall(),
            old(self).chained(),
            ordered(IS_BID, old(self).levels()),
            0 <= k < old(self).order@.len(),
            old(self).order@[k] == i,
            k == better_than(
                IS_BID,
                old(self).levels(),
                rank_of(IS_BID, old(self).nodes@[i as int].price.value()),
            ),
        ensures
            final(self).order@ == old(self).order@.remove(k),
            final(self).free@ == old(self).free@,
            final(self).tick_to_node@ == old(self).tick_to_node@,
            held(final(self).nodes@) == held(old(self).nodes@),
            heights(final(self).nodes@) == heights(old(self).nodes@),
            final(self).rng == old(self).rng,
            pooled_but(final(self).order@, final(self).free@, i, final(self).nodes@.len()),
            final(self).tall(),
            final(self).chained(),
    {
        let price = self.nodes[i as usize].price;
        let height: usize = self.nodes[i as usize].height as usize;
        let update = self.find_update(price);
        let ghost order = self.order@;
        let ghost free = self.free@;
        let ghost n0 = self.nodes@;
        let ghost hs = heights(n0);
        let ghost after = order.remove(k);
        proof {
            assert(1 <= n0[order[k] as int].height <= 4);
            assert forall|g: int| 0 <= g < 4 implies #[trigger] lane_linked(
                n0,
                lane(hs, order, g),
                g,
                self.head@[g],
            ) by {
                assert(self.lane_chained(g));
            }
        }
        let mut h: usize = 0;
        while h < height
            invariant
                h <= height <= 4,
                pooled(order, free, n0.len()),
                hs == heights(n0),
                height == hs[i as int],
                0 <= k < order.len(),
                order[k] == i,
                after == order.remove(k),
                forall|g: int|
                    0 <= g < 4 ==> #[trigger] update@[g] == link_at(
                        lane(hs, order, g),
                        lane_place(hs, order, g, k) - 1,
                    ),
                self.order@ == order,
                self.free@ == free,
                self.rng == old(self).rng,
                self.tick_to_node@ == old(self).tick_to_node@,
                same_held(self.nodes@, n0),
                forall|g: int|
                    h <= g < 4 ==> #[trigger] lane_linked(
                        self.nodes@,
                        lane(hs, order, g),
                        g,
                        self.head@[g],
                    ),
                forall|g: int|
                    0 <= g < h ==> #[trigger] lane_linked(
                        self.nodes@,
                        lane(hs, after, g),
                        g,
                        self.head@[g],
                    ),
                lane_linked(self.nodes@, free, 0, self.free_head),
            decreases height - h,
        {
            let ghost n1 = self.nodes@;
            let ghost head1 = self.head@;
            let ghost l = lane(hs, order, h as int);
            let ghost pos = lane_place(hs, order, h as int, k);
            proof {
                lemma_lane_remove(hs, order, h as int, k);
                lemma_lane_nodes(hs, order, h as int, n0.len());
                assert(lane_linked(n1, l, h as int, head1[h as int]));
                assert(update@[h as int] == link_at(l, pos - 1));
                assert(n1[l[pos] as int].forwards@[h as int] == link_at(l, pos + 1));
                if pos > 0 {
                    let m = lemma_lane_member(hs, order, h as int, pos - 1);
                    assert(n1[l[pos - 1] as int].forwards@[h as int] == link_at(l, pos));
                    assert(l[pos - 1] != l[pos]);
                }
            }
            // Guard: only splice if the predecessor's forward pointer actually points to i.
            let pred_next: u32 = if update[h] == NONE {
                self.head[h]
            } else {
                self.nodes[update[h] as usize].forwards[h]
            };
            assert(pred_next == i);
            if pred_next == i {
                let new_next: u32 = self.nodes[i as usize].forwards[h];
                if update[h] == NONE {
                    self.head[h] = new_next;
                } else {
                    let pred: u32 = update[h];
                    self.nodes[pred as usize].forwards[h] = new_next;
                }
            }
            proof {
                lemma_spliced_out(
                    n1,
                    self.nodes@,
                    l,
                    h as int,
                    pos,
                    head1[h as int],
                    self.head@[h as int],
                );
                assert(forall|j: int| 0 <= j < k ==> #[trigger] after[j] == order[j]);
                assert(forall|j: int| k <= j < after.len() ==> #[trigger] after[j] == order[j + 1]);
                assert forall|g: int| h < g < 4 implies #[trigger] lane_linked(
                    self.nodes@,
                    lane(hs, order, g),
                    g,
                    self.head@[g],
                ) by {
                    assert(lane_linked(n1, lane(hs, order, g), g, head1[g]));
                    lemma_lane_nodes(hs, order, g, n0.len());
                    lemma_lane_kept(n1, self.nodes@, lane(hs, order, g), g, head1[g]);
                }
                assert forall|g: int| 0 <= g <= h implies #[trigger] lane_linked(
                    self.nodes@,
                    lane(hs, after, g),
                    g,
                    self.head@[g],
                ) by {
                    if g < h {
                        assert(lane_linked(n1, lane(hs, after, g), g, head1[g]));
                        lemma_lane_nodes(hs, after, g, n0.len());
                        lemma_lane_kept(n1, self.nodes@, lane(hs, after, g), g, head1[g]);
                    }
                }
                assert(lane_linked(self.nodes@, free, 0, self.free_head)) by {
                    assert(lane_linked(n1, free, 0, self.free_head));
                    lemma_lane_kept(n1, self.nodes@, free, 0, self.free_head);
                }
            }
            h = h + 1;
        }
        self.order = Ghost(after);
        proof {
            assert(heights(self.nodes@) =~= hs);
            assert(held(self.nodes@) =~= held(n0));
            assert forall|g: int| 0 <= g < 4 implies #[trigger] self.lane_chained(g) by {
                if g < height {
                    assert(lane_linked(self.nodes@, lane(hs, after, g), g, self.head@[g]));
                } else {
                    lemma_lane_remove(hs, order, g, k);
                    assert(lane_linked(self.nodes@, lane(hs, order, g), g, self.head@[g]));
                }
            }
            assert(forall|j: int| 0 <= j < k ==> #[trigger] after[j] == order[j]);
            assert(forall|j: int| k <= j < after.len() ==> #[trigger] after[j] == order[j + 1]);
            assert forall|j: int| 0 <= j < after.len() implies 1 <= (
            #[trigger] self.nodes@[after[j] as int]).height <= 4 by {
                let m = if j < k {
                    j
                } else {
                    j + 1
                };
                assert(1 <= n0[order[m] as int].height <= 4);
            }
        }
    }

    /// Samples a height, allocates a node for the level and links it, if the pool
    /// has room.
    fn enter(&mut self, price: Decimal, size: Decimal)
        requires
            old(self).wf(),
            size.magnitude() != 0,
        ensures
            final(self).wf(),
            final(self).model() == entered(
                IS_BID,
                true,
                old(self).model(),
                (Level { price: Price(price), size: Quantity(size) }),
            ),
            final(self).towers() == raised(
                IS_BID,
                old(self).levels(),
                old(self).towers(),
                price.value(),
            ),
    {
        let ghost level = Level { price: Price(price), size: Quantity(size) };
        let ghost before = self.model();
        let ghost order = self.order@;
        let ghost index = self.tick_to_node@;
        let ghost towers = self.towers();
        let h: u8 = self.random_height();
        proof {
            assert forall|g: int| 0 <= g < 4 implies #[trigger] self.lane_chained(g) by {
                assert(old(self).lane_chained(g));
            }
        }
        if let Some(i) = self.alloc_node(price, size, h) {
            let ghost n1 = self.nodes@;
            self.link(i);
            proof {
                let k = entry_place(IS_BID, true, before.levels, price.value());
                lemma_entered(IS_BID, true, before.levels, level);
                lemma_index_insert(index, price.value(), i);
                lemma_follows_insert(IS_BID, true, index, order, before.levels, level, i);
                lemma_entered_wf(IS_BID, true, before, level);
                assert forall|j: int| 0 <= j < self.order@.len() implies #[trigger] self.levels()[j]
                    == before.levels.insert(k, level)[j] by {
                    if j < k {
                        assert(self.order@[j] == order[j]);
                        assert(levels_in(held(n1), order)[j] == before.levels[j]);
                    } else if j > k {
                        assert(self.order@[j] == order[j - 1]);
                        assert(levels_in(held(n1), order)[j - 1] == before.levels[j - 1]);
                    }
                }
                assert(self.levels() =~= before.levels.insert(k, level));
                assert forall|j: int| 0 <= j < self.order@.len() implies (
                #[trigger] self.towers().heights[j]) == towers.heights.insert(k, h)[j] by {
                    assert(heights(self.nodes@)[self.order@[j] as int] == heights(
                        n1,
                    )[self.order@[j] as int]);
                    if j < k {
                        assert(self.order@[j] == order[j]);
                        assert(n1[order[j] as int].height == towers.heights[j]);
                    } else if j > k {
                        assert(self.order@[j] == order[j - 1]);
                        assert(n1[order[j - 1] as int].height == towers.heights[j - 1]);
                    }
                }
                assert(self.towers().heights =~= towers.heights.insert(k, h));
            }
        }
    }

    /// Returns all nodes to the free list, resets the skip heads and empties the map.
    fn clear(&mut self)
        requires
            old(self).wf(),
        ensures
            final(self).wf(),
            final(self).model() == empty_side(),
            final(self).rng == old(self).rng,
    {
        proof {
            lemma_full_lane(heights(self.nodes@), self.order@);
            assert(self.lane_chained(0));
        }
        let mut cur: u32 = self.head[0];
        let ghost mut rest = self.order@;
        while cur != NONE
            invariant
                self.rng == old(self).rng,
                pooled(rest, self.free@, self.nodes@.len()),
                lane_linked(self.nodes@, rest, 0, cur),
                lane_linked(self.nodes@, self.free@, 0, self.free_head),
            decreases rest.len(),
        {
            let ghost r0 = rest;
            let ghost f0 = self.free@;
            let ghost n0 = self.nodes@;
            let next: u32 = self.nodes[cur as usize].forwards[0];
            self.nodes[cur as usize].forwards[0] = self.free_head;
            self.free_head = cur;
            self.free = Ghost(f0.insert(0, cur));
            proof {
                rest = r0.drop_first();
                assert(r0[0] == cur);
                assert(n0[r0[0] as int].forwards@[0] == link_at(r0, 1));
                assert(forall|k: int| 0 <= k < rest.len() ==> #[trigger] rest[k] == r0[k + 1]);
                assert(forall|k: int| 0 < k < self.free@.len() ==> #[trigger] self.free@[k] == f0[k
                    - 1]);
                assert forall|k: int| 0 <= k < rest.len() implies (
                #[trigger] self.nodes@[rest[k] as int]).forwards@[0] == link_at(rest, k + 1) by {
                    assert(n0[r0[k + 1] as int].forwards@[0] == link_at(r0, k + 2));
                    assert(r0[0] != r0[k + 1]);
                }
                assert forall|k: int| 0 <= k < self.free@.len() implies (
                #[trigger] self.nodes@[self.free@[k] as int]).forwards@[0] == link_at(
                    self.free@,
                    k + 1,
                ) by {
                    if k > 0 {
                        assert(n0[f0[k - 1] as int].forwards@[0] == link_at(f0, k));
                        assert(r0[0] != f0[k - 1]);
                    }
                }
            }
            cur = next;
        }
        proof {
            if rest.len() > 0 {
                assert(rest[0] < self.nodes@.len());
            }
        }
        self.head = [NONE, NONE, NONE, NONE];
        self.tick_to_node.clear();
        self.order = Ghost(Seq::empty());
        proof {
            assert(self.levels() =~= Seq::<Level>::empty());
            assert(self.model().indexed =~= Set::<int>::empty());
        }
    }

    fn apply_levels(&mut self, levels: &[Level])
        requires
            old(self).wf(),
        ensures
            final(self).wf(),
            final(self).model() == indexed_snapshot(IS_BID, true, levels@),
            final(self).towers() == snapshot_towers(IS_BID, old(self).rng, levels@),
    {
        // Bulk-return all nodes via the level-0 full-list walk; reset all skip heads.
        self.clear();
        let mut j: usize = 0;
        assert(levels@.take(0) =~= Seq::<Level>::empty());
        assert(self.order@.len() == self.levels().len());
        while j < levels.len()
            invariant
                j <= levels@.len(),
                self.wf(),
                self.model() == indexed_snapshot(IS_BID, true, levels@.take(j as int)),
                self.towers() == snapshot_towers(IS_BID, old(self).rng, levels@.take(j as int)),
            decreases levels@.len() - j,
        {
            let level = levels[j];
            assert(levels@.take(j + 1).drop_last() =~= levels@.take(j as int));
            j = j + 1;
            if level.size.0.is_zero() {
                continue ;
            }
            self.enter(level.price.0, level.size.0);
        }
        assert(levels@.take(j as int) =~= levels@);
    }

    fn node_at(&self, tick: u128) -> (r: Option<u32>)
        ensures
            r == (if self.tick_to_node@.contains_key(tick) {
                Some(self.tick_to_node@[tick])
            } else {
                None
            }),
    {
        match self.tick_to_node.get(&tick) {
            Some(i) => Some(*i),
            None => None,
        }
    }

    fn apply_level(&mut self, price: Price, size: Quantity)
        requires
            old(self).wf(),
        ensures
            final(self).wf(),
            final(self).model() == indexed_change(IS_BID, true, old(self).model(), price, size),
            final(self).towers() == changed_towers(
                IS_BID,
                old(self).model(),
                old(self).towers(),
                price,
                size,
            ),
            size.0.magnitude() != 0 && old(self).model().indexed.contains(price.0.value()) ==> {
                &&& final(self).order@ == old(self).order@
                &&& heights(final(self).nodes@) == heights(old(self).nodes@)
                &&& final(self).tick_to_node@ == old(self).tick_to_node@
            },
    {
        let tick: u128 = price.0.tick();
        let ghost value = price.0.value();
        let ghost before = self.model();
        let ghost index = self.tick_to_node@;
        let ghost order = self.order@;
        let ghost towers = self.towers();
        let ghost k = latest_place(IS_BID, true, before.levels, value);
        proof {
            lemma_indexed_change_wf(IS_BID, true, before, price, size);
            assert(before.indexed.contains(value) == tick_indexed(index, value));
        }
        if size.0.is_zero() {
            if let Some(i) = self.node_at(tick) {
                proof {
                    lemma_follows_remove(IS_BID, true, index, order, before.levels, value);
                    lemma_index_remove(index, value);
                    assert(held(self.nodes@)[order[k] as int] == before.levels[k]);
                }
                self.unlink(i, Ghost(k));
                proof {
                    assert(self.levels() =~= before.levels.remove(k));
                    assert forall|j: int| 0 <= j < self.order@.len() implies (
                    #[trigger] self.towers().heights[j]) == towers.heights.remove(k)[j] by {
                        assert(heights(self.nodes@)[self.order@[j] as int] == heights(
                            old(self).nodes@,
                        )[self.order@[j] as int]);
                    }
                    assert(self.towers().heights =~= towers.heights.remove(k));
                }
                let ghost price_held = self.nodes@[i as int].price;
                proof {
                    assert(held(self.nodes@)[i as int].price.0 == price_held);
                }
                self.free_node(i);
            }
            return ;
        }
        // Size update on an existing level: no structural change, O(1).
        if let Some(i) = self.node_at(tick) {
            proof {
                lemma_follows_update(IS_BID, true, index, order, before.levels, value, size);
                assert(held(self.nodes@)[order[k] as int] == before.levels[k]);
            }
            let ghost n0 = self.nodes@;
            self.nodes[i as usize].size = size.0;
            proof {
                let t = before.levels.update(k, Level { price: before.levels[k].price, size });
                assert forall|j: int| 0 <= j < order.len() implies #[trigger] self.levels()[j]
                    == t[j] by {
                    assert(held(n0)[order[j] as int] == before.levels[j]);
                    if j != k {
                        assert(order[j] != order[k]);
                    }
                }
                assert(self.levels() =~= t);
                assert(heights(self.nodes@) =~= heights(n0));
                assert forall|j: int| 0 <= j < order.len() implies (
                #[trigger] self.towers().heights[j]) == towers.heights[j] by {
                    assert(heights(self.nodes@)[order[j] as int] == heights(n0)[order[j] as int]);
                }
                assert(self.towers() =~= towers);
                assert forall|g: int| 0 <= g < 4 implies #[trigger] self.lane_chained(g) by {
                    assert(old(self).lane_chained(g));
                    lemma_lane_nodes(heights(n0), order, g, n0.len());
                    lemma_lane_kept(
                        n0,
                        self.nodes@,
                        lane(heights(n0), order, g),
                        g,
                        self.head@[g],
                    );
                }
                lemma_lane_kept(n0, self.nodes@, self.free@, 0, self.free_head);
                assert forall|j: int| 0 <= j < order.len() implies 1 <= (
                #[trigger] self.nodes@[order[j] as int]).height <= 4 by {
                    assert(1 <= n0[order[j] as int].height <= 4);
                }
            }
            return ;
        }
        // New level: allocate, assign height, splice in.
        self.enter(price.0, size.0);
    }

    /// The nodes along level `h`.
    fn lane_nodes(&self, h: usize) -> (r: Vec<u32>)
        requires
            self.wf(),
            h < MAX_HEIGHT,
        ensures
            r@ == self.lane_at(h as int),
    {
        let ghost l = self.lane_at(h as int);
        let mut r: Vec<u32> = Vec::new();
        let mut cur: u32 = self.head[h];
        proof {
            assert(self.lane_chained(h as int));
            lemma_lane_nodes(heights(self.nodes@), self.order@, h as int, self.nodes@.len());
            assert(r@ =~= l.take(0));
        }
        while cur != NONE
            invariant
                h < 4,
                l == self.lane_at(h as int),
                self.nodes@.len() <= u32::MAX,
                self.lane_chained(h as int),
                forall|k: int| 0 <= k < l.len() ==> (#[trigger] l[k]) < self.nodes@.len(),
                r@.len() <= l.len(),
                r@ == l.take(r@.len() as int),
                cur == link_at(l, r@.len() as int),
            decreases l.len() - r@.len(),
        {
            let ghost k = r@.len() as int;
            assert(self.nodes@[l[k] as int].forwards@[h as int] == link_at(l, k + 1));
            r.push(cur);
            assert(l.take(k + 1) =~= l.take(k).push(l[k]));
            cur = self.nodes[cur as usize].forwards[h];
        }
        assert(l.take(r@.len() as int) =~= l);
        r
    }

    fn level_of(&self, i: u32) -> (r: Option<Level>)
        ensures
            r == (if i < self.nodes@.len() {
                Some(held(self.nodes@)[i as int])
            } else {
                None
            }),
    {
        if (i as usize) < self.nodes.len() {
            let n = &self.nodes[i as usize];
            Some(Level { price: Price(n.price), size: Quantity(n.size) })
        } else {
            None
        }
    }

    fn height_of(&self, i: u32) -> (r: Option<u8>)
        ensures
            r == (if i < self.nodes@.len() {
                Some(heights(self.nodes@)[i as int])
            } else {
                None
            }),
    {
        if (i as usize) < self.nodes.len() {
            Some(self.nodes[i as usize].height)
        } else {
            None
        }
    }

    fn iter(&self) -> (r: SkipBookSideIter<'_>)
        requires
            self.wf(),
        ensures
            r.levels() == self.levels(),
            IteratorSpec::obeys_prophetic_iter_laws(&r),
            IteratorSpec::remaining(&r) == self.levels(),
            IteratorSpec::decrease(&r) is Some,
    {
        proof {
            lemma_full_lane(heights(self.nodes@), self.order@);
            assert(self.lane_chained(0));
        }
        SkipBookSideIter { nodes: self.nodes.as_slice(), cur: self.head[0], rest: self.order }
    }
}

/// Lazy iterator over one side of the skip list, following level-0 forward pointers.
/// Starts at `head[0]` (the best bid or best ask) and steps through every level in order.
pub struct SkipBookSideIter<'a> {
    nodes: &'a [LevelNode],
    cur: u32,
    /// The nodes still to visit.
    rest: Ghost<Seq<u32>>,
}

impl<'a> SkipBookSideIter<'a> {
    #[verifier::type_invariant]
    spec fn inv(self) -> bool {
        &&& self.nodes@.len() <= u32::MAX
        &&& lane_linked(self.nodes@, self.rest@, 0, self.cur)
        &&& forall|k: int|
            0 <= k < self.rest@.len() ==> (#[trigger] self.rest@[k]) < self.nodes@.len()
    }

    /// The levels still to come.
    pub closed spec fn levels(&self) -> Seq<Level> {
        levels_in(held(self.nodes@), self.rest@)
    }
}

impl<'a> IteratorSpecImpl for SkipBookSideIter<'a> {
    open spec fn obeys_prophetic_iter_laws(&self) -> bool {
        true
    }

    open spec fn remaining(&self) -> Seq<Level> {
        self.levels()
    }

    open spec fn will_return_none(&self) -> bool {
        true
    }

    open spec fn decrease(&self) -> Option<nat> {
        Some(self.levels().len())
    }

    open spec fn initial_value_relation(&self, init: &Self) -> bool {
        init.levels() == self.levels()
    }

    open spec fn peek(&self, index: int) -> Option<Level> {
        if 0 <= index < self.levels().len() {
            Some(self.levels()[index])
        } else {
            None
        }
    }
}

impl<'a> Iterator for SkipBookSideIter<'a> {
    type Item = Level;

    fn next(&mut self) -> (ret: Option<Level>) {
        proof {
            use_type_invariant(&*self);
        }
        let ghost before = self.levels();
        let ghost rest = self.rest@;
        if self.cur == NONE {
            proof {
                if rest.len() > 0 {
                    assert(rest[0] < self.nodes@.len());
                }
            }
            return None;
        }
        let n = &self.nodes[self.cur as usize];
        let level = Level { price: Price(n.price), size: Quantity(n.size) };
        let next: u32 = n.forwards[0];
        proof {
            let after = rest.drop_first();
            assert(self.nodes@[rest[0] as int].forwards@[0] == link_at(rest, 1));
            assert(forall|k: int| 0 <= k < after.len() ==> #[trigger] after[k] == rest[k + 1]);
            assert forall|k: int| 0 <= k < after.len() implies (
            #[trigger] self.nodes@[after[k] as int]).forwards@[0] == link_at(after, k + 1) by {
                assert(self.nodes@[rest[k + 1] as int].forwards@[0] == link_at(rest, k + 2));
            }
            assert(before[0] == level);
        }
        *self = SkipBookSideIter { nodes: self.nodes, cur: next, rest: Ghost(rest.drop_first()) };
        assert(self.levels() =~= before.drop_first());
        Some(level)
    }
}

/// Skip-list orderbook implementing `OrderbookLike`.
pub struct SkipOrderbook {
    bids: SkipBookSide<true>,
    asks: SkipBookSide<false>,
}

impl SkipOrderbook {
    /// The side's levels, and the prices found through the map.
    pub closed spec fn side(&self, side: Side) -> IndexedSide {
        match side {
            Side::Bid => self.bids.model(),
            Side::Ask => self.asks.model(),
        }
    }

    /// The nodes of the side's full list, best first.
    pub closed spec fn node_order(&self, side: Side) -> Seq<u32> {
        match side {
            Side::Bid => self.bids.order@,
            Side::Ask => self.asks.order@,
        }
    }

    /// The heights of the nodes in the side's pool.
    pub closed spec fn node_heights(&self, side: Side) -> Seq<u8> {
        match side {
            Side::Bid => heights(self.bids.nodes@),
            Side::Ask => heights(self.asks.nodes@),
        }
    }

    /// The levels held by the nodes in the side's pool.
    pub closed spec fn node_levels(&self, side: Side) -> Seq<Level> {
        match side {
            Side::Bid => held(self.bids.nodes@),
            Side::Ask => held(self.asks.nodes@),
        }
    }

    /// The heights of the side's listed nodes, best first, and its generator.
    pub closed spec fn towers(&self, side: Side) -> Towers {
        match side {
            Side::Bid => self.bids.towers(),
            Side::Ask => self.asks.towers(),
        }
    }

    /// The side's map from ticks to nodes.
    pub closed spec fn index(&self, side: Side) -> Map<u128, u32> {
        match side {
            Side::Bid => self.bids.tick_to_node@,
            Side::Ask => self.asks.tick_to_node@,
        }
    }

    /// The nodes that take part in the side's level `h`.
    pub open spec fn lane_at(&self, side: Side, h: int) -> Seq<u32> {
        lane(self.node_heights(side), self.node_order(side), h)
    }

    /// The list, the heights and the map of the side are the same in both books.
    pub open spec fn same_structure(&self, other: &SkipOrderbook, side: Side) -> bool {
        &&& self.node_order(side) == other.node_order(side)
        &&& self.node_heights(side) == other.node_heights(side)
        &&& self.index(side) == other.index(side)
    }

    /// Lists and maps are as the operations leave them.
    pub closed spec fn inv(&self) -> bool {
        &&& self.bids.wf()
        &&& self.asks.wf()
    }

    pub fn new() -> (r: Self)
        ensures
            r.inv(),
            r.side(Side::Bid) == empty_side(),
            r.side(Side::Ask) == empty_side(),
            r.towers(Side::Bid) == no_towers(),
            r.towers(Side::Ask) == no_towers(),
    {
        SkipOrderbook { bids: SkipBookSide::new(), asks: SkipBookSide::new() }
    }

    /// The nodes along the side's level `h`, best first.
    pub fn lane_nodes(&self, side: Side, h: usize) -> (r: Vec<u32>)
        requires
            self.inv(),
            h < MAX_HEIGHT,
        ensures
            r@ == self.lane_at(side, h as int),
    {
        match side {
            Side::Bid => self.bids.lane_nodes(h),
            Side::Ask => self.asks.lane_nodes(h),
        }
    }

    /// The node that the price is found at.
    pub fn node_at(&self, side: Side, price: Price) -> (r: Option<u32>)
        ensures
            r == (if tick_indexed(self.index(side), price.0.value()) {
                Some(self.index(side)[tick_of(price.0.value()) as u128])
            } else {
                None
            }),
    {
        let tick: u128 = price.0.tick();
        match side {
            Side::Bid => self.bids.node_at(tick),
            Side::Ask => self.asks.node_at(tick),
        }
    }

    /// The level that a node of the side's pool holds.
    pub fn node_level(&self, side: Side, node: u32) -> (r: Option<Level>)
        ensures
            r == (if node < self.node_levels(side).len() {
                Some(self.node_levels(side)[node as int])
            } else {
                None
            }),
    {
        match side {
            Side::Bid => self.bids.level_of(node),
            Side::Ask => self.asks.level_of(node),
        }
    }

    /// The height of a node of the side's pool.
    pub fn node_height(&self, side: Side, node: u32) -> (r: Option<u8>)
        ensures
            r == (if node < self.node_heights(side).len() {
                Some(self.node_heights(side)[node as int])
            } else {
                None
            }),
    {
        match side {
            Side::Bid => self.bids.height_of(node),
            Side::Ask => self.asks.height_of(node),
        }
    }

    /// Level 0 lists every level of the side. Each level above has those nodes of
    /// the level below that are tall enough, in the same order, so its prices are
    /// ordered too, strictly where the side is regular.
    pub proof fn law_lanes(&self, side: Side, h: int)
        requires
            self.inv(),
            0 <= h < MAX_HEIGHT,
        ensures
            self.lane_at(side, 0) == self.node_order(side),
            levels_in(self.node_levels(side), self.lane_at(side, 0)) == self.side(side).levels,
            h > 0 ==> self.lane_at(side, h) == lane(
                self.node_heights(side),
                self.lane_at(side, h - 1),
                h,
            ),
            ordered(side is Bid, levels_in(self.node_levels(side), self.lane_at(side, h))),
            indexed_regular(side is Bid, self.side(side)) ==> strictly_ordered(
                side is Bid,
                levels_in(self.node_levels(side), self.lane_at(side, h)),
            ),
    {
        let hs = self.node_heights(side);
        let order = self.node_order(side);
        let held = self.node_levels(side);
        lemma_full_lane(hs, order);
        lemma_lane_ordered(side is Bid, hs, held, order, h);
        if h > 0 {
            lemma_lane_of_lane(hs, order, h - 1, h);
        }
        if indexed_regular(side is Bid, self.side(side)) {
            lemma_lane_strict(side is Bid, hs, held, order, h);
        }
    }

    /// Every listed node takes part in the full list, and in at most as many levels as
    /// there are.
    pub proof fn law_heights(&self, side: Side, k: int)
        requires
            self.inv(),
            0 <= k < self.node_order(side).len(),
        ensures
            self.towers(side).heights.len() == self.node_order(side).len(),
            self.towers(side).heights[k] == self.node_heights(side)[self.node_order(
                side,
            )[k] as int],
            self.node_order(side)[k] < self.node_heights(side).len(),
            self.node_levels(side).len() == self.node_heights(side).len(),
            1 <= self.node_heights(side)[self.node_order(side)[k] as int] <= MAX_HEIGHT,
    {
        if side is Bid {
            assert(1 <= self.bids.nodes@[self.bids.order@[k] as int].height <= 4);
        } else {
            assert(1 <= self.asks.nodes@[self.asks.order@[k] as int].height <= 4);
        }
    }

    /// A snapshot lists its levels without the empty ones. Where these name no price
    /// twice, the side is regular and lists them in order.
    pub proof fn law_snapshot_drops_empty(bids: Seq<Level>, asks: Seq<Level>, after: &Self)
        requires
            Self::snapshot_gives(bids, asks, after),
        ensures
            Self::snapshot_gives(without_empty(bids), without_empty(asks), after),
            no_empty_level(without_empty(bids)),
            no_empty_level(without_empty(asks)),
            distinct_prices(without_empty(bids)) && without_empty(bids).len() <= pool_limit()
                ==> after.regular(Side::Bid) && after.bid_levels() == sorted_ladder(
                true,
                without_empty(bids),
            ),
            distinct_prices(without_empty(asks)) && without_empty(asks).len() <= pool_limit()
                ==> after.regular(Side::Ask) && after.ask_levels() == sorted_ladder(
                false,
                without_empty(asks),
            ),
    {
        lemma_snapshot_drops_empty(true, true, bids);
        lemma_snapshot_drops_empty(false, true, asks);
    }

    /// Both sides are in order, and a price that is found has a level.
    pub proof fn law_sides(&self, side: Side)
        requires
            self.inv(),
        ensures
            indexed_wf(side is Bid, true, self.side(side)),
    {
    }

    /// No level that is listed is empty.
    pub proof fn law_no_empty_level(&self, side: Side)
        requires
            self.inv(),
        ensures
            no_empty_level(self.side(side).levels),
    {
    }

    /// On a regular side the map leads every listed price to the node that holds
    /// its level.
    pub proof fn law_index(&self, side: Side, k: int)
        requires
            self.inv(),
            indexed_regular(side is Bid, self.side(side)),
            0 <= k < self.node_order(side).len(),
        ensures
            ({
                let node = self.node_order(side)[k];
                let value = self.node_levels(side)[node as int].price.0.value();
                &&& tick_indexed(self.index(side), value)
                &&& self.index(side)[tick_of(value) as u128] == node
            }),
    {
        let s = self.side(side).levels;
        assert(s[k] == self.node_levels(side)[self.node_order(side)[k] as int]);
        lemma_found(side is Bid, s, k);
        assert(self.side(side).indexed.contains(s[k].price.0.value()));
    }

    /// The map leads a price, if at all, to a listed node that holds a level of the price.
    pub proof fn law_index_is_listed(&self, side: Side, value: int) -> (k: int)
        requires
            self.inv(),
            tick_indexed(self.index(side), value),
        ensures
            0 <= k < self.node_order(side).len(),
            self.index(side)[tick_of(value) as u128] == self.node_order(side)[k],
            self.node_levels(side)[self.node_order(side)[k] as int].price.0.value() == value,
    {
        let s = self.side(side).levels;
        let k = latest_place(side is Bid, true, s, value);
        assert(self.side(side).indexed.contains(value));
        assert(latest_at(side is Bid, true, s, value));
        assert(s[k] == self.node_levels(side)[self.node_order(side)[k] as int]);
        k
    }
}

impl Default for SkipOrderbook {
    fn default() -> (r: Self)
        ensures
            r.inv(),
            r.side(Side::Bid) == empty_side(),
            r.side(Side::Ask) == empty_side(),
            r.towers(Side::Bid) == no_towers(),
            r.towers(Side::Ask) == no_towers(),
    {
        Self::new()
    }
}

impl OrderbookLike for SkipOrderbook {
    type BidIter<'a> = SkipBookSideIter<'a>;

    type AskIter<'a> = SkipBookSideIter<'a>;

    open spec fn wf(&self) -> bool {
        self.inv()
    }

    open spec fn bid_levels(&self) -> Seq<Level> {
        self.side(Side::Bid).levels
    }

    open spec fn ask_levels(&self) -> Seq<Level> {
        self.side(Side::Ask).levels
    }

    open spec fn regular(&self, side: Side) -> bool {
        indexed_regular(side is Bid, self.side(side))
    }

    open spec fn snapshot_gives(bids: Seq<Level>, asks: Seq<Level>, after: &Self) -> bool {
        &&& after.side(Side::Bid) == indexed_snapshot(true, true, bids)
        &&& after.side(Side::Ask) == indexed_snapshot(false, true, asks)
    }

    /// A new size for a price that is found leaves the structure as it is.
    open spec fn change_gives(
        before: &Self,
        side: Side,
        price: Price,
        size: Quantity,
        after: &Self,
    ) -> bool {
        let other = if side is Bid {
            Side::Ask
        } else {
            Side::Bid
        };
        &&& after.side(side) == indexed_change(side is Bid, true, before.side(side), price, size)
        &&& after.towers(side) == changed_towers(
            side is Bid,
            before.side(side),
            before.towers(side),
            price,
            size,
        )
        &&& after.side(other) == before.side(other)
        &&& after.towers(other) == before.towers(other)
        &&& after.same_structure(before, other)
        &&& size.0.magnitude() != 0 && before.side(side).indexed.contains(price.0.value())
            ==> after.same_structure(before, side)
    }

    open spec fn alike(&self, other: &Self) -> bool {
        &&& self.side(Side::Bid) == other.side(Side::Bid)
        &&& self.side(Side::Ask) == other.side(Side::Ask)
    }

    proof fn law_default(book: &Self) {
    }

    proof fn law_ordered(book: &Self) {
    }

    proof fn law_snapshot(bids: Seq<Level>, asks: Seq<Level>, after: &Self) {
        if distinct_prices(bids) && no_empty_level(bids) && bids.len() <= pool_limit() {
            lemma_snapshot_regular(true, true, bids);
        }
        if distinct_prices(asks) && no_empty_level(asks) && asks.len() <= pool_limit() {
            lemma_snapshot_regular(false, true, asks);
        }
    }

    proof fn law_change(before: &Self, side: Side, price: Price, size: Quantity, after: &Self) {
        if before.regular(Side::Bid) && before.bid_levels().len() < pool_limit() {
            lemma_change_regular(true, true, before.side(Side::Bid), price, size);
        }
        if before.regular(Side::Ask) && before.ask_levels().len() < pool_limit() {
            lemma_change_regular(false, true, before.side(Side::Ask), price, size);
        }
    }

    proof fn law_change_at_its_price(
        before: &Self,
        side: Side,
        price: Price,
        size: Quantity,
        after: &Self,
    ) {
        lemma_parts_indexed(true, true, before.side(Side::Bid), price, size);
        lemma_parts_indexed(false, true, before.side(Side::Ask), price, size);
    }

    proof fn law_alike(a: &Self, b: &Self, c: &Self) {
    }

    proof fn law_same_snapshot(bids: Seq<Level>, asks: Seq<Level>, a: &Self, b: &Self) {
    }

    proof fn law_same_change(
        a: &Self,
        b: &Self,
        side: Side,
        price: Price,
        size: Quantity,
        after_a: &Self,
        after_b: &Self,
    ) {
    }

    fn apply_snapshot(&mut self, bids: Vec<Level>, asks: Vec<Level>)
        ensures
            final(self).towers(Side::Bid) == snapshot_towers(
                true,
                old(self).towers(Side::Bid).seed,
                bids@,
            ),
            final(self).towers(Side::Ask) == snapshot_towers(
                false,
                old(self).towers(Side::Ask).seed,
                asks@,
            ),
    {
        self.bids.apply_levels(bids.as_slice());
        self.asks.apply_levels(asks.as_slice());
    }

    fn apply_price_change(&mut self, side: Side, price: Price, size: Quantity) {
        match side {
            Side::Bid => self.bids.apply_level(price, size),
            Side::Ask => self.asks.apply_level(price, size),
        }
    }

    fn bids(&self) -> (r: SkipBookSideIter<'_>) {
        self.bids.iter()
    }

    fn asks(&self) -> (r: SkipBookSideIter<'_>) {
        self.asks.iter()
    }
}

/// A lane without one node, once its neighbours point to each other.
proof fn lemma_spliced_out(
    n0: Seq<LevelNode>,
    n1: Seq<LevelNode>,
    s: Seq<u32>,
    h: int,
    pos: int,
    first0: u32,
    first1: u32,
)
    requires
        0 <= pos < s.len(),
        lane_linked(n0, s, h, first0),
        forall|k: int|
            0 <= k < s.len() ==> (#[trigger] n1[s[k] as int]).forwards@[h] == (if k == pos - 1 {
                link_at(s, pos + 1)
            } else {
                n0[s[k] as int].forwards@[h]
            }),
        first1 == (if pos == 0 {
            link_at(s, 1)
        } else {
            first0
        }),
    ensures
        lane_linked(n1, s.remove(pos), h, first1),
{
    let t = s.remove(pos);
    assert forall|k: int| 0 <= k < t.len() implies (#[trigger] n1[t[k] as int]).forwards@[h]
        == link_at(t, k + 1) by {
        let m = if k < pos {
            k
        } else {
            k + 1
        };
        assert(t[k] == s[m]);
        assert(n0[s[m] as int].forwards@[h] == link_at(s, m + 1));
    }
}

/// Node by node the same price, size and height.
spec fn same_held(a: Seq<LevelNode>, b: Seq<LevelNode>) -> bool {
    &&& a.len() == b.len()
    &&& forall|j: int|
        0 <= j < a.len() ==> (#[trigger] a[j]).price == b[j].price && a[j].size == b[j].size
            && a[j].height == b[j].height
}

/// The nodes of a lane are nodes of the pool.
proof fn lemma_lane_nodes(hs: Seq<u8>, order: Seq<u32>, h: int, n: nat)
    requires
        forall|k: int| 0 <= k < order.len() ==> (#[trigger] order[k]) < n,
        distinct(order),
    ensures
        forall|k: int| 0 <= k < lane(hs, order, h).len() ==> (#[trigger] lane(hs, order, h)[k]) < n,
        distinct(lane(hs, order, h)),
{
    lemma_lane_distinct(hs, order, h);
    assert forall|k: int| 0 <= k < lane(hs, order, h).len() implies (
    #[trigger] lane(hs, order, h)[k]) < n by {
        let m = lemma_lane_member(hs, order, h, k);
    }
}

/// A lane stays linked while its own links stay.
proof fn lemma_lane_kept(n0: Seq<LevelNode>, n1: Seq<LevelNode>, s: Seq<u32>, h: int, first: u32)
    requires
        lane_linked(n0, s, h, first),
        forall|k: int|
            0 <= k < s.len() ==> (#[trigger] n1[s[k] as int]).forwards@[h]
                == n0[s[k] as int].forwards@[h],
    ensures
        lane_linked(n1, s, h, first),
{
    assert forall|k: int| 0 <= k < s.len() implies (#[trigger] n1[s[k] as int]).forwards@[h]
        == link_at(s, k + 1) by {
        assert(n0[s[k] as int].forwards@[h] == link_at(s, k + 1));
    }
}

/// Node `i` stands in a lane once its neighbours and it point to each other.
proof fn lemma_spliced_in(
    n0: Seq<LevelNode>,
    n1: Seq<LevelNode>,
    s: Seq<u32>,
    h: int,
    pos: int,
    i: u32,
    first0: u32,
    first1: u32,
)
    requires
        0 <= pos <= s.len(),
        lane_linked(n0, s, h, first0),
        n1[i as int].forwards@[h] == link_at(s, pos),
        forall|k: int|
            0 <= k < s.len() ==> (#[trigger] n1[s[k] as int]).forwards@[h] == (if k == pos - 1 {
                i
            } else {
                n0[s[k] as int].forwards@[h]
            }),
        first1 == (if pos == 0 {
            i
        } else {
            first0
        }),
    ensures
        lane_linked(n1, s.insert(pos, i), h, first1),
{
    let t = s.insert(pos, i);
    assert forall|k: int| 0 <= k < t.len() implies (#[trigger] n1[t[k] as int]).forwards@[h]
        == link_at(t, k + 1) by {
        if k < pos {
            assert(t[k] == s[k]);
            assert(n0[s[k] as int].forwards@[h] == link_at(s, k + 1));
        } else if k > pos {
            assert(t[k] == s[k - 1]);
            assert(n0[s[k - 1] as int].forwards@[h] == link_at(s, k));
        }
    }
}

/// Writing to a node that is not in the list leaves the lanes as they are.
proof fn lemma_others_kept(
    n0: Seq<LevelNode>,
    n1: Seq<LevelNode>,
    order: Seq<u32>,
    head: Seq<u32>,
    i: u32,
)
    requires
        n0.len() <= n1.len(),
        forall|k: int| 0 <= k < order.len() ==> (#[trigger] order[k]) < n0.len() && order[k] != i,
        forall|j: int| 0 <= j < n0.len() && j != i ==> #[trigger] n1[j] == n0[j],
    ensures
        forall|h: int|
            #![trigger lane(heights(n1), order, h)]
            lane(heights(n1), order, h) == lane(heights(n0), order, h) && (lane_linked(
                n0,
                lane(heights(n0), order, h),
                h,
                head[h],
            ) ==> lane_linked(n1, lane(heights(n1), order, h), h, head[h])),
        levels_in(held(n1), order) == levels_in(held(n0), order),
{
    assert forall|h: int|
        #![trigger lane(heights(n1), order, h)]
        lane(heights(n1), order, h) == lane(heights(n0), order, h) && (lane_linked(
            n0,
            lane(heights(n0), order, h),
            h,
            head[h],
        ) ==> lane_linked(n1, lane(heights(n1), order, h), h, head[h])) by {
        let l = lane(heights(n0), order, h);
        lemma_lane_same(heights(n1), heights(n0), order, h);
        if lane_linked(n0, l, h, head[h]) {
            assert forall|k: int| 0 <= k < l.len() implies (
            #[trigger] n1[l[k] as int]).forwards@[h] == link_at(l, k + 1) by {
                let m = lemma_lane_member(heights(n0), order, h, k);
                assert(n0[l[k] as int].forwards@[h] == link_at(l, k + 1));
            }
        }
    }
    assert(levels_in(held(n1), order) =~= levels_in(held(n0), order));
}

} // verus!
