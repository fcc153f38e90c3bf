//! Intrusive-list-based orderbook: pool-allocated nodes, O(1) lookup by price tick,
//! O(depth) insert/remove, cache-free: levels are traversed lazily via an iterator.
//! IS_BID is a const generic: the comparison operator is resolved at compile time.

use crate::basic_orderbook::{Level, OrderbookLike, Price, Quantity, Side};
use crate::decimal::{tick_of, Decimal};
use crate::ladder::{
    distinct_prices, empty_side, entered, entry_place, index_follows, indexed_change,
    indexed_regular, indexed_snapshot, indexed_values, indexed_wf, latest_place,
    lemma_as_good_as_is, lemma_change_regular, lemma_entered, lemma_entered_wf,
    lemma_follows_insert, lemma_follows_remove, lemma_follows_update, lemma_index_insert,
    lemma_index_remove, lemma_indexed_change_wf, lemma_parts_indexed, lemma_snapshot_drops_empty,
    lemma_snapshot_regular, link_at, no_empty_level, ordered, pool_limit, pooled,
    pooled_but, rank, rank_of, sorted_ladder, tick_indexed, without_empty, IndexedSide,
};
use std::collections::HashMap;
use vstd::prelude::*;
use vstd::std_specs::iter::{IteratorSpec, IteratorSpecImpl};

verus! {

broadcast use vstd::std_specs::hash::group_hash_axioms;

const NONE: u32 = u32::MAX;

/// One node in the intrusive price-ordered list.
/// Holds both the level data and the list links; when free, `next` is the free-list link.
struct LevelNode {
    price: Decimal,
    size: Decimal,
    next: u32,
    prev: u32,
}

/// The level that a node holds.
spec fn level_of(node: LevelNode) -> Level {
    Level { price: Price(node.price), size: Quantity(node.size) }
}

/// The levels that the nodes hold, in the order given.
spec fn levels_of(nodes: Seq<LevelNode>, order: Seq<u32>) -> Seq<Level> {
    Seq::new(order.len(), |k: int| level_of(nodes[order[k] as int]))
}

/// Each node points to the one behind it.
spec fn next_linked(nodes: Seq<LevelNode>, s: Seq<u32>) -> bool {
    forall|k: int| 0 <= k < s.len() ==> (#[trigger] nodes[s[k] as int]).next == link_at(s, k + 1)
}

/// Each node points to the one before it.
spec fn prev_linked(nodes: Seq<LevelNode>, s: Seq<u32>) -> bool {
    forall|k: int| 0 <= k < s.len() ==> (#[trigger] nodes[s[k] as int]).prev == link_at(s, k - 1)
}

/// Single side (bids or asks): pool of nodes + intrusive doubly-linked list + tick-to-node map.
/// IS_BID = true: descending order (highest price first).
/// IS_BID = false: ascending order (lowest price first).
struct FastBookSide<const IS_BID: bool> {
    nodes: Vec<LevelNode>,
    free_head: u32,
    head: u32,
    tick_to_node: HashMap<u128, u32>,
    /// The nodes in the list, best first.
    order: Ghost<Seq<u32>>,
    /// The nodes on the free list.
    free: Ghost<Seq<u32>>,
}

impl<const IS_BID: bool> FastBookSide<IS_BID> {
    spec fn levels(&self) -> Seq<Level> {
        levels_of(self.nodes@, self.order@)
    }

    spec fn model(&self) -> IndexedSide {
        IndexedSide { levels: self.levels(), indexed: indexed_values(self.tick_to_node@) }
    }

    /// The links follow the ghost sequences.
    spec fn chained(&self) -> bool {
        &&& self.head == link_at(self.order@, 0)
        &&& self.free_head == link_at(self.free@, 0)
        &&& next_linked(self.nodes@, self.order@)
        &&& prev_linked(self.nodes@, self.order@)
        &&& next_linked(self.nodes@, self.free@)
    }

    spec fn wf(&self) -> bool {
        &&& pooled(self.order@, self.free@, self.nodes@.len())
        &&& self.chained()
        &&& indexed_wf(IS_BID, false, self.model())
        &&& index_follows(IS_BID, false, self.tick_to_node@, self.order@, self.levels())
    }

    fn new() -> (r: Self)
        ensures
            r.wf(),
            r.model() == empty_side(),
    {
        let r = FastBookSide {
            nodes: Vec::new(),
            free_head: NONE,
            head: NONE,
            tick_to_node: HashMap::with_capacity(64),
            order: Ghost(Seq::empty()),
            free: Ghost(Seq::empty()),
        };
        assert(r.levels() =~= Seq::<Level>::empty());
        assert(r.model().indexed =~= Set::<int>::empty());
        r
    }

    /// Returns true when `a` should appear before `b` in the list.
    fn comes_before(a: Decimal, b: Decimal) -> (r: bool)
        ensures
            r == (rank_of(IS_BID, a.value()) < rank_of(IS_BID, b.value())),
    {
        if IS_BID {
            b.less_than(&a)
        } else {
            a.less_than(&b)
        }
    }

    /// Takes a node off the free list, or adds one to the pool.
    fn alloc_node(&mut self, price: Decimal, size: Decimal) -> (r: Option<u32>)
        requires
            pooled(old(self).order@, old(self).free@, old(self).nodes@.len()),
            old(self).chained(),
        ensures
            r is None <==> old(self).order@.len() == u32::MAX,
            final(self).order@ == old(self).order@,
            final(self).tick_to_node@ == old(self).tick_to_node@,
            final(self).levels() == old(self).levels(),
            final(self).chained(),
            r is None ==> pooled(final(self).order@, final(self).free@, final(self).nodes@.len()),
            r matches Some(i) ==> {
                &&& pooled_but(final(self).order@, final(self).free@, i, final(self).nodes@.len())
                &&& level_of(final(self).nodes@[i as int]) == (Level {
                    price: Price(price),
                    size: Quantity(size),
                })
            },
    {
        if self.free_head != NONE {
            let i: u32 = self.free_head;
            let ghost free = self.free@;
            self.free_head = self.nodes[i as usize].next;
            self.nodes.set(i as usize, LevelNode { price, size, next: NONE, prev: NONE });
            self.free = Ghost(free.drop_first());
            proof {
                assert(free[0] == i);
                assert forall|k: int| 0 <= k < self.free@.len() implies self.free@[k] == free[k + 1]
                    && (#[trigger] self.nodes@[self.free@[k] as int]).next == link_at(
                    self.free@,
                    k + 1,
                ) by {
                    assert(free[k + 1] != free[0]);
                }
                assert(self.levels() =~= old(self).levels());
            }
            Some(i)
        } else {
            let i: u32 = self.nodes.len() as u32;
            assert(self.free@.len() == 0) by {
                if self.free@.len() > 0 {
                    assert(self.free@[0] < self.nodes@.len());
                }
            }
            if i == NONE {
                return None;
            }
            self.nodes.push(LevelNode { price, size, next: NONE, prev: NONE });
            assert(self.levels() =~= old(self).levels());
            Some(i)
        }
    }

    /// Takes the node's price out of the map and puts the node on the free list.
    fn free_node(&mut self, i: u32)
        requires
            pooled_but(old(self).order@, old(self).free@, i, old(self).nodes@.len()),
            old(self).chained(),
        ensures
            final(self).order@ == old(self).order@,
            final(self).levels() == old(self).levels(),
            final(self).tick_to_node@ == old(self).tick_to_node@.remove(
                tick_of(old(self).nodes@[i as int].price.value()) as u128,
            ),
            pooled(final(self).order@, final(self).free@, final(self).nodes@.len()),
            final(self).chained(),
    {
        let tick: u128 = self.nodes[i as usize].price.tick();
        self.tick_to_node.remove(&tick);
        self.nodes[i as usize].next = self.free_head;
        self.free_head = i;
        let ghost free = self.free@;
        self.free = Ghost(free.insert(0, i));
        proof {
            assert(forall|k: int|
                0 < k < self.free@.len() ==> #[trigger] self.free@[k] == free[k - 1]);
            assert(self.levels() =~= old(self).levels());
        }
    }

    /// Takes the node out of the list.
    fn unlink(&mut self, i: u32, Ghost(k): Ghost<int>)
        requires
            pooled(old(self).order@, old(self).free@, old(self).nodes@.len()),
            old(self).chained(),
            0 <= k < old(self).order@.len(),
            old(self).order@[k] == i,
        ensures
            final(self).order@ == old(self).order@.remove(k),
            final(self).free@ == old(self).free@,
            final(self).tick_to_node@ == old(self).tick_to_node@,
            same_levels_held(final(self).nodes@, old(self).nodes@),
            pooled_but(final(self).order@, final(self).free@, i, final(self).nodes@.len()),
            final(self).chained(),
    {
        let ghost order = self.order@;
        let ghost n0 = self.nodes@;
        let prev: u32 = self.nodes[i as usize].prev;
        let next: u32 = self.nodes[i as usize].next;
        proof {
            if k > 0 {
                assert(order[k - 1] != order[k]);
            }
            if k + 1 < order.len() {
                assert(order[k + 1] != order[k]);
            }
        }
        if prev != NONE {
            self.nodes[prev as usize].next = next;
        } else {
            self.head = next;
        }
        if next != NONE {
            self.nodes[next as usize].prev = prev;
        }
        self.order = Ghost(order.remove(k));
        proof {
            let after = self.order@;
            let n1 = self.nodes@;
            assert(forall|j: int| 0 <= j < k ==> #[trigger] after[j] == order[j]);
            assert(forall|j: int| k <= j < after.len() ==> #[trigger] after[j] == order[j + 1]);
            assert forall|j: int| 0 <= j < after.len() implies (#[trigger] n1[after[j] as int]).next
                == link_at(after, j + 1) && n1[after[j] as int].prev == link_at(after, j - 1) by {
                let m = if j < k {
                    j
                } else {
                    j + 1
                };
                assert(after[j] == order[m]);
            }
        }
    }

    /// Insert node `i` in price order. Caller must have already allocated and filled `i`.
    #[verifier::spinoff_prover]
    #[verifier::rlimit(80)]
    fn link(&mut self, i: u32)
        requires
            pooled_but(old(self).order@, old(self).free@, i, old(self).nodes@.len()),
            old(self).chained(),
            ordered(IS_BID, old(self).levels()),
        ensures
            ({
                let value = old(self).nodes@[i as int].price.value();
                &&& final(self).order@ == old(self).order@.insert(
                    entry_place(IS_BID, false, old(self).levels(), value),
                    i,
                )
                &&& 0 <= tick_of(value) <= u128::MAX
                &&& final(self).tick_to_node@ == old(self).tick_to_node@.insert(
                    tick_of(value) as u128,
                    i,
                )
            }),
            same_levels_held(final(self).nodes@, old(self).nodes@),
            pooled(final(self).order@, final(self).free@, final(self).nodes@.len()),
            final(self).chained(),
    {
        let price = self.nodes[i as usize].price;
        let tick: u128 = price.tick();
        self.tick_to_node.insert(tick, i);
        let ghost order = self.order@;
        let ghost n0 = self.nodes@;
        let ghost levels = self.levels();
        let ghost r = rank_of(IS_BID, price.value());
        if self.head == NONE {
            self.nodes[i as usize].prev = NONE;
            self.nodes[i as usize].next = NONE;
            self.head = i;
            self.order = Ghost(order.insert(0, i));
            return ;
        }
        let mut cur: u32 = self.head;
        let ghost mut k: int = 0;
        loop
            invariant
                self.order@ == order,
                self.nodes@ == n0,
                self.levels() == levels,
                self.chained(),
                pooled_but(order, self.free@, i, n0.len()),
                ordered(IS_BID, levels),
                r == rank_of(IS_BID, price.value()),
                price == n0[i as int].price,
                tick == tick_of(price.value()),
                0 <= k < order.len(),
                cur == order[k],
                k > 0 ==> rank(IS_BID, levels[k - 1]) <= r,
                self.order@ == old(self).order@,
                self.free@ == old(self).free@,
                self.nodes@ == old(self).nodes@,
                levels == old(self).levels(),
                self.tick_to_node@ == old(self).tick_to_node@.insert(tick, i),
            decreases order.len() - k,
        {
            let cur_price = self.nodes[cur as usize].price;
            assert(levels[k] == level_of(n0[cur as int]));
            if Self::comes_before(price, cur_price) {
                let prev: u32 = self.nodes[cur as usize].prev;
                proof {
                    lemma_as_good_as_is(IS_BID, levels, r, k);
                    if k > 0 {
                        assert(order[k - 1] != order[k]);
                        assert(prev == order[k - 1]);
                    }
                }
                self.nodes[i as usize].prev = prev;
                self.nodes[i as usize].next = cur;
                self.nodes[cur as usize].prev = i;
                if prev != NONE {
                    self.nodes[prev as usize].next = i;
                } else {
                    self.head = i;
                }
                self.order = Ghost(order.insert(k, i));
                proof {
                    lemma_inserted(n0, self.nodes@, order, k, i);
                    assert(forall|j: int|
                        0 <= j < self.free@.len() ==> (
                        #[trigger] self.nodes@[self.free@[j] as int]).next == n0[self.free@[j] as int].next);
                }
                return ;
            }
            let next: u32 = self.nodes[cur as usize].next;
            if next == NONE {
                proof {
                    if k + 1 < order.len() {
                        assert(order[k + 1] < n0.len());
                    }
                    lemma_as_good_as_is(IS_BID, levels, r, k + 1);
                }
                self.nodes[cur as usize].next = i;
                self.nodes[i as usize].prev = cur;
                self.nodes[i as usize].next = NONE;
                self.order = Ghost(order.insert(k + 1, i));
                proof {
                    lemma_inserted(n0, self.nodes@, order, k + 1, i);
                    assert(forall|j: int|
                        0 <= j < self.free@.len() ==> (
                        #[trigger] self.nodes@[self.free@[j] as int]).next == n0[self.free@[j] as int].next);
                }
                return ;
            }
            cur = next;
            proof {
                k = k + 1;
            }
        }
    }

    /// Allocates a node for the level and links it, if the pool has room.
    fn enter(&mut self, price: Decimal, size: Decimal)
        requires
            old(self).wf(),
            size.magnitude() != 0,
        ensures
            final(self).wf(),
            final(self).model() == entered(
                IS_BID,
                false,
                old(self).model(),
                (Level { price: Price(price), size: Quantity(size) }),
            ),
    {
        let ghost level = Level { price: Price(price), size: Quantity(size) };
        let ghost before = self.model();
        let ghost order = self.order@;
        let ghost index = self.tick_to_node@;
        if let Some(i) = self.alloc_node(price, size) {
            let ghost n1 = self.nodes@;
            self.link(i);
            proof {
                let k = entry_place(IS_BID, false, before.levels, price.value());
                lemma_entered(IS_BID, false, before.levels, level);
                lemma_index_insert(index, price.value(), i);
                lemma_follows_insert(IS_BID, false, index, order, before.levels, level, i);
                lemma_entered_wf(IS_BID, false, before, level);
                assert forall|j: int| 0 <= j < self.order@.len() implies #[trigger] self.levels()[j]
                    == before.levels.insert(k, level)[j] by {
                    if j < k {
                        assert(self.order@[j] == order[j]);
                        assert(levels_of(n1, order)[j] == before.levels[j]);
                    } else if j > k {
                        assert(self.order@[j] == order[j - 1]);
                        assert(levels_of(n1, order)[j - 1] == before.levels[j - 1]);
                    }
                }
                assert(self.levels() =~= before.levels.insert(k, level));
            }
        }
    }

    /// Returns all nodes to the free list and empties the map.
    fn clear(&mut self)
        requires
            old(self).wf(),
        ensures
            final(self).wf(),
            final(self).model() == empty_side(),
    {
        let mut cur: u32 = self.head;
        let ghost mut rest = self.order@;
        while cur != NONE
            invariant
                pooled(rest, self.free@, self.nodes@.len()),
                cur == link_at(rest, 0),
                self.free_head == link_at(self.free@, 0),
                next_linked(self.nodes@, rest),
                next_linked(self.nodes@, self.free@),
            decreases rest.len(),
        {
            let ghost r0 = rest;
            let ghost f0 = self.free@;
            let ghost n0 = self.nodes@;
            let next: u32 = self.nodes[cur as usize].next;
            self.nodes[cur as usize].next = self.free_head;
            self.free_head = cur;
            self.free = Ghost(f0.insert(0, cur));
            proof {
                rest = r0.drop_first();
                assert(r0[0] == cur);
                assert(forall|k: int| 0 <= k < rest.len() ==> #[trigger] rest[k] == r0[k + 1]);
                assert(forall|k: int| 0 < k < self.free@.len() ==> #[trigger] self.free@[k] == f0[k
                    - 1]);
                assert forall|k: int| 0 <= k < rest.len() implies (
                #[trigger] self.nodes@[rest[k] as int]).next == link_at(rest, k + 1) by {
                    assert(n0[r0[k + 1] as int].next == link_at(r0, k + 2));
                    assert(r0[0] != r0[k + 1]);
                }
                assert forall|k: int| 0 <= k < self.free@.len() implies (
                #[trigger] self.nodes@[self.free@[k] as int]).next == link_at(
                    self.free@,
                    k + 1,
                ) by {
                    if k > 0 {
                        assert(n0[f0[k - 1] as int].next == link_at(f0, k));
                        assert(r0[0] != f0[k - 1]);
                    }
                }
            }
            cur = next;
        }
        proof {
            if rest.len() > 0 {
                assert(rest[0] < self.nodes@.len());
            }
        }
        self.head = NONE;
        self.tick_to_node.clear();
        self.order = Ghost(Seq::empty());
        proof {
            assert(self.levels() =~= Seq::<Level>::empty());
            assert(self.model().indexed =~= Set::<int>::empty());
        }
    }

    fn apply_levels(&mut self, levels: &[Level])
        requires
            old(self).wf(),
        ensures
            final(self).wf(),
            final(self).model() == indexed_snapshot(IS_BID, false, levels@),
    {
        // Bulk-return all nodes to the free list; clear the map once instead of per-node.
        self.clear();
        let mut j: usize = 0;
        assert(levels@.take(0) =~= Seq::<Level>::empty());
        while j < levels.len()
            invariant
                j <= levels@.len(),
                self.wf(),
                self.model() == indexed_snapshot(IS_BID, false, levels@.take(j as int)),
            decreases levels@.len() - j,
        {
            let level = levels[j];
            assert(levels@.take(j + 1).drop_last() =~= levels@.take(j as int));
            j = j + 1;
            if level.size.0.is_zero() {
                continue ;
            }
            self.enter(level.price.0, level.size.0);
        }
        assert(levels@.take(j as int) =~= levels@);
    }

    fn node_at(&self, tick: u128) -> (r: Option<u32>)
        ensures
            r == (if self.tick_to_node@.contains_key(tick) {
                Some(self.tick_to_node@[tick])
            } else {
                None
            }),
    {
        match self.tick_to_node.get(&tick) {
            Some(i) => Some(*i),
            None => None,
        }
    }

    fn apply_level(&mut self, price: Price, size: Quantity)
        requires
            old(self).wf(),
        ensures
            final(self).wf(),
            final(self).model() == indexed_change(IS_BID, false, old(self).model(), price, size),
    {
        let tick: u128 = price.0.tick();
        let ghost value = price.0.value();
        let ghost before = self.model();
        let ghost index = self.tick_to_node@;
        let ghost order = self.order@;
        let ghost k = latest_place(IS_BID, false, before.levels, value);
        proof {
            lemma_indexed_change_wf(IS_BID, false, before, price, size);
            assert(before.indexed.contains(value) == tick_indexed(index, value));
        }
        if size.0.is_zero() {
            if let Some(i) = self.node_at(tick) {
                proof {
                    lemma_follows_remove(IS_BID, false, index, order, before.levels, value);
                    lemma_index_remove(index, value);
                    assert(level_of(self.nodes@[order[k] as int]) == before.levels[k]);
                }
                self.unlink(i, Ghost(k));
                proof {
                    assert(self.levels() =~= before.levels.remove(k));
                }
                self.free_node(i);
            }
            return ;
        }
        if let Some(i) = self.node_at(tick) {
            proof {
                lemma_follows_update(IS_BID, false, index, order, before.levels, value, size);
                assert(level_of(self.nodes@[order[k] as int]) == before.levels[k]);
            }
            let ghost n0 = self.nodes@;
            self.nodes[i as usize].size = size.0;
            proof {
                let t = before.levels.update(k, Level { price: before.levels[k].price, size });
                assert forall|j: int| 0 <= j < order.len() implies #[trigger] self.levels()[j]
                    == t[j] by {
                    assert(level_of(n0[order[j] as int]) == before.levels[j]);
                    if j != k {
                        assert(order[j] != order[k]);
                    }
                }
                assert(self.levels() =~= t);
            }
            return ;
        }
        self.enter(price.0, size.0);
    }

    fn iter(&self) -> (r: FastBookSideIter<'_>)
        requires
            self.wf(),
        ensures
            r.levels() == self.levels(),
            IteratorSpec::obeys_prophetic_iter_laws(&r),
            IteratorSpec::remaining(&r) == self.levels(),
            IteratorSpec::decrease(&r) is Some,
    {
        FastBookSideIter { nodes: self.nodes.as_slice(), cur: self.head, rest: self.order }
    }
}

/// Lazy iterator over one side of the book, following intrusive list links.
/// No buffer; each `next()` reads directly from the node pool.
pub struct FastBookSideIter<'a> {
    nodes: &'a [LevelNode],
    cur: u32,
    /// The nodes still to visit.
    rest: Ghost<Seq<u32>>,
}

impl<'a> FastBookSideIter<'a> {
    #[verifier::type_invariant]
    spec fn inv(self) -> bool {
        &&& self.nodes@.len() <= u32::MAX
        &&& self.cur == link_at(self.rest@, 0)
        &&& next_linked(self.nodes@, self.rest@)
        &&& forall|k: int|
            0 <= k < self.rest@.len() ==> (#[trigger] self.rest@[k]) < self.nodes@.len()
    }

    /// The levels still to come.
    pub closed spec fn levels(&self) -> Seq<Level> {
        levels_of(self.nodes@, self.rest@)
    }
}

impl<'a> IteratorSpecImpl for FastBookSideIter<'a> {
    open spec fn obeys_prophetic_iter_laws(&self) -> bool {
        true
    }

    open spec fn remaining(&self) -> Seq<Level> {
        self.levels()
    }

    open spec fn will_return_none(&self) -> bool {
        true
    }

    open spec fn decrease(&self) -> Option<nat> {
        Some(self.levels().len())
    }

    open spec fn initial_value_relation(&self, init: &Self) -> bool {
        init.levels() == self.levels()
    }

    open spec fn peek(&self, index: int) -> Option<Level> {
        if 0 <= index < self.levels().len() {
            Some(self.levels()[index])
        } else {
            None
        }
    }
}

impl<'a> Iterator for FastBookSideIter<'a> {
    type Item = Level;

    fn next(&mut self) -> (ret: Option<Level>) {
        proof {
            use_type_invariant(&*self);
        }
        let ghost before = self.levels();
        let ghost rest = self.rest@;
        if self.cur == NONE {
            proof {
                if rest.len() > 0 {
                    assert(rest[0] < self.nodes@.len());
                }
            }
            return None;
        }
        let n = &self.nodes[self.cur as usize];
        let level = Level { price: Price(n.price), size: Quantity(n.size) };
        proof {
            assert(self.nodes@[rest[0] as int].next == link_at(rest, 1));
            assert(forall|k: int|
                0 <= k < rest.len() - 1 ==> #[trigger] rest.drop_first()[k] == rest[k + 1]);
            assert(before[0] == level);
        }
        *self = FastBookSideIter { nodes: self.nodes, cur: n.next, rest: Ghost(rest.drop_first()) };
        assert(self.levels() =~= before.drop_first());
        Some(level)
    }
}

/// Fast orderbook: intrusive-list internals implementing `OrderbookLike`.
pub struct FastOrderbook {
    bids: FastBookSide<true>,
    asks: FastBookSide<false>,
}

impl FastOrderbook {
    /// The bid side: its levels, and the prices found through the map.
    pub closed spec fn bid_side(&self) -> IndexedSide {
        self.bids.model()
    }

    /// The ask side: its levels, and the prices found through the map.
    pub closed spec fn ask_side(&self) -> IndexedSide {
        self.asks.model()
    }

    /// Lists and map are as the operations leave them.
    pub closed spec fn inv(&self) -> bool {
        &&& self.bids.wf()
        &&& self.asks.wf()
    }

    pub fn new() -> (r: Self)
        ensures
            r.inv(),
            r.bid_side() == empty_side(),
            r.ask_side() == empty_side(),
    {
        FastOrderbook { bids: FastBookSide::new(), asks: FastBookSide::new() }
    }
}

impl FastOrderbook {
    /// A snapshot lists its levels without the empty ones. Where these name no price
    /// twice, the side is regular and lists them in order.
    pub proof fn law_snapshot_drops_empty(bids: Seq<Level>, asks: Seq<Level>, after: &Self)
        requires
            Self::snapshot_gives(bids, asks, after),
        ensures
            Self::snapshot_gives(without_empty(bids), without_empty(asks), after),
            no_empty_level(without_empty(bids)),
            no_empty_level(without_empty(asks)),
            distinct_prices(without_empty(bids)) && without_empty(bids).len() <= pool_limit()
                ==> after.regular(Side::Bid) && after.bid_levels() == sorted_ladder(
                true,
                without_empty(bids),
            ),
            distinct_prices(without_empty(asks)) && without_empty(asks).len() <= pool_limit()
                ==> after.regular(Side::Ask) && after.ask_levels() == sorted_ladder(
                false,
                without_empty(asks),
            ),
    {
        lemma_snapshot_drops_empty(true, false, bids);
        lemma_snapshot_drops_empty(false, false, asks);
    }

    /// Both sides are in order, and a price that is found has a level.
    pub proof fn law_sides(&self)
        requires
            self.inv(),
        ensures
            indexed_wf(true, false, self.bid_side()),
            indexed_wf(false, false, self.ask_side()),
    {
    }

    /// No level that is listed is empty.
    pub proof fn law_no_empty_level(&self)
        requires
            self.inv(),
        ensures
            no_empty_level(self.bid_side().levels),
            no_empty_level(self.ask_side().levels),
    {
    }
}

impl Default for FastOrderbook {
    fn default() -> (r: Self)
        ensures
            r.inv(),
            r.bid_side() == empty_side(),
            r.ask_side() == empty_side(),
    {
        Self::new()
    }
}

impl OrderbookLike for FastOrderbook {
    type BidIter<'a> = FastBookSideIter<'a>;

    type AskIter<'a> = FastBookSideIter<'a>;

    open spec fn wf(&self) -> bool {
        self.inv()
    }

    open spec fn bid_levels(&self) -> Seq<Level> {
        self.bid_side().levels
    }

    open spec fn ask_levels(&self) -> Seq<Level> {
        self.ask_side().levels
    }

    open spec fn regular(&self, side: Side) -> bool {
        match side {
            Side::Bid => indexed_regular(true, self.bid_side()),
            Side::Ask => indexed_regular(false, self.ask_side()),
        }
    }

    open spec fn snapshot_gives(bids: Seq<Level>, asks: Seq<Level>, after: &Self) -> bool {
        &&& after.bid_side() == indexed_snapshot(true, false, bids)
        &&& after.ask_side() == indexed_snapshot(false, false, asks)
    }

    open spec fn change_gives(
        before: &Self,
        side: Side,
        price: Price,
        size: Quantity,
        after: &Self,
    ) -> bool {
        match side {
            Side::Bid => {
                &&& after.bid_side() == indexed_change(true, false, before.bid_side(), price, size)
                &&& after.ask_side() == before.ask_side()
            },
            Side::Ask => {
                &&& after.bid_side() == before.bid_side()
                &&& after.ask_side() == indexed_change(false, false, before.ask_side(), price, size)
            },
        }
    }

    open spec fn alike(&self, other: &Self) -> bool {
        &&& self.bid_side() == other.bid_side()
        &&& self.ask_side() == other.ask_side()
    }

    proof fn law_default(book: &Self) {
    }

    proof fn law_ordered(book: &Self) {
    }

    proof fn law_snapshot(bids: Seq<Level>, asks: Seq<Level>, after: &Self) {
        if distinct_prices(bids) && no_empty_level(bids) && bids.len() <= pool_limit() {
            lemma_snapshot_regular(true, false, bids);
        }
        if distinct_prices(asks) && no_empty_level(asks) && asks.len() <= pool_limit() {
            lemma_snapshot_regular(false, false, asks);
        }
    }

    proof fn law_change(before: &Self, side: Side, price: Price, size: Quantity, after: &Self) {
        if before.regular(Side::Bid) && before.bid_levels().len() < pool_limit() {
            lemma_change_regular(true, false, before.bid_side(), price, size);
        }
        if before.regular(Side::Ask) && before.ask_levels().len() < pool_limit() {
            lemma_change_regular(false, false, before.ask_side(), price, size);
        }
    }

    proof fn law_change_at_its_price(
        before: &Self,
        side: Side,
        price: Price,
        size: Quantity,
        after: &Self,
    ) {
        lemma_parts_indexed(true, false, before.bid_side(), price, size);
        lemma_parts_indexed(false, false, before.ask_side(), price, size);
    }

    proof fn law_alike(a: &Self, b: &Self, c: &Self) {
    }

    proof fn law_same_snapshot(bids: Seq<Level>, asks: Seq<Level>, a: &Self, b: &Self) {
    }

    proof fn law_same_change(
        a: &Self,
        b: &Self,
        side: Side,
        price: Price,
        size: Quantity,
        after_a: &Self,
        after_b: &Self,
    ) {
    }

    fn apply_snapshot(&mut self, bids: Vec<Level>, asks: Vec<Level>) {
        self.bids.apply_levels(bids.as_slice());
        self.asks.apply_levels(asks.as_slice());
    }

    fn apply_price_change(&mut self, side: Side, price: Price, size: Quantity) {
        match side {
            Side::Bid => self.bids.apply_level(price, size),
            Side::Ask => self.asks.apply_level(price, size),
        }
    }

    fn bids(&self) -> (r: FastBookSideIter<'_>) {
        self.bids.iter()
    }

    fn asks(&self) -> (r: FastBookSideIter<'_>) {
        self.asks.iter()
    }
}

/// Node by node the same level.
spec fn same_levels_held(a: Seq<LevelNode>, b: Seq<LevelNode>) -> bool {
    &&& a.len() == b.len()
    &&& forall|j: int|
        0 <= j < a.len() ==> (#[trigger] a[j]).price == b[j].price && a[j].size == b[j].size
}

/// Node `i` stands between its neighbours when all three point to each other.
proof fn lemma_inserted(n0: Seq<LevelNode>, n1: Seq<LevelNode>, order: Seq<u32>, k: int, i: u32)
    requires
        0 <= k <= order.len(),
        n0.len() == n1.len() <= u32::MAX,
        i < n0.len(),
        forall|j: int| 0 <= j < order.len() ==> (#[trigger] order[j]) < n0.len() && order[j] != i,
        next_linked(n0, order),
        prev_linked(n0, order),
        n1[i as int].next == link_at(order, k),
        n1[i as int].prev == link_at(order, k - 1),
        forall|j: int|
            0 <= j < order.len() ==> (#[trigger] n1[order[j] as int]).next == (if j == k - 1 {
                i
            } else {
                n0[order[j] as int].next
            }),
        forall|j: int|
            0 <= j < order.len() ==> (#[trigger] n1[order[j] as int]).prev == (if j == k {
                i
            } else {
                n0[order[j] as int].prev
            }),
    ensures
        next_linked(n1, order.insert(k, i)),
        prev_linked(n1, order.insert(k, i)),
{
    let after = order.insert(k, i);
    assert forall|j: int| 0 <= j < after.len() implies (#[trigger] n1[after[j] as int]).next
        == link_at(after, j + 1) && n1[after[j] as int].prev == link_at(after, j - 1) by {
        if j < k {
            assert(after[j] == order[j]);
        } else if j > k {
            assert(after[j] == order[j - 1]);
        }
    }
}

} // verus!
