//! The order book: two price ladders, the id cache, running totals, and
//! the target-clearing summary.

use vstd::prelude::*;

use crate::amount::Amount;
use crate::errors::InputError;
use crate::ladder::{
    asc_prices, depths_nonneg, desc_prices, has_price, ladder_add_rel,
    ladder_reduce, lemma_index_of_price_unique, lemma_level_le_sum, lemma_sum_depth_nonneg,
    lemma_sum_insert, lemma_sum_update, lemma_sum_value_first, lemma_sum_value_nonneg,
    lemma_walk_fills, lemma_walk_value_bounds, reduce_taken, search_asc, search_desc, sum_depth,
    sum_value, walk_taken, walk_value,
};
use crate::orders::{limit_result_spec, reduce_result_spec, tokenize, tokens_of, LimitOrder,
    ReduceOrder};
use crate::orderside::OrderSide;

verus! {

/// The id cache strategy: a mapping from the 64-bit id hash of an order to
/// the (price, side) at which it was originally placed. Entries are never
/// removed; a second add under the same id overwrites.
pub trait IdPriceCache: Sized {
    /// The entries the cache currently holds.
    spec fn entries(&self) -> Map<u64, (Amount, OrderSide)>;

    /// Records the price and side at which an order was placed.
    fn insert(&mut self, order: &LimitOrder)
        ensures
            final(self).entries() == old(self).entries().insert(
                order.id,
                (order.price, order.side),
            ),
    ;

    /// Whether an id has been recorded.
    fn contains_key(&self, key: &u64) -> (r: bool)
        ensures
            r == self.entries().contains_key(*key),
    ;

    /// The (price, side) recorded for an id.
    fn get(&self, key: &u64) -> (r: Option<(Amount, OrderSide)>)
        ensures
            match r {
                Some(t) => self.entries().contains_key(*key) && t == self.entries()[*key],
                None => !self.entries().contains_key(*key),
            },
    ;
}

/// Relies on the type `fnv::FnvHasher`, declared here so that it can stand
/// in the hasher position of the cache's map type.
#[verifier::external_type_specification]
#[verifier::external_body]
pub struct ExFnvHasher(fnv::FnvHasher);

/// Relies on the type `std::hash::BuildHasherDefault`, which vstd does not
/// declare.
#[verifier::external_type_specification]
#[verifier::external_body]
#[verifier::reject_recursive_types(H)]
pub struct ExBuildHasherDefault<H>(std::hash::BuildHasherDefault<H>);

/// The id cache backed by a hash map with the Fowler–Noll–Vo hasher.
pub struct IdPriceCacheFnvMap {
    /// The underlying map; its view is the cache's contents.
    pub map: std::collections::HashMap<u64, (Amount, OrderSide), fnv::FnvBuildHasher>,
}

impl IdPriceCacheFnvMap {
    /// Relies on `HashMap::insert` with the fnv hasher: the map afterwards
    /// holds the new entry and is otherwise unchanged. vstd specifies this
    /// only for std's own hasher, so it is assumed here for fnv's, whose
    /// `Hasher` impl is deterministic.
    #[verifier::external_body]
    fn insert_entry(&mut self, id: u64, price: Amount, side: OrderSide)
        ensures
            final(self).map@ == old(self).map@.insert(id, (price, side)),
    {
        self.map.insert(id, (price, side));
    }

    /// Relies on `HashMap::contains_key` with the fnv hasher: true exactly
    /// for the keys the map holds.
    #[verifier::external_body]
    fn has_entry(&self, key: &u64) -> (r: bool)
        ensures
            r == self.map@.contains_key(*key),
    {
        self.map.contains_key(key)
    }

    /// Relies on `HashMap::get` with the fnv hasher: the value stored
    /// under the key, if any.
    #[verifier::external_body]
    fn get_entry(&self, key: &u64) -> (r: Option<(Amount, OrderSide)>)
        ensures
            match r {
                Some(t) => self.map@.contains_key(*key) && t == self.map@[*key],
                None => !self.map@.contains_key(*key),
            },
    {
        match self.map.get(key) {
            Some(t) => Some(*t),
            None => None,
        }
    }

    /// Relies on `HashMap::default` with the fnv hasher: the new map is
    /// empty.
    #[verifier::external_body]
    fn empty() -> (r: Self)
        ensures
            r.map@.dom() =~= Set::<u64>::empty(),
    {
        IdPriceCacheFnvMap { map: fnv::FnvHashMap::default() }
    }
}

impl IdPriceCache for IdPriceCacheFnvMap {
    open spec fn entries(&self) -> Map<u64, (Amount, OrderSide)> {
        self.map@
    }

    fn insert(&mut self, order: &LimitOrder) {
        self.insert_entry(order.id, order.price, order.side);
    }

    fn contains_key(&self, key: &u64) -> (r: bool) {
        self.has_entry(key)
    }

    fn get(&self, key: &u64) -> (r: Option<(Amount, OrderSide)>) {
        self.get_entry(key)
    }
}

impl Default for IdPriceCacheFnvMap {
    /// A cache with no entries.
    fn default() -> (r: Self)
        ensures
            r.entries() == Map::<u64, (Amount, OrderSide)>::empty(),
    {
        let r = IdPriceCacheFnvMap::empty();
        proof {
            assert(r.map@ =~= Map::<u64, (Amount, OrderSide)>::empty());
        }
        r
    }
}

/// What `OrderBook::process` reports about a line.
#[derive(Copy, Clone, Debug, PartialEq, Eq, Structural)]
pub enum ProcessOutcome {
    /// The line carried a well-formed event and the book absorbed it.
    Applied,
    /// The line was blank, unrecognised, malformed, or would overflow the
    /// book's counters; the book is untouched.
    Ignored,
    /// A reduce named an id that was never added; the book is untouched.
    UnknownId,
}

/// A limit-order book for one instrument: a ladder per side, the id
/// cache, running per-side totals, the fixed target quantity, and the side
/// and timestamp of the last applied event.
pub struct OrderBook<T: IdPriceCache> {
    /// Maps each added order's id hash to its original (price, side).
    pub cache: T,
    /// Ask levels, lowest price first.
    pub asks: Vec<(Amount, i64)>,
    /// Bid levels, highest price first.
    pub bids: Vec<(Amount, i64)>,
    /// Sum of the depths of all bid levels.
    pub bids_total_size: i64,
    /// Sum of the depths of all ask levels.
    pub asks_total_size: i64,
    /// Sum of price times depth over all bid levels, in hundredths.
    pub bids_total_value: u64,
    /// Sum of price times depth over all ask levels, in hundredths.
    pub asks_total_value: u64,
    /// The quantity every summary clears against the book.
    pub target_size: i64,
    /// The side the last applied event touched.
    pub last_action_side: OrderSide,
    /// The timestamp of the last applied event.
    pub last_action_timestamp: i64,
}

impl<T: IdPriceCache> OrderBook<T> {
    /// The book's invariant: each ladder is strictly ordered from its most
    /// aggressive price outward with no negative depth, and the running
    /// totals equal the ladder sums.
    pub open spec fn wf(&self) -> bool {
        &&& asc_prices(self.asks@)
        &&& desc_prices(self.bids@)
        &&& depths_nonneg(self.asks@)
        &&& depths_nonneg(self.bids@)
        &&& self.asks_total_size == sum_depth(self.asks@)
        &&& self.bids_total_size == sum_depth(self.bids@)
        &&& self.asks_total_value == sum_value(self.asks@)
        &&& self.bids_total_value == sum_value(self.bids@)
        &&& self.target_size >= 1
    }

    /// The ladder of one side.
    pub open spec fn side_levels(&self, side: OrderSide) -> Seq<(Amount, i64)> {
        match side {
            OrderSide::Bid => self.bids@,
            OrderSide::Ask => self.asks@,
        }
    }

    /// The running depth total of one side.
    pub open spec fn total_size_of(&self, side: OrderSide) -> int {
        match side {
            OrderSide::Bid => self.bids_total_size as int,
            OrderSide::Ask => self.asks_total_size as int,
        }
    }

    /// The running value total of one side.
    pub open spec fn total_value_of(&self, side: OrderSide) -> int {
        match side {
            OrderSide::Bid => self.bids_total_value as int,
            OrderSide::Ask => self.asks_total_value as int,
        }
    }

    /// Whether the book's counters can absorb an add without overflowing:
    /// a machine limit, not a market rule.
    pub open spec fn can_absorb(&self, order: LimitOrder) -> bool {
        &&& self.total_size_of(order.side) + order.size <= i64::MAX
        &&& self.total_value_of(order.side) + order.price.as_int * order.size <= u64::MAX
    }

    /// How an applied add relates the book before to the book after.
    pub open spec fn add_rel(pre: Self, post: Self, order: LimitOrder) -> bool {
        &&& ladder_add_rel(
            pre.side_levels(order.side),
            post.side_levels(order.side),
            order.price,
            order.size as int,
        )
        &&& post.side_levels(order.side.negate()) == pre.side_levels(order.side.negate())
        &&& post.total_size_of(order.side) == pre.total_size_of(order.side) + order.size
        &&& post.total_value_of(order.side) == pre.total_value_of(order.side)
            + order.price.as_int * order.size
        &&& post.total_size_of(order.side.negate()) == pre.total_size_of(order.side.negate())
        &&& post.total_value_of(order.side.negate()) == pre.total_value_of(order.side.negate())
        &&& post.cache.entries() == pre.cache.entries().insert(
            order.id,
            (order.price, order.side),
        )
        &&& post.target_size == pre.target_size
        &&& post.last_action_side == order.side
        &&& post.last_action_timestamp == order.timestamp
    }

    /// How an applied reduce relates the book before to the book after:
    /// the cache names the side and price, the depth there falls by
    /// `min(size, depth)`, and the cache itself does not change.
    pub open spec fn reduce_rel(pre: Self, post: Self, order: ReduceOrder) -> bool {
        &&& pre.cache.entries().contains_key(order.id)
        &&& {
            let price = pre.cache.entries()[order.id].0;
            let side = pre.cache.entries()[order.id].1;
            let taken = reduce_taken(pre.side_levels(side), price.as_int, order.size as int);
            &&& post.side_levels(side) == ladder_reduce(
                pre.side_levels(side),
                price.as_int,
                order.size as int,
            )
            &&& post.side_levels(side.negate()) == pre.side_levels(side.negate())
            &&& post.total_size_of(side) == pre.total_size_of(side) - taken
            &&& post.total_value_of(side) == pre.total_value_of(side) - price.as_int * taken
            &&& post.total_size_of(side.negate()) == pre.total_size_of(side.negate())
            &&& post.total_value_of(side.negate()) == pre.total_value_of(side.negate())
            &&& post.cache.entries() == pre.cache.entries()
            &&& post.target_size == pre.target_size
            &&& post.last_action_side == side
            &&& post.last_action_timestamp == order.timestamp
        }
    }

    /// A fresh book holding only the target quantity and the given cache;
    /// the last-touched side starts as `Ask`.
    pub fn new(target_size: i64, cache: T) -> (r: Self)
        requires
            target_size >= 1,
        ensures
            r.wf(),
            r.asks@ == Seq::<(Amount, i64)>::empty(),
            r.bids@ == Seq::<(Amount, i64)>::empty(),
            r.bids_total_size == 0,
            r.asks_total_size == 0,
            r.target_size == target_size,
            r.last_action_side == OrderSide::Ask,
            r.last_action_timestamp == 0,
            r.cache == cache,
    {
        let cap: usize = 256;
        let r = OrderBook {
            cache,
            asks: Vec::with_capacity(cap),
            bids: Vec::with_capacity(cap),
            bids_total_size: 0,
            asks_total_size: 0,
            bids_total_value: 0,
            asks_total_value: 0,
            target_size,
            last_action_side: OrderSide::Ask,
            last_action_timestamp: 0,
        };
        proof {
            assert(sum_depth(r.asks@) == 0);
            assert(sum_depth(r.bids@) == 0);
            assert(sum_value(r.asks@) == 0);
            assert(sum_value(r.bids@) == 0);
        }
        r
    }

    /// Adds `order.size` shares at `order.price` to the ask ladder.
    fn _add_to_asks(&mut self, order: &LimitOrder)
        requires
            old(self).wf(),
            order.size >= 1,
            sum_depth(old(self).asks@) + order.size <= i64::MAX,
            sum_value(old(self).asks@) + order.price.as_int * order.size <= u64::MAX,
        ensures
            final(self).wf(),
            ladder_add_rel(old(self).asks@, final(self).asks@, order.price, order.size as int),
            final(self).asks_total_size == old(self).asks_total_size + order.size,
            final(self).asks_total_value == old(self).asks_total_value + order.price.as_int
                * order.size,
            final(self).bids@ == old(self).bids@,
            final(self).bids_total_size == old(self).bids_total_size,
            final(self).bids_total_value == old(self).bids_total_value,
            final(self).cache == old(self).cache,
            final(self).target_size == old(self).target_size,
            final(self).last_action_side == old(self).last_action_side,
            final(self).last_action_timestamp == old(self).last_action_timestamp,
    {
        proof {
            lemma_sum_value_nonneg(self.asks@);
            lemma_sum_depth_nonneg(self.asks@);
        }
        match search_asc(&self.asks, order.price.as_int) {
            Ok(idx) => {
                let (p, d) = self.asks[idx];
                proof {
                    lemma_level_le_sum(self.asks@, idx as int);
                    lemma_index_of_price_unique(self.asks@, idx as int);
                }
                let nd = d + order.size;
                self.asks[idx] = (p, nd);
                proof {
                    lemma_sum_update(old(self).asks@, idx as int, nd);
                    assert(self.asks@ == old(self).asks@.update(idx as int, (p, nd)));
                    assert(p == old(self).asks@[idx as int].0);
                    assert(p.as_int == order.price.as_int);
                    assert(asc_prices(self.asks@)) by {
                        assert(forall|k: int|
                            0 <= k < self.asks@.len() ==> (#[trigger] self.asks@[k]).0
                                == old(self).asks@[k].0);
                    }
                    assert(depths_nonneg(self.asks@)) by {
                        assert(forall|k: int|
                            0 <= k < self.asks@.len() && k != idx ==> (#[trigger] self.asks@[k]).1
                                == old(self).asks@[k].1);
                    }
                }
                proof {
                    let pa = p.as_int as int;
                    assert(pa * (d + order.size) == pa * d + pa * order.size) by (nonlinear_arith);
                }
                self.asks_total_size = self.asks_total_size + order.size;
                self.asks_total_value = self.asks_total_value + p.as_int * (order.size as u64);
                proof {
                    assert(p.as_int * order.size == order.price.as_int * order.size);
                }
            },
            Err(idx) => {
                proof {
                    assert(!has_price(old(self).asks@, order.price.as_int));
                }
                self.asks.insert(idx, (order.price, order.size));
                proof {
                    lemma_sum_insert(
                        old(self).asks@,
                        idx as int,
                        (order.price, order.size as i64),
                    );
                    let pre = old(self).asks@;
                    let post = self.asks@;
                    assert(post == pre.insert(idx as int, (order.price, order.size as i64)));
                    assert(asc_prices(post)) by {
                        assert(forall|k: int| 0 <= k < idx ==> #[trigger] post[k] == pre[k]);
                        assert(post[idx as int] == (order.price, order.size as i64));
                        assert(forall|k: int|
                            idx < k < post.len() ==> #[trigger] post[k] == pre[k - 1]);
                    }
                    assert(depths_nonneg(post)) by {
                        assert(forall|k: int| 0 <= k < idx ==> #[trigger] post[k] == pre[k]);
                        assert(forall|k: int|
                            idx < k < post.len() ==> #[trigger] post[k] == pre[k - 1]);
                    }
                }
                self.asks_total_size = self.asks_total_size + order.size;
                self.asks_total_value = self.asks_total_value + order.price.as_int * (
                order.size as u64);
            },
        }
    }

    /// Adds `order.size` shares at `order.price` to the bid ladder.
    fn _add_to_bids(&mut self, order: &LimitOrder)
        requires
            old(self).wf(),
            order.size >= 1,
            sum_depth(old(self).bids@) + order.size <= i64::MAX,
            sum_value(old(self).bids@) + order.price.as_int * order.size <= u64::MAX,
        ensures
            final(self).wf(),
            ladder_add_rel(old(self).bids@, final(self).bids@, order.price, order.size as int),
            final(self).bids_total_size == old(self).bids_total_size + order.size,
            final(self).bids_total_value == old(self).bids_total_value + order.price.as_int
                * order.size,
            final(self).asks@ == old(self).asks@,
            final(self).asks_total_size == old(self).asks_total_size,
            final(self).asks_total_value == old(self).asks_total_value,
            final(self).cache == old(self).cache,
            final(self).target_size == old(self).target_size,
            final(self).last_action_side == old(self).last_action_side,
            final(self).last_action_timestamp == old(self).last_action_timestamp,
    {
        proof {
            lemma_sum_value_nonneg(self.bids@);
            lemma_sum_depth_nonneg(self.bids@);
        }
        match search_desc(&self.bids, order.price.as_int) {
            Ok(idx) => {
                let (p, d) = self.bids[idx];
                proof {
                    lemma_level_le_sum(self.bids@, idx as int);
                    lemma_index_of_price_unique(self.bids@, idx as int);
                }
                let nd = d + order.size;
                self.bids[idx] = (p, nd);
                proof {
                    lemma_sum_update(old(self).bids@, idx as int, nd);
                    assert(self.bids@ == old(self).bids@.update(idx as int, (p, nd)));
                    assert(p == old(self).bids@[idx as int].0);
                    assert(p.as_int == order.price.as_int);
                    assert(desc_prices(self.bids@)) by {
                        assert(forall|k: int|
                            0 <= k < self.bids@.len() ==> (#[trigger] self.bids@[k]).0
                                == old(self).bids@[k].0);
                    }
                    assert(depths_nonneg(self.bids@)) by {
                        assert(forall|k: int|
                            0 <= k < self.bids@.len() && k != idx ==> (#[trigger] self.bids@[k]).1
                                == old(self).bids@[k].1);
                    }
                }
                proof {
                    let pa = p.as_int as int;
                    assert(pa * (d + order.size) == pa * d + pa * order.size) by (nonlinear_arith);
                }
                self.bids_total_size = self.bids_total_size + order.size;
                self.bids_total_value = self.bids_total_value + p.as_int * (order.size as u64);
                proof {
                    assert(p.as_int * order.size == order.price.as_int * order.size);
                }
            },
            Err(idx) => {
                proof {
                    assert(!has_price(old(self).bids@, order.price.as_int));
                }
                self.bids.insert(idx, (order.price, order.size));
                proof {
                    lemma_sum_insert(
                        old(self).bids@,
                        idx as int,
                        (order.price, order.size as i64),
                    );
                    let pre = old(self).bids@;
                    let post = self.bids@;
                    assert(post == pre.insert(idx as int, (order.price, order.size as i64)));
                    assert(desc_prices(post)) by {
                        assert(forall|k: int| 0 <= k < idx ==> #[trigger] post[k] == pre[k]);
                        assert(post[idx as int] == (order.price, order.size as i64));
                        assert(forall|k: int|
                            idx < k < post.len() ==> #[trigger] post[k] == pre[k - 1]);
                    }
                    assert(depths_nonneg(post)) by {
                        assert(forall|k: int| 0 <= k < idx ==> #[trigger] post[k] == pre[k]);
                        assert(forall|k: int|
                            idx < k < post.len() ==> #[trigger] post[k] == pre[k - 1]);
                    }
                }
                self.bids_total_size = self.bids_total_size + order.size;
                self.bids_total_value = self.bids_total_value + order.price.as_int * (
                order.size as u64);
            },
        }
    }

    /// Applies an add event: the order's ladder gains the shares, the
    /// cache records the order, and the last-touched side and timestamp
    /// move to this event.
    pub fn add(&mut self, order: LimitOrder)
        requires
            old(self).wf(),
            order.size >= 1,
            old(self).can_absorb(order),
        ensures
            final(self).wf(),
            Self::add_rel(*old(self), *final(self), order),
    {
        if order.side == OrderSide::Bid {
            self._add_to_bids(&order);
        } else {
            self._add_to_asks(&order);
        }
        self.cache.insert(&order);
        self.last_action_timestamp = order.timestamp;
        self.last_action_side = order.side;
    }

    /// Applies a reduce event: the cache names the order's price and side,
    /// and that ladder level loses `min(size, depth)` shares. A reduce
    /// whose price level is gone is a no-op on the ladder; a reduce whose
    /// id was never added leaves the book untouched and reports the
    /// corrupt stream.
    pub fn reduce_order(&mut self, order: &ReduceOrder) -> (r: Result<(), InputError>)
        requires
            old(self).wf(),
            order.size >= 1,
        ensures
            final(self).wf(),
            match r {
                Ok(()) => Self::reduce_rel(*old(self), *final(self), *order),
                Err(e) => {
                    &&& e == InputError::UnknownOrderId
                    &&& !old(self).cache.entries().contains_key(order.id)
                    &&& *final(self) == *old(self)
                },
            },
    {
        let looked_up = self.cache.get(&order.id);
        let (price, side) = match looked_up {
            Some(t) => t,
            None => {
                return Err(InputError::UnknownOrderId);
            },
        };
        if side == OrderSide::Ask {
            match search_asc(&self.asks, price.as_int) {
                Ok(idx) => {
                    let (p, d) = self.asks[idx];
                    proof {
                        lemma_level_le_sum(self.asks@, idx as int);
                        lemma_index_of_price_unique(self.asks@, idx as int);
                        lemma_sum_value_nonneg(self.asks@);
                        lemma_sum_depth_nonneg(self.asks@);
                    }
                    let take = if d < order.size {
                        d
                    } else {
                        order.size
                    };
                    self.asks[idx] = (p, d - take);
                    proof {
                        lemma_sum_update(old(self).asks@, idx as int, (d - take) as i64);
                        assert(asc_prices(self.asks@)) by {
                            assert(forall|k: int|
                                0 <= k < self.asks@.len() ==> (#[trigger] self.asks@[k]).0
                                    == old(self).asks@[k].0);
                        }
                        assert(depths_nonneg(self.asks@)) by {
                            assert(forall|k: int|
                                0 <= k < self.asks@.len() && k != idx ==> (
                                #[trigger] self.asks@[k]).1 == old(self).asks@[k].1);
                        }
                        let pa = p.as_int as int;
                        assert(pa * take <= pa * d) by (nonlinear_arith)
                            requires
                                pa >= 0,
                                take <= d,
                        ;
                        assert(pa * take >= 0) by (nonlinear_arith)
                            requires
                                pa >= 0,
                                take >= 0,
                        ;
                        assert(pa * (d - take) == pa * d - pa * take) by (nonlinear_arith);
                    }
                    self.asks_total_size = self.asks_total_size - take;
                    self.asks_total_value = self.asks_total_value - p.as_int * (take as u64);
                },
                Err(_) => {
                    proof {
                        assert(!has_price(self.asks@, price.as_int));
                        assert(ladder_reduce(self.asks@, price.as_int, order.size as int)
                            == self.asks@);
                    }
                },
            }
        } else {
            match search_desc(&self.bids, price.as_int) {
                Ok(idx) => {
                    let (p, d) = self.bids[idx];
                    proof {
                        lemma_level_le_sum(self.bids@, idx as int);
                        lemma_index_of_price_unique(self.bids@, idx as int);
                        lemma_sum_value_nonneg(self.bids@);
                        lemma_sum_depth_nonneg(self.bids@);
                    }
                    let take = if d < order.size {
                        d
                    } else {
                        order.size
                    };
                    self.bids[idx] = (p, d - take);
                    proof {
                        lemma_sum_update(old(self).bids@, idx as int, (d - take) as i64);
                        assert(desc_prices(self.bids@)) by {
                            assert(forall|k: int|
                                0 <= k < self.bids@.len() ==> (#[trigger] self.bids@[k]).0
                                    == old(self).bids@[k].0);
                        }
                        assert(depths_nonneg(self.bids@)) by {
                            assert(forall|k: int|
                                0 <= k < self.bids@.len() && k != idx ==> (
                                #[trigger] self.bids@[k]).1 == old(self).bids@[k].1);
                        }
                        let pa = p.as_int as int;
                        assert(pa * take <= pa * d) by (nonlinear_arith)
                            requires
                                pa >= 0,
                                take <= d,
                        ;
                        assert(pa * take >= 0) by (nonlinear_arith)
                            requires
                                pa >= 0,
                                take >= 0,
                        ;
                        assert(pa * (d - take) == pa * d - pa * take) by (nonlinear_arith);
                    }
                    self.bids_total_size = self.bids_total_size - take;
                    self.bids_total_value = self.bids_total_value - p.as_int * (take as u64);
                },
                Err(_) => {
                    proof {
                        assert(!has_price(self.bids@, price.as_int));
                        assert(ladder_reduce(self.bids@, price.as_int, order.size as int)
                            == self.bids@);
                    }
                },
            }
        }
        self.last_action_timestamp = order.timestamp;
        self.last_action_side = side;
        Ok(())
    }

    /// What `summarise_target` returns: when the side touched last holds
    /// at least the target quantity, the value of clearing the target
    /// against that side in aggressive order; otherwise nothing.
    pub open spec fn summarise_spec(&self) -> Option<Amount> {
        if self.last_action_side is Bid && self.bids_total_size >= self.target_size {
            Some((Amount { as_int: walk_value(self.bids@, self.target_size as int) as u64 }))
        } else if self.last_action_side is Ask && self.asks_total_size >= self.target_size {
            Some((Amount { as_int: walk_value(self.asks@, self.target_size as int) as u64 }))
        } else {
            None
        }
    }

    /// The income from selling the target quantity to the current bids,
    /// or the cost of buying it from the current asks, whichever side was
    /// touched last — provided that side holds enough depth. The walk is a
    /// function of the book state alone.
    pub fn summarise_target(&self) -> (r: Option<Amount>)
        requires
            self.wf(),
        ensures
            r == self.summarise_spec(),
    {
        if self.bids_total_size >= self.target_size && self.last_action_side == OrderSide::Bid {
            Some(self.summarise_amount_from_bids())
        } else if self.asks_total_size >= self.target_size && self.last_action_side
            == OrderSide::Ask {
            Some(self.summarise_amount_from_asks())
        } else {
            None
        }
    }

    /// The cost of buying the target quantity from the asks, cheapest
    /// level first.
    fn summarise_amount_from_asks(&self) -> (r: Amount)
        requires
            self.wf(),
        ensures
            r.as_int == walk_value(self.asks@, self.target_size as int) as u64,
            walk_value(self.asks@, self.target_size as int) <= sum_value(self.asks@),
    {
        proof {
            lemma_walk_value_bounds(self.asks@, self.target_size as int);
        }
        let v = walk_ladder(&self.asks, self.target_size);
        Amount { as_int: v }
    }

    /// The income from selling the target quantity to the bids, highest
    /// level first.
    fn summarise_amount_from_bids(&self) -> (r: Amount)
        requires
            self.wf(),
        ensures
            r.as_int == walk_value(self.bids@, self.target_size as int) as u64,
            walk_value(self.bids@, self.target_size as int) <= sum_value(self.bids@),
    {
        proof {
            lemma_walk_value_bounds(self.bids@, self.target_size as int);
        }
        let v = walk_ladder(&self.bids, self.target_size);
        Amount { as_int: v }
    }

    /// Routes one input line: tokenizes it, builds the event the second
    /// token selects, and applies it. Blank, unrecognised and malformed
    /// lines are ignored, as is an add that would overflow the book's
    /// counters; a reduce with an unknown id is reported and changes
    /// nothing.
    pub fn process(&mut self, instruction: &str) -> (r: ProcessOutcome)
        requires
            old(self).wf(),
        ensures
            final(self).wf(),
            Self::process_rel(*old(self), *final(self), instruction@, r),
    {
        let toks = tokenize(instruction);
        let ghost gt = toks.deep_view();
        if toks.len() < 2 {
            return ProcessOutcome::Ignored;
        }
        let t1 = toks[1];
        proof {
            assert(gt[1] == t1@);
        }
        let n1 = t1.unicode_len();
        if n1 == 1 && t1.get_char(0) == 'A' {
            proof {
                assert(t1@ =~= seq!['A']);
            }
            match LimitOrder::new(toks) {
                Ok(o) => {
                    let can_size = match o.side {
                        OrderSide::Bid => self.bids_total_size <= i64::MAX - o.size,
                        OrderSide::Ask => self.asks_total_size <= i64::MAX - o.size,
                    };
                    let tv: u64 = match o.side {
                        OrderSide::Bid => self.bids_total_value,
                        OrderSide::Ask => self.asks_total_value,
                    };
                    proof {
                        let pp = o.price.as_int as int;
                        let ss = o.size as int;
                        assert(pp * ss <= 0xFFFFFFFFFFFFFFFF * 0x7FFFFFFFFFFFFFFF)
                            by (nonlinear_arith)
                            requires
                                0 <= pp <= 0xFFFFFFFFFFFFFFFF,
                                0 <= ss <= 0x7FFFFFFFFFFFFFFF,
                        ;
                    }
                    let can_value = (tv as u128) + (o.price.as_int as u128) * (o.size as u128)
                        <= u64::MAX as u128;
                    if can_size && can_value {
                        self.add(o);
                        ProcessOutcome::Applied
                    } else {
                        ProcessOutcome::Ignored
                    }
                },
                Err(_) => ProcessOutcome::Ignored,
            }
        } else if n1 == 1 && t1.get_char(0) == 'R' {
            proof {
                assert(t1@ =~= seq!['R']);
            }
            match ReduceOrder::new(toks) {
                Ok(o) => {
                    match self.reduce_order(&o) {
                        Ok(()) => ProcessOutcome::Applied,
                        Err(_) => ProcessOutcome::UnknownId,
                    }
                },
                Err(_) => ProcessOutcome::Ignored,
            }
        } else {
            proof {
                if n1 == 1 {
                    assert(t1@ != seq!['A'] && t1@ != seq!['R']) by {
                        assert(t1@[0] == t1@.index(0));
                    }
                } else {
                    assert(t1@ != seq!['A'] && t1@ != seq!['R']) by {
                        assert(seq!['A'].len() == 1 && seq!['R'].len() == 1);
                    }
                }
            }
            ProcessOutcome::Ignored
        }
    }

    /// How `process` relates the book before to the book after, for every
    /// input line.
    pub open spec fn process_rel(
        pre: Self,
        post: Self,
        line: Seq<char>,
        outcome: ProcessOutcome,
    ) -> bool {
        let toks = tokens_of(line);
        if toks.len() >= 2 && toks[1] == seq!['A'] {
            match limit_result_spec(toks) {
                Ok(o) => {
                    if pre.can_absorb(o) {
                        outcome is Applied && Self::add_rel(pre, post, o)
                    } else {
                        outcome is Ignored && post == pre
                    }
                },
                Err(_) => outcome is Ignored && post == pre,
            }
        } else if toks.len() >= 2 && toks[1] == seq!['R'] {
            match reduce_result_spec(toks) {
                Ok(o) => {
                    if pre.cache.entries().contains_key(o.id) {
                        outcome is Applied && Self::reduce_rel(pre, post, o)
                    } else {
                        outcome is UnknownId && post == pre
                    }
                },
                Err(_) => outcome is Ignored && post == pre,
            }
        } else {
            outcome is Ignored && post == pre
        }
    }
}

/// Clears up to `target` shares against the ladder in its stored order,
/// accumulating price times quantity taken, skipping empty levels, and
/// stopping once the target is filled or the ladder is exhausted.
fn walk_ladder(levels: &Vec<(Amount, i64)>, target: i64) -> (r: u64)
    requires
        depths_nonneg(levels@),
        target >= 0,
        sum_value(levels@) <= u64::MAX,
    ensures
        r == walk_value(levels@, target as int),
{
    proof {
        lemma_sum_value_nonneg(levels@);
        assert(levels@.subrange(0, levels@.len() as int) =~= levels@);
    }
    let n = levels.len();
    let mut res: u64 = 0;
    let mut left: i64 = target;
    let mut i: usize = 0;
    while i < n && left > 0
        invariant
            0 <= i <= n,
            n == levels@.len(),
            0 <= left <= target,
            depths_nonneg(levels@),
            walk_value(levels@, target as int) == res + walk_value(
                levels@.subrange(i as int, n as int),
                left as int,
            ),
            res + sum_value(levels@.subrange(i as int, n as int)) <= u64::MAX,
            res >= 0,
        decreases n - i,
    {
        let (p, d) = levels[i];
        let ghost rest = levels@.subrange(i as int, n as int);
        proof {
            assert(rest[0] == levels@[i as int]);
            assert(rest.drop_first() =~= levels@.subrange(i as int + 1, n as int));
            assert(depths_nonneg(rest)) by {
                assert(forall|k: int|
                    0 <= k < rest.len() ==> #[trigger] rest[k] == levels@[i + k]);
            }
            lemma_sum_value_first(rest);
            lemma_sum_value_nonneg(rest.drop_first());
        }
        let take = if d < left {
            d
        } else {
            left
        };
        proof {
            let pa = p.as_int as int;
            assert(pa * take <= pa * d) by (nonlinear_arith)
                requires
                    pa >= 0,
                    take <= d,
            ;
            assert(pa * take >= 0) by (nonlinear_arith)
                requires
                    pa >= 0,
                    take >= 0,
            ;
        }
        res = res + p.as_int * (take as u64);
        left = left - take;
        i = i + 1;
    }
    proof {
        if left <= 0 {
            assert(walk_value(levels@.subrange(i as int, n as int), left as int) == 0);
        } else {
            assert(i == n);
            assert(levels@.subrange(i as int, n as int) =~= Seq::<(Amount, i64)>::empty());
            assert(walk_value(Seq::<(Amount, i64)>::empty(), left as int) == 0);
        }
    }
    res
}

/// The cache contents after a sequence of adds applied to an initial
/// cache, oldest first.
pub open spec fn cache_after(
    init: Map<u64, (Amount, OrderSide)>,
    adds: Seq<(u64, (Amount, OrderSide))>,
) -> Map<u64, (Amount, OrderSide)>
    decreases adds.len(),
{
    if adds.len() == 0 {
        init
    } else {
        cache_after(init, adds.drop_last()).insert(adds.last().0, adds.last().1)
    }
}

/// Law: for every id ever added, the cache afterwards returns the (price,
/// side) of that add, provided no later add reused the id. Reduces leave
/// the cache untouched (see `reduce_rel`), so they cannot disturb the
/// entry either.
pub proof fn lemma_cache_entry_persists(
    init: Map<u64, (Amount, OrderSide)>,
    adds: Seq<(u64, (Amount, OrderSide))>,
    i: int,
)
    requires
        0 <= i < adds.len(),
        forall|j: int| i < j < adds.len() ==> (#[trigger] adds[j]).0 != adds[i].0,
    ensures
        cache_after(init, adds).contains_key(adds[i].0),
        cache_after(init, adds)[adds[i].0] == adds[i].1,
    decreases adds.len(),
{
    if i == adds.len() - 1 {
    } else {
        let b = adds.drop_last();
        assert(b[i] == adds[i]);
        assert forall|j: int| i < j < b.len() implies (#[trigger] b[j]).0 != b[i].0 by {
            assert(b[j] == adds[j]);
        }
        lemma_cache_entry_persists(init, b, i);
        assert(adds.last().0 != adds[i].0);
    }
}

/// Law: the summary is pure. It equals `summarise_spec`, a function of the
/// book state alone, so any two results computed without an intervening
/// mutation are the same.
pub proof fn lemma_summarise_pure<T: IdPriceCache>(
    book: OrderBook<T>,
    r1: Option<Amount>,
    r2: Option<Amount>,
)
    requires
        r1 == book.summarise_spec(),
        r2 == book.summarise_spec(),
    ensures
        r1 == r2,
{
}

/// Law: whenever the summary returns a value, the clearing walk behind it
/// takes exactly the target quantity.
pub proof fn lemma_walk_fills_target<T: IdPriceCache>(book: OrderBook<T>)
    requires
        book.wf(),
        book.summarise_spec() is Some,
    ensures
        walk_taken(book.side_levels(book.last_action_side), book.target_size as int)
            == book.target_size,
{
    if book.last_action_side is Bid {
        lemma_walk_fills(book.bids@, book.target_size as int);
    } else {
        lemma_walk_fills(book.asks@, book.target_size as int);
    }
}

} // verus!

