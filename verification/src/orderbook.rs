//! The order book engine: admission, matching, finalisation, cancels,
//! best-price maintenance, statistics and depth snapshots.
//!
//! Every mutating method is proved to implement the corresponding transition
//! of the mathematical model in [`crate::bookmodel`], and to preserve the
//! well-formedness invariant [`wf`].

use vstd::prelude::*;

use crate::arena::OrderArena;
use crate::bookmodel::{
    apply_fill_to_levels, apply_fill_to_orders, apply_fills, available_liquidity, best_price,
    cancel_step, command_step, depth_side, fill_applicable, fill_ok, fills_applicable,
    fills_from_levels, fills_from_queue, fills_notional, fills_ok, find_level, in_queues,
    lemma_apply_fill, lemma_available_nonneg, lemma_best_price_skip, lemma_cancel_preserves,
    lemma_command_step_preserves, lemma_fills_from_levels_sum, lemma_fills_notional_bound,
    lemma_find_level, lemma_level_insert_pos, lemma_queue_qty_nonneg, lemma_remove_first,
    lemma_remove_first_at, lemma_rest_best_price, lemma_rest_one_side, lemma_sum_fill_qty_add,
    lemma_sum_fill_qty_nonneg, level_insert_pos, level_orders, levels_sorted, limit_step,
    match_and_apply, price_allows, price_better, queue_fills_ok, queue_in_dir, queue_qty,
    queue_sorted, queues_ascending, queues_in_orders, remove_first, remove_id_at_price,
    rest_into_levels, sat64, spec_execute, sum_fill_qty, wf, wf_core, BookView, LevelView,
};
use crate::models::{
    BookDepth, BookDepthView, BookLevel, BookLevelView, FillMetadata, LimitOrder, OrderEvent,
    OrderType, Side, Trade,
};
use crate::rejectmessages::{INVALID_ORDER_NUMBER, LIQUIDITY_NOT_AVAILABLE};

verus! {

/// One price level of the executable book: a price and the queue of resting
/// order identifiers at that price, in arrival order.
#[derive(Debug)]
pub struct PriceLevel {
    /// The price shared by every order in this level's queue.
    pub price: u64,
    /// The resting order identifiers, earliest arrival first.
    pub orders: Vec<u64>,
}

impl View for PriceLevel {
    type V = LevelView;

    open spec fn view(&self) -> LevelView {
        LevelView { price: self.price, queue: self.orders@ }
    }
}

/// The view of a whole side of the book, level by level.
pub open spec fn views_of(levels: Seq<PriceLevel>) -> Seq<LevelView> {
    Seq::new(levels.len(), |i: int| levels[i]@)
}

/// An order book that executes orders serially through [`OrderBook::execute`].
#[derive(Debug)]
pub struct OrderBook {
    last_processed_order_id: u64,
    last_trade: Option<Trade>,
    traded_volume: u128,
    min_ask: u64,
    max_bid: u64,
    asks: Vec<PriceLevel>,
    bids: Vec<PriceLevel>,
    arena: OrderArena,
    default_queue_capacity: usize,
    track_stats: bool,
}

impl View for OrderBook {
    type V = BookView;

    closed spec fn view(&self) -> BookView {
        BookView {
            last_seq: self.last_processed_order_id,
            traded_volume: self.traded_volume,
            last_trade: self.last_trade,
            track_stats: self.track_stats,
            min_ask: self.min_ask,
            max_bid: self.max_bid,
            asks: views_of(self.asks@),
            bids: views_of(self.bids@),
            orders: self.arena@,
        }
    }
}

/// The default number of directory entries pre-allocated by
/// [`OrderBook::default`].
pub const DEFAULT_ARENA_CAPACITY: usize = 10_000;

/// The default capacity of each price level queue created by
/// [`OrderBook::default`].
pub const DEFAULT_QUEUE_CAPACITY: usize = 10;

impl Default for OrderBook {
    /// Create an order book with stats tracking disabled, a default arena
    /// capacity of 10,000 and a default queue capacity of 10.
    fn default() -> (r: Self)
        ensures
            r@ == BookView::init(false),
            wf(r@),
    {
        Self::new(DEFAULT_ARENA_CAPACITY, DEFAULT_QUEUE_CAPACITY, false)
    }
}

impl OrderBook {
    /// Create an empty order book.
    ///
    /// `arena_capacity` is the number of directory entries to pre-allocate
    /// and `queue_capacity` the capacity of each new price level queue; both
    /// are hints, not caps. `track_stats` turns volume and trade tracking on.
    pub fn new(arena_capacity: usize, queue_capacity: usize, track_stats: bool) -> (r: Self)
        ensures
            r@ == BookView::init(track_stats),
            wf(r@),
    {
        let r = OrderBook {
            last_processed_order_id: 0,
            last_trade: None,
            traded_volume: 0,
            min_ask: u64::MAX,
            max_bid: 0u64,
            asks: Vec::new(),
            bids: Vec::new(),
            arena: OrderArena::new(arena_capacity),
            default_queue_capacity: queue_capacity,
            track_stats,
        };
        proof {
            assert(r@.asks =~= Seq::<LevelView>::empty());
            assert(r@.bids =~= Seq::<LevelView>::empty());
            assert(r@ == BookView::init(track_stats));
        }
        r
    }

    /// Return the ask side as a list of `(price, queue)` pairs, ascending by
    /// price, including levels whose queue is empty.
    pub fn _asks(&self) -> (r: Vec<(u64, Vec<u64>)>)
        ensures
            r@.len() == self@.asks.len(),
            forall|i: int|
                0 <= i < r@.len() ==> r@[i].0 == self@.asks[i].price && r@[i].1@
                    == self@.asks[i].queue,
    {
        let mut r: Vec<(u64, Vec<u64>)> = Vec::new();
        let mut i: usize = 0;
        while i < self.asks.len()
            invariant
                0 <= i <= self.asks.len(),
                r@.len() == i,
                forall|k: int|
                    0 <= k < i ==> r@[k].0 == views_of(self.asks@)[k].price && r@[k].1@
                        == views_of(self.asks@)[k].queue,
            decreases self.asks.len() - i,
        {
            let level = &self.asks[i];
            r.push((level.price, clone_ids(&level.orders)));
            i += 1;
        }
        r
    }

    /// Return the bid side as a list of `(price, queue)` pairs, ascending by
    /// price, including levels whose queue is empty.
    pub fn _bids(&self) -> (r: Vec<(u64, Vec<u64>)>)
        ensures
            r@.len() == self@.bids.len(),
            forall|i: int|
                0 <= i < r@.len() ==> r@[i].0 == self@.bids[r@.len() - 1 - i].price && r@[i].1@
                    == self@.bids[r@.len() - 1 - i].queue,
    {
        let mut r: Vec<(u64, Vec<u64>)> = Vec::new();
        let mut i: usize = self.bids.len();
        while i > 0
            invariant
                0 <= i <= self.bids.len(),
                r@.len() == self.bids.len() - i,
                forall|k: int|
                    0 <= k < r@.len() ==> r@[k].0 == views_of(self.bids@)[self.bids@.len() - 1
                        - k].price && r@[k].1@ == views_of(self.bids@)[self.bids@.len() - 1
                        - k].queue,
            decreases i,
        {
            i -= 1;
            let level = &self.bids[i];
            r.push((level.price, clone_ids(&level.orders)));
        }
        r
    }

    /// Return the lowest ask price with resting quantity, `u64::MAX` if none.
    #[inline(always)]
    pub fn min_ask(&self) -> (r: u64)
        ensures
            r == self@.min_ask,
    {
        self.min_ask
    }

    /// Return the highest bid price with resting quantity, `0` if none.
    #[inline(always)]
    pub fn max_bid(&self) -> (r: u64)
        ensures
            r == self@.max_bid,
    {
        self.max_bid
    }

    /// Return the difference of the lowest ask and the highest bid. On a
    /// book with no asks this is driven by the `u64::MAX` default and is to
    /// be read as "undefined".
    #[inline(always)]
    pub fn spread(&self) -> (r: u64)
        requires
            self@.max_bid <= self@.min_ask,
        ensures
            r == self@.min_ask - self@.max_bid,
    {
        self.min_ask - self.max_bid
    }

    /// Return the identifier of the last accepted non-cancel command.
    #[inline(always)]
    pub fn last_sequence(&self) -> (r: u64)
        ensures
            r == self@.last_seq,
    {
        self.last_processed_order_id
    }

    /// Return the last trade recorded while stats tracking was on, if any.
    #[inline(always)]
    pub fn last_trade(&self) -> (r: Option<Trade>)
        ensures
            r == self@.last_trade,
    {
        self.last_trade
    }

    /// Return the total quantity traded while stats tracking was on.
    #[inline(always)]
    pub fn traded_volume(&self) -> (r: u128)
        ensures
            r == self@.traded_volume,
    {
        self.traded_volume
    }

    /// Toggle the stats tracking on or off.
    pub fn track_stats(&mut self, track: bool)
        ensures
            final(self)@ == (BookView { track_stats: track, ..old(self)@ }),
    {
        self.track_stats = track;
    }

    /// Recompute the cached lowest ask price by walking the ask levels from
    /// the best end past empty queues.
    fn update_min_ask(&mut self)
        ensures
            final(self)@ == (BookView {
                min_ask: best_price(old(self)@.asks, u64::MAX),
                ..old(self)@
            }),
    {
        let ghost lv = views_of(self.asks@);
        let mut i: usize = 0;
        let mut best: u64 = u64::MAX;
        let mut found = false;
        while i < self.asks.len() && !found
            invariant
                0 <= i <= self.asks.len(),
                lv == views_of(self.asks@),
                forall|k: int| 0 <= k < i ==> lv[k].queue.len() == 0,
                found ==> i < lv.len() && lv[i as int].queue.len() > 0 && best == lv[i as int].price,
                !found ==> best == u64::MAX,
            decreases self.asks.len() - i + (if found { 0int } else { 1int }),
        {
            if self.asks[i].orders.len() > 0 {
                best = self.asks[i].price;
                found = true;
            } else {
                i += 1;
            }
        }
        proof {
            lemma_best_price_skip(lv, i as int, u64::MAX);
        }
        self.min_ask = best;
    }

    /// Recompute the cached highest bid price by walking the bid levels from
    /// the best end past empty queues.
    fn update_max_bid(&mut self)
        ensures
            final(self)@ == (BookView { max_bid: best_price(old(self)@.bids, 0), ..old(self)@ }),
    {
        let ghost lv = views_of(self.bids@);
        let mut i: usize = 0;
        let mut best: u64 = 0;
        let mut found = false;
        while i < self.bids.len() && !found
            invariant
                0 <= i <= self.bids.len(),
                lv == views_of(self.bids@),
                forall|k: int| 0 <= k < i ==> lv[k].queue.len() == 0,
                found ==> i < lv.len() && lv[i as int].queue.len() > 0 && best == lv[i as int].price,
                !found ==> best == 0,
            decreases self.bids.len() - i + (if found { 0int } else { 1int }),
        {
            if self.bids[i].orders.len() > 0 {
                best = self.bids[i].price;
                found = true;
            } else {
                i += 1;
            }
        }
        proof {
            lemma_best_price_skip(lv, i as int, 0);
        }
        self.max_bid = best;
    }
}

impl OrderBook {
    /// Walk the opposing levels in priority order (they are stored best
    /// price first), appending the fills the aggressor generates, without
    /// mutating anything. Returns the aggressor's unmatched quantity.
    fn match_side(
        arena: &OrderArena,
        levels: &Vec<PriceLevel>,
        id: u64,
        qty: u64,
        side: Side,
        limit_price: Option<u64>,
        fills: &mut Vec<FillMetadata>,
    ) -> (remaining_qty: u64)
        requires
            old(fills)@.len() == 0,
            levels_sorted(views_of(levels@), side.other()),
            queues_in_orders(views_of(levels@), arena@),
            queues_ascending(views_of(levels@)),
        ensures
            final(fills)@ == fills_from_levels(
                arena@,
                views_of(levels@),
                qty as int,
                id,
                side,
                limit_price,
            ),
            remaining_qty == qty - sum_fill_qty(final(fills)@),
            0 <= sum_fill_qty(final(fills)@) <= qty,
            fills_ok(final(fills)@, arena@, views_of(levels@), id, side),
    {
        let ghost dir = arena@;
        let ghost lv = views_of(levels@);
        let ghost oside = side.other();
        let ghost total = fills_from_levels(dir, lv, qty as int, id, side, limit_price);
        let mut remaining_qty = qty;
        let mut i: usize = 0;
        let mut stop = false;
        proof {
            assert(lv.skip(0) =~= lv);
            assert(fills@ + total =~= total);
        }
        while i < levels.len() && !stop
            invariant
                0 <= i <= lv.len(),
                lv == views_of(levels@),
                dir == arena@,
                oside == side.other(),
                levels_sorted(lv, oside),
                queues_in_orders(lv, dir),
                queues_ascending(lv),
                remaining_qty <= qty,
                remaining_qty == qty - sum_fill_qty(fills@),
                !stop ==> total == fills@ + fills_from_levels(
                    dir,
                    lv.skip(i as int),
                    remaining_qty as int,
                    id,
                    side,
                    limit_price,
                ),
                stop ==> total == fills@,
                fills_ok(fills@, dir, lv, id, side),
                forall|k: int|
                    0 <= k < fills@.len() && i < lv.len() ==> price_better(
                        oside,
                        (#[trigger] fills@[k]).price,
                        lv[i as int].price,
                    ),
            decreases lv.len() - i + (if stop { 0int } else { 1int }),
        {
            let ghost pre = fills@;
            proof {
                assert(lv.skip(i as int)[0] == lv[i as int]);
                assert(lv.skip(i as int).drop_first() =~= lv.skip(i as int + 1));
            }
            if levels[i].orders.len() == 0 {
                proof {
                    assert forall|k: int|
                        0 <= k < fills@.len() && i + 1 < lv.len() implies price_better(
                        oside,
                        (#[trigger] fills@[k]).price,
                        lv[i as int + 1].price,
                    ) by {
                        assert(price_better(oside, lv[i as int].price, lv[i as int + 1].price));
                    }
                }
                i += 1;
            } else {
                let price_i = levels[i].price;
                let level_ok: bool = match limit_price {
                    None => true,
                    Some(lp) => match side {
                        Side::Bid => price_i <= lp,
                        Side::Ask => price_i >= lp,
                    },
                };
                if !level_ok {
                    proof {
                        assert(!price_allows(side, limit_price, lv[i as int].price));
                        assert(fills@ + fills_from_levels(
                            dir,
                            lv.skip(i as int),
                            remaining_qty as int,
                            id,
                            side,
                            limit_price,
                        ) =~= fills@);
                    }
                    stop = true;
                } else if remaining_qty == 0 {
                    proof {
                        assert(fills@ + fills_from_levels(
                            dir,
                            lv.skip(i as int),
                            remaining_qty as int,
                            id,
                            side,
                            limit_price,
                        ) =~= fills@);
                    }
                    stop = true;
                } else {
                    let ghost qf = fills_from_queue(
                        dir,
                        lv[i as int].queue,
                        remaining_qty as int,
                        id,
                        side,
                    );
                    proof {
                        assert(price_allows(side, limit_price, lv[i as int].price));
                        assert(queue_in_dir(lv[i as int].queue, dir)) by {
                            assert forall|j: int|
                                0 <= j < lv[i as int].queue.len() implies {
                                let qid = #[trigger] lv[i as int].queue[j];
                                dir.contains_key(qid) && dir[qid].id == qid
                            } by {
                                assert(queues_in_orders(lv, dir));
                            }
                        }
                        assert(queue_sorted(lv[i as int].queue));
                    }
                    let filled_qty = Self::simulate_queue_fills(
                        arena,
                        &levels[i].orders,
                        remaining_qty,
                        id,
                        side,
                        fills,
                    );
                    proof {
                        assert(lv[i as int].queue == levels@[i as int].orders@);
                        assert(fills@ == pre + qf);
                        lemma_sum_fill_qty_add(pre, qf);
                        // Every fill added at this level is valid against the
                        // whole book side and carries this level's price.
                        assert forall|k: int| pre.len() <= k < fills@.len() implies fill_ok(
                            #[trigger] fills@[k],
                            dir,
                            lv,
                            id,
                            side,
                        ) && fills@[k].price == lv[i as int].price by {
                            let f = fills@[k];
                            assert(f == qf[k - pre.len()]);
                            assert(lv[i as int].queue.contains(f.maker_id));
                            let j = choose|j: int|
                                0 <= j < lv[i as int].queue.len() && lv[i as int].queue[j]
                                    == f.maker_id;
                            assert(lv[i as int].queue[j] == f.maker_id);
                            assert(dir[f.maker_id].price == lv[i as int].price);
                            assert(in_queues(lv, f.maker_id));
                        }
                        // A maker matched at this level differs from every
                        // maker matched at a strictly better level.
                        assert forall|k1: int, k2: int|
                            0 <= k1 < pre.len() && pre.len() <= k2 < fills@.len() implies (
                        #[trigger] fills@[k1]).maker_id != (#[trigger] fills@[k2]).maker_id by {
                            assert(price_better(oside, fills@[k1].price, lv[i as int].price));
                            assert(fills@[k2].price == lv[i as int].price);
                            assert(dir[fills@[k1].maker_id].price == fills@[k1].price);
                            assert(dir[fills@[k2].maker_id].price == fills@[k2].price);
                        }
                        assert(pre + (qf + fills_from_levels(
                            dir,
                            lv.skip(i as int + 1),
                            remaining_qty - filled_qty,
                            id,
                            side,
                            limit_price,
                        )) =~= fills@ + fills_from_levels(
                            dir,
                            lv.skip(i as int + 1),
                            remaining_qty - filled_qty,
                            id,
                            side,
                            limit_price,
                        ));
                        assert forall|k: int|
                            0 <= k < fills@.len() && i + 1 < lv.len() implies price_better(
                            oside,
                            (#[trigger] fills@[k]).price,
                            lv[i as int + 1].price,
                        ) by {
                            assert(price_better(oside, lv[i as int].price, lv[i as int + 1].price));
                            if k < pre.len() {
                                assert(price_better(oside, fills@[k].price, lv[i as int].price));
                            } else {
                                assert(fills@[k].price == lv[i as int].price);
                            }
                        }
                    }
                    remaining_qty = remaining_qty - filled_qty;
                    i += 1;
                }
            }
        }
        proof {
            if !stop {
                assert(fills_from_levels(
                    dir,
                    lv.skip(i as int),
                    remaining_qty as int,
                    id,
                    side,
                    limit_price,
                ) =~= Seq::<FillMetadata>::empty());
                assert(fills@ + Seq::<FillMetadata>::empty() =~= fills@);
            }
            assert(total == fills@);
        }
        remaining_qty
    }

    /// Match an aggressor of the bid side against the ask levels, best
    /// (lowest) price first. Returns the unmatched quantity.
    fn match_with_asks(
        &self,
        id: u64,
        qty: u64,
        fills: &mut Vec<FillMetadata>,
        limit_price: Option<u64>,
    ) -> (remaining_qty: u64)
        requires
            old(fills)@.len() == 0,
            levels_sorted(self@.asks, Side::Ask),
            queues_in_orders(self@.asks, self@.orders),
            queues_ascending(self@.asks),
        ensures
            final(fills)@ == fills_from_levels(
                self@.orders,
                self@.asks,
                qty as int,
                id,
                Side::Bid,
                limit_price,
            ),
            remaining_qty == qty - sum_fill_qty(final(fills)@),
            0 <= sum_fill_qty(final(fills)@) <= qty,
            fills_ok(final(fills)@, self@.orders, self@.asks, id, Side::Bid),
    {
        Self::match_side(&self.arena, &self.asks, id, qty, Side::Bid, limit_price, fills)
    }

    /// Match an aggressor of the ask side against the bid levels, best
    /// (highest) price first. Returns the unmatched quantity.
    fn match_with_bids(
        &self,
        id: u64,
        qty: u64,
        fills: &mut Vec<FillMetadata>,
        limit_price: Option<u64>,
    ) -> (remaining_qty: u64)
        requires
            old(fills)@.len() == 0,
            levels_sorted(self@.bids, Side::Bid),
            queues_in_orders(self@.bids, self@.orders),
            queues_ascending(self@.bids),
        ensures
            final(fills)@ == fills_from_levels(
                self@.orders,
                self@.bids,
                qty as int,
                id,
                Side::Ask,
                limit_price,
            ),
            remaining_qty == qty - sum_fill_qty(final(fills)@),
            0 <= sum_fill_qty(final(fills)@) <= qty,
            fills_ok(final(fills)@, self@.orders, self@.bids, id, Side::Ask),
    {
        Self::match_side(&self.arena, &self.bids, id, qty, Side::Ask, limit_price, fills)
    }

    /// Find the index of the first level with the given price, if any.
    fn find_level_index(levels: &Vec<PriceLevel>, price: u64) -> (r: Option<usize>)
        ensures
            match r {
                Some(ix) => ix < levels@.len() && views_of(levels@)[ix as int].price == price
                    && find_level(views_of(levels@), price) == Some(ix as int),
                None => find_level(views_of(levels@), price) is None,
            },
    {
        let ghost lv = views_of(levels@);
        let mut i: usize = 0;
        while i < levels.len()
            invariant
                0 <= i <= levels.len(),
                lv == views_of(levels@),
                forall|k: int| 0 <= k < i ==> lv[k].price != price,
            decreases levels.len() - i,
        {
            if levels[i].price == price {
                proof {
                    assert(lv[i as int].price == price);
                    lemma_find_level(lv, price);
                    match find_level(lv, price) {
                        Some(ixx) => {
                            assert(lv[ixx].price == price);
                            if ixx < i as int {
                                assert(lv[ixx].price != price);
                            }
                            if (i as int) < ixx {
                                assert(lv[i as int].price != price);
                            }
                            assert(ixx == i as int);
                        },
                        None => {
                            assert(lv[i as int].price != price);
                        },
                    }
                }
                return Some(i);
            }
            i += 1;
        }
        proof {
            lemma_find_level(lv, price);
        }
        None
    }

    /// Find the index of the first occurrence of `id` in a queue, if any.
    fn find_id_position(ids: &Vec<u64>, id: u64) -> (r: Option<usize>)
        ensures
            match r {
                Some(j) => 0 <= j < ids@.len() && ids@[j as int] == id && (forall|k: int|
                    0 <= k < j ==> ids@[k] != id),
                None => !ids@.contains(id),
            },
    {
        let mut j: usize = 0;
        while j < ids.len()
            invariant
                0 <= j <= ids@.len(),
                forall|k: int| 0 <= k < j ==> ids@[k] != id,
            decreases ids.len() - j,
        {
            if ids[j] == id {
                return Some(j);
            }
            j += 1;
        }
        proof {
            if ids@.contains(id) {
                let k = choose|k: int| 0 <= k < ids@.len() && ids@[k] == id;
                assert(false);
            }
        }
        None
    }

    /// Remove the first occurrence of `id` from the queue of the level at
    /// `price`; a no-op when no level or no occurrence exists.
    fn remove_id_level(levels: &mut Vec<PriceLevel>, price: u64, id: u64)
        ensures
            views_of(final(levels)@) == remove_id_at_price(views_of(old(levels)@), price, id),
    {
        let ghost lv = views_of(levels@);
        match Self::find_level_index(levels, price) {
            None => {},
            Some(ix) => {
                let ghost q = lv[ix as int].queue;
                match Self::find_id_position(&levels[ix].orders, id) {
                    None => {
                        proof {
                            lemma_remove_first(q, id);
                            assert(remove_first(q, id) == q);
                            assert(lv.update(
                                ix as int,
                                LevelView { price: lv[ix as int].price, queue: q },
                            ) =~= lv);
                        }
                    },
                    Some(j) => {
                        proof {
                            lemma_remove_first_at(q, id, j as int);
                        }
                        let level = &mut levels[ix];
                        level.orders.remove(j);
                        proof {
                            assert(views_of(levels@) =~= lv.update(
                                ix as int,
                                LevelView {
                                    price: lv[ix as int].price,
                                    queue: remove_first(q, id),
                                },
                            ));
                        }
                    },
                }
            },
        }
    }

    /// Apply one fill to one side's levels: a total fill removes the maker
    /// from the queue of the level at the fill's price.
    fn apply_fill_level(levels: &mut Vec<PriceLevel>, fill: &FillMetadata)
        ensures
            views_of(final(levels)@) == apply_fill_to_levels(views_of(old(levels)@), *fill),
    {
        if fill.total_fill {
            Self::remove_id_level(levels, fill.price, fill.maker_id);
        }
    }

    /// Apply the emitted fills to the book: remove fully consumed makers
    /// from their queues and the directory, decrement partially consumed
    /// makers, then recompute both cached best prices.
    fn finalize_execution(&mut self, fills: &Vec<FillMetadata>)
        requires
            wf_core(old(self)@),
            fills_applicable(fills@, old(self)@.orders, old(self)@.asks, old(self)@.bids),
        ensures
            ({
                let (a2, b2, o2) = apply_fills(
                    old(self)@.asks,
                    old(self)@.bids,
                    old(self)@.orders,
                    fills@,
                );
                final(self)@ == (BookView {
                    asks: a2,
                    bids: b2,
                    orders: o2,
                    min_ask: best_price(a2, u64::MAX),
                    max_bid: best_price(b2, 0),
                    ..old(self)@
                })
            }),
            wf(final(self)@),
            forall|x: u64| #[trigger] in_queues(final(self)@.asks, x) ==> in_queues(
                old(self)@.asks,
                x,
            ),
            forall|x: u64| #[trigger] in_queues(final(self)@.bids, x) ==> in_queues(
                old(self)@.bids,
                x,
            ),
    {
        let ghost b0 = self@;
        let ghost fs = fills@;
        let mut k: usize = 0;
        proof {
            assert(fs.take(0) =~= Seq::<FillMetadata>::empty());
            assert(fs.skip(0) =~= fs);
        }
        while k < fills.len()
            invariant
                0 <= k <= fs.len(),
                fs == fills@,
                ({
                    let (a, b, o) = apply_fills(b0.asks, b0.bids, b0.orders, fs.take(k as int));
                    self@ == (BookView { asks: a, bids: b, orders: o, ..b0 })
                }),
                wf_core(self@),
                fills_applicable(fs.skip(k as int), self@.orders, self@.asks, self@.bids),
                forall|x: u64| #[trigger] in_queues(self@.asks, x) ==> in_queues(b0.asks, x),
                forall|x: u64| #[trigger] in_queues(self@.bids, x) ==> in_queues(b0.bids, x),
            decreases fs.len() - k,
        {
            let ghost prev = self@;
            let fill = fills[k];
            proof {
                assert(fs.skip(k as int)[0] == fill);
                assert(fs.skip(k as int).drop_first() =~= fs.skip(k as int + 1));
                assert(fill_applicable(fill, prev.orders, prev.asks, prev.bids));
                assert forall|k2: int|
                    0 <= k2 < fs.skip(k as int + 1).len() implies fill_applicable(
                    #[trigger] fs.skip(k as int + 1)[k2],
                    prev.orders,
                    prev.asks,
                    prev.bids,
                ) && fs.skip(k as int + 1)[k2].maker_id != fill.maker_id by {
                    assert(fs.skip(k as int)[k2 + 1] == fs.skip(k as int + 1)[k2]);
                }
                lemma_apply_fill(prev, fill, fs.skip(k as int + 1));
            }
            let maker_side = fill.taker_side.opposite();
            if maker_side == Side::Bid {
                Self::apply_fill_level(&mut self.bids, &fill);
            } else {
                Self::apply_fill_level(&mut self.asks, &fill);
            }
            if fill.total_fill {
                self.arena.delete(&fill.maker_id);
            } else {
                let maker = match self.arena.get(fill.maker_id) {
                    Some(o) => *o,
                    None => vstd::pervasive::unreached(),
                };
                self.arena.insert(
                    fill.maker_id,
                    maker.user_id,
                    maker.price,
                    maker.qty - fill.qty,
                );
            }
            proof {
                assert(self@.orders == apply_fill_to_orders(prev.orders, fill));
                assert(fs.take(k as int + 1).drop_last() =~= fs.take(k as int));
                assert(fs.take(k as int + 1).last() == fill);
                assert forall|x: u64| #[trigger] in_queues(self@.asks, x) implies in_queues(
                    b0.asks,
                    x,
                ) by {
                    assert(in_queues(prev.asks, x));
                }
                assert forall|x: u64| #[trigger] in_queues(self@.bids, x) implies in_queues(
                    b0.bids,
                    x,
                ) by {
                    assert(in_queues(prev.bids, x));
                }
            }
            k += 1;
        }
        proof {
            assert(fs.take(fs.len() as int) =~= fs);
        }
        self.update_max_bid();
        self.update_min_ask();
    }

    /// Find the position where a new level at `price` keeps the side sorted,
    /// better prices first.
    fn find_insert_pos(levels: &Vec<PriceLevel>, book_side: Side, price: u64) -> (r: usize)
        ensures
            r <= levels@.len(),
            r as int == level_insert_pos(views_of(levels@), book_side, price),
    {
        let ghost lv = views_of(levels@);
        let mut i: usize = 0;
        while i < levels.len()
            invariant
                0 <= i <= levels.len(),
                lv == views_of(levels@),
                forall|k: int| 0 <= k < i ==> price_better(book_side, #[trigger] lv[k].price, price),
            decreases levels.len() - i,
        {
            let better = match book_side {
                Side::Ask => levels[i].price < price,
                Side::Bid => levels[i].price > price,
            };
            if !better {
                proof {
                    assert(!price_better(book_side, lv[i as int].price, price));
                    lemma_level_insert_pos(lv, book_side, price);
                    let pos = level_insert_pos(lv, book_side, price);
                    if pos < i as int {
                        assert(price_better(book_side, lv[pos].price, price));
                    }
                    if (i as int) < pos {
                        assert(price_better(book_side, lv[i as int].price, price));
                    }
                }
                return i;
            }
            i += 1;
        }
        proof {
            lemma_level_insert_pos(lv, book_side, price);
            let pos = level_insert_pos(lv, book_side, price);
            if pos < lv.len() {
                assert(price_better(book_side, lv[pos].price, price));
            }
        }
        i
    }

    /// Rest a residual order on one side: append it to the queue of the
    /// existing level at `price`, or create that level at its sorted
    /// position.
    fn rest_order(
        levels: &mut Vec<PriceLevel>,
        book_side: Side,
        price: u64,
        id: u64,
        queue_capacity: usize,
    )
        ensures
            views_of(final(levels)@) == rest_into_levels(
                views_of(old(levels)@),
                book_side,
                price,
                id,
            ),
    {
        let ghost lv = views_of(levels@);
        match Self::find_level_index(levels, price) {
            Some(ix) => {
                let level = &mut levels[ix];
                level.orders.push(id);
                proof {
                    assert(views_of(levels@) =~= lv.update(
                        ix as int,
                        LevelView { price: lv[ix as int].price, queue: lv[ix as int].queue.push(id) },
                    ));
                }
            },
            None => {
                let pos = Self::find_insert_pos(levels, book_side, price);
                let mut queue: Vec<u64> = Vec::with_capacity(queue_capacity);
                queue.push(id);
                proof {
                    assert(queue@ =~= seq![id]);
                }
                levels.insert(pos, PriceLevel { price, orders: queue });
                proof {
                    assert(views_of(levels@) =~= lv.insert(
                        level_insert_pos(lv, book_side, price),
                        LevelView { price, queue: seq![id] },
                    ));
                }
            },
        }
    }

    /// Remove the order with the given identifier from the book, if it
    /// rests: take it out of its level's queue on whichever side holds it,
    /// recompute both cached best prices, and delete its directory entry.
    /// Returns whether the order was resting.
    fn cancel(&mut self, id: u64) -> (r: bool)
        requires
            wf(old(self)@),
        ensures
            final(self)@ == cancel_step(old(self)@, id).0,
            wf(final(self)@),
            r == old(self)@.orders.contains_key(id),
    {
        let ghost b0 = self@;
        let present = match self.arena.get(id) {
            Some(order) => Some(order.price),
            None => None,
        };
        match present {
            Some(price) => {
                Self::remove_id_level(&mut self.asks, price, id);
                Self::remove_id_level(&mut self.bids, price, id);
            },
            None => {},
        }
        self.update_min_ask();
        self.update_max_bid();
        let r = self.arena.delete(&id);
        proof {
            lemma_cancel_preserves(b0, id);
            if !b0.orders.contains_key(id) {
                assert(b0.orders.remove(id) =~= b0.orders);
            }
            assert(final(self)@ == cancel_step(b0, id).0);
        }
        r
    }

    /// Execute a market order (after admission): match against the best
    /// opposing levels without any price bound and apply the fills.
    /// Returns the fills, whether quantity was left unmatched, and the
    /// matched quantity.
    fn market(&mut self, id: u64, side: Side, qty: u64) -> (r: (Vec<FillMetadata>, bool, u64))
        requires
            wf(old(self)@),
        ensures
            ({
                let (b2, fs) = match_and_apply(old(self)@, id, side, qty, None);
                &&& final(self)@ == b2
                &&& r.0@ == fs
                &&& r.1 == (sum_fill_qty(fs) < qty)
                &&& r.2 == sum_fill_qty(fs)
            }),
            wf(final(self)@),
    {
        let ghost b0 = self@;
        let mut fills: Vec<FillMetadata> = Vec::new();
        let remaining_qty = match side {
            Side::Bid => self.match_with_asks(id, qty, &mut fills, None),
            Side::Ask => self.match_with_bids(id, qty, &mut fills, None),
        };
        proof {
            assert forall|k: int| 0 <= k < fills@.len() implies fill_applicable(
                #[trigger] fills@[k],
                b0.orders,
                b0.asks,
                b0.bids,
            ) by {
                assert(fill_ok(fills@[k], b0.orders, b0.opposing(side), id, side));
            }
        }
        self.finalize_execution(&fills);
        let partial = remaining_qty > 0;
        (fills, partial, qty - remaining_qty)
    }

    /// Execute a limit order (after admission): match within the limit
    /// price, apply the fills, and rest any residual quantity on the book,
    /// improving the cached best price when the rested price beats it.
    /// Returns the fills, whether quantity was left to rest, and the matched
    /// quantity.
    fn limit(&mut self, id: u64, user_id: u64, side: Side, qty: u64, price: u64) -> (r: (
        Vec<FillMetadata>,
        bool,
        u64,
    ))
        requires
            wf(old(self)@),
            id <= old(self)@.last_seq,
            forall|x: u64| #[trigger] in_queues(old(self)@.asks, x) ==> x < id,
            forall|x: u64| #[trigger] in_queues(old(self)@.bids, x) ==> x < id,
        ensures
            ({
                let (b3, ev) = crate::bookmodel::limit_step(old(self)@, id, user_id, side, qty, price);
                let fs = match_and_apply(old(self)@, id, side, qty, Some(price)).1;
                &&& final(self)@ == b3
                &&& r.0@ == fs
                &&& r.1 == (sum_fill_qty(fs) < qty)
                &&& r.2 == sum_fill_qty(fs)
            }),
            wf(final(self)@),
    {
        let ghost b0 = self@;
        let mut fills: Vec<FillMetadata> = Vec::new();
        let remaining_qty: u64;
        let mut partial = false;
        match side {
            Side::Bid => {
                remaining_qty = self.match_with_asks(id, qty, &mut fills, Some(price));
                proof {
                    assert forall|k: int| 0 <= k < fills@.len() implies fill_applicable(
                        #[trigger] fills@[k],
                        b0.orders,
                        b0.asks,
                        b0.bids,
                    ) by {
                        assert(fill_ok(fills@[k], b0.orders, b0.asks, id, Side::Bid));
                    }
                }
                self.finalize_execution(&fills);
                if remaining_qty > 0 {
                    partial = true;
                    let ghost b2 = self@;
                    proof {
                        assert forall|x: u64| #[trigger] in_queues(b2.bids, x) implies x < id by {
                            assert(in_queues(b0.bids, x));
                        }
                        assert forall|x: u64| #[trigger] in_queues(b2.asks, x) implies x < id by {
                            assert(in_queues(b0.asks, x));
                        }
                        lemma_rest_one_side(
                            b2.bids,
                            b2.asks,
                            b2.orders,
                            Side::Bid,
                            Side::Ask,
                            b2.last_seq,
                            id,
                            user_id,
                            price,
                            remaining_qty,
                        );
                        lemma_rest_best_price(b2.bids, Side::Bid, price, id, 0);
                    }
                    self.arena.insert(id, user_id, price, remaining_qty);
                    let queue_capacity = self.default_queue_capacity;
                    Self::rest_order(&mut self.bids, Side::Bid, price, id, queue_capacity);
                    if price > self.max_bid {
                        self.max_bid = price;
                    }
                }
            },
            Side::Ask => {
                remaining_qty = self.match_with_bids(id, qty, &mut fills, Some(price));
                proof {
                    assert forall|k: int| 0 <= k < fills@.len() implies fill_applicable(
                        #[trigger] fills@[k],
                        b0.orders,
                        b0.asks,
                        b0.bids,
                    ) by {
                        assert(fill_ok(fills@[k], b0.orders, b0.bids, id, Side::Ask));
                    }
                }
                self.finalize_execution(&fills);
                if remaining_qty > 0 {
                    partial = true;
                    let ghost b2 = self@;
                    proof {
                        assert forall|x: u64| #[trigger] in_queues(b2.bids, x) implies x < id by {
                            assert(in_queues(b0.bids, x));
                        }
                        assert forall|x: u64| #[trigger] in_queues(b2.asks, x) implies x < id by {
                            assert(in_queues(b0.asks, x));
                        }
                        lemma_rest_one_side(
                            b2.asks,
                            b2.bids,
                            b2.orders,
                            Side::Ask,
                            Side::Bid,
                            b2.last_seq,
                            id,
                            user_id,
                            price,
                            remaining_qty,
                        );
                        lemma_rest_best_price(b2.asks, Side::Ask, price, id, u64::MAX);
                    }
                    self.arena.insert(id, user_id, price, remaining_qty);
                    let queue_capacity = self.default_queue_capacity;
                    Self::rest_order(&mut self.asks, Side::Ask, price, id, queue_capacity);
                    if price < self.min_ask {
                        self.min_ask = price;
                    }
                }
            },
        }
        (fills, partial, qty - remaining_qty)
    }

    /// Execute an immediate-or-cancel order (after admission): match within
    /// the limit price and apply the fills; any residual is dropped, never
    /// rested. Returns the fills, whether quantity was left unmatched, and
    /// the matched quantity.
    fn ioc(&mut self, id: u64, side: Side, qty: u64, price: u64) -> (r: (
        Vec<FillMetadata>,
        bool,
        u64,
    ))
        requires
            wf(old(self)@),
        ensures
            ({
                let (b2, fs) = match_and_apply(old(self)@, id, side, qty, Some(price));
                &&& final(self)@ == b2
                &&& r.0@ == fs
                &&& r.1 == (sum_fill_qty(fs) < qty)
                &&& r.2 == sum_fill_qty(fs)
            }),
            wf(final(self)@),
    {
        let ghost b0 = self@;
        let mut fills: Vec<FillMetadata> = Vec::new();
        let remaining_qty = match side {
            Side::Bid => self.match_with_asks(id, qty, &mut fills, Some(price)),
            Side::Ask => self.match_with_bids(id, qty, &mut fills, Some(price)),
        };
        proof {
            assert forall|k: int| 0 <= k < fills@.len() implies fill_applicable(
                #[trigger] fills@[k],
                b0.orders,
                b0.asks,
                b0.bids,
            ) by {
                assert(fill_ok(fills@[k], b0.orders, b0.opposing(side), id, side));
            }
        }
        self.finalize_execution(&fills);
        let partial = remaining_qty > 0;
        (fills, partial, qty - remaining_qty)
    }

    /// Decide whether the opposing liquidity within the limit price covers a
    /// fill-or-kill order's whole quantity, without touching anything.
    fn fok_feasible(
        arena: &OrderArena,
        levels: &Vec<PriceLevel>,
        side: Side,
        limit_price: u64,
        qty: u64,
    ) -> (r: bool)
        ensures
            r == (available_liquidity(arena@, views_of(levels@), side, limit_price)
                >= qty as int),
    {
        let ghost dir = arena@;
        let ghost lv = views_of(levels@);
        let ghost total = available_liquidity(dir, lv, side, limit_price);
        if qty == 0 {
            proof {
                lemma_available_nonneg(dir, lv, side, limit_price);
            }
            return true;
        }
        let mut acc: u128 = 0;
        let mut i: usize = 0;
        let mut stop = false;
        let mut feasible = false;
        proof {
            assert(lv.skip(0) =~= lv);
        }
        while i < levels.len() && !stop && !feasible
            invariant
                qty > 0,
                0 <= i <= lv.len(),
                lv == views_of(levels@),
                dir == arena@,
                total == available_liquidity(dir, lv, side, limit_price),
                !stop && !feasible ==> total == acc + available_liquidity(
                    dir,
                    lv.skip(i as int),
                    side,
                    limit_price,
                ),
                !feasible ==> acc < qty,
                stop && !feasible ==> total == acc,
                feasible ==> total >= qty,
            decreases lv.len() - i + (if stop || feasible { 0int } else { 1int }),
        {
            proof {
                assert(lv.skip(i as int)[0] == lv[i as int]);
                assert(lv.skip(i as int).drop_first() =~= lv.skip(i as int + 1));
            }
            if levels[i].orders.len() == 0 {
                i += 1;
            } else {
                let price_i = levels[i].price;
                let level_ok: bool = match side {
                    Side::Bid => price_i <= limit_price,
                    Side::Ask => price_i >= limit_price,
                };
                if !level_ok {
                    proof {
                        assert(!price_allows(side, Some(limit_price), lv[i as int].price));
                    }
                    stop = true;
                } else {
                    let ghost q = lv[i as int].queue;
                    let ghost acc0 = acc;
                    let ids = &levels[i].orders;
                    let mut j: usize = 0;
                    proof {
                        assert(q.skip(0) =~= q);
                        lemma_available_nonneg(dir, lv.skip(i as int + 1), side, limit_price);
                    }
                    while j < ids.len() && !feasible
                        invariant
                            0 <= j <= q.len(),
                            q == ids@,
                            dir == arena@,
                            qty > 0,
                            !feasible ==> acc < qty,
                            !feasible ==> acc == acc0 + (queue_qty(dir, q) - queue_qty(
                                dir,
                                q.skip(j as int),
                            )),
                            available_liquidity(dir, lv.skip(i as int + 1), side, limit_price)
                                >= 0,
                            total == acc0 + queue_qty(dir, q) + available_liquidity(
                                dir,
                                lv.skip(i as int + 1),
                                side,
                                limit_price,
                            ),
                            feasible ==> total >= qty,
                        decreases q.len() - j + (if feasible { 0int } else { 1int }),
                    {
                        proof {
                            assert(q.skip(j as int)[0] == q[j as int]);
                            assert(q.skip(j as int).drop_first() =~= q.skip(j as int + 1));
                            lemma_queue_qty_nonneg(dir, q.skip(j as int + 1));
                        }
                        let entry: u64 = match arena.get(ids[j]) {
                            Some(order) => order.qty,
                            None => 0,
                        };
                        acc = acc + entry as u128;
                        j += 1;
                        if acc >= qty as u128 {
                            proof {
                                // What has been counted so far never exceeds
                                // the total available liquidity.
                                assert(queue_qty(dir, q) - queue_qty(dir, q.skip(j as int))
                                    <= queue_qty(dir, q));
                                assert(total >= acc);
                            }
                            feasible = true;
                        }
                    }
                    proof {
                        if !feasible {
                            assert(q.skip(q.len() as int) =~= Seq::<u64>::empty());
                            assert(queue_qty(dir, Seq::<u64>::empty()) == 0);
                            assert(acc == acc0 + queue_qty(dir, q));
                        }
                    }
                    i += 1;
                }
            }
        }
        proof {
            if !stop && !feasible {
                assert(lv.skip(i as int) =~= Seq::<LevelView>::empty());
                assert(available_liquidity(dir, Seq::<LevelView>::empty(), side, limit_price)
                    == 0);
            }
            if !feasible {
                assert(total == acc);
                assert(total < qty);
            }
        }
        feasible
    }

    /// Record a trade's statistics: add the filled quantity to the traded
    /// volume and record the trade's totals and its last fill.
    fn apply_stats(&mut self, filled_qty: u64, fills: &Vec<FillMetadata>)
        requires
            fills@.len() > 0,
            sum_fill_qty(fills@) <= 0xffff_ffff_ffff_ffffu64,
            old(self)@.traded_volume + filled_qty <= 0xffff_ffff_ffff_ffffu64 as int
                * 0xffff_ffff_ffff_ffffu64 as int,
        ensures
            final(self)@ == (BookView {
                traded_volume: (old(self)@.traded_volume + filled_qty) as u128,
                last_trade: Some(
                    Trade {
                        total_qty: filled_qty,
                        notional: fills_notional(fills@) as u128,
                        last_price: fills@.last().price,
                        last_qty: fills@.last().qty,
                    },
                ),
                ..old(self)@
            }),
    {
        let ghost m: int = 0xffff_ffff_ffff_ffffu64 as int;
        let mut notional: u128 = 0;
        let mut k: usize = 0;
        proof {
            assert(fills@.take(0) =~= Seq::<FillMetadata>::empty());
        }
        while k < fills.len()
            invariant
                0 <= k <= fills@.len(),
                m == 0xffff_ffff_ffff_ffffu64 as int,
                sum_fill_qty(fills@) <= m,
                notional as int == fills_notional(fills@.take(k as int)),
            decreases fills@.len() - k,
        {
            let f = fills[k];
            proof {
                assert(fills@.take(k as int + 1).drop_last() =~= fills@.take(k as int));
                assert(fills@.take(k as int + 1).last() == f);
                assert(fills@ =~= fills@.take(k as int + 1) + fills@.skip(k as int + 1));
                lemma_sum_fill_qty_add(fills@.take(k as int + 1), fills@.skip(k as int + 1));
                lemma_sum_fill_qty_nonneg(fills@.skip(k as int + 1));
                lemma_fills_notional_bound(fills@.take(k as int + 1));
                lemma_sum_fill_qty_nonneg(fills@.take(k as int + 1));
                assert(m * sum_fill_qty(fills@.take(k as int + 1)) <= m * m) by (nonlinear_arith)
                    requires
                        0 <= sum_fill_qty(fills@.take(k as int + 1)) <= m,
                        m > 0,
                ;
                assert(f.price as int * f.qty as int <= m * m) by (nonlinear_arith)
                    requires
                        0 <= f.price as int <= m,
                        0 <= f.qty as int <= m,
                ;
            }
            notional = notional + (f.price as u128) * (f.qty as u128);
            k += 1;
        }
        proof {
            assert(fills@.take(fills@.len() as int) =~= fills@);
        }
        self.traded_volume = self.traded_volume + filled_qty as u128;
        let last_fill = fills[fills.len() - 1];
        self.last_trade = Some(
            Trade {
                total_qty: filled_qty,
                notional,
                last_price: last_fill.price,
                last_qty: last_fill.qty,
            },
        );
    }

    /// Dispatch one command to its variant's execution path and build the
    /// resulting event, without admission control or statistics.
    fn _execute(&mut self, event: OrderType) -> (r: OrderEvent)
        requires
            wf(old(self)@),
            !event.spec_is_cancel() ==> event.spec_id() <= old(self)@.last_seq,
            !event.spec_is_cancel() ==> (forall|x: u64|
                #[trigger] in_queues(old(self)@.asks, x) ==> x < event.spec_id()),
            !event.spec_is_cancel() ==> (forall|x: u64|
                #[trigger] in_queues(old(self)@.bids, x) ==> x < event.spec_id()),
        ensures
            final(self)@ == command_step(old(self)@, event).0,
            r@ == command_step(old(self)@, event).1,
            wf(final(self)@),
    {
        match event {
            OrderType::Market { id, user_id: _, side, qty } => {
                let (fills, partial, filled_qty) = self.market(id, side, qty);
                if fills.is_empty() {
                    OrderEvent::Rejected { id, message: LIQUIDITY_NOT_AVAILABLE }
                } else if partial {
                    OrderEvent::PartiallyFilled { id, filled_qty, fills }
                } else {
                    OrderEvent::Filled { id, filled_qty, fills }
                }
            },
            OrderType::Limit { id, user_id, side, qty, price } => {
                let (fills, partial, filled_qty) = self.limit(id, user_id, side, qty, price);
                if fills.is_empty() {
                    OrderEvent::Open { id }
                } else if partial {
                    OrderEvent::PartiallyFilled { id, filled_qty, fills }
                } else {
                    OrderEvent::Filled { id, filled_qty, fills }
                }
            },
            OrderType::IOC { id, user_id: _, side, qty, price } => {
                let (fills, partial, filled_qty) = self.ioc(id, side, qty, price);
                if fills.is_empty() {
                    OrderEvent::Rejected { id, message: LIQUIDITY_NOT_AVAILABLE }
                } else if partial {
                    OrderEvent::PartiallyFilled { id, filled_qty, fills }
                } else {
                    OrderEvent::Filled { id, filled_qty, fills }
                }
            },
            OrderType::FOK { id, user_id: _, side, qty, price } => {
                let feasible = match side {
                    Side::Bid => Self::fok_feasible(&self.arena, &self.asks, side, price, qty),
                    Side::Ask => Self::fok_feasible(&self.arena, &self.bids, side, price, qty),
                };
                if !feasible {
                    OrderEvent::Rejected { id, message: LIQUIDITY_NOT_AVAILABLE }
                } else {
                    let (fills, _partial, filled_qty) = self.ioc(id, side, qty, price);
                    OrderEvent::Filled { id, filled_qty, fills }
                }
            },
            OrderType::Cancel { id } => {
                self.cancel(id);
                OrderEvent::Cancelled { id }
            },
        }
    }

    /// Execute a command, returning the resulting event.
    ///
    /// Non-cancel commands are admitted only when their identifier strictly
    /// exceeds every previously accepted one; rejected commands leave the
    /// book untouched. The returned event and the new state are exactly
    /// those of the model's transition function, and well-formedness is
    /// preserved.
    pub fn execute(&mut self, event: OrderType) -> (r: OrderEvent)
        requires
            wf(old(self)@),
        ensures
            final(self)@ == spec_execute(old(self)@, event).0,
            r@ == spec_execute(old(self)@, event).1,
            wf(final(self)@),
            crate::bookmodel::no_cross(old(self)@) && (event matches OrderType::Limit {
                side: Side::Bid,
                price,
                ..
            } ==> price < u64::MAX) && (event matches OrderType::Limit {
                side: Side::Ask,
                price,
                ..
            } ==> price > 0) ==> crate::bookmodel::no_cross(final(self)@),
    {
        let ghost b0 = self@;
        proof {
            if crate::bookmodel::no_cross(b0) && (event matches OrderType::Limit {
                side: Side::Bid,
                price,
                ..
            } ==> price < u64::MAX) && (event matches OrderType::Limit {
                side: Side::Ask,
                price,
                ..
            } ==> price > 0) {
                crate::laws::law_no_cross(b0, event);
            }
        }
        let order_id = event.get_id();
        let is_cancel = matches!(event, OrderType::Cancel { .. });
        if !is_cancel {
            if self.last_processed_order_id >= order_id {
                return OrderEvent::Rejected { id: order_id, message: INVALID_ORDER_NUMBER };
            }
            proof {
                assert forall|x: u64| #[trigger] in_queues(b0.asks, x) implies x < order_id by {
                    let (i, j) = choose|i: int, j: int|
                        0 <= i < b0.asks.len() && 0 <= j < b0.asks[i].queue.len()
                            && b0.asks[i].queue[j] == x;
                    assert(b0.asks[i].queue[j] <= b0.last_seq);
                }
                assert forall|x: u64| #[trigger] in_queues(b0.bids, x) implies x < order_id by {
                    let (i, j) = choose|i: int, j: int|
                        0 <= i < b0.bids.len() && 0 <= j < b0.bids[i].queue.len()
                            && b0.bids[i].queue[j] == x;
                    assert(b0.bids[i].queue[j] <= b0.last_seq);
                }
            }
            self.last_processed_order_id = order_id;
            proof {
                let m: int = 0xffff_ffff_ffff_ffffu64 as int;
                assert(b0.last_seq as int * m <= order_id as int * m) by (nonlinear_arith)
                    requires
                        b0.last_seq as int <= order_id as int,
                        m >= 0,
                ;
                assert(wf(self@));
            }
        }
        let ghost b1 = self@;
        let result = self._execute(event);
        let ghost b2 = self@;
        let ghost ev = command_step(b1, event).1;
        proof {
            lemma_command_step_preserves(b1, event);
        }
        if !self.track_stats {
            return result;
        }
        match &result {
            OrderEvent::Filled { id: _, filled_qty, fills } => {
                if fills.len() > 0 {
                    proof {
                        self.lemma_stats_pre(b0, b1, b2, event, ev, fills@);
                    }
                    let fq = *filled_qty;
                    self.apply_stats(fq, fills);
                }
            },
            OrderEvent::PartiallyFilled { id: _, filled_qty, fills } => {
                if fills.len() > 0 {
                    proof {
                        self.lemma_stats_pre(b0, b1, b2, event, ev, fills@);
                    }
                    let fq = *filled_qty;
                    self.apply_stats(fq, fills);
                }
            },
            _ => {},
        }
        result
    }

    /// The facts needed before recording statistics: the event's fills are
    /// the fills of the matching walk, so their total quantity fits in 64
    /// bits, and the traded volume stays within its accounting bound.
    proof fn lemma_stats_pre(
        &self,
        b0: BookView,
        b1: BookView,
        b2: BookView,
        event: OrderType,
        ev: crate::models::OrderEventView,
        fs: Seq<FillMetadata>,
    )
        requires
            wf(b0),
            !event.spec_is_cancel(),
            b0.last_seq < event.spec_id(),
            b1 == (BookView { last_seq: event.spec_id(), ..b0 }),
            b2 == command_step(b1, event).0,
            self@ == b2,
            ev == command_step(b1, event).1,
            match ev {
                crate::models::OrderEventView::Filled { fills, .. } => fs == fills,
                crate::models::OrderEventView::PartiallyFilled { fills, .. } => fs == fills,
                _ => false,
            },
        ensures
            sum_fill_qty(fs) <= 0xffff_ffff_ffff_ffffu64,
            b2.traded_volume + 0xffff_ffff_ffff_ffffu64 <= 0xffff_ffff_ffff_ffffu64 as int
                * 0xffff_ffff_ffff_ffffu64 as int,
    {
        let m: int = 0xffff_ffff_ffff_ffffu64 as int;
        match event {
            OrderType::Market { id, side, qty, .. } => {
                lemma_fills_from_levels_sum(
                    b1.orders,
                    b1.opposing(side),
                    qty as int,
                    id,
                    side,
                    None,
                );
            },
            OrderType::Limit { id, user_id, side, qty, price } => {
                lemma_fills_from_levels_sum(
                    b1.orders,
                    b1.opposing(side),
                    qty as int,
                    id,
                    side,
                    Some(price),
                );
            },
            OrderType::IOC { id, side, qty, price, .. } => {
                lemma_fills_from_levels_sum(
                    b1.orders,
                    b1.opposing(side),
                    qty as int,
                    id,
                    side,
                    Some(price),
                );
            },
            OrderType::FOK { id, side, qty, price, .. } => {
                lemma_fills_from_levels_sum(
                    b1.orders,
                    b1.opposing(side),
                    qty as int,
                    id,
                    side,
                    Some(price),
                );
            },
            OrderType::Cancel { .. } => {
                assert(false);
            },
        }
        lemma_command_step_preserves(b1, event);
        assert(b2.traded_volume == b0.traded_volume);
        assert(b0.traded_volume <= b0.last_seq as int * m);
        assert(b0.last_seq as int * m + m <= m * m) by (nonlinear_arith)
            requires
                0 <= b0.last_seq as int <= m - 1,
                m > 0,
        ;
    }

    /// The aggregate resting quantity of one queue, saturating at
    /// `u64::MAX`; identifiers without a directory entry count zero.
    fn level_qty(arena: &OrderArena, ids: &Vec<u64>) -> (r: u64)
        ensures
            r == sat64(queue_qty(arena@, ids@)),
    {
        let ghost dir = arena@;
        let ghost q = ids@;
        let mut acc: u64 = 0;
        let ghost mut done: int = 0;
        let mut j: usize = 0;
        proof {
            assert(q.skip(0) =~= q);
        }
        while j < ids.len()
            invariant
                0 <= j <= q.len(),
                q == ids@,
                dir == arena@,
                done >= 0,
                queue_qty(dir, q) == done + queue_qty(dir, q.skip(j as int)),
                acc == sat64(done),
            decreases q.len() - j,
        {
            proof {
                assert(q.skip(j as int)[0] == q[j as int]);
                assert(q.skip(j as int).drop_first() =~= q.skip(j as int + 1));
            }
            let entry: u64 = match arena.get(ids[j]) {
                Some(order) => order.qty,
                None => 0,
            };
            if acc > u64::MAX - entry {
                acc = u64::MAX;
            } else {
                acc = acc + entry;
            }
            proof {
                done = done + entry;
            }
            j += 1;
        }
        proof {
            assert(q.skip(q.len() as int) =~= Seq::<u64>::empty());
            assert(queue_qty(dir, Seq::<u64>::empty()) == 0);
        }
        acc
    }

    /// The resting orders of one queue, in arrival order, read from the
    /// directory.
    fn collect_orders(arena: &OrderArena, ids: &Vec<u64>) -> (r: Vec<LimitOrder>)
        requires
            queue_in_dir(ids@, arena@),
        ensures
            r@ == level_orders(arena@, ids@),
    {
        let mut r: Vec<LimitOrder> = Vec::new();
        let mut j: usize = 0;
        while j < ids.len()
            invariant
                0 <= j <= ids@.len(),
                queue_in_dir(ids@, arena@),
                r@.len() == j,
                forall|k: int| 0 <= k < j ==> r@[k] == arena@[ids@[k]],
            decreases ids@.len() - j,
        {
            let order = match arena.get(ids[j]) {
                Some(o) => *o,
                None => vstd::pervasive::unreached(),
            };
            r.push(order);
            j += 1;
        }
        proof {
            assert(r@ =~= level_orders(arena@, ids@));
        }
        r
    }

    /// Build one side of a depth snapshot: up to `count` levels with
    /// resting quantity, best price first.
    fn depth_one_side(
        arena: &OrderArena,
        levels: &Vec<PriceLevel>,
        count: usize,
        include_orders: bool,
    ) -> (r: Vec<BookLevel>)
        requires
            queues_in_orders(views_of(levels@), arena@),
        ensures
            Seq::new(r@.len(), |i: int| r@[i]@) == depth_side(
                arena@,
                views_of(levels@),
                count as int,
                include_orders,
            ),
    {
        let ghost dir = arena@;
        let ghost lv = views_of(levels@);
        let ghost total = depth_side(dir, lv, count as int, include_orders);
        let mut r: Vec<BookLevel> = Vec::new();
        let mut pushed: usize = 0;
        let mut i: usize = 0;
        proof {
            assert(lv.skip(0) =~= lv);
            assert(Seq::new(r@.len(), |k: int| r@[k]@) =~= Seq::<BookLevelView>::empty());
            assert(Seq::<BookLevelView>::empty() + total =~= total);
        }
        while i < levels.len() && pushed < count
            invariant
                0 <= i <= lv.len(),
                pushed <= count,
                lv == views_of(levels@),
                dir == arena@,
                queues_in_orders(lv, dir),
                r@.len() == pushed,
                total == Seq::new(r@.len(), |k: int| r@[k]@) + depth_side(
                    dir,
                    lv.skip(i as int),
                    count - pushed,
                    include_orders,
                ),
            decreases lv.len() - i,
        {
            let ghost rv = Seq::new(r@.len(), |k: int| r@[k]@);
            proof {
                assert(lv.skip(i as int)[0] == lv[i as int]);
                assert(lv.skip(i as int).drop_first() =~= lv.skip(i as int + 1));
                lemma_queue_qty_nonneg(dir, lv[i as int].queue);
            }
            let qty = Self::level_qty(arena, &levels[i].orders);
            if qty > 0 {
                let orders_list: Vec<LimitOrder> = if include_orders {
                    proof {
                        assert forall|k: int|
                            0 <= k < lv[i as int].queue.len() implies {
                            let id = #[trigger] lv[i as int].queue[k];
                            dir.contains_key(id) && dir[id].id == id
                        } by {
                            assert(queues_in_orders(lv, dir));
                        }
                    }
                    Self::collect_orders(arena, &levels[i].orders)
                } else {
                    Vec::new()
                };
                let level = BookLevel { price: levels[i].price, qty, orders: orders_list };
                r.push(level);
                pushed += 1;
                proof {
                    assert(Seq::new(r@.len(), |k: int| r@[k]@) =~= rv.push(level@));
                    assert(rv.push(level@) =~= rv + seq![level@]);
                    assert(rv + (seq![level@] + depth_side(
                        dir,
                        lv.skip(i as int + 1),
                        count - pushed,
                        include_orders,
                    )) =~= (rv + seq![level@]) + depth_side(
                        dir,
                        lv.skip(i as int + 1),
                        count - pushed,
                        include_orders,
                    ));
                }
            }
            i += 1;
        }
        proof {
            if pushed < count {
                assert(lv.skip(i as int) =~= Seq::<LevelView>::empty());
            }
            assert(depth_side(dir, lv.skip(i as int), count - pushed, include_orders)
                =~= Seq::<BookLevelView>::empty());
            assert(total =~= Seq::new(r@.len(), |k: int| r@[k]@));
        }
        r
    }

    /// Return the order book depth as a [`BookDepth`] snapshot: up to
    /// `levels` price levels with resting quantity per side, asks ascending
    /// and bids descending by price, each with its aggregate quantity and,
    /// when `include_orders` is set, the resting orders in arrival order.
    /// The `levels` field of the result echoes the request even when fewer
    /// levels exist.
    pub fn depth(&self, levels: usize, include_orders: bool) -> (r: BookDepth)
        requires
            wf(self@),
        ensures
            r@ == (BookDepthView {
                levels,
                asks: depth_side(self@.orders, self@.asks, levels as int, include_orders),
                bids: depth_side(self@.orders, self@.bids, levels as int, include_orders),
            }),
    {
        let asks = Self::depth_one_side(&self.arena, &self.asks, levels, include_orders);
        let bids = Self::depth_one_side(&self.arena, &self.bids, levels, include_orders);
        BookDepth { levels, asks, bids }
    }

    /// Walk one opposing queue head-to-tail, appending the fills the
    /// aggressor generates there, without mutating anything. Returns the
    /// quantity matched at this queue.
    fn simulate_queue_fills(
        arena: &OrderArena,
        opposite_orders: &Vec<u64>,
        remaining_qty: u64,
        id: u64,
        side: Side,
        fills: &mut Vec<FillMetadata>,
    ) -> (filled_qty: u64)
        requires
            queue_in_dir(opposite_orders@, arena@),
            queue_sorted(opposite_orders@),
        ensures
            final(fills)@ == old(fills)@ + fills_from_queue(
                arena@,
                opposite_orders@,
                remaining_qty as int,
                id,
                side,
            ),
            filled_qty == sum_fill_qty(
                fills_from_queue(arena@, opposite_orders@, remaining_qty as int, id, side),
            ),
            filled_qty <= remaining_qty,
            queue_fills_ok(
                fills_from_queue(arena@, opposite_orders@, remaining_qty as int, id, side),
                arena@,
                opposite_orders@,
                id,
                side,
            ),
    {
        let ghost dir = arena@;
        let ghost q = opposite_orders@;
        let ghost base = fills@;
        let ghost total = fills_from_queue(dir, q, remaining_qty as int, id, side);
        let mut qty_to_fill = remaining_qty;
        let mut filled_qty: u64 = 0;
        let mut j: usize = 0;
        proof {
            assert(fills@.take(base.len() as int) =~= base);
            assert(fills@.skip(base.len() as int) =~= Seq::<FillMetadata>::empty());
            assert(q.skip(0) =~= q);
            assert(Seq::<FillMetadata>::empty() + total =~= total);
        }
        while j < opposite_orders.len() && qty_to_fill > 0
            invariant
                0 <= j <= q.len(),
                q == opposite_orders@,
                dir == arena@,
                queue_in_dir(q, dir),
                queue_sorted(q),
                qty_to_fill <= remaining_qty,
                filled_qty == remaining_qty - qty_to_fill,
                fills@.len() >= base.len(),
                fills@.take(base.len() as int) == base,
                total == fills@.skip(base.len() as int) + fills_from_queue(
                    dir,
                    q.skip(j as int),
                    qty_to_fill as int,
                    id,
                    side,
                ),
                filled_qty == sum_fill_qty(fills@.skip(base.len() as int)),
                queue_fills_ok(fills@.skip(base.len() as int), dir, q, id, side),
                forall|k: int|
                    0 <= k < fills@.len() - base.len() ==> q.take(j as int).contains(
                        (#[trigger] fills@.skip(base.len() as int)[k]).maker_id,
                    ),
            decreases q.len() - j,
        {
            let ghost added = fills@.skip(base.len() as int);
            let ghost todo = fills_from_queue(dir, q.skip(j as int), qty_to_fill as int, id, side);
            proof {
                assert(q.skip(j as int)[0] == q[j as int]);
                assert(q.skip(j as int).drop_first() =~= q.skip(j as int + 1));
            }
            let qid = opposite_orders[j];
            let head_order = match arena.get(qid) {
                Some(o) => *o,
                None => vstd::pervasive::unreached(),
            };
            let traded_price = head_order.price;
            let available_qty = head_order.qty;
            if available_qty == 0 {
                j += 1;
            } else {
                let traded_quantity: u64;
                let filled: bool;
                if qty_to_fill >= available_qty {
                    traded_quantity = available_qty;
                    qty_to_fill = qty_to_fill - available_qty;
                    filled = true;
                } else {
                    traded_quantity = qty_to_fill;
                    qty_to_fill = 0;
                    filled = false;
                }
                let fill = FillMetadata {
                    taker_id: id,
                    maker_id: head_order.id,
                    qty: traded_quantity,
                    price: traded_price,
                    taker_side: side,
                    total_fill: filled,
                };
                proof {
                    // The new maker is strictly above every maker already
                    // recorded, so all makers stay pairwise distinct.
                    assert forall|k: int| 0 <= k < added.len() implies (#[trigger] added[k]).maker_id
                        != fill.maker_id by {
                        let m = added[k].maker_id;
                        assert(q.take(j as int).contains(m));
                        let j2 = choose|j2: int| 0 <= j2 < j && q.take(j as int)[j2] == m;
                        assert(q[j2] == m);
                        assert(q[j2] < q[j as int]);
                    }
                }
                fills.push(fill);
                filled_qty = filled_qty + traded_quantity;
                proof {
                    assert(fills@.take(base.len() as int) =~= base);
                    assert(fills@.skip(base.len() as int) =~= added.push(fill));
                    assert(added.push(fill).drop_last() =~= added);
                    assert(seq![fill] + fills_from_queue(
                        dir,
                        q.skip(j as int + 1),
                        qty_to_fill as int,
                        id,
                        side,
                    ) =~= todo);
                    assert(added + todo =~= added.push(fill) + fills_from_queue(
                        dir,
                        q.skip(j as int + 1),
                        qty_to_fill as int,
                        id,
                        side,
                    ));
                    assert(q.take(j as int + 1).contains(fill.maker_id)) by {
                        assert(q.take(j as int + 1)[j as int] == fill.maker_id);
                    }
                    assert forall|k: int| 0 <= k < added.len() implies q.take(j as int + 1).contains(
                        (#[trigger] added[k]).maker_id,
                    ) by {
                        let m = added[k].maker_id;
                        let j2 = choose|j2: int| 0 <= j2 < j && q.take(j as int)[j2] == m;
                        assert(q.take(j as int + 1)[j2] == m);
                    }
                }
                j += 1;
            }
        }
        proof {
            assert(fills_from_queue(dir, q.skip(j as int), qty_to_fill as int, id, side)
                =~= Seq::<FillMetadata>::empty());
            assert(total =~= fills@.skip(base.len() as int));
            assert(fills@ =~= base + fills@.skip(base.len() as int));
        }
        filled_qty
    }
}

/// Copy a queue of order identifiers.
fn clone_ids(ids: &Vec<u64>) -> (r: Vec<u64>)
    ensures
        r@ == ids@,
{
    let mut r: Vec<u64> = Vec::new();
    let mut i: usize = 0;
    while i < ids.len()
        invariant
            0 <= i <= ids.len(),
            r@ == ids@.take(i as int),
        decreases ids.len() - i,
    {
        r.push(ids[i]);
        proof {
            assert(r@ =~= ids@.take(i + 1 as int));
        }
        i += 1;
    }
    proof {
        assert(ids@.take(ids@.len() as int) =~= ids@);
    }
    r
}

} // verus!
