//! The engine's laws: properties of every execution, proved once and for
//! all over the model's transition function [`crate::bookmodel::spec_execute`].
//!
//! The state invariants themselves — directory agreement, strictly positive
//! resting quantities, best-price correctness, monotonic identifiers and
//! arrival order within each price — are the well-formedness predicate
//! [`crate::bookmodel::wf`], which [`crate::orderbook::OrderBook::execute`]
//! establishes on creation and preserves across every command.

use vstd::prelude::*;

use crate::bookmodel::{
    available_liquidity, best_price, cancel_step, command_fills, command_step, fills_from_levels,
    fills_from_queue, find_level, in_queues, lemma_apply_fills_no_new_keys,
    lemma_best_price_char, lemma_best_price_shrink, lemma_command_step_preserves,
    lemma_fills_from_levels_sum, lemma_levels_match_total, lemma_match_leaves_no_favourable,
    lemma_no_cross_after_apply, lemma_remove_id_shape, level_insert_pos, match_and_apply,
    no_cross, price_allows, price_better, remove_first, remove_id_at_price, rest_into_levels,
    spec_execute, stats_step, sum_fill_qty, wf, BookView, LevelView,
};
use crate::bookmodel::{
    apply_fills, event_fills, fill_applicable, fill_ok, fills_applicable, lemma_apply_fills_shape,
    lemma_apply_fills_wf, lemma_cancel_preserves, lemma_match_fills_ok, lemma_rest_best_price,
    lemma_rest_one_side, wf_core,
};
use crate::models::{FillMetadata, LimitOrder, OrderEventView, OrderType, Side};
use crate::rejectmessages::INVALID_ORDER_NUMBER;

verus! {

/// Law: command admission. A non-cancel command whose identifier does not
/// strictly exceed the last accepted one is rejected with
/// `INVALID_ORDER_NUMBER` and leaves the book untouched; an accepted command
/// advances the sequence number to its identifier. Hence the identifiers of
/// accepted non-cancel commands strictly increase.
pub proof fn law_admission(b: BookView, cmd: OrderType)
    requires
        !cmd.spec_is_cancel(),
    ensures
        cmd.spec_id() <= b.last_seq ==> spec_execute(b, cmd) == (
        (
            b,
            OrderEventView::Rejected { id: cmd.spec_id(), message: INVALID_ORDER_NUMBER@ },
        )),
        cmd.spec_id() > b.last_seq ==> spec_execute(b, cmd).0.last_seq == cmd.spec_id(),
{
    if cmd.spec_id() > b.last_seq {
        let b1 = BookView { last_seq: cmd.spec_id(), ..b };
        lemma_command_step_preserves(b1, cmd);
        let (b2, ev) = command_step(b1, cmd);
        assert(stats_step(b2, ev).last_seq == b2.last_seq);
    }
}

/// Law: an aggressor is never overfilled. Whatever the book and the limit
/// price, the total quantity of the fills its matching walk generates is at
/// most the command's quantity.
pub proof fn law_fills_bounded(
    b: BookView,
    taker_id: u64,
    side: Side,
    qty: u64,
    limit_price: Option<u64>,
)
    ensures
        0 <= sum_fill_qty(match_and_apply(b, taker_id, side, qty, limit_price).1) <= qty,
{
    lemma_fills_from_levels_sum(b.orders, b.opposing(side), qty as int, taker_id, side, limit_price);
}

/// Law: a fully consumed aggressor is reported `Filled`. If an accepted
/// non-cancel command's matching walk consumes its whole (positive)
/// quantity, the returned event is `Filled` with exactly that quantity.
pub proof fn law_full_consumption_filled(b: BookView, cmd: OrderType)
    requires
        !cmd.spec_is_cancel(),
        cmd.spec_qty() > 0,
        cmd.spec_id() > b.last_seq,
        sum_fill_qty(command_fills(b, cmd)) == cmd.spec_qty(),
    ensures
        spec_execute(b, cmd).1 matches OrderEventView::Filled { filled_qty, .. }
            && spec_execute(b, cmd).1->Filled_filled_qty == cmd.spec_qty(),
{
    let b1 = BookView { last_seq: cmd.spec_id(), ..b };
    let fs = command_fills(b, cmd);
    assert(sum_fill_qty(Seq::<FillMetadata>::empty()) == 0);
    match cmd {
        OrderType::Market { id, side, qty, .. } => {
            assert(fs == match_and_apply(b1, id, side, qty, None).1);
        },
        OrderType::Limit { id, user_id, side, qty, price } => {
            assert(fs == match_and_apply(b1, id, side, qty, Some(price)).1);
        },
        OrderType::IOC { id, side, qty, price, .. } => {
            assert(fs == match_and_apply(b1, id, side, qty, Some(price)).1);
        },
        OrderType::FOK { id, side, qty, price, .. } => {
            lemma_levels_match_total(b1.orders, b1.opposing(side), qty as int, id, side, price);
            assert(available_liquidity(b1.orders, b1.opposing(side), side, price) >= qty);
        },
        OrderType::Cancel { .. } => {
            assert(false);
        },
    }
}

/// Law: fill-or-kill is whole-or-none. An accepted fill-or-kill order is
/// reported `Filled` with exactly its quantity when the opposing liquidity
/// within its limit price covers that quantity, and `Rejected` otherwise;
/// a rejected one changes nothing but the sequence number.
pub proof fn law_fok_whole_or_none(
    b: BookView,
    id: u64,
    user_id: u64,
    side: Side,
    qty: u64,
    price: u64,
)
    requires
        id > b.last_seq,
    ensures
        ({
            let cmd = OrderType::FOK { id, user_id, side, qty, price };
            let (b2, ev) = spec_execute(b, cmd);
            let feasible = available_liquidity(b.orders, b.opposing(side), side, price)
                >= qty as int;
            &&& (feasible ==> (ev matches OrderEventView::Filled { filled_qty, .. } && filled_qty
                == qty))
            &&& (!feasible ==> (ev matches OrderEventView::Rejected { .. } && b2 == (BookView {
                last_seq: id,
                ..b
            })))
        }),
{
    let cmd = OrderType::FOK { id, user_id, side, qty, price };
    let b1 = BookView { last_seq: id, ..b };
    lemma_levels_match_total(b1.orders, b1.opposing(side), qty as int, id, side, price);
}

/// Law: a rejected command leaves the book's content untouched. Whenever
/// the returned event is `Rejected` — an out-of-sequence command, a market
/// order finding no liquidity, or an infeasible fill-or-kill order — the
/// levels, the directory, the best-price cache and the statistics are
/// exactly those of the well-formed state before the command; only the
/// admission sequence number may have advanced.
pub proof fn law_rejected_changes_nothing(b: BookView, cmd: OrderType)
    requires
        wf(b),
        spec_execute(b, cmd).1 matches OrderEventView::Rejected { .. },
    ensures
        ({
            let b2 = spec_execute(b, cmd).0;
            &&& b2.asks == b.asks
            &&& b2.bids == b.bids
            &&& b2.orders == b.orders
            &&& b2.min_ask == b.min_ask
            &&& b2.max_bid == b.max_bid
            &&& b2.traded_volume == b.traded_volume
            &&& b2.last_trade == b.last_trade
            &&& b2.track_stats == b.track_stats
        }),
{
    if !cmd.spec_is_cancel() && cmd.spec_id() > b.last_seq {
        let b1 = BookView { last_seq: cmd.spec_id(), ..b };
        let ev = command_step(b1, cmd).1;
        assert(spec_execute(b, cmd).1 == ev);
        assert(sum_fill_qty(Seq::<FillMetadata>::empty()) == 0);
        match cmd {
            OrderType::Market { id, side, qty, .. } => {
                let fs = match_and_apply(b1, id, side, qty, None).1;
                assert(fs.len() == 0);
                let bm = match_and_apply(b1, id, side, qty, None).0;
                assert(bm.asks == b.asks && bm.bids == b.bids && bm.orders == b.orders);
                assert(bm.min_ask == best_price(b.asks, u64::MAX) == b.min_ask);
                assert(bm.max_bid == best_price(b.bids, 0) == b.max_bid);
            },
            OrderType::Limit { .. } => {
                assert(false);
            },
            OrderType::IOC { id, side, qty, price, .. } => {
                let fs = match_and_apply(b1, id, side, qty, Some(price)).1;
                assert(fs.len() == 0);
                let bm = match_and_apply(b1, id, side, qty, Some(price)).0;
                assert(bm.asks == b.asks && bm.bids == b.bids && bm.orders == b.orders);
                assert(bm.min_ask == best_price(b.asks, u64::MAX) == b.min_ask);
                assert(bm.max_bid == best_price(b.bids, 0) == b.max_bid);
            },
            OrderType::FOK { .. } => {},
            OrderType::Cancel { .. } => {},
        }
    }
}

/// Law: an immediate-or-cancel order never rests. After an accepted
/// immediate-or-cancel command on a well-formed book, the directory has no
/// entry with that command's identifier.
pub proof fn law_ioc_never_rests(
    b: BookView,
    id: u64,
    user_id: u64,
    side: Side,
    qty: u64,
    price: u64,
)
    requires
        wf(b),
        id > b.last_seq,
    ensures
        !spec_execute(b, OrderType::IOC { id, user_id, side, qty, price }).0.orders.contains_key(
            id,
        ),
{
    let cmd = OrderType::IOC { id, user_id, side, qty, price };
    let b1 = BookView { last_seq: id, ..b };
    assert(!b1.orders.contains_key(id)) by {
        if b1.orders.contains_key(id) {
            assert(in_queues(b.asks, id) || in_queues(b.bids, id));
            if in_queues(b.asks, id) {
                let (i, j) = choose|i: int, j: int|
                    0 <= i < b.asks.len() && 0 <= j < b.asks[i].queue.len() && b.asks[i].queue[j]
                        == id;
                assert(b.asks[i].queue[j] <= b.last_seq);
            } else {
                let (i, j) = choose|i: int, j: int|
                    0 <= i < b.bids.len() && 0 <= j < b.bids[i].queue.len() && b.bids[i].queue[j]
                        == id;
                assert(b.bids[i].queue[j] <= b.last_seq);
            }
        }
    }
    let fs = fills_from_levels(b1.orders, b1.opposing(side), qty as int, id, side, Some(price));
    lemma_apply_fills_no_new_keys(b1.asks, b1.bids, b1.orders, fs, id);
}

/// Law: resting a limit order and cancelling it restores an empty book.
/// On an empty book, a limit command followed by a cancel of the same
/// identifier leaves the directory empty, every level queue empty, and the
/// best prices at their defaults — whatever the limit order's parameters
/// and whether or not it was admitted.
pub proof fn law_limit_cancel_round_trip(
    b: BookView,
    id: u64,
    user_id: u64,
    side: Side,
    qty: u64,
    price: u64,
)
    requires
        b.asks == Seq::<LevelView>::empty(),
        b.bids == Seq::<LevelView>::empty(),
        b.orders == Map::<u64, LimitOrder>::empty(),
        b.min_ask == u64::MAX,
        b.max_bid == 0,
    ensures
        ({
            let b1 = spec_execute(b, OrderType::Limit { id, user_id, side, qty, price }).0;
            let b2 = spec_execute(b1, OrderType::Cancel { id }).0;
            &&& b2.orders =~= Map::<u64, LimitOrder>::empty()
            &&& (forall|i: int| 0 <= i < b2.asks.len() ==> #[trigger] b2.asks[i].queue.len() == 0)
            &&& (forall|i: int| 0 <= i < b2.bids.len() ==> #[trigger] b2.bids[i].queue.len() == 0)
            &&& b2.min_ask == u64::MAX
            &&& b2.max_bid == 0
        }),
{
    let cmd = OrderType::Limit { id, user_id, side, qty, price };
    let b1 = spec_execute(b, cmd).0;
    let empty_levels = Seq::<LevelView>::empty();
    let empty_orders = Map::<u64, LimitOrder>::empty();
    assert(best_price(empty_levels, u64::MAX) == u64::MAX);
    assert(best_price(empty_levels, 0) == 0);
    if id <= b.last_seq {
        // Not admitted: the book stays empty and the cancel is a no-op.
        assert(b1 == b);
        let b2 = spec_execute(b1, OrderType::Cancel { id }).0;
        assert(b2.orders =~= empty_orders);
    } else {
        let ba = BookView { last_seq: id, ..b };
        let fs = fills_from_levels(ba.orders, ba.opposing(side), qty as int, id, side, Some(price));
        assert(fs =~= Seq::<FillMetadata>::empty());
        assert(sum_fill_qty(Seq::<FillMetadata>::empty()) == 0);
        let bm = match_and_apply(ba, id, side, qty, Some(price)).0;
        assert(bm.asks == empty_levels && bm.bids == empty_levels && bm.orders == empty_orders);
        assert(bm.min_ask == u64::MAX && bm.max_bid == 0);
        let b1c = command_step(ba, cmd).0;
        let ev = command_step(ba, cmd).1;
        assert(b1 == stats_step(b1c, ev));
        assert(b1.asks == b1c.asks && b1.bids == b1c.bids && b1.orders == b1c.orders
            && b1.min_ask == b1c.min_ask && b1.max_bid == b1c.max_bid);
        if qty > 0 {
            // The residual rests as the single order of a single new level.
            let rested = LevelView { price, queue: seq![id] };
            assert(find_level(empty_levels, price) is None);
            assert(level_insert_pos(empty_levels, side, price) == 0);
            assert(rest_into_levels(empty_levels, side, price, id) =~= seq![rested]);
            match side {
                Side::Bid => {
                    assert(b1c.bids =~= seq![rested]);
                    assert(b1c.asks == empty_levels);
                },
                Side::Ask => {
                    assert(b1c.asks =~= seq![rested]);
                    assert(b1c.bids == empty_levels);
                },
            }
            assert(b1.orders.contains_key(id));
            assert(b1.orders[id].price == price);
            let b2 = spec_execute(b1, OrderType::Cancel { id }).0;
            assert(b2 == cancel_step(b1, id).0);
            let emptied = LevelView { price, queue: Seq::<u64>::empty() };
            assert(remove_first(seq![id], id) =~= Seq::<u64>::empty());
            assert(find_level(seq![rested], price) == Some(0int));
            assert(remove_id_at_price(seq![rested], price, id) =~= seq![emptied]);
            assert(remove_id_at_price(empty_levels, price, id) == empty_levels);
            assert(seq![emptied].drop_first() =~= empty_levels);
            assert(best_price(seq![emptied], u64::MAX) == u64::MAX);
            assert(best_price(seq![emptied], 0) == 0);
            match side {
                Side::Bid => {
                    assert(b2.bids =~= seq![emptied]);
                    assert(b2.asks == empty_levels);
                },
                Side::Ask => {
                    assert(b2.asks =~= seq![emptied]);
                    assert(b2.bids == empty_levels);
                },
            }
            assert(b2.orders =~= empty_orders);
        } else {
            // Nothing rests: the event is `Open` but the book stays empty.
            assert(b1c.orders == empty_orders && b1c.asks == empty_levels && b1c.bids
                == empty_levels);
            let b2 = spec_execute(b1, OrderType::Cancel { id }).0;
            assert(b2.orders =~= empty_orders);
        }
    }
}

/// Law: time priority within a price level. When two makers with
/// identifiers `a < b` (so `a` arrived first) queue at one level and an
/// aggressor consumes exactly one unit more than `a`'s quantity, `a` is
/// consumed completely and `b` yields exactly one unit — never the reverse.
pub proof fn law_time_priority(
    orders: Map<u64, LimitOrder>,
    a: u64,
    b: u64,
    taker_id: u64,
    side: Side,
)
    requires
        a < b,
        orders.contains_key(a),
        orders.contains_key(b),
        orders[a].id == a,
        orders[b].id == b,
        orders[a].qty > 0,
        orders[b].qty > 0,
        orders[a].qty < u64::MAX,
    ensures
        ({
            let fs = fills_from_queue(orders, seq![a, b], orders[a].qty + 1, taker_id, side);
            &&& fs.len() == 2
            &&& fs[0].maker_id == a
            &&& fs[0].qty == orders[a].qty
            &&& fs[0].total_fill
            &&& fs[1].maker_id == b
            &&& fs[1].qty == 1
            &&& (fs[1].total_fill <==> orders[b].qty == 1)
        }),
{
    let q = seq![a, b];
    let rem: int = orders[a].qty + 1;
    assert(q[0] == a && q[1] == b);
    let fill_a = FillMetadata {
        taker_id,
        maker_id: a,
        qty: orders[a].qty,
        price: orders[a].price,
        taker_side: side,
        total_fill: true,
    };
    let q1 = q.drop_first();
    assert(q1 =~= seq![b]);
    let total_b = 1 >= orders[b].qty;
    let fill_b = FillMetadata {
        taker_id,
        maker_id: b,
        qty: if total_b {
            orders[b].qty
        } else {
            1
        },
        price: orders[b].price,
        taker_side: side,
        total_fill: total_b,
    };
    let q2 = q1.drop_first();
    assert(q2 =~= Seq::<u64>::empty());
    assert(fills_from_queue(orders, q2, rem - orders[a].qty - fill_b.qty, taker_id, side)
        =~= Seq::<FillMetadata>::empty());
    assert(fills_from_queue(orders, q1, rem - orders[a].qty, taker_id, side) =~= seq![fill_b]);
    assert(fills_from_queue(orders, q, rem, taker_id, side) =~= seq![fill_a, fill_b]);
}

/// Law: a cancel command always answers `Cancelled` and removes at most the
/// named order: the directory afterwards is the directory before, without
/// that identifier.
pub proof fn law_cancel_idempotent(b: BookView, id: u64)
    ensures
        spec_execute(b, OrderType::Cancel { id }).1 == (OrderEventView::Cancelled { id }),
        spec_execute(b, OrderType::Cancel { id }).0.orders =~= b.orders.remove(id),
        !b.orders.contains_key(id) ==> spec_execute(b, OrderType::Cancel { id }).0.orders
            == b.orders,
{
    let (b2, ev) = cancel_step(b, id);
    if !b.orders.contains_key(id) {
        assert(b.orders.remove(id) =~= b.orders);
    }
}

/// Law: the book never crosses. Executing any command on a well-formed book
/// whose best ask sits strictly above its best bid leaves it that way. The
/// two sentinel collisions are excluded: a limit bid at `u64::MAX` or a
/// limit ask at `0` could rest at the very value that stands for "no price
/// on this side", making the cached best prices meaningless.
pub proof fn law_no_cross(b: BookView, cmd: OrderType)
    requires
        wf(b),
        no_cross(b),
        cmd matches OrderType::Limit { side: Side::Bid, price, .. } ==> price < u64::MAX,
        cmd matches OrderType::Limit { side: Side::Ask, price, .. } ==> price > 0,
    ensures
        no_cross(spec_execute(b, cmd).0),
{
    let m: int = 0xffff_ffff_ffff_ffffu64 as int;
    if cmd.spec_is_cancel() {
        let id = cmd->Cancel_id;
        let b2 = cancel_step(b, id).0;
        assert(spec_execute(b, cmd).0 == b2);
        if b.orders.contains_key(id) {
            let price = b.orders[id].price;
            lemma_remove_id_shape(b.asks, price, id);
            lemma_remove_id_shape(b.bids, price, id);
            let a2 = remove_id_at_price(b.asks, price, id);
            let bl2 = remove_id_at_price(b.bids, price, id);
            assert forall|i: int|
                0 <= i < b.asks.len() && #[trigger] a2[i].queue.len() > 0
                    implies b.asks[i].queue.len() > 0 by {
                let x = a2[i].queue[0];
                assert(a2[i].queue.contains(x)) by {
                    assert(a2[i].queue[0] == x);
                }
                assert(b.asks[i].queue.contains(x));
            }
            assert forall|i: int|
                0 <= i < b.bids.len() && #[trigger] bl2[i].queue.len() > 0
                    implies b.bids[i].queue.len() > 0 by {
                let x = bl2[i].queue[0];
                assert(bl2[i].queue.contains(x)) by {
                    assert(bl2[i].queue[0] == x);
                }
                assert(b.bids[i].queue.contains(x));
            }
            lemma_best_price_shrink(b.asks, a2, Side::Ask, u64::MAX);
            lemma_best_price_shrink(b.bids, bl2, Side::Bid, 0);
            assert(b2.min_ask == best_price(a2, u64::MAX));
            assert(b2.max_bid == best_price(bl2, 0));
            assert(b2.min_ask >= b.min_ask);
            assert(b2.max_bid <= b.max_bid);
            assert(no_cross(b2));
        } else {
            assert(b2.min_ask == best_price(b.asks, u64::MAX));
            assert(b2.max_bid == best_price(b.bids, 0));
            assert(no_cross(b2));
        }
    } else if cmd.spec_id() <= b.last_seq {
        assert(spec_execute(b, cmd).0 == b);
    } else {
        let id0 = cmd.spec_id();
        let b1 = BookView { last_seq: id0, ..b };
        assert(wf(b1)) by {
            assert(b.traded_volume <= b.last_seq as int * m);
            assert(b.last_seq as int * m <= id0 as int * m) by (nonlinear_arith)
                requires
                    b.last_seq as int <= id0 as int,
                    m >= 0,
            ;
        }
        assert(no_cross(b1));
        let (b2, ev) = command_step(b1, cmd);
        assert(spec_execute(b, cmd).0 == stats_step(b2, ev));
        assert(stats_step(b2, ev).min_ask == b2.min_ask && stats_step(b2, ev).max_bid
            == b2.max_bid);
        match cmd {
            OrderType::Market { id, side, qty, .. } => {
                let fs = fills_from_levels(b1.orders, b1.opposing(side), qty as int, id, side, None);
                lemma_no_cross_after_apply(b1, fs);
                let bm = match_and_apply(b1, id, side, qty, None).0;
                assert(b2 == bm);
                assert(bm.min_ask >= b1.min_ask);
                assert(bm.max_bid <= b1.max_bid);
                assert(no_cross(b2));
            },
            OrderType::IOC { id, side, qty, price, .. } => {
                let fs = fills_from_levels(
                    b1.orders,
                    b1.opposing(side),
                    qty as int,
                    id,
                    side,
                    Some(price),
                );
                lemma_no_cross_after_apply(b1, fs);
                let bm = match_and_apply(b1, id, side, qty, Some(price)).0;
                assert(b2 == bm);
                assert(bm.min_ask >= b1.min_ask);
                assert(bm.max_bid <= b1.max_bid);
                assert(no_cross(b2));
            },
            OrderType::FOK { id, side, qty, price, .. } => {
                if available_liquidity(b1.orders, b1.opposing(side), side, price) >= qty as int {
                    let fs = fills_from_levels(
                        b1.orders,
                        b1.opposing(side),
                        qty as int,
                        id,
                        side,
                        Some(price),
                    );
                    lemma_no_cross_after_apply(b1, fs);
                    let bm = match_and_apply(b1, id, side, qty, Some(price)).0;
                    assert(b2 == bm);
                    assert(bm.min_ask >= b1.min_ask);
                    assert(bm.max_bid <= b1.max_bid);
                    assert(no_cross(b2));
                } else {
                    assert(b2 == b1);
                    assert(no_cross(b2));
                }
            },
            OrderType::Limit { id, user_id, side, qty, price } => {
                let fs = fills_from_levels(
                    b1.orders,
                    b1.opposing(side),
                    qty as int,
                    id,
                    side,
                    Some(price),
                );
                lemma_fills_from_levels_sum(
                    b1.orders,
                    b1.opposing(side),
                    qty as int,
                    id,
                    side,
                    Some(price),
                );
                lemma_no_cross_after_apply(b1, fs);
                let bm = match_and_apply(b1, id, side, qty, Some(price)).0;
                assert(bm.min_ask >= b1.min_ask);
                assert(bm.max_bid <= b1.max_bid);
                assert(no_cross(bm));
                let rem = qty - sum_fill_qty(fs);
                if rem > 0 {
                    lemma_match_leaves_no_favourable(b1, id, side, qty, price);
                    match side {
                        Side::Bid => {
                            // Every ask level at or below the rested price is
                            // empty, so the best ask sits strictly above it.
                            lemma_best_price_char(bm.asks, u64::MAX);
                            assert(bm.min_ask > price) by {
                                if bm.min_ask == u64::MAX && (forall|k: int|
                                    0 <= k < bm.asks.len() ==> #[trigger] bm.asks[k].queue.len()
                                        == 0) {
                                } else {
                                    let j = choose|j: int|
                                        0 <= j < bm.asks.len()
                                            && #[trigger] bm.asks[j].queue.len() > 0
                                            && bm.asks[j].price == bm.min_ask && (forall|k: int|
                                            0 <= k < j ==> bm.asks[k].queue.len() == 0);
                                    assert(bm.opposing(side) == bm.asks);
                                    if price_allows(side, Some(price), bm.opposing(side)[j].price) {
                                        assert(bm.opposing(side)[j].queue.len() == 0);
                                    }
                                    assert(!price_allows(side, Some(price), bm.asks[j].price));
                                }
                            }
                            assert(b2.min_ask == bm.min_ask);
                            assert(b2.max_bid == if price > bm.max_bid {
                                price
                            } else {
                                bm.max_bid
                            });
                            assert(no_cross(b2));
                        },
                        Side::Ask => {
                            // Every bid level at or above the rested price is
                            // empty, so the best bid sits strictly below it.
                            lemma_best_price_char(bm.bids, 0);
                            assert(bm.max_bid < price) by {
                                if bm.max_bid == 0 && (forall|k: int|
                                    0 <= k < bm.bids.len() ==> #[trigger] bm.bids[k].queue.len()
                                        == 0) {
                                } else {
                                    let j = choose|j: int|
                                        0 <= j < bm.bids.len()
                                            && #[trigger] bm.bids[j].queue.len() > 0
                                            && bm.bids[j].price == bm.max_bid && (forall|k: int|
                                            0 <= k < j ==> bm.bids[k].queue.len() == 0);
                                    assert(bm.opposing(side) == bm.bids);
                                    if price_allows(side, Some(price), bm.opposing(side)[j].price) {
                                        assert(bm.opposing(side)[j].queue.len() == 0);
                                    }
                                    assert(!price_allows(side, Some(price), bm.bids[j].price));
                                }
                            }
                            assert(b2.max_bid == bm.max_bid);
                            assert(b2.min_ask == if price < bm.min_ask {
                                price
                            } else {
                                bm.min_ask
                            });
                            assert(no_cross(b2));
                        },
                    }
                } else {
                    assert(b2 == bm);
                    assert(no_cross(b2));
                }
            },
            OrderType::Cancel { .. } => {
                assert(false);
            },
        }
        assert(no_cross(stats_step(b2, ev)));
    }
}

/// Law: the cached best price is optimal. On a well-formed book the cached
/// lowest ask (highest bid) is the price of a level with resting quantity
/// unless the side is empty, and no level with resting quantity offers a
/// better price.
pub proof fn law_best_price_optimal(b: BookView)
    requires
        wf(b),
    ensures
        forall|i: int|
            0 <= i < b.asks.len() && (#[trigger] b.asks[i]).queue.len() > 0 ==> b.min_ask
                <= b.asks[i].price,
        forall|i: int|
            0 <= i < b.bids.len() && (#[trigger] b.bids[i]).queue.len() > 0 ==> b.max_bid
                >= b.bids[i].price,
{
    lemma_best_price_char(b.asks, u64::MAX);
    lemma_best_price_char(b.bids, 0);
    assert forall|i: int|
        0 <= i < b.asks.len() && (#[trigger] b.asks[i]).queue.len() > 0 implies b.min_ask
        <= b.asks[i].price by {
        let j = choose|j: int|
            0 <= j < b.asks.len() && #[trigger] b.asks[j].queue.len() > 0 && b.asks[j].price
                == b.min_ask && (forall|k: int| 0 <= k < j ==> b.asks[k].queue.len() == 0);
        if j < i {
            assert(price_better(Side::Ask, b.asks[j].price, b.asks[i].price));
        }
    }
    assert forall|i: int|
        0 <= i < b.bids.len() && (#[trigger] b.bids[i]).queue.len() > 0 implies b.max_bid
        >= b.bids[i].price by {
        let j = choose|j: int|
            0 <= j < b.bids.len() && #[trigger] b.bids[j].queue.len() > 0 && b.bids[j].price
                == b.max_bid && (forall|k: int| 0 <= k < j ==> b.bids[k].queue.len() == 0);
        if j < i {
            assert(price_better(Side::Bid, b.bids[j].price, b.bids[i].price));
        }
    }
}

/// After matching and applying the fills of an accepted command, the book
/// core stays well-formed and every resting identifier is one that was
/// already resting.
proof fn lemma_match_and_apply_wf(b: BookView, id: u64, side: Side, qty: u64, limit_price: Option<
    u64,
>)
    requires
        wf(b),
    ensures
        ({
            let bm = match_and_apply(b, id, side, qty, limit_price).0;
            &&& wf(bm)
            &&& (forall|x: u64| #[trigger] in_queues(bm.asks, x) ==> in_queues(b.asks, x))
            &&& (forall|x: u64| #[trigger] in_queues(bm.bids, x) ==> in_queues(b.bids, x))
        }),
{
    let opp = b.opposing(side);
    let fs = fills_from_levels(b.orders, opp, qty as int, id, side, limit_price);
    lemma_match_fills_ok(b.orders, opp, qty as int, id, side, limit_price, side.other());
    assert forall|k: int| 0 <= k < fs.len() implies fill_applicable(
        #[trigger] fs[k],
        b.orders,
        b.asks,
        b.bids,
    ) by {
        assert(fill_ok(fs[k], b.orders, opp, id, side));
    }
    lemma_apply_fills_wf(b, fs);
    lemma_apply_fills_shape(b.asks, b.bids, b.orders, fs);
    let (a2, bl2, o2) = apply_fills(b.asks, b.bids, b.orders, fs);
    let bm = match_and_apply(b, id, side, qty, limit_price).0;
    assert(wf_core(bm)) by {
        assert(wf_core(BookView { asks: a2, bids: bl2, orders: o2, ..b }));
    }
    assert forall|x: u64| #[trigger] in_queues(bm.asks, x) implies in_queues(b.asks, x) by {
        let (i, j) = choose|i: int, j: int|
            0 <= i < bm.asks.len() && 0 <= j < bm.asks[i].queue.len() && bm.asks[i].queue[j] == x;
        assert(a2[i].queue.contains(x)) by {
            assert(a2[i].queue[j] == x);
        }
        assert(b.asks[i].queue.contains(x));
        let j2 = choose|j2: int| 0 <= j2 < b.asks[i].queue.len() && b.asks[i].queue[j2] == x;
        assert(b.asks[i].queue[j2] == x);
    }
    assert forall|x: u64| #[trigger] in_queues(bm.bids, x) implies in_queues(b.bids, x) by {
        let (i, j) = choose|i: int, j: int|
            0 <= i < bm.bids.len() && 0 <= j < bm.bids[i].queue.len() && bm.bids[i].queue[j] == x;
        assert(bl2[i].queue.contains(x)) by {
            assert(bl2[i].queue[j] == x);
        }
        assert(b.bids[i].queue.contains(x));
        let j2 = choose|j2: int| 0 <= j2 < b.bids[i].queue.len() && b.bids[i].queue[j2] == x;
        assert(b.bids[i].queue[j2] == x);
    }
}

/// Law: the state invariants hold after every command. Executing any command
/// on a well-formed book leaves it well-formed: every queued identifier has
/// a directory entry with its identifier, its level's price and a positive
/// remaining quantity; every directory entry rests in exactly one queue;
/// identifiers within a queue ascend (arrival order, by monotonic
/// admission); the cached best prices match the levels; and the traded
/// volume stays within its accounting bound.
pub proof fn law_wf_preserved(b: BookView, cmd: OrderType)
    requires
        wf(b),
    ensures
        wf(spec_execute(b, cmd).0),
{
    let m: int = 0xffff_ffff_ffff_ffffu64 as int;
    if cmd.spec_is_cancel() {
        lemma_cancel_preserves(b, cmd->Cancel_id);
    } else if cmd.spec_id() <= b.last_seq {
    } else {
        let id0 = cmd.spec_id();
        let b1 = BookView { last_seq: id0, ..b };
        assert(wf(b1)) by {
            assert(b.traded_volume <= b.last_seq as int * m);
            assert(b.last_seq as int * m <= id0 as int * m) by (nonlinear_arith)
                requires
                    b.last_seq as int <= id0 as int,
                    m >= 0,
            ;
        }
        let (b2, ev) = command_step(b1, cmd);
        match cmd {
            OrderType::Market { id, side, qty, .. } => {
                lemma_match_and_apply_wf(b1, id, side, qty, None);
            },
            OrderType::IOC { id, side, qty, price, .. } => {
                lemma_match_and_apply_wf(b1, id, side, qty, Some(price));
            },
            OrderType::FOK { id, side, qty, price, .. } => {
                if available_liquidity(b1.orders, b1.opposing(side), side, price) >= qty as int {
                    lemma_match_and_apply_wf(b1, id, side, qty, Some(price));
                }
            },
            OrderType::Limit { id, user_id, side, qty, price } => {
                lemma_match_and_apply_wf(b1, id, side, qty, Some(price));
                let bm = match_and_apply(b1, id, side, qty, Some(price)).0;
                let fs = fills_from_levels(
                    b1.orders,
                    b1.opposing(side),
                    qty as int,
                    id,
                    side,
                    Some(price),
                );
                lemma_fills_from_levels_sum(
                    b1.orders,
                    b1.opposing(side),
                    qty as int,
                    id,
                    side,
                    Some(price),
                );
                let rem = qty - sum_fill_qty(fs);
                if rem > 0 {
                    // Everything still resting was resting before the
                    // command, so it is older than the new identifier.
                    assert forall|x: u64| #[trigger] in_queues(bm.asks, x) implies x < id by {
                        assert(in_queues(b1.asks, x));
                        let (i, j) = choose|i: int, j: int|
                            0 <= i < b1.asks.len() && 0 <= j < b1.asks[i].queue.len()
                                && b1.asks[i].queue[j] == x;
                        assert(b.asks[i].queue[j] <= b.last_seq);
                    }
                    assert forall|x: u64| #[trigger] in_queues(bm.bids, x) implies x < id by {
                        assert(in_queues(b1.bids, x));
                        let (i, j) = choose|i: int, j: int|
                            0 <= i < b1.bids.len() && 0 <= j < b1.bids[i].queue.len()
                                && b1.bids[i].queue[j] == x;
                        assert(b.bids[i].queue[j] <= b.last_seq);
                    }
                    match side {
                        Side::Bid => {
                            lemma_rest_one_side(
                                bm.bids,
                                bm.asks,
                                bm.orders,
                                Side::Bid,
                                Side::Ask,
                                bm.last_seq,
                                id,
                                user_id,
                                price,
                                rem as u64,
                            );
                            lemma_rest_best_price(bm.bids, Side::Bid, price, id, 0);
                            assert(wf(b2));
                        },
                        Side::Ask => {
                            lemma_rest_one_side(
                                bm.asks,
                                bm.bids,
                                bm.orders,
                                Side::Ask,
                                Side::Bid,
                                bm.last_seq,
                                id,
                                user_id,
                                price,
                                rem as u64,
                            );
                            lemma_rest_best_price(bm.asks, Side::Ask, price, id, u64::MAX);
                            assert(wf(b2));
                        },
                    }
                } else {
                    assert(b2 == bm);
                }
            },
            OrderType::Cancel { .. } => {
                assert(false);
            },
        }
        assert(wf(b2));
        // Statistics only grow the traded volume, within its bound.
        let b3 = stats_step(b2, ev);
        assert(wf(b3)) by {
            lemma_command_step_preserves(b1, cmd);
            assert(b2.traded_volume == b.traded_volume && b2.last_seq == id0);
            match event_fills(ev) {
                Some((fq, fs2)) => {
                    if b2.track_stats && fs2.len() > 0 {
                        assert(b.traded_volume <= b.last_seq as int * m);
                        assert(b.last_seq as int * m + m <= id0 as int * m) by (nonlinear_arith)
                            requires
                                0 <= b.last_seq as int <= id0 as int - 1,
                                m > 0,
                        ;
                        assert(id0 as int * m <= m * m) by (nonlinear_arith)
                            requires
                                0 <= id0 as int <= m,
                                m > 0,
                        ;
                        assert(b2.traded_volume + fq <= m * m);
                        assert(b3.traded_volume == b2.traded_volume + fq);
                        assert(b3.traded_volume <= b3.last_seq as int * m);
                    }
                },
                None => {},
            }
        }
    }
}

/// Law: a fresh book satisfies the state invariants and is uncrossed, so by
/// [`law_wf_preserved`] and [`law_no_cross`] every book reachable from it
/// through commands is well-formed and uncrossed.
pub proof fn law_initial_book(track_stats: bool)
    ensures
        wf(BookView::init(track_stats)),
        no_cross(BookView::init(track_stats)),
{
    let b = BookView::init(track_stats);
    assert(best_price(b.asks, u64::MAX) == u64::MAX);
    assert(best_price(b.bids, 0) == 0);
}

} // verus!
