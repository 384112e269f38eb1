//! The mathematical model of the order book.
//!
//! [`BookView`] is the abstract state: two sequences of price levels (best
//! price first), the order directory as a map, the best-price cache, the
//! admission sequence number and the statistics. [`spec_execute`] is the
//! transition function that the executable engine is proved to implement,
//! command by command.

use vstd::prelude::*;

use crate::models::{FillMetadata, LimitOrder, OrderEventView, OrderType, Side, Trade};
use crate::rejectmessages::{INVALID_ORDER_NUMBER, LIQUIDITY_NOT_AVAILABLE};

verus! {

/// One price level: a price and the identifiers of the orders resting there,
/// in arrival order.
pub ghost struct LevelView {
    /// The price shared by every order in the queue.
    pub price: u64,
    /// The resting order identifiers, earliest arrival first.
    pub queue: Seq<u64>,
}

/// The abstract state of the order book.
pub ghost struct BookView {
    /// The identifier of the last accepted non-cancel command.
    pub last_seq: u64,
    /// Total quantity traded while statistics tracking was on.
    pub traded_volume: u128,
    /// The last trade recorded while statistics tracking was on.
    pub last_trade: Option<Trade>,
    /// Whether statistics tracking is on.
    pub track_stats: bool,
    /// The lowest ask price with a non-empty queue, `u64::MAX` if none.
    pub min_ask: u64,
    /// The highest bid price with a non-empty queue, `0` if none.
    pub max_bid: u64,
    /// Ask levels, sorted by ascending price (best first).
    pub asks: Seq<LevelView>,
    /// Bid levels, sorted by descending price (best first).
    pub bids: Seq<LevelView>,
    /// The order directory: identifier to resting order.
    pub orders: Map<u64, LimitOrder>,
}

impl BookView {
    /// The state of a freshly created book.
    pub open spec fn init(track_stats: bool) -> BookView {
        BookView {
            last_seq: 0,
            traded_volume: 0,
            last_trade: None,
            track_stats,
            min_ask: u64::MAX,
            max_bid: 0,
            asks: Seq::empty(),
            bids: Seq::empty(),
            orders: Map::empty(),
        }
    }

    /// The opposing levels an aggressor of side `side` matches against.
    pub open spec fn opposing(self, side: Side) -> Seq<LevelView> {
        match side {
            Side::Bid => self.asks,
            Side::Ask => self.bids,
        }
    }
}

/// Whether a level at price `level_price` is within an aggressor's limit
/// price: at or below it for a bid, at or above it for an ask. `None` (a
/// market order) allows every price.
pub open spec fn price_allows(side: Side, limit_price: Option<u64>, level_price: u64) -> bool {
    match limit_price {
        None => true,
        Some(lp) => match side {
            Side::Bid => level_price <= lp,
            Side::Ask => level_price >= lp,
        },
    }
}

/// Whether price `a` is strictly better than price `b` on the book holding
/// side `book_side`: lower on the ask book, higher on the bid book. Levels
/// are sorted with the better price first.
pub open spec fn price_better(book_side: Side, a: u64, b: u64) -> bool {
    match book_side {
        Side::Ask => a < b,
        Side::Bid => a > b,
    }
}

/// The sum of the remaining quantities of the orders in a queue, read from
/// the directory. Identifiers without a directory entry count zero.
pub open spec fn queue_qty(orders: Map<u64, LimitOrder>, q: Seq<u64>) -> int
    decreases q.len(),
{
    if q.len() == 0 {
        0
    } else {
        let head = if orders.contains_key(q[0]) {
            orders[q[0]].qty as int
        } else {
            0
        };
        head + queue_qty(orders, q.drop_first())
    }
}

/// The fills an aggressor generates against one queue, consuming orders
/// head-first. `rem` is the aggressor's remaining quantity; orders with zero
/// remaining quantity (or without a directory entry) are skipped.
pub open spec fn fills_from_queue(
    orders: Map<u64, LimitOrder>,
    q: Seq<u64>,
    rem: int,
    taker_id: u64,
    side: Side,
) -> Seq<FillMetadata>
    decreases q.len(),
{
    if q.len() == 0 || rem <= 0 {
        Seq::empty()
    } else if !orders.contains_key(q[0]) || orders[q[0]].qty == 0 {
        fills_from_queue(orders, q.drop_first(), rem, taker_id, side)
    } else {
        let maker = orders[q[0]];
        let total = rem >= maker.qty;
        let traded: u64 = if total {
            maker.qty
        } else {
            rem as u64
        };
        let fill = FillMetadata {
            taker_id,
            maker_id: maker.id,
            qty: traded,
            price: maker.price,
            taker_side: side,
            total_fill: total,
        };
        seq![fill] + fills_from_queue(orders, q.drop_first(), rem - traded, taker_id, side)
    }
}

/// The fills an aggressor generates while walking opposing levels in
/// priority order. Empty levels are skipped; the walk stops at the first
/// non-empty level outside the limit price and when the aggressor is
/// fully consumed.
pub open spec fn fills_from_levels(
    orders: Map<u64, LimitOrder>,
    levels: Seq<LevelView>,
    rem: int,
    taker_id: u64,
    side: Side,
    limit_price: Option<u64>,
) -> Seq<FillMetadata>
    decreases levels.len(),
{
    if levels.len() == 0 || rem <= 0 {
        Seq::empty()
    } else if levels[0].queue.len() == 0 {
        fills_from_levels(orders, levels.drop_first(), rem, taker_id, side, limit_price)
    } else if !price_allows(side, limit_price, levels[0].price) {
        Seq::empty()
    } else {
        let fs = fills_from_queue(orders, levels[0].queue, rem, taker_id, side);
        fs + fills_from_levels(
            orders,
            levels.drop_first(),
            rem - sum_fill_qty(fs),
            taker_id,
            side,
            limit_price,
        )
    }
}

/// The total quantity of a sequence of fills.
pub open spec fn sum_fill_qty(fills: Seq<FillMetadata>) -> int
    decreases fills.len(),
{
    if fills.len() == 0 {
        0
    } else {
        sum_fill_qty(fills.drop_last()) + fills.last().qty
    }
}

/// The total of `price * qty` over a sequence of fills: the numerator of
/// the trade's volume-weighted average price.
pub open spec fn fills_notional(fills: Seq<FillMetadata>) -> int
    decreases fills.len(),
{
    if fills.len() == 0 {
        0
    } else {
        fills_notional(fills.drop_last()) + fills.last().price * fills.last().qty
    }
}

/// The opposing liquidity within the limit price: the quantity a fill-or-kill
/// order of side `side` could consume. Mirrors the matching walk: empty
/// levels are skipped and the first non-empty level outside the limit price
/// stops the count.
pub open spec fn available_liquidity(
    orders: Map<u64, LimitOrder>,
    levels: Seq<LevelView>,
    side: Side,
    limit_price: u64,
) -> int
    decreases levels.len(),
{
    if levels.len() == 0 {
        0
    } else if levels[0].queue.len() == 0 {
        available_liquidity(orders, levels.drop_first(), side, limit_price)
    } else if !price_allows(side, Some(limit_price), levels[0].price) {
        0
    } else {
        queue_qty(orders, levels[0].queue) + available_liquidity(
            orders,
            levels.drop_first(),
            side,
            limit_price,
        )
    }
}

/// An integer clamped into the 64-bit unsigned range.
pub open spec fn sat64(x: int) -> u64 {
    if x > u64::MAX {
        u64::MAX
    } else if x < 0 {
        0
    } else {
        x as u64
    }
}

/// The resting orders of one queue, read from the directory.
pub open spec fn level_orders(orders: Map<u64, LimitOrder>, q: Seq<u64>) -> Seq<LimitOrder> {
    q.map_values(|id: u64| orders[id])
}

/// One side of a depth snapshot: up to `count` levels with resting quantity,
/// best price first, each with its aggregate quantity (saturating) and,
/// when requested, its resting orders in arrival order.
pub open spec fn depth_side(
    orders: Map<u64, LimitOrder>,
    levels: Seq<LevelView>,
    count: int,
    include_orders: bool,
) -> Seq<crate::models::BookLevelView>
    decreases levels.len(),
{
    if levels.len() == 0 || count <= 0 {
        Seq::empty()
    } else if queue_qty(orders, levels[0].queue) == 0 {
        depth_side(orders, levels.drop_first(), count, include_orders)
    } else {
        seq![
            crate::models::BookLevelView {
                price: levels[0].price,
                qty: sat64(queue_qty(orders, levels[0].queue)),
                orders: if include_orders {
                    level_orders(orders, levels[0].queue)
                } else {
                    Seq::empty()
                },
            },
        ] + depth_side(orders, levels.drop_first(), count - 1, include_orders)
    }
}

/// The index of the first level with the given price, if any.
pub open spec fn find_level(levels: Seq<LevelView>, price: u64) -> Option<int>
    decreases levels.len(),
{
    if levels.len() == 0 {
        None
    } else if levels[0].price == price {
        Some(0int)
    } else {
        match find_level(levels.drop_first(), price) {
            None => None,
            Some(i) => Some(i + 1),
        }
    }
}

/// The queue with the first occurrence of `id` removed; unchanged when `id`
/// does not occur.
pub open spec fn remove_first(q: Seq<u64>, id: u64) -> Seq<u64>
    decreases q.len(),
{
    if q.len() == 0 {
        q
    } else if q[0] == id {
        q.drop_first()
    } else {
        seq![q[0]] + remove_first(q.drop_first(), id)
    }
}

/// The levels after removing the first occurrence of `id` from the queue of
/// the level at `price`; unchanged when no level has that price.
pub open spec fn remove_id_at_price(levels: Seq<LevelView>, price: u64, id: u64) -> Seq<LevelView> {
    match find_level(levels, price) {
        Some(i) => levels.update(
            i,
            LevelView { price: levels[i].price, queue: remove_first(levels[i].queue, id) },
        ),
        None => levels,
    }
}

/// One side's levels after applying one fill: a total fill removes the maker
/// from its level's queue, a partial fill leaves the queues unchanged.
pub open spec fn apply_fill_to_levels(levels: Seq<LevelView>, fill: FillMetadata) -> Seq<
    LevelView,
> {
    if fill.total_fill {
        remove_id_at_price(levels, fill.price, fill.maker_id)
    } else {
        levels
    }
}

/// The directory after applying one fill: a total fill deletes the maker's
/// entry, a partial fill decrements its remaining quantity.
pub open spec fn apply_fill_to_orders(orders: Map<u64, LimitOrder>, fill: FillMetadata) -> Map<
    u64,
    LimitOrder,
> {
    if fill.total_fill {
        orders.remove(fill.maker_id)
    } else if orders.contains_key(fill.maker_id) {
        let maker = orders[fill.maker_id];
        orders.insert(
            fill.maker_id,
            LimitOrder {
                user_id: maker.user_id,
                id: maker.id,
                qty: (maker.qty - fill.qty) as u64,
                price: maker.price,
            },
        )
    } else {
        orders
    }
}

/// Both books and the directory after applying a sequence of fills in order.
/// Each fill mutates the book holding the maker's side (the side opposing
/// the fill's taker side).
pub open spec fn apply_fills(
    asks: Seq<LevelView>,
    bids: Seq<LevelView>,
    orders: Map<u64, LimitOrder>,
    fills: Seq<FillMetadata>,
) -> (Seq<LevelView>, Seq<LevelView>, Map<u64, LimitOrder>)
    decreases fills.len(),
{
    if fills.len() == 0 {
        (asks, bids, orders)
    } else {
        let (a, b, o) = apply_fills(asks, bids, orders, fills.drop_last());
        let fill = fills.last();
        let a2 = if fill.taker_side == Side::Bid {
            apply_fill_to_levels(a, fill)
        } else {
            a
        };
        let b2 = if fill.taker_side == Side::Ask {
            apply_fill_to_levels(b, fill)
        } else {
            b
        };
        (a2, b2, apply_fill_to_orders(o, fill))
    }
}

/// The best price of a side's levels: the price of the first level with a
/// non-empty queue, or `none_value` when every queue is empty.
pub open spec fn best_price(levels: Seq<LevelView>, none_value: u64) -> u64
    decreases levels.len(),
{
    if levels.len() == 0 {
        none_value
    } else if levels[0].queue.len() > 0 {
        levels[0].price
    } else {
        best_price(levels.drop_first(), none_value)
    }
}

/// Where a new level at `price` is inserted to keep the book sorted, better
/// prices first: after every strictly better existing level.
pub open spec fn level_insert_pos(levels: Seq<LevelView>, book_side: Side, price: u64) -> int
    decreases levels.len(),
{
    if levels.len() == 0 {
        0
    } else if price_better(book_side, levels[0].price, price) {
        1 + level_insert_pos(levels.drop_first(), book_side, price)
    } else {
        0
    }
}

/// One side's levels after a residual order is rested at `price`: the
/// identifier is appended to the existing level's queue, or a new level is
/// created at its sorted position.
pub open spec fn rest_into_levels(
    levels: Seq<LevelView>,
    book_side: Side,
    price: u64,
    id: u64,
) -> Seq<LevelView> {
    match find_level(levels, price) {
        Some(i) => levels.update(
            i,
            LevelView { price: levels[i].price, queue: levels[i].queue.push(id) },
        ),
        None => levels.insert(
            level_insert_pos(levels, book_side, price),
            LevelView { price, queue: seq![id] },
        ),
    }
}

/// The book and the fills after an aggressor matched against the opposing
/// levels and the fills were applied, with the best-price cache recomputed.
pub open spec fn match_and_apply(
    b: BookView,
    taker_id: u64,
    side: Side,
    qty: u64,
    limit_price: Option<u64>,
) -> (BookView, Seq<FillMetadata>) {
    let fills = fills_from_levels(b.orders, b.opposing(side), qty as int, taker_id, side, limit_price);
    let (asks, bids, orders) = apply_fills(b.asks, b.bids, b.orders, fills);
    let b2 = BookView {
        asks,
        bids,
        orders,
        min_ask: best_price(asks, u64::MAX),
        max_bid: best_price(bids, 0),
        ..b
    };
    (b2, fills)
}

/// The effect of a market order (after admission): match at any price;
/// reject when nothing was matched, never rest.
pub open spec fn market_step(b: BookView, id: u64, side: Side, qty: u64) -> (
    BookView,
    OrderEventView,
) {
    let (b2, fills) = match_and_apply(b, id, side, qty, None);
    let filled = sum_fill_qty(fills) as u64;
    let ev = if fills.len() == 0 {
        OrderEventView::Rejected { id, message: LIQUIDITY_NOT_AVAILABLE@ }
    } else if filled < qty {
        OrderEventView::PartiallyFilled { id, filled_qty: filled, fills }
    } else {
        OrderEventView::Filled { id, filled_qty: filled, fills }
    };
    (b2, ev)
}

/// The effect of a limit order (after admission): match within the limit
/// price, rest the residual on the book, and improve the best-price cache
/// when the rested price beats it.
pub open spec fn limit_step(
    b: BookView,
    id: u64,
    user_id: u64,
    side: Side,
    qty: u64,
    price: u64,
) -> (BookView, OrderEventView) {
    let (b2, fills) = match_and_apply(b, id, side, qty, Some(price));
    let filled = sum_fill_qty(fills) as u64;
    let rem = qty - filled;
    let b3 = if rem > 0 {
        let orders = b2.orders.insert(id, LimitOrder { user_id, id, qty: rem as u64, price });
        match side {
            Side::Bid => BookView {
                bids: rest_into_levels(b2.bids, Side::Bid, price, id),
                orders,
                max_bid: if price > b2.max_bid {
                    price
                } else {
                    b2.max_bid
                },
                ..b2
            },
            Side::Ask => BookView {
                asks: rest_into_levels(b2.asks, Side::Ask, price, id),
                orders,
                min_ask: if price < b2.min_ask {
                    price
                } else {
                    b2.min_ask
                },
                ..b2
            },
        }
    } else {
        b2
    };
    let ev = if fills.len() == 0 {
        OrderEventView::Open { id }
    } else if rem > 0 {
        OrderEventView::PartiallyFilled { id, filled_qty: filled, fills }
    } else {
        OrderEventView::Filled { id, filled_qty: filled, fills }
    };
    (b3, ev)
}

/// The effect of an immediate-or-cancel order (after admission): match like
/// a limit order, cancel the residual instead of resting it, reject when
/// nothing was matched.
pub open spec fn ioc_step(b: BookView, id: u64, side: Side, qty: u64, price: u64) -> (
    BookView,
    OrderEventView,
) {
    let (b2, fills) = match_and_apply(b, id, side, qty, Some(price));
    let filled = sum_fill_qty(fills) as u64;
    let ev = if fills.len() == 0 {
        OrderEventView::Rejected { id, message: LIQUIDITY_NOT_AVAILABLE@ }
    } else if filled < qty {
        OrderEventView::PartiallyFilled { id, filled_qty: filled, fills }
    } else {
        OrderEventView::Filled { id, filled_qty: filled, fills }
    };
    (b2, ev)
}

/// The effect of a fill-or-kill order (after admission): when the opposing
/// liquidity within the limit price covers the whole quantity, match like a
/// limit order and report a complete fill; otherwise reject without touching
/// the book.
pub open spec fn fok_step(b: BookView, id: u64, side: Side, qty: u64, price: u64) -> (
    BookView,
    OrderEventView,
) {
    if available_liquidity(b.orders, b.opposing(side), side, price) < qty as int {
        (b, OrderEventView::Rejected { id, message: LIQUIDITY_NOT_AVAILABLE@ })
    } else {
        let (b2, fills) = match_and_apply(b, id, side, qty, Some(price));
        (b2, OrderEventView::Filled { id, filled_qty: sum_fill_qty(fills) as u64, fills })
    }
}

/// The effect of a cancel command: remove the order from its level and from
/// the directory when it rests, recompute the best-price cache, and answer
/// `Cancelled` either way.
pub open spec fn cancel_step(b: BookView, id: u64) -> (BookView, OrderEventView) {
    let (asks, bids, orders) = if b.orders.contains_key(id) {
        let price = b.orders[id].price;
        (
            remove_id_at_price(b.asks, price, id),
            remove_id_at_price(b.bids, price, id),
            b.orders.remove(id),
        )
    } else {
        (b.asks, b.bids, b.orders)
    };
    let b2 = BookView {
        asks,
        bids,
        orders,
        min_ask: best_price(asks, u64::MAX),
        max_bid: best_price(bids, 0),
        ..b
    };
    (b2, OrderEventView::Cancelled { id })
}

/// The fills a command's matching walk generates against the book. They
/// depend only on the directory and the opposing levels, not on the
/// admission state.
pub open spec fn command_fills(b: BookView, cmd: OrderType) -> Seq<FillMetadata> {
    match cmd {
        OrderType::Market { id, side, qty, .. } => fills_from_levels(
            b.orders,
            b.opposing(side),
            qty as int,
            id,
            side,
            None,
        ),
        OrderType::Limit { id, side, qty, price, .. } => fills_from_levels(
            b.orders,
            b.opposing(side),
            qty as int,
            id,
            side,
            Some(price),
        ),
        OrderType::IOC { id, side, qty, price, .. } => fills_from_levels(
            b.orders,
            b.opposing(side),
            qty as int,
            id,
            side,
            Some(price),
        ),
        OrderType::FOK { id, side, qty, price, .. } => fills_from_levels(
            b.orders,
            b.opposing(side),
            qty as int,
            id,
            side,
            Some(price),
        ),
        OrderType::Cancel { .. } => Seq::empty(),
    }
}

/// The filled quantity and fills of an event, when it reports fills.
pub open spec fn event_fills(ev: OrderEventView) -> Option<(u64, Seq<FillMetadata>)> {
    match ev {
        OrderEventView::Filled { filled_qty, fills, .. } => Some((filled_qty, fills)),
        OrderEventView::PartiallyFilled { filled_qty, fills, .. } => Some((filled_qty, fills)),
        _ => None,
    }
}

/// The statistics update after an event: when tracking is on and the event
/// reports fills, add the filled quantity to the traded volume and record
/// the trade's totals and last fill.
pub open spec fn stats_step(b: BookView, ev: OrderEventView) -> BookView {
    if !b.track_stats {
        b
    } else {
        match event_fills(ev) {
            Some((filled_qty, fills)) => if fills.len() > 0 {
                BookView {
                    traded_volume: (b.traded_volume + filled_qty) as u128,
                    last_trade: Some(
                        Trade {
                            total_qty: filled_qty,
                            notional: fills_notional(fills) as u128,
                            last_price: fills.last().price,
                            last_qty: fills.last().qty,
                        },
                    ),
                    ..b
                }
            } else {
                b
            },
            None => b,
        }
    }
}

/// The effect of a command's variant, without admission or statistics.
pub open spec fn command_step(b: BookView, cmd: OrderType) -> (BookView, OrderEventView) {
    match cmd {
        OrderType::Market { id, side, qty, .. } => market_step(b, id, side, qty),
        OrderType::Limit { id, user_id, side, qty, price } => limit_step(
            b,
            id,
            user_id,
            side,
            qty,
            price,
        ),
        OrderType::IOC { id, side, qty, price, .. } => ioc_step(b, id, side, qty, price),
        OrderType::FOK { id, side, qty, price, .. } => fok_step(b, id, side, qty, price),
        OrderType::Cancel { id } => cancel_step(b, id),
    }
}

/// The full effect of one command on the book: cancels bypass admission;
/// any other command is rejected unless its identifier exceeds the last
/// accepted one, and advances the sequence number when accepted; statistics
/// are updated from the resulting event.
pub open spec fn spec_execute(b: BookView, cmd: OrderType) -> (BookView, OrderEventView) {
    if cmd.spec_is_cancel() {
        command_step(b, cmd)
    } else if cmd.spec_id() <= b.last_seq {
        (b, OrderEventView::Rejected { id: cmd.spec_id(), message: INVALID_ORDER_NUMBER@ })
    } else {
        let b1 = BookView { last_seq: cmd.spec_id(), ..b };
        let (b2, ev) = command_step(b1, cmd);
        (stats_step(b2, ev), ev)
    }
}

/// A command's variant step never touches the statistics fields or the
/// sequence number.
pub proof fn lemma_command_step_preserves(b: BookView, cmd: OrderType)
    ensures
        ({
            let b2 = command_step(b, cmd).0;
            &&& b2.traded_volume == b.traded_volume
            &&& b2.track_stats == b.track_stats
            &&& b2.last_trade == b.last_trade
            &&& b2.last_seq == b.last_seq
        }),
{
    match cmd {
        OrderType::Market { id, side, qty, .. } => {
            assert(market_step(b, id, side, qty).0.traded_volume == b.traded_volume);
        },
        OrderType::Limit { id, user_id, side, qty, price } => {
            assert(limit_step(b, id, user_id, side, qty, price).0.traded_volume
                == b.traded_volume);
        },
        OrderType::IOC { id, side, qty, price, .. } => {
            assert(ioc_step(b, id, side, qty, price).0.traded_volume == b.traded_volume);
        },
        OrderType::FOK { id, side, qty, price, .. } => {
            assert(fok_step(b, id, side, qty, price).0.traded_volume == b.traded_volume);
        },
        OrderType::Cancel { id } => {
            assert(cancel_step(b, id).0.traded_volume == b.traded_volume);
        },
    }
}

/// Whether `id` rests in one of the level queues.
pub open spec fn in_queues(levels: Seq<LevelView>, id: u64) -> bool {
    exists|i: int, j: int|
        0 <= i < levels.len() && 0 <= j < levels[i].queue.len() && levels[i].queue[j] == id
}

/// Prices strictly sorted, the better price first.
pub open spec fn levels_sorted(levels: Seq<LevelView>, book_side: Side) -> bool {
    forall|i: int, j: int|
        0 <= i < j < levels.len() ==> price_better(
            book_side,
            #[trigger] levels[i].price,
            #[trigger] levels[j].price,
        )
}

/// Every queued identifier has a directory entry carrying the same
/// identifier, the level's price, and a positive remaining quantity.
pub open spec fn queues_in_orders(levels: Seq<LevelView>, orders: Map<u64, LimitOrder>) -> bool {
    forall|i: int, j: int|
        0 <= i < levels.len() && 0 <= j < levels[i].queue.len() ==> {
            let id = #[trigger] levels[i].queue[j];
            &&& orders.contains_key(id)
            &&& orders[id].id == id
            &&& orders[id].price == levels[i].price
            &&& orders[id].qty > 0
        }
}

/// Identifiers within each queue are strictly increasing: arrival order,
/// since accepted identifiers grow monotonically.
pub open spec fn queues_ascending(levels: Seq<LevelView>) -> bool {
    forall|i: int, j1: int, j2: int|
        0 <= i < levels.len() && 0 <= j1 < j2 < levels[i].queue.len()
            ==> #[trigger] levels[i].queue[j1] < #[trigger] levels[i].queue[j2]
}

/// Every queued identifier is at most the last accepted sequence number.
pub open spec fn queue_ids_bounded(levels: Seq<LevelView>, last_seq: u64) -> bool {
    forall|i: int, j: int|
        0 <= i < levels.len() && 0 <= j < levels[i].queue.len()
            ==> #[trigger] levels[i].queue[j] <= last_seq
}

/// Well-formedness of one side's levels against the directory:
/// strictly sorted prices (better first), every queued identifier has a
/// directory entry at the level's price with positive remaining quantity,
/// and identifiers within a queue are strictly increasing (arrival order).
pub open spec fn wf_levels(
    levels: Seq<LevelView>,
    book_side: Side,
    orders: Map<u64, LimitOrder>,
    last_seq: u64,
) -> bool {
    &&& levels_sorted(levels, book_side)
    &&& queues_in_orders(levels, orders)
    &&& queues_ascending(levels)
    &&& queue_ids_bounded(levels, last_seq)
}

/// Every identifier of one queue has a directory entry carrying the same
/// identifier.
pub open spec fn queue_in_dir(q: Seq<u64>, orders: Map<u64, LimitOrder>) -> bool {
    forall|j: int|
        0 <= j < q.len() ==> {
            let id = #[trigger] q[j];
            orders.contains_key(id) && orders[id].id == id
        }
}

/// Identifiers of one queue strictly increasing.
pub open spec fn queue_sorted(q: Seq<u64>) -> bool {
    forall|j1: int, j2: int| 0 <= j1 < j2 < q.len() ==> q[j1] < q[j2]
}

/// Validity of the fills generated against one queue: each fill consumes a
/// distinct maker drawn from the queue, at the maker's directory price,
/// within the maker's remaining quantity, and is marked total exactly when
/// it consumes the maker.
pub open spec fn queue_fills_ok(
    fills: Seq<FillMetadata>,
    orders: Map<u64, LimitOrder>,
    q: Seq<u64>,
    taker_id: u64,
    side: Side,
) -> bool {
    &&& (forall|k: int|
        0 <= k < fills.len() ==> {
            let f = #[trigger] fills[k];
            &&& orders.contains_key(f.maker_id)
            &&& orders[f.maker_id].id == f.maker_id
            &&& orders[f.maker_id].price == f.price
            &&& orders[f.maker_id].qty >= f.qty
            &&& f.qty > 0
            &&& (f.total_fill <==> f.qty == orders[f.maker_id].qty)
            &&& f.taker_id == taker_id
            &&& f.taker_side == side
            &&& q.contains(f.maker_id)
        })
    &&& (forall|k1: int, k2: int|
        0 <= k1 < k2 < fills.len() ==> #[trigger] fills[k1].maker_id
            != #[trigger] fills[k2].maker_id)
}

/// The total quantity of a fill sequence is never negative.
pub proof fn lemma_sum_fill_qty_nonneg(fills: Seq<FillMetadata>)
    ensures
        sum_fill_qty(fills) >= 0,
    decreases fills.len(),
{
    if fills.len() > 0 {
        lemma_sum_fill_qty_nonneg(fills.drop_last());
    }
}

/// The total quantity of a concatenation is the sum of the totals.
pub proof fn lemma_sum_fill_qty_add(a: Seq<FillMetadata>, b: Seq<FillMetadata>)
    ensures
        sum_fill_qty(a + b) == sum_fill_qty(a) + sum_fill_qty(b),
    decreases b.len(),
{
    if b.len() == 0 {
        assert(a + b =~= a);
    } else {
        lemma_sum_fill_qty_add(a, b.drop_last());
        assert((a + b).drop_last() =~= a + b.drop_last());
    }
}

/// Validity of one fill against the directory and the maker-side levels as
/// they stood when the fill was generated: the maker rests on the book with
/// enough quantity, at the fill's price, and the fill is marked total
/// exactly when it consumes the maker.
pub open spec fn fill_ok(
    f: FillMetadata,
    orders: Map<u64, LimitOrder>,
    maker_levels: Seq<LevelView>,
    taker_id: u64,
    side: Side,
) -> bool {
    &&& orders.contains_key(f.maker_id)
    &&& orders[f.maker_id].id == f.maker_id
    &&& orders[f.maker_id].price == f.price
    &&& orders[f.maker_id].qty >= f.qty
    &&& f.qty > 0
    &&& (f.total_fill <==> f.qty == orders[f.maker_id].qty)
    &&& f.taker_id == taker_id
    &&& f.taker_side == side
    &&& in_queues(maker_levels, f.maker_id)
}

/// Validity of a whole fill sequence: each fill is valid and no two fills
/// consume the same maker.
pub open spec fn fills_ok(
    fills: Seq<FillMetadata>,
    orders: Map<u64, LimitOrder>,
    maker_levels: Seq<LevelView>,
    taker_id: u64,
    side: Side,
) -> bool {
    &&& (forall|k: int|
        0 <= k < fills.len() ==> fill_ok(#[trigger] fills[k], orders, maker_levels, taker_id, side))
    &&& (forall|k1: int, k2: int|
        0 <= k1 < k2 < fills.len() ==> #[trigger] fills[k1].maker_id != #[trigger] fills[k2].maker_id)
}

/// Well-formedness of everything but the best-price cache: both sides are
/// well-formed against the directory, no identifier rests on both sides,
/// every directory entry rests in a queue, and the traded volume is bounded
/// by the volume the accepted commands could have traded.
pub open spec fn wf_core(b: BookView) -> bool {
    &&& wf_levels(b.asks, Side::Ask, b.orders, b.last_seq)
    &&& wf_levels(b.bids, Side::Bid, b.orders, b.last_seq)
    &&& (forall|id: u64| !(#[trigger] in_queues(b.asks, id) && in_queues(b.bids, id)))
    &&& (forall|id: u64|
        b.orders.contains_key(id) ==> in_queues(b.asks, id) || in_queues(b.bids, id))
    &&& b.traded_volume <= b.last_seq * 0xffff_ffff_ffff_ffffu64
}

/// Well-formedness of the whole book: the core invariants, and the
/// best-price cache matches the levels.
pub open spec fn wf(b: BookView) -> bool {
    &&& wf_core(b)
    &&& b.min_ask == best_price(b.asks, u64::MAX)
    &&& b.max_bid == best_price(b.bids, 0)
}

/// The book holding the maker consumed by a fill: the side opposing the
/// fill's taker side.
pub open spec fn maker_levels_of(f: FillMetadata, asks: Seq<LevelView>, bids: Seq<LevelView>) -> Seq<
    LevelView,
> {
    if f.taker_side == Side::Bid {
        asks
    } else {
        bids
    }
}

/// Applicability of one fill to the current book: the maker rests in the
/// directory and on the opposing side with enough quantity, at the fill's
/// price, and the fill is marked total exactly when it consumes the maker.
pub open spec fn fill_applicable(
    f: FillMetadata,
    orders: Map<u64, LimitOrder>,
    asks: Seq<LevelView>,
    bids: Seq<LevelView>,
) -> bool {
    &&& orders.contains_key(f.maker_id)
    &&& orders[f.maker_id].id == f.maker_id
    &&& orders[f.maker_id].price == f.price
    &&& orders[f.maker_id].qty >= f.qty
    &&& f.qty > 0
    &&& (f.total_fill <==> f.qty == orders[f.maker_id].qty)
    &&& in_queues(maker_levels_of(f, asks, bids), f.maker_id)
}

/// Applicability of a fill sequence: each fill is applicable and no two
/// fills consume the same maker.
pub open spec fn fills_applicable(
    fills: Seq<FillMetadata>,
    orders: Map<u64, LimitOrder>,
    asks: Seq<LevelView>,
    bids: Seq<LevelView>,
) -> bool {
    &&& (forall|k: int|
        0 <= k < fills.len() ==> fill_applicable(#[trigger] fills[k], orders, asks, bids))
    &&& (forall|k1: int, k2: int|
        0 <= k1 < k2 < fills.len() ==> #[trigger] fills[k1].maker_id
            != #[trigger] fills[k2].maker_id)
}

/// Properties of removing the first occurrence of an identifier from a
/// queue: the length shrinks by one exactly when the identifier occurs,
/// membership of the other identifiers is unchanged, and a strictly
/// ascending queue stays ascending and loses the identifier completely.
pub proof fn lemma_remove_first(q: Seq<u64>, id: u64)
    ensures
        !q.contains(id) ==> remove_first(q, id) == q,
        q.contains(id) ==> remove_first(q, id).len() == q.len() - 1,
        forall|x: u64| #[trigger] remove_first(q, id).contains(x) ==> q.contains(x),
        forall|x: u64| x != id && q.contains(x) ==> #[trigger] remove_first(q, id).contains(x),
        queue_sorted(q) ==> queue_sorted(remove_first(q, id)) && !remove_first(q, id).contains(id),
    decreases q.len(),
{
    if q.len() == 0 {
        assert(!q.contains(id));
        assert(remove_first(q, id) =~= q);
    } else if q[0] == id {
        assert(q.contains(id)) by {
            assert(q[0] == id);
        }
        let r = q.drop_first();
        assert(remove_first(q, id) == r);
        assert forall|x: u64| #[trigger] r.contains(x) implies q.contains(x) by {
            let j = choose|j: int| 0 <= j < r.len() && r[j] == x;
            assert(q[j + 1] == x);
        }
        assert forall|x: u64| x != id && q.contains(x) implies #[trigger] r.contains(x) by {
            let j = choose|j: int| 0 <= j < q.len() && q[j] == x;
            assert(j != 0);
            assert(r[j - 1] == x);
        }
        if queue_sorted(q) {
            assert forall|j1: int, j2: int| 0 <= j1 < j2 < r.len() implies r[j1] < r[j2] by {
                assert(q[j1 + 1] < q[j2 + 1]);
            }
            assert forall|j: int| 0 <= j < r.len() implies r[j] != id by {
                assert(q[0] < q[j + 1]);
            }
            if r.contains(id) {
                let j = choose|j: int| 0 <= j < r.len() && r[j] == id;
                assert(false);
            }
        }
    } else {
        let rest = q.drop_first();
        lemma_remove_first(rest, id);
        let rr = remove_first(rest, id);
        let r = seq![q[0]] + rr;
        assert(remove_first(q, id) == r);
        assert(queue_sorted(q) ==> queue_sorted(rest)) by {
            if queue_sorted(q) {
                assert forall|j1: int, j2: int|
                    0 <= j1 < j2 < rest.len() implies rest[j1] < rest[j2] by {
                    assert(q[j1 + 1] < q[j2 + 1]);
                }
            }
        }
        if !q.contains(id) {
            assert(!rest.contains(id)) by {
                if rest.contains(id) {
                    let j = choose|j: int| 0 <= j < rest.len() && rest[j] == id;
                    assert(q[j + 1] == id);
                }
            }
            assert(r =~= q);
        }
        if q.contains(id) {
            assert(rest.contains(id)) by {
                let j = choose|j: int| 0 <= j < q.len() && q[j] == id;
                assert(j != 0);
                assert(rest[j - 1] == id);
            }
        }
        assert forall|x: u64| #[trigger] r.contains(x) implies q.contains(x) by {
            let j = choose|j: int| 0 <= j < r.len() && r[j] == x;
            if j == 0 {
                assert(q[0] == x);
            } else {
                assert(rr[j - 1] == x);
                assert(rr.contains(x)) by {
                    assert(rr[j - 1] == x);
                }
                assert(rest.contains(x));
                let j2 = choose|j2: int| 0 <= j2 < rest.len() && rest[j2] == x;
                assert(q[j2 + 1] == x);
            }
        }
        assert forall|x: u64| x != id && q.contains(x) implies #[trigger] r.contains(x) by {
            let j = choose|j: int| 0 <= j < q.len() && q[j] == x;
            if j == 0 {
                assert(r[0] == x);
            } else {
                assert(rest[j - 1] == x);
                assert(rest.contains(x)) by {
                    assert(rest[j - 1] == x);
                }
                assert(rr.contains(x));
                let j2 = choose|j2: int| 0 <= j2 < rr.len() && rr[j2] == x;
                assert(r[j2 + 1] == x);
            }
        }
        if queue_sorted(q) {
            assert(queue_sorted(rr));
            assert(!rr.contains(id));
            assert forall|j1: int, j2: int| 0 <= j1 < j2 < r.len() implies r[j1] < r[j2] by {
                if j1 == 0 {
                    assert(r[j2] == rr[j2 - 1]);
                    assert(rr.contains(rr[j2 - 1])) by {
                        assert(rr[j2 - 1] == rr[j2 - 1]);
                    }
                    assert(rest.contains(rr[j2 - 1]));
                    let j3 = choose|j3: int| 0 <= j3 < rest.len() && rest[j3] == rr[j2 - 1];
                    assert(q[0] < q[j3 + 1]);
                } else {
                    assert(rr[j1 - 1] < rr[j2 - 1]);
                }
            }
            assert forall|j: int| 0 <= j < r.len() implies r[j] != id by {
                if j > 0 {
                    assert(rr.contains(rr[j - 1])) by {
                        assert(rr[j - 1] == rr[j - 1]);
                    }
                }
            }
            if r.contains(id) {
                let j = choose|j: int| 0 <= j < r.len() && r[j] == id;
                assert(false);
            }
        }
    }
}

/// Removing the element at the first index holding `id` is exactly
/// `remove_first`.
pub proof fn lemma_remove_first_at(q: Seq<u64>, id: u64, j: int)
    requires
        0 <= j < q.len(),
        q[j] == id,
        forall|k: int| 0 <= k < j ==> q[k] != id,
    ensures
        remove_first(q, id) == q.remove(j),
    decreases q.len(),
{
    if j == 0 {
        assert(remove_first(q, id) == q.drop_first());
        assert(q.remove(0) =~= q.drop_first());
    } else {
        let rest = q.drop_first();
        assert(rest[j - 1] == id);
        assert forall|k: int| 0 <= k < j - 1 implies rest[k] != id by {
            assert(q[k + 1] != id);
        }
        lemma_remove_first_at(rest, id, j - 1);
        assert(q[0] != id);
        assert(remove_first(q, id) == seq![q[0]] + rest.remove(j - 1));
        assert(seq![q[0]] + rest.remove(j - 1) =~= q.remove(j));
    }
}

/// Characterization of `find_level`: it returns the first index whose level
/// has the given price, or `None` when no level does.
pub proof fn lemma_find_level(levels: Seq<LevelView>, price: u64)
    ensures
        match find_level(levels, price) {
            Some(ix) => 0 <= ix < levels.len() && levels[ix].price == price && (forall|k: int|
                0 <= k < ix ==> levels[k].price != price),
            None => forall|k: int| 0 <= k < levels.len() ==> levels[k].price != price,
        },
    decreases levels.len(),
{
    if levels.len() > 0 {
        if levels[0].price != price {
            lemma_find_level(levels.drop_first(), price);
            match find_level(levels.drop_first(), price) {
                Some(ix) => {
                    assert(levels.drop_first()[ix] == levels[ix + 1]);
                    assert forall|k: int| 0 <= k < ix + 1 implies levels[k].price != price by {
                        if k > 0 {
                            assert(levels.drop_first()[k - 1].price != price);
                        }
                    }
                },
                None => {
                    assert forall|k: int| 0 <= k < levels.len() implies levels[k].price
                        != price by {
                        if k > 0 {
                            assert(levels.drop_first()[k - 1].price != price);
                        }
                    }
                },
            }
        }
    }
}

/// Applying one applicable fill to the maker's side keeps that side and the
/// directory well-formed, leaves the other side well-formed, and keeps
/// membership of every other identifier unchanged.
proof fn lemma_apply_fill_one_side(
    maker_lv: Seq<LevelView>,
    other_lv: Seq<LevelView>,
    orders: Map<u64, LimitOrder>,
    f: FillMetadata,
    maker_side: Side,
    other_side: Side,
    last_seq: u64,
)
    requires
        wf_levels(maker_lv, maker_side, orders, last_seq),
        wf_levels(other_lv, other_side, orders, last_seq),
        forall|id: u64| !(#[trigger] in_queues(maker_lv, id) && in_queues(other_lv, id)),
        forall|id: u64|
            orders.contains_key(id) ==> in_queues(maker_lv, id) || in_queues(other_lv, id),
        orders.contains_key(f.maker_id),
        orders[f.maker_id].id == f.maker_id,
        orders[f.maker_id].price == f.price,
        orders[f.maker_id].qty >= f.qty,
        f.qty > 0,
        f.total_fill <==> f.qty == orders[f.maker_id].qty,
        in_queues(maker_lv, f.maker_id),
    ensures
        ({
            let ml2 = apply_fill_to_levels(maker_lv, f);
            let o2 = apply_fill_to_orders(orders, f);
            &&& wf_levels(ml2, maker_side, o2, last_seq)
            &&& wf_levels(other_lv, other_side, o2, last_seq)
            &&& (forall|id: u64| !(#[trigger] in_queues(ml2, id) && in_queues(other_lv, id)))
            &&& (forall|id: u64|
                o2.contains_key(id) ==> in_queues(ml2, id) || in_queues(other_lv, id))
            &&& (forall|x: u64|
                x != f.maker_id ==> (#[trigger] in_queues(ml2, x) <==> in_queues(maker_lv, x)))
        }),
{
    let m = f.maker_id;
    let ml2 = apply_fill_to_levels(maker_lv, f);
    let o2 = apply_fill_to_orders(orders, f);
    // Every identifier resting on the other side differs from the maker.
    assert forall|i: int, j: int|
        0 <= i < other_lv.len() && 0 <= j < other_lv[i].queue.len() implies #[trigger] other_lv[i].queue[j]
        != m by {
        if other_lv[i].queue[j] == m {
            assert(in_queues(other_lv, m));
        }
    }
    if f.total_fill {
        let (i0, j0) = choose|i0: int, j0: int|
            0 <= i0 < maker_lv.len() && 0 <= j0 < maker_lv[i0].queue.len()
                && maker_lv[i0].queue[j0] == m;
        assert(maker_lv[i0].queue[j0] == m);
        assert(maker_lv[i0].price == f.price);
        lemma_find_level(maker_lv, f.price);
        lemma_sorted_price_unique(maker_lv, maker_side, f.price);
        let ix = find_level(maker_lv, f.price)->Some_0;
        assert(ix == i0);
        let q0 = maker_lv[i0].queue;
        let r = remove_first(q0, m);
        assert(queue_sorted(q0));
        lemma_remove_first(q0, m);
        assert(ml2 == maker_lv.update(i0, LevelView { price: maker_lv[i0].price, queue: r }));
        assert(ml2.len() == maker_lv.len());
        assert(forall|i: int| 0 <= i < ml2.len() ==> #[trigger] ml2[i].price == maker_lv[i].price);
        // Distinct levels of a sorted side hold distinct prices, so every
        // identifier on another level differs from the maker.
        assert forall|i: int, j: int|
            0 <= i < maker_lv.len() && i != i0 && 0 <= j < maker_lv[i].queue.len() implies #[trigger] maker_lv[i].queue[j]
            != m by {
            if maker_lv[i].queue[j] == m {
                assert(orders[m].price == maker_lv[i].price);
            }
        }
        assert(wf_levels(ml2, maker_side, o2, last_seq)) by {
            assert(levels_sorted(ml2, maker_side));
            assert forall|i: int, j: int|
                0 <= i < ml2.len() && 0 <= j < ml2[i].queue.len() implies {
                let id = #[trigger] ml2[i].queue[j];
                &&& o2.contains_key(id)
                &&& o2[id].id == id
                &&& o2[id].price == ml2[i].price
                &&& o2[id].qty > 0
            } by {
                let id = ml2[i].queue[j];
                if i == i0 {
                    assert(r.contains(id)) by {
                        assert(r[j] == id);
                    }
                    assert(q0.contains(id));
                    assert(id != m);
                    let j2 = choose|j2: int| 0 <= j2 < q0.len() && q0[j2] == id;
                    assert(maker_lv[i0].queue[j2] == id);
                } else {
                    assert(maker_lv[i].queue[j] == id);
                    assert(id != m);
                }
            }
            assert(queues_ascending(ml2)) by {
                assert forall|i: int, j1: int, j2: int|
                    0 <= i < ml2.len() && 0 <= j1 < j2 < ml2[i].queue.len() implies #[trigger] ml2[i].queue[j1]
                    < #[trigger] ml2[i].queue[j2] by {
                    if i == i0 {
                        assert(queue_sorted(r));
                    } else {
                        assert(maker_lv[i].queue[j1] < maker_lv[i].queue[j2]);
                    }
                }
            }
            assert(queue_ids_bounded(ml2, last_seq)) by {
                assert forall|i: int, j: int|
                    0 <= i < ml2.len() && 0 <= j < ml2[i].queue.len() implies #[trigger] ml2[i].queue[j]
                    <= last_seq by {
                    if i == i0 {
                        let id = ml2[i].queue[j];
                        assert(r.contains(id)) by {
                            assert(r[j] == id);
                        }
                        assert(q0.contains(id));
                        let j2 = choose|j2: int| 0 <= j2 < q0.len() && q0[j2] == id;
                        assert(maker_lv[i0].queue[j2] == id);
                    }
                }
            }
        }
        // Membership of every identifier but the maker is unchanged.
        assert forall|x: u64|
            x != m implies (#[trigger] in_queues(ml2, x) <==> in_queues(maker_lv, x)) by {
            if in_queues(ml2, x) {
                let (i, j) = choose|i: int, j: int|
                    0 <= i < ml2.len() && 0 <= j < ml2[i].queue.len() && ml2[i].queue[j] == x;
                if i == i0 {
                    assert(r.contains(x)) by {
                        assert(r[j] == x);
                    }
                    assert(q0.contains(x));
                    let j2 = choose|j2: int| 0 <= j2 < q0.len() && q0[j2] == x;
                    assert(maker_lv[i0].queue[j2] == x);
                    assert(in_queues(maker_lv, x));
                } else {
                    assert(maker_lv[i].queue[j] == x);
                    assert(in_queues(maker_lv, x));
                }
            }
            if in_queues(maker_lv, x) {
                let (i, j) = choose|i: int, j: int|
                    0 <= i < maker_lv.len() && 0 <= j < maker_lv[i].queue.len()
                        && maker_lv[i].queue[j] == x;
                if i == i0 {
                    assert(q0.contains(x)) by {
                        assert(q0[j] == x);
                    }
                    assert(r.contains(x));
                    let j2 = choose|j2: int| 0 <= j2 < r.len() && r[j2] == x;
                    assert(ml2[i0].queue[j2] == x);
                    assert(in_queues(ml2, x));
                } else {
                    assert(ml2[i].queue[j] == x);
                    assert(in_queues(ml2, x));
                }
            }
        }
        // The maker is gone from the maker side entirely.
        assert(!in_queues(ml2, m)) by {
            if in_queues(ml2, m) {
                let (i, j) = choose|i: int, j: int|
                    0 <= i < ml2.len() && 0 <= j < ml2[i].queue.len() && ml2[i].queue[j] == m;
                if i == i0 {
                    assert(r.contains(m)) by {
                        assert(r[j] == m);
                    }
                } else {
                    assert(maker_lv[i].queue[j] == m);
                }
            }
        }
        assert(wf_levels(other_lv, other_side, o2, last_seq)) by {
            assert forall|i: int, j: int|
                0 <= i < other_lv.len() && 0 <= j < other_lv[i].queue.len() implies {
                let id = #[trigger] other_lv[i].queue[j];
                &&& o2.contains_key(id)
                &&& o2[id].id == id
                &&& o2[id].price == other_lv[i].price
                &&& o2[id].qty > 0
            } by {
                assert(other_lv[i].queue[j] != m);
            }
        }
        assert forall|id: u64| o2.contains_key(id) implies in_queues(ml2, id) || in_queues(
            other_lv,
            id,
        ) by {
            assert(orders.contains_key(id));
            assert(id != m);
        }
    } else {
        // Partial fill: the queues are untouched, the maker's entry keeps its
        // identifier and price and stays strictly positive.
        assert(ml2 == maker_lv);
        assert(f.qty < orders[m].qty);
        assert(wf_levels(ml2, maker_side, o2, last_seq)) by {
            assert forall|i: int, j: int|
                0 <= i < ml2.len() && 0 <= j < ml2[i].queue.len() implies {
                let id = #[trigger] ml2[i].queue[j];
                &&& o2.contains_key(id)
                &&& o2[id].id == id
                &&& o2[id].price == ml2[i].price
                &&& o2[id].qty > 0
            } by {
                let id = ml2[i].queue[j];
                assert(orders.contains_key(id));
            }
        }
        assert(wf_levels(other_lv, other_side, o2, last_seq)) by {
            assert forall|i: int, j: int|
                0 <= i < other_lv.len() && 0 <= j < other_lv[i].queue.len() implies {
                let id = #[trigger] other_lv[i].queue[j];
                &&& o2.contains_key(id)
                &&& o2[id].id == id
                &&& o2[id].price == other_lv[i].price
                &&& o2[id].qty > 0
            } by {
                let id = other_lv[i].queue[j];
                assert(orders.contains_key(id));
            }
        }
    }
}

/// Applying one fill of an applicable sequence keeps the core invariants
/// and keeps the remaining fills applicable.
pub proof fn lemma_apply_fill(b: BookView, f: FillMetadata, rest: Seq<FillMetadata>)
    requires
        wf_core(b),
        fill_applicable(f, b.orders, b.asks, b.bids),
        forall|k: int|
            0 <= k < rest.len() ==> fill_applicable(#[trigger] rest[k], b.orders, b.asks, b.bids)
                && rest[k].maker_id != f.maker_id,
        forall|k1: int, k2: int|
            0 <= k1 < k2 < rest.len() ==> #[trigger] rest[k1].maker_id
                != #[trigger] rest[k2].maker_id,
    ensures
        ({
            let asks2 = if f.taker_side == Side::Bid {
                apply_fill_to_levels(b.asks, f)
            } else {
                b.asks
            };
            let bids2 = if f.taker_side == Side::Ask {
                apply_fill_to_levels(b.bids, f)
            } else {
                b.bids
            };
            let orders2 = apply_fill_to_orders(b.orders, f);
            &&& wf_core(BookView { asks: asks2, bids: bids2, orders: orders2, ..b })
            &&& fills_applicable(rest, orders2, asks2, bids2)
            &&& (forall|x: u64| #[trigger] in_queues(asks2, x) ==> in_queues(b.asks, x))
            &&& (forall|x: u64| #[trigger] in_queues(bids2, x) ==> in_queues(b.bids, x))
        }),
{
    let asks2 = if f.taker_side == Side::Bid {
        apply_fill_to_levels(b.asks, f)
    } else {
        b.asks
    };
    let bids2 = if f.taker_side == Side::Ask {
        apply_fill_to_levels(b.bids, f)
    } else {
        b.bids
    };
    let orders2 = apply_fill_to_orders(b.orders, f);
    if f.taker_side == Side::Bid {
        lemma_apply_fill_one_side(b.asks, b.bids, b.orders, f, Side::Ask, Side::Bid, b.last_seq);
    } else {
        lemma_apply_fill_one_side(b.bids, b.asks, b.orders, f, Side::Bid, Side::Ask, b.last_seq);
    }
    let maker_lv = if f.taker_side == Side::Bid {
        b.asks
    } else {
        b.bids
    };
    let ml2 = apply_fill_to_levels(maker_lv, f);
    assert forall|x: u64| #[trigger] in_queues(ml2, x) implies in_queues(maker_lv, x) by {
        if x != f.maker_id {
            assert(in_queues(ml2, x) <==> in_queues(maker_lv, x));
        }
    }
    assert forall|k: int| 0 <= k < rest.len() implies fill_applicable(
        #[trigger] rest[k],
        orders2,
        asks2,
        bids2,
    ) by {
        let g = rest[k];
        assert(fill_applicable(g, b.orders, b.asks, b.bids));
        assert(g.maker_id != f.maker_id);
        if g.taker_side == f.taker_side {
            assert(in_queues(maker_levels_of(g, asks2, bids2), g.maker_id));
        } else {
            assert(maker_levels_of(g, asks2, bids2) == maker_levels_of(g, b.asks, b.bids));
        }
    }
}

/// Skipping a prefix of levels with empty queues does not change the best
/// price.
pub proof fn lemma_best_price_skip(levels: Seq<LevelView>, k: int, none_value: u64)
    requires
        0 <= k <= levels.len(),
        forall|j: int| 0 <= j < k ==> levels[j].queue.len() == 0,
    ensures
        best_price(levels, none_value) == best_price(levels.skip(k), none_value),
    decreases k,
{
    if k > 0 {
        assert(levels.drop_first() =~= levels.skip(1));
        lemma_best_price_skip(levels.skip(1), k - 1, none_value);
        assert(levels.skip(1).skip(k - 1) =~= levels.skip(k));
    } else {
        assert(levels.skip(0) =~= levels);
    }
}

/// Characterization of the best price: either every queue is empty and the
/// default is returned, or it is the price of the first non-empty level.
pub proof fn lemma_best_price_char(levels: Seq<LevelView>, none_value: u64)
    ensures
        ({
            let bp = best_price(levels, none_value);
            (bp == none_value && (forall|k: int|
                0 <= k < levels.len() ==> levels[k].queue.len() == 0)) || (exists|j: int|
                0 <= j < levels.len() && #[trigger] levels[j].queue.len() > 0 && levels[j].price
                    == bp && (forall|k: int| 0 <= k < j ==> levels[k].queue.len() == 0))
        }),
    decreases levels.len(),
{
    if levels.len() > 0 {
        if levels[0].queue.len() > 0 {
            assert(levels[0].queue.len() > 0 && levels[0].price == best_price(levels, none_value)
                && (forall|k: int| 0 <= k < 0 ==> levels[k].queue.len() == 0));
        } else {
            lemma_best_price_char(levels.drop_first(), none_value);
            let rest = levels.drop_first();
            let bp = best_price(levels, none_value);
            assert(bp == best_price(rest, none_value));
            if bp == none_value && (forall|k: int| 0 <= k < rest.len() ==> rest[k].queue.len()
                == 0) {
                assert forall|k: int| 0 <= k < levels.len() implies levels[k].queue.len() == 0 by {
                    if k > 0 {
                        assert(rest[k - 1].queue.len() == 0);
                    }
                }
            } else {
                let j = choose|j: int|
                    0 <= j < rest.len() && #[trigger] rest[j].queue.len() > 0 && rest[j].price == bp
                        && (forall|k: int| 0 <= k < j ==> rest[k].queue.len() == 0);
                assert(levels[j + 1].queue.len() > 0 && levels[j + 1].price == bp);
                assert forall|k: int| 0 <= k < j + 1 implies levels[k].queue.len() == 0 by {
                    if k > 0 {
                        assert(rest[k - 1].queue.len() == 0);
                    }
                }
            }
        }
    }
}

/// Characterization of the sorted insertion position: every level before it
/// is strictly better than the new price, the level at it (if any) is not.
pub proof fn lemma_level_insert_pos(levels: Seq<LevelView>, book_side: Side, price: u64)
    ensures
        ({
            let pos = level_insert_pos(levels, book_side, price);
            &&& 0 <= pos <= levels.len()
            &&& (forall|k: int|
                0 <= k < pos ==> price_better(book_side, #[trigger] levels[k].price, price))
            &&& (pos < levels.len() ==> !price_better(book_side, levels[pos as int].price, price))
        }),
    decreases levels.len(),
{
    if levels.len() > 0 && price_better(book_side, levels[0].price, price) {
        lemma_level_insert_pos(levels.drop_first(), book_side, price);
        let rest = levels.drop_first();
        let pos = level_insert_pos(levels, book_side, price);
        assert(pos == 1 + level_insert_pos(rest, book_side, price));
        assert forall|k: int|
            0 <= k < pos implies price_better(book_side, #[trigger] levels[k].price, price) by {
            if k > 0 {
                assert(rest[k - 1] == levels[k]);
                assert(price_better(book_side, rest[k - 1].price, price));
            }
        }
        if pos < levels.len() {
            assert(rest[pos - 1] == levels[pos]);
        }
    }
}

/// Removing an identifier that rests nowhere on a side leaves the side
/// unchanged.
pub proof fn lemma_remove_id_absent(levels: Seq<LevelView>, price: u64, id: u64)
    requires
        !in_queues(levels, id),
    ensures
        remove_id_at_price(levels, price, id) == levels,
{
    lemma_find_level(levels, price);
    match find_level(levels, price) {
        Some(ix) => {
            let q = levels[ix].queue;
            assert(!q.contains(id)) by {
                if q.contains(id) {
                    let j = choose|j: int| 0 <= j < q.len() && q[j] == id;
                    assert(levels[ix].queue[j] == id);
                    assert(in_queues(levels, id));
                }
            }
            lemma_remove_first(q, id);
            assert(remove_first(q, id) == q);
            assert(LevelView { price: levels[ix].price, queue: remove_first(q, id) } == levels[ix]);
            assert(levels.update(ix, levels[ix]) =~= levels);
        },
        None => {},
    }
}

/// After a residual order rests, the best price is improved to the rested
/// price exactly when that price beats the previous best.
pub proof fn lemma_rest_best_price(
    levels: Seq<LevelView>,
    book_side: Side,
    price: u64,
    id: u64,
    none_value: u64,
)
    requires
        levels_sorted(levels, book_side),
        forall|p: u64| !price_better(book_side, none_value, p),
    ensures
        best_price(rest_into_levels(levels, book_side, price, id), none_value) == if price_better(
            book_side,
            price,
            best_price(levels, none_value),
        ) {
            price
        } else {
            best_price(levels, none_value)
        },
{
    let lv2 = rest_into_levels(levels, book_side, price, id);
    let mb = best_price(levels, none_value);
    lemma_best_price_char(levels, none_value);
    lemma_find_level(levels, price);
    lemma_sorted_price_unique(levels, book_side, price);
    match find_level(levels, price) {
        Some(ix) => {
            assert(lv2 == levels.update(
                ix,
                LevelView { price: levels[ix].price, queue: levels[ix].queue.push(id) },
            ));
            assert(lv2[ix].queue.len() > 0);
            if price_better(book_side, price, mb) {
                // Every level before the rested one is empty, else its price
                // would beat the rested price and hence the old best.
                assert forall|k: int| 0 <= k < ix implies lv2[k].queue.len() == 0 by {
                    if levels[k].queue.len() > 0 {
                        let j = choose|j: int|
                            0 <= j < levels.len() && #[trigger] levels[j].queue.len() > 0
                                && levels[j].price == mb && (forall|k2: int|
                                0 <= k2 < j ==> levels[k2].queue.len() == 0);
                        assert(k >= j);
                        if k > j {
                            assert(price_better(book_side, levels[j].price, levels[k].price));
                        }
                        assert(price_better(book_side, levels[k].price, levels[ix].price));
                    }
                }
                lemma_best_price_skip(lv2, ix, none_value);
                assert(lv2.skip(ix)[0] == lv2[ix]);
                assert(best_price(lv2, none_value) == price);
            } else {
                if mb == none_value && (forall|k: int|
                    0 <= k < levels.len() ==> #[trigger] levels[k].queue.len() == 0) {
                    // The whole side was empty, so the rested price cannot
                    // beat the default; it must equal it.
                    assert(!price_better(book_side, price, none_value));
                    assert(!price_better(book_side, none_value, price));
                    assert(price == none_value);
                    assert forall|k: int| 0 <= k < ix implies lv2[k].queue.len() == 0 by {}
                    lemma_best_price_skip(lv2, ix, none_value);
                    assert(lv2.skip(ix)[0] == lv2[ix]);
                    assert(best_price(lv2, none_value) == price);
                } else {
                    let j = choose|j: int|
                        0 <= j < levels.len() && #[trigger] levels[j].queue.len() > 0
                            && levels[j].price == mb && (forall|k2: int|
                            0 <= k2 < j ==> levels[k2].queue.len() == 0);
                    if price == mb {
                        assert(ix == j);
                        assert forall|k: int| 0 <= k < j implies lv2[k].queue.len() == 0 by {}
                        lemma_best_price_skip(lv2, j, none_value);
                        assert(lv2.skip(j)[0] == lv2[j]);
                        assert(lv2[j].queue.len() > 0 && lv2[j].price == mb);
                    } else {
                        assert(price_better(book_side, mb, price));
                        assert(j < ix) by {
                            if ix < j {
                                assert(price_better(book_side, levels[ix].price, levels[j].price));
                            }
                            assert(ix != j);
                        }
                        assert forall|k: int| 0 <= k < j implies lv2[k].queue.len() == 0 by {}
                        lemma_best_price_skip(lv2, j, none_value);
                        assert(lv2.skip(j)[0] == lv2[j]);
                        assert(lv2[j].queue.len() > 0 && lv2[j].price == mb);
                    }
                }
            }
        },
        None => {
            let pos = level_insert_pos(levels, book_side, price);
            lemma_level_insert_pos(levels, book_side, price);
            assert(lv2 == levels.insert(pos, LevelView { price, queue: seq![id] }));
            assert(lv2[pos].queue.len() > 0 && lv2[pos].price == price);
            assert(forall|k: int| 0 <= k < pos ==> lv2[k] == levels[k]);
            if price_better(book_side, price, mb) {
                assert forall|k: int| 0 <= k < pos implies lv2[k].queue.len() == 0 by {
                    if levels[k].queue.len() > 0 {
                        let j = choose|j: int|
                            0 <= j < levels.len() && #[trigger] levels[j].queue.len() > 0
                                && levels[j].price == mb && (forall|k2: int|
                                0 <= k2 < j ==> levels[k2].queue.len() == 0);
                        assert(k >= j);
                        if k > j {
                            assert(price_better(book_side, levels[j].price, levels[k].price));
                        }
                        assert(price_better(book_side, levels[k].price, price));
                    }
                }
                lemma_best_price_skip(lv2, pos, none_value);
                assert(lv2.skip(pos)[0] == lv2[pos]);
                assert(best_price(lv2, none_value) == price);
            } else {
                if mb == none_value && (forall|k: int|
                    0 <= k < levels.len() ==> #[trigger] levels[k].queue.len() == 0) {
                    assert(!price_better(book_side, price, none_value));
                    assert(!price_better(book_side, none_value, price));
                    assert(price == none_value);
                    assert forall|k: int| 0 <= k < pos implies lv2[k].queue.len() == 0 by {}
                    lemma_best_price_skip(lv2, pos, none_value);
                    assert(lv2.skip(pos)[0] == lv2[pos]);
                    assert(best_price(lv2, none_value) == price);
                } else {
                    let j = choose|j: int|
                        0 <= j < levels.len() && #[trigger] levels[j].queue.len() > 0
                            && levels[j].price == mb && (forall|k2: int|
                            0 <= k2 < j ==> levels[k2].queue.len() == 0);
                    assert(levels[j].price != price);
                    assert(price_better(book_side, mb, price));
                    assert(j < pos) by {
                        if pos <= j {
                            assert(!price_better(book_side, levels[pos as int].price, price));
                            if pos < j {
                                assert(price_better(
                                    book_side,
                                    levels[pos as int].price,
                                    levels[j].price,
                                ));
                            }
                        }
                    }
                    assert forall|k: int| 0 <= k < j implies lv2[k].queue.len() == 0 by {}
                    lemma_best_price_skip(lv2, j, none_value);
                    assert(lv2.skip(j)[0] == lv2[j]);
                    assert(lv2[j].queue.len() > 0 && lv2[j].price == mb);
                }
            }
        },
    }
}

/// Resting a residual order with a fresh identifier keeps the rested side
/// and the directory well-formed, leaves the other side well-formed, and
/// adds exactly the new identifier to the rested side.
pub proof fn lemma_rest_one_side(
    lv: Seq<LevelView>,
    other: Seq<LevelView>,
    orders: Map<u64, LimitOrder>,
    book_side: Side,
    other_side: Side,
    last_seq: u64,
    id: u64,
    user_id: u64,
    price: u64,
    rem: u64,
)
    requires
        wf_levels(lv, book_side, orders, last_seq),
        wf_levels(other, other_side, orders, last_seq),
        forall|x: u64| !(#[trigger] in_queues(lv, x) && in_queues(other, x)),
        forall|x: u64| orders.contains_key(x) ==> in_queues(lv, x) || in_queues(other, x),
        rem > 0,
        id <= last_seq,
        forall|x: u64| #[trigger] in_queues(lv, x) ==> x < id,
        forall|x: u64| #[trigger] in_queues(other, x) ==> x < id,
    ensures
        ({
            let lv2 = rest_into_levels(lv, book_side, price, id);
            let o2 = orders.insert(id, LimitOrder { user_id, id, qty: rem, price });
            &&& wf_levels(lv2, book_side, o2, last_seq)
            &&& wf_levels(other, other_side, o2, last_seq)
            &&& (forall|x: u64| !(#[trigger] in_queues(lv2, x) && in_queues(other, x)))
            &&& (forall|x: u64| o2.contains_key(x) ==> in_queues(lv2, x) || in_queues(other, x))
        }),
{
    let lv2 = rest_into_levels(lv, book_side, price, id);
    let o2 = orders.insert(id, LimitOrder { user_id, id, qty: rem, price });
    lemma_find_level(lv, price);
    // Every identifier already resting anywhere is strictly below the new one.
    assert forall|i: int, j: int|
        0 <= i < lv.len() && 0 <= j < lv[i].queue.len() implies #[trigger] lv[i].queue[j] < id by {
        assert(in_queues(lv, lv[i].queue[j]));
    }
    assert forall|i: int, j: int|
        0 <= i < other.len() && 0 <= j < other[i].queue.len() implies #[trigger] other[i].queue[j]
        < id by {
        assert(in_queues(other, other[i].queue[j]));
    }
    assert(wf_levels(other, other_side, o2, last_seq)) by {
        assert forall|i: int, j: int|
            0 <= i < other.len() && 0 <= j < other[i].queue.len() implies {
            let x = #[trigger] other[i].queue[j];
            &&& o2.contains_key(x)
            &&& o2[x].id == x
            &&& o2[x].price == other[i].price
            &&& o2[x].qty > 0
        } by {
            assert(other[i].queue[j] != id);
        }
    }
    match find_level(lv, price) {
        Some(ix) => {
            let q = lv[ix].queue;
            assert(lv2 == lv.update(ix, LevelView { price: lv[ix].price, queue: q.push(id) }));
            assert(wf_levels(lv2, book_side, o2, last_seq)) by {
                assert(levels_sorted(lv2, book_side));
                assert forall|i: int, j: int|
                    0 <= i < lv2.len() && 0 <= j < lv2[i].queue.len() implies {
                    let x = #[trigger] lv2[i].queue[j];
                    &&& o2.contains_key(x)
                    &&& o2[x].id == x
                    &&& o2[x].price == lv2[i].price
                    &&& o2[x].qty > 0
                    &&& x <= last_seq
                } by {
                    if i == ix && j == q.len() {
                        assert(lv2[i].queue[j] == id);
                    } else {
                        assert(lv2[i].queue[j] == lv[i].queue[j]);
                        assert(lv[i].queue[j] != id);
                    }
                }
                assert forall|i: int, j1: int, j2: int|
                    0 <= i < lv2.len() && 0 <= j1 < j2 < lv2[i].queue.len() implies #[trigger] lv2[i].queue[j1]
                    < #[trigger] lv2[i].queue[j2] by {
                    if i == ix && j2 == q.len() {
                        assert(lv2[i].queue[j1] == q[j1]);
                        assert(in_queues(lv, q[j1])) by {
                            assert(lv[ix].queue[j1] == q[j1]);
                        }
                        assert(q[j1] < id);
                    } else if i == ix {
                        assert(lv2[i].queue[j1] == q[j1]);
                        assert(lv2[i].queue[j2] == q[j2]);
                        assert(lv[ix].queue[j1] < lv[ix].queue[j2]);
                    } else {
                        assert(lv2[i].queue[j1] == lv[i].queue[j1]);
                        assert(lv2[i].queue[j2] == lv[i].queue[j2]);
                        assert(lv[i].queue[j1] < lv[i].queue[j2]);
                    }
                }
            }
            assert forall|x: u64|
                x != id implies (#[trigger] in_queues(lv2, x) <==> in_queues(lv, x)) by {
                if in_queues(lv2, x) {
                    let (i, j) = choose|i: int, j: int|
                        0 <= i < lv2.len() && 0 <= j < lv2[i].queue.len() && lv2[i].queue[j] == x;
                    if i == ix && j == q.len() {
                        assert(x == id);
                    } else {
                        assert(lv[i].queue[j] == x);
                    }
                    assert(in_queues(lv, x));
                }
                if in_queues(lv, x) {
                    let (i, j) = choose|i: int, j: int|
                        0 <= i < lv.len() && 0 <= j < lv[i].queue.len() && lv[i].queue[j] == x;
                    assert(lv2[i].queue[j] == x);
                    assert(in_queues(lv2, x));
                }
            }
            assert(in_queues(lv2, id)) by {
                assert(lv2[ix].queue[q.len() as int] == id);
            }
            assert forall|x: u64| !(#[trigger] in_queues(lv2, x) && in_queues(other, x)) by {
                if x != id && in_queues(lv2, x) {
                    assert(in_queues(lv, x));
                }
            }
            assert forall|x: u64| o2.contains_key(x) implies in_queues(lv2, x) || in_queues(
                other,
                x,
            ) by {
                if x != id {
                    assert(orders.contains_key(x));
                    if in_queues(lv, x) {
                        assert(in_queues(lv2, x));
                    }
                }
            }
        },
        None => {
            let pos = level_insert_pos(lv, book_side, price);
            lemma_level_insert_pos(lv, book_side, price);
            assert(lv2 == lv.insert(pos, LevelView { price, queue: seq![id] }));
            assert(forall|k: int| 0 <= k < pos ==> lv2[k] == lv[k]);
            assert(forall|k: int| pos < k < lv2.len() ==> lv2[k] == lv[k - 1]);
            assert(lv2[pos].price == price && lv2[pos].queue == seq![id]);
            assert(wf_levels(lv2, book_side, o2, last_seq)) by {
                assert forall|a: int, b: int|
                    0 <= a < b < lv2.len() implies price_better(
                    book_side,
                    #[trigger] lv2[a].price,
                    #[trigger] lv2[b].price,
                ) by {
                    if a < pos && b == pos {
                        assert(price_better(book_side, lv[a].price, price));
                    } else if a < pos && b > pos {
                        assert(price_better(book_side, lv[a].price, lv[b - 1].price));
                    } else if a == pos && b > pos {
                        assert(!price_better(book_side, lv[pos].price, price));
                        assert(lv[pos].price != price);
                        assert(price_better(book_side, price, lv[pos].price));
                        if b - 1 > pos {
                            assert(price_better(book_side, lv[pos].price, lv[b - 1].price));
                        }
                    } else if a > pos {
                        assert(price_better(book_side, lv[a - 1].price, lv[b - 1].price));
                    }
                }
                assert forall|i: int, j: int|
                    0 <= i < lv2.len() && 0 <= j < lv2[i].queue.len() implies {
                    let x = #[trigger] lv2[i].queue[j];
                    &&& o2.contains_key(x)
                    &&& o2[x].id == x
                    &&& o2[x].price == lv2[i].price
                    &&& o2[x].qty > 0
                    &&& x <= last_seq
                } by {
                    if i == pos {
                        assert(lv2[i].queue[j] == id);
                    } else if i < pos {
                        assert(lv2[i].queue[j] == lv[i].queue[j]);
                        assert(lv[i].queue[j] != id);
                    } else {
                        assert(lv2[i].queue[j] == lv[i - 1].queue[j]);
                        assert(lv[i - 1].queue[j] != id);
                    }
                }
                assert forall|i: int, j1: int, j2: int|
                    0 <= i < lv2.len() && 0 <= j1 < j2 < lv2[i].queue.len() implies #[trigger] lv2[i].queue[j1]
                    < #[trigger] lv2[i].queue[j2] by {
                    if i < pos {
                        assert(lv2[i].queue == lv[i].queue);
                    } else if i > pos {
                        assert(lv2[i].queue == lv[i - 1].queue);
                    }
                }
            }
            assert forall|x: u64|
                x != id implies (#[trigger] in_queues(lv2, x) <==> in_queues(lv, x)) by {
                if in_queues(lv2, x) {
                    let (i, j) = choose|i: int, j: int|
                        0 <= i < lv2.len() && 0 <= j < lv2[i].queue.len() && lv2[i].queue[j] == x;
                    if i < pos {
                        assert(lv[i].queue[j] == x);
                    } else if i == pos {
                        assert(x == id);
                    } else {
                        assert(lv[i - 1].queue[j] == x);
                    }
                    assert(in_queues(lv, x));
                }
                if in_queues(lv, x) {
                    let (i, j) = choose|i: int, j: int|
                        0 <= i < lv.len() && 0 <= j < lv[i].queue.len() && lv[i].queue[j] == x;
                    if i < pos {
                        assert(lv2[i].queue[j] == x);
                    } else {
                        assert(lv2[i + 1].queue[j] == x);
                    }
                    assert(in_queues(lv2, x));
                }
            }
            assert(in_queues(lv2, id)) by {
                assert(lv2[pos].queue[0] == id);
            }
            assert forall|x: u64| !(#[trigger] in_queues(lv2, x) && in_queues(other, x)) by {
                if x != id && in_queues(lv2, x) {
                    assert(in_queues(lv, x));
                }
            }
            assert forall|x: u64| o2.contains_key(x) implies in_queues(lv2, x) || in_queues(
                other,
                x,
            ) by {
                if x != id {
                    assert(orders.contains_key(x));
                    if in_queues(lv, x) {
                        assert(in_queues(lv2, x));
                    }
                }
            }
        },
    }
}

/// An aggressor never receives more from one queue than its remaining
/// quantity.
pub proof fn lemma_fills_from_queue_sum(
    orders: Map<u64, LimitOrder>,
    q: Seq<u64>,
    rem: int,
    taker_id: u64,
    side: Side,
)
    ensures
        0 <= sum_fill_qty(fills_from_queue(orders, q, rem, taker_id, side)),
        sum_fill_qty(fills_from_queue(orders, q, rem, taker_id, side)) <= (if rem >= 0 {
            rem
        } else {
            0
        }),
    decreases q.len(),
{
    if q.len() == 0 || rem <= 0 {
    } else if !orders.contains_key(q[0]) || orders[q[0]].qty == 0 {
        lemma_fills_from_queue_sum(orders, q.drop_first(), rem, taker_id, side);
    } else {
        let maker = orders[q[0]];
        let total = rem >= maker.qty;
        let traded: u64 = if total {
            maker.qty
        } else {
            rem as u64
        };
        let fill = FillMetadata {
            taker_id,
            maker_id: maker.id,
            qty: traded,
            price: maker.price,
            taker_side: side,
            total_fill: total,
        };
        let rest = fills_from_queue(orders, q.drop_first(), rem - traded, taker_id, side);
        lemma_fills_from_queue_sum(orders, q.drop_first(), rem - traded, taker_id, side);
        lemma_sum_fill_qty_add(seq![fill], rest);
        assert(seq![fill].drop_last() =~= Seq::<FillMetadata>::empty());
        assert(sum_fill_qty(Seq::<FillMetadata>::empty()) == 0);
        assert(seq![fill].last() == fill);
        assert(sum_fill_qty(seq![fill]) == fill.qty);
    }
}

/// An aggressor never receives more than its quantity.
pub proof fn lemma_fills_from_levels_sum(
    orders: Map<u64, LimitOrder>,
    levels: Seq<LevelView>,
    rem: int,
    taker_id: u64,
    side: Side,
    limit_price: Option<u64>,
)
    ensures
        0 <= sum_fill_qty(fills_from_levels(orders, levels, rem, taker_id, side, limit_price)),
        sum_fill_qty(fills_from_levels(orders, levels, rem, taker_id, side, limit_price)) <= (
        if rem >= 0 {
            rem
        } else {
            0
        }),
    decreases levels.len(),
{
    if levels.len() == 0 || rem <= 0 {
    } else if levels[0].queue.len() == 0 {
        lemma_fills_from_levels_sum(
            orders,
            levels.drop_first(),
            rem,
            taker_id,
            side,
            limit_price,
        );
    } else if !price_allows(side, limit_price, levels[0].price) {
    } else {
        let fs = fills_from_queue(orders, levels[0].queue, rem, taker_id, side);
        lemma_fills_from_queue_sum(orders, levels[0].queue, rem, taker_id, side);
        let rest = fills_from_levels(
            orders,
            levels.drop_first(),
            rem - sum_fill_qty(fs),
            taker_id,
            side,
            limit_price,
        );
        lemma_fills_from_levels_sum(
            orders,
            levels.drop_first(),
            rem - sum_fill_qty(fs),
            taker_id,
            side,
            limit_price,
        );
        lemma_sum_fill_qty_add(fs, rest);
    }
}

/// The remaining quantity of a queue is never negative.
pub proof fn lemma_queue_qty_nonneg(orders: Map<u64, LimitOrder>, q: Seq<u64>)
    ensures
        queue_qty(orders, q) >= 0,
    decreases q.len(),
{
    if q.len() > 0 {
        lemma_queue_qty_nonneg(orders, q.drop_first());
    }
}

/// The available liquidity is never negative.
pub proof fn lemma_available_nonneg(
    orders: Map<u64, LimitOrder>,
    levels: Seq<LevelView>,
    side: Side,
    limit_price: u64,
)
    ensures
        available_liquidity(orders, levels, side, limit_price) >= 0,
    decreases levels.len(),
{
    if levels.len() > 0 {
        lemma_available_nonneg(orders, levels.drop_first(), side, limit_price);
        lemma_queue_qty_nonneg(orders, levels[0].queue);
    }
}

/// The notional of a fill sequence is bounded by the largest price times the
/// total quantity.
pub proof fn lemma_fills_notional_bound(fills: Seq<FillMetadata>)
    ensures
        0 <= fills_notional(fills),
        fills_notional(fills) <= 0xffff_ffff_ffff_ffffu64 * sum_fill_qty(fills),
    decreases fills.len(),
{
    let m: int = 0xffff_ffff_ffff_ffffu64 as int;
    if fills.len() > 0 {
        lemma_fills_notional_bound(fills.drop_last());
        lemma_sum_fill_qty_nonneg(fills.drop_last());
        let f = fills.last();
        assert(f.price * f.qty >= 0) by (nonlinear_arith);
        assert(f.price * f.qty <= m * f.qty) by (nonlinear_arith)
            requires
                f.price <= m,
                f.qty >= 0,
        ;
        assert(m * sum_fill_qty(fills.drop_last()) + m * f.qty == m * (sum_fill_qty(
            fills.drop_last(),
        ) + f.qty)) by (nonlinear_arith);
    }
}

/// An aggressor consumes from one queue exactly the smaller of its remaining
/// quantity and the queue's liquidity.
pub proof fn lemma_queue_match_total(
    orders: Map<u64, LimitOrder>,
    q: Seq<u64>,
    rem: int,
    taker_id: u64,
    side: Side,
)
    requires
        rem >= 0,
    ensures
        sum_fill_qty(fills_from_queue(orders, q, rem, taker_id, side)) == if rem <= queue_qty(
            orders,
            q,
        ) {
            rem
        } else {
            queue_qty(orders, q)
        },
    decreases q.len(),
{
    lemma_queue_qty_nonneg(orders, q);
    if q.len() == 0 || rem <= 0 {
    } else if !orders.contains_key(q[0]) || orders[q[0]].qty == 0 {
        lemma_queue_match_total(orders, q.drop_first(), rem, taker_id, side);
    } else {
        let maker = orders[q[0]];
        let total = rem >= maker.qty;
        let traded: u64 = if total {
            maker.qty
        } else {
            rem as u64
        };
        let fill = FillMetadata {
            taker_id,
            maker_id: maker.id,
            qty: traded,
            price: maker.price,
            taker_side: side,
            total_fill: total,
        };
        let rest = fills_from_queue(orders, q.drop_first(), rem - traded, taker_id, side);
        lemma_queue_match_total(orders, q.drop_first(), rem - traded, taker_id, side);
        lemma_queue_qty_nonneg(orders, q.drop_first());
        lemma_sum_fill_qty_add(seq![fill], rest);
        assert(seq![fill].drop_last() =~= Seq::<FillMetadata>::empty());
        assert(sum_fill_qty(Seq::<FillMetadata>::empty()) == 0);
        assert(seq![fill].last() == fill);
        assert(sum_fill_qty(seq![fill]) == fill.qty);
    }
}

/// An aggressor consumes exactly the smaller of its quantity and the
/// opposing liquidity within its limit price.
pub proof fn lemma_levels_match_total(
    orders: Map<u64, LimitOrder>,
    levels: Seq<LevelView>,
    rem: int,
    taker_id: u64,
    side: Side,
    limit_price: u64,
)
    requires
        rem >= 0,
    ensures
        sum_fill_qty(fills_from_levels(orders, levels, rem, taker_id, side, Some(limit_price)))
            == if rem <= available_liquidity(orders, levels, side, limit_price) {
            rem
        } else {
            available_liquidity(orders, levels, side, limit_price)
        },
    decreases levels.len(),
{
    lemma_available_nonneg(orders, levels, side, limit_price);
    if levels.len() == 0 || rem <= 0 {
    } else if levels[0].queue.len() == 0 {
        lemma_levels_match_total(orders, levels.drop_first(), rem, taker_id, side, limit_price);
        assert(queue_qty(orders, levels[0].queue) == 0);
    } else if !price_allows(side, Some(limit_price), levels[0].price) {
    } else {
        let fs = fills_from_queue(orders, levels[0].queue, rem, taker_id, side);
        lemma_queue_match_total(orders, levels[0].queue, rem, taker_id, side);
        lemma_queue_qty_nonneg(orders, levels[0].queue);
        let rest = fills_from_levels(
            orders,
            levels.drop_first(),
            rem - sum_fill_qty(fs),
            taker_id,
            side,
            Some(limit_price),
        );
        lemma_levels_match_total(
            orders,
            levels.drop_first(),
            rem - sum_fill_qty(fs),
            taker_id,
            side,
            limit_price,
        );
        lemma_available_nonneg(orders, levels.drop_first(), side, limit_price);
        lemma_sum_fill_qty_add(fs, rest);
    }
}

/// Applying fills never creates a directory entry: an identifier absent from
/// the directory stays absent.
pub proof fn lemma_apply_fills_no_new_keys(
    asks: Seq<LevelView>,
    bids: Seq<LevelView>,
    orders: Map<u64, LimitOrder>,
    fills: Seq<FillMetadata>,
    x: u64,
)
    requires
        !orders.contains_key(x),
    ensures
        !apply_fills(asks, bids, orders, fills).2.contains_key(x),
    decreases fills.len(),
{
    if fills.len() > 0 {
        lemma_apply_fills_no_new_keys(asks, bids, orders, fills.drop_last(), x);
    }
}

/// Fills are applied first to last: applying a sequence equals applying its
/// head and then the rest.
pub proof fn lemma_apply_fills_cons(
    asks: Seq<LevelView>,
    bids: Seq<LevelView>,
    orders: Map<u64, LimitOrder>,
    f: FillMetadata,
    rest: Seq<FillMetadata>,
)
    ensures
        ({
            let asks2 = if f.taker_side == Side::Bid {
                apply_fill_to_levels(asks, f)
            } else {
                asks
            };
            let bids2 = if f.taker_side == Side::Ask {
                apply_fill_to_levels(bids, f)
            } else {
                bids
            };
            let orders2 = apply_fill_to_orders(orders, f);
            apply_fills(asks, bids, orders, seq![f] + rest) == apply_fills(
                asks2,
                bids2,
                orders2,
                rest,
            )
        }),
    decreases rest.len(),
{
    let asks2 = if f.taker_side == Side::Bid {
        apply_fill_to_levels(asks, f)
    } else {
        asks
    };
    let bids2 = if f.taker_side == Side::Ask {
        apply_fill_to_levels(bids, f)
    } else {
        bids
    };
    let orders2 = apply_fill_to_orders(orders, f);
    if rest.len() == 0 {
        assert(seq![f] + rest =~= seq![f]);
        assert(seq![f].drop_last() =~= Seq::<FillMetadata>::empty());
        assert(seq![f].last() == f);
        assert(apply_fills(asks, bids, orders, Seq::<FillMetadata>::empty()) == (
            asks,
            bids,
            orders,
        ));
        assert(apply_fills(asks2, bids2, orders2, rest) == (asks2, bids2, orders2));
        assert(apply_fills(asks, bids, orders, seq![f]) == (asks2, bids2, orders2));
    } else {
        lemma_apply_fills_cons(asks, bids, orders, f, rest.drop_last());
        assert((seq![f] + rest).drop_last() =~= seq![f] + rest.drop_last());
        assert((seq![f] + rest).last() == rest.last());
        assert(apply_fills(asks, bids, orders, seq![f] + rest.drop_last()) == apply_fills(
            asks2,
            bids2,
            orders2,
            rest.drop_last(),
        ));
    }
}

/// Applying an applicable fill sequence keeps the core invariants.
pub proof fn lemma_apply_fills_wf(b: BookView, fills: Seq<FillMetadata>)
    requires
        wf_core(b),
        fills_applicable(fills, b.orders, b.asks, b.bids),
    ensures
        ({
            let (a2, b2, o2) = apply_fills(b.asks, b.bids, b.orders, fills);
            wf_core(BookView { asks: a2, bids: b2, orders: o2, ..b })
        }),
    decreases fills.len(),
{
    if fills.len() == 0 {
    } else {
        let f = fills[0];
        let rest = fills.drop_first();
        assert(fills =~= seq![f] + rest);
        assert forall|k: int|
            0 <= k < rest.len() implies fill_applicable(
            #[trigger] rest[k],
            b.orders,
            b.asks,
            b.bids,
        ) && rest[k].maker_id != f.maker_id by {
            assert(rest[k] == fills[k + 1]);
        }
        assert forall|k1: int, k2: int|
            0 <= k1 < k2 < rest.len() implies #[trigger] rest[k1].maker_id
            != #[trigger] rest[k2].maker_id by {
            assert(rest[k1] == fills[k1 + 1] && rest[k2] == fills[k2 + 1]);
        }
        lemma_apply_fill(b, f, rest);
        let asks2 = if f.taker_side == Side::Bid {
            apply_fill_to_levels(b.asks, f)
        } else {
            b.asks
        };
        let bids2 = if f.taker_side == Side::Ask {
            apply_fill_to_levels(b.bids, f)
        } else {
            b.bids
        };
        let orders2 = apply_fill_to_orders(b.orders, f);
        let b1 = BookView { asks: asks2, bids: bids2, orders: orders2, ..b };
        lemma_apply_fills_wf(b1, rest);
        lemma_apply_fills_cons(b.asks, b.bids, b.orders, f, rest);
    }
}

/// A maker consumed by a total fill has no directory entry afterwards.
pub proof fn lemma_apply_fills_total_removes(
    asks: Seq<LevelView>,
    bids: Seq<LevelView>,
    orders: Map<u64, LimitOrder>,
    fills: Seq<FillMetadata>,
    k: int,
)
    requires
        0 <= k < fills.len(),
        fills[k].total_fill,
        forall|k2: int|
            0 <= k2 < fills.len() && k2 != k ==> #[trigger] fills[k2].maker_id
                != fills[k].maker_id,
    ensures
        !apply_fills(asks, bids, orders, fills).2.contains_key(fills[k].maker_id),
    decreases fills.len(),
{
    let x = fills[k].maker_id;
    let (a1, b1, o1) = apply_fills(asks, bids, orders, fills.drop_last());
    if k == fills.len() - 1 {
        assert(fills.last() == fills[k]);
        assert(apply_fill_to_orders(o1, fills[k]) == o1.remove(x));
    } else {
        assert(fills.drop_last()[k] == fills[k]);
        assert forall|k2: int|
            0 <= k2 < fills.drop_last().len() && k2 != k implies #[trigger] fills.drop_last()[k2].maker_id
            != fills.drop_last()[k].maker_id by {
            assert(fills.drop_last()[k2] == fills[k2]);
        }
        lemma_apply_fills_total_removes(asks, bids, orders, fills.drop_last(), k);
        assert(fills.last().maker_id != x) by {
            assert(fills[fills.len() - 1].maker_id != fills[k].maker_id);
        }
    }
}

/// Applying fills keeps each side's shape: the same levels at the same
/// prices, each queue a sub-collection of what it was.
pub proof fn lemma_apply_fills_shape(
    asks: Seq<LevelView>,
    bids: Seq<LevelView>,
    orders: Map<u64, LimitOrder>,
    fills: Seq<FillMetadata>,
)
    ensures
        ({
            let (a2, b2, o2) = apply_fills(asks, bids, orders, fills);
            &&& a2.len() == asks.len()
            &&& b2.len() == bids.len()
            &&& (forall|i: int| 0 <= i < asks.len() ==> #[trigger] a2[i].price == asks[i].price)
            &&& (forall|i: int| 0 <= i < bids.len() ==> #[trigger] b2[i].price == bids[i].price)
            &&& (forall|i: int, x: u64|
                0 <= i < asks.len() && #[trigger] a2[i].queue.contains(x)
                    ==> asks[i].queue.contains(x))
            &&& (forall|i: int, x: u64|
                0 <= i < bids.len() && #[trigger] b2[i].queue.contains(x)
                    ==> bids[i].queue.contains(x))
        }),
    decreases fills.len(),
{
    if fills.len() > 0 {
        lemma_apply_fills_shape(asks, bids, orders, fills.drop_last());
        let (a1, b1, o1) = apply_fills(asks, bids, orders, fills.drop_last());
        let f = fills.last();
        lemma_apply_fill_to_levels_shape(a1, f);
        lemma_apply_fill_to_levels_shape(b1, f);
    }
}

/// Applying one fill to a side keeps the same levels at the same prices and
/// only removes queue entries.
proof fn lemma_apply_fill_to_levels_shape(levels: Seq<LevelView>, f: FillMetadata)
    ensures
        ({
            let lv2 = apply_fill_to_levels(levels, f);
            &&& lv2.len() == levels.len()
            &&& (forall|i: int|
                0 <= i < levels.len() ==> #[trigger] lv2[i].price == levels[i].price)
            &&& (forall|i: int, x: u64|
                0 <= i < levels.len() && #[trigger] lv2[i].queue.contains(x)
                    ==> levels[i].queue.contains(x))
        }),
{
    let lv2 = apply_fill_to_levels(levels, f);
    if f.total_fill {
        lemma_find_level(levels, f.price);
        match find_level(levels, f.price) {
            Some(ix) => {
                lemma_remove_first(levels[ix].queue, f.maker_id);
                assert forall|i: int, x: u64|
                    0 <= i < levels.len() && #[trigger] lv2[i].queue.contains(x)
                        implies levels[i].queue.contains(x) by {
                    if i == ix {
                        assert(remove_first(levels[ix].queue, f.maker_id).contains(x));
                    }
                }
            },
            None => {},
        }
    }
}

/// When one side's queues only shrink, its best price cannot improve.
pub proof fn lemma_best_price_shrink(
    lv: Seq<LevelView>,
    lv2: Seq<LevelView>,
    book_side: Side,
    none_value: u64,
)
    requires
        levels_sorted(lv, book_side),
        lv2.len() == lv.len(),
        forall|i: int| 0 <= i < lv.len() ==> #[trigger] lv2[i].price == lv[i].price,
        forall|i: int| 0 <= i < lv.len() && #[trigger] lv2[i].queue.len() > 0 ==> lv[i].queue.len()
            > 0,
        forall|p: u64| !price_better(book_side, none_value, p),
    ensures
        !price_better(book_side, best_price(lv2, none_value), best_price(lv, none_value)),
{
    lemma_best_price_char(lv, none_value);
    lemma_best_price_char(lv2, none_value);
    let bp = best_price(lv, none_value);
    let bp2 = best_price(lv2, none_value);
    if bp2 == none_value {
    } else {
        let j2 = choose|j2: int|
            0 <= j2 < lv2.len() && #[trigger] lv2[j2].queue.len() > 0 && lv2[j2].price == bp2 && (
            forall|k: int| 0 <= k < j2 ==> lv2[k].queue.len() == 0);
        assert(lv[j2].queue.len() > 0);
        if bp == none_value && (forall|k: int|
            0 <= k < lv.len() ==> #[trigger] lv[k].queue.len() == 0) {
            assert(false);
        } else {
            let j = choose|j: int|
                0 <= j < lv.len() && #[trigger] lv[j].queue.len() > 0 && lv[j].price == bp && (
                forall|k: int| 0 <= k < j ==> lv[k].queue.len() == 0);
            assert(j <= j2);
            if j < j2 {
                assert(price_better(book_side, lv[j].price, lv[j2].price));
            }
        }
    }
}

/// The fills generated against one queue are valid: distinct makers drawn
/// from the queue, within their remaining quantities.
pub proof fn lemma_queue_fills_ok_spec(
    orders: Map<u64, LimitOrder>,
    q: Seq<u64>,
    rem: int,
    taker_id: u64,
    side: Side,
)
    requires
        queue_in_dir(q, orders),
        queue_sorted(q),
    ensures
        queue_fills_ok(fills_from_queue(orders, q, rem, taker_id, side), orders, q, taker_id, side),
    decreases q.len(),
{
    let fs = fills_from_queue(orders, q, rem, taker_id, side);
    if q.len() == 0 || rem <= 0 {
    } else {
        let rest_q = q.drop_first();
        assert(queue_in_dir(rest_q, orders)) by {
            assert forall|j: int|
                0 <= j < rest_q.len() implies {
                let id = #[trigger] rest_q[j];
                orders.contains_key(id) && orders[id].id == id
            } by {
                assert(q[j + 1] == rest_q[j]);
            }
        }
        assert(queue_sorted(rest_q)) by {
            assert forall|j1: int, j2: int|
                0 <= j1 < j2 < rest_q.len() implies rest_q[j1] < rest_q[j2] by {
                assert(q[j1 + 1] < q[j2 + 1]);
            }
        }
        if !orders.contains_key(q[0]) || orders[q[0]].qty == 0 {
            lemma_queue_fills_ok_spec(orders, rest_q, rem, taker_id, side);
            let rfs = fills_from_queue(orders, rest_q, rem, taker_id, side);
            assert forall|k: int|
                0 <= k < fs.len() implies q.contains((#[trigger] fs[k]).maker_id) by {
                assert(rest_q.contains(rfs[k].maker_id));
                let j = choose|j: int| 0 <= j < rest_q.len() && rest_q[j] == rfs[k].maker_id;
                assert(q[j + 1] == rfs[k].maker_id);
            }
        } else {
            let maker = orders[q[0]];
            let total = rem >= maker.qty;
            let traded: u64 = if total {
                maker.qty
            } else {
                rem as u64
            };
            let fill = FillMetadata {
                taker_id,
                maker_id: maker.id,
                qty: traded,
                price: maker.price,
                taker_side: side,
                total_fill: total,
            };
            let rfs = fills_from_queue(orders, rest_q, rem - traded, taker_id, side);
            lemma_queue_fills_ok_spec(orders, rest_q, rem - traded, taker_id, side);
            assert(fs == seq![fill] + rfs);
            assert(fill.maker_id == q[0]);
            assert(q.contains(fill.maker_id)) by {
                assert(q[0] == fill.maker_id);
            }
            assert forall|k: int|
                1 <= k < fs.len() implies {
                let f = #[trigger] fs[k];
                &&& orders.contains_key(f.maker_id)
                &&& orders[f.maker_id].id == f.maker_id
                &&& orders[f.maker_id].price == f.price
                &&& orders[f.maker_id].qty >= f.qty
                &&& f.qty > 0
                &&& (f.total_fill <==> f.qty == orders[f.maker_id].qty)
                &&& f.taker_id == taker_id
                &&& f.taker_side == side
                &&& q.contains(f.maker_id)
                &&& f.maker_id != fill.maker_id
            } by {
                assert(fs[k] == rfs[k - 1]);
                assert(rest_q.contains(rfs[k - 1].maker_id));
                let j = choose|j: int| 0 <= j < rest_q.len() && rest_q[j] == rfs[k - 1].maker_id;
                assert(q[j + 1] == rfs[k - 1].maker_id);
                assert(q[0] < q[j + 1]);
            }
        }
    }
}

/// The fills of a matching walk are valid against the directory and the
/// walked levels, and stay within the limit price.
pub proof fn lemma_match_fills_ok(
    orders: Map<u64, LimitOrder>,
    levels: Seq<LevelView>,
    rem: int,
    taker_id: u64,
    side: Side,
    limit_price: Option<u64>,
    book_side: Side,
)
    requires
        levels_sorted(levels, book_side),
        queues_in_orders(levels, orders),
        queues_ascending(levels),
    ensures
        ({
            let fs = fills_from_levels(orders, levels, rem, taker_id, side, limit_price);
            &&& fills_ok(fs, orders, levels, taker_id, side)
            &&& (forall|k: int|
                0 <= k < fs.len() ==> price_allows(
                    side,
                    limit_price,
                    (#[trigger] fs[k]).price,
                ) && fs[k].price == orders[fs[k].maker_id].price)
        }),
    decreases levels.len(),
{
    let fs = fills_from_levels(orders, levels, rem, taker_id, side, limit_price);
    if levels.len() == 0 || rem <= 0 {
    } else {
        let rest_lv = levels.drop_first();
        assert(levels_sorted(rest_lv, book_side)) by {
            assert forall|i: int, j: int|
                0 <= i < j < rest_lv.len() implies price_better(
                book_side,
                #[trigger] rest_lv[i].price,
                #[trigger] rest_lv[j].price,
            ) by {
                assert(price_better(book_side, levels[i + 1].price, levels[j + 1].price));
            }
        }
        assert(queues_in_orders(rest_lv, orders)) by {
            assert forall|i: int, j: int|
                0 <= i < rest_lv.len() && 0 <= j < rest_lv[i].queue.len() implies {
                let id = #[trigger] rest_lv[i].queue[j];
                &&& orders.contains_key(id)
                &&& orders[id].id == id
                &&& orders[id].price == rest_lv[i].price
                &&& orders[id].qty > 0
            } by {
                assert(levels[i + 1].queue[j] == rest_lv[i].queue[j]);
            }
        }
        assert(queues_ascending(rest_lv)) by {
            assert forall|i: int, j1: int, j2: int|
                0 <= i < rest_lv.len() && 0 <= j1 < j2 < rest_lv[i].queue.len()
                    implies #[trigger] rest_lv[i].queue[j1] < #[trigger] rest_lv[i].queue[j2] by {
                assert(levels[i + 1].queue[j1] < levels[i + 1].queue[j2]);
            }
        }
        if levels[0].queue.len() == 0 {
            lemma_match_fills_ok(orders, rest_lv, rem, taker_id, side, limit_price, book_side);
            let rfs = fills_from_levels(orders, rest_lv, rem, taker_id, side, limit_price);
            assert forall|k: int|
                0 <= k < fs.len() implies in_queues(levels, (#[trigger] fs[k]).maker_id) by {
                assert(in_queues(rest_lv, rfs[k].maker_id));
                let (i, j) = choose|i: int, j: int|
                    0 <= i < rest_lv.len() && 0 <= j < rest_lv[i].queue.len()
                        && rest_lv[i].queue[j] == rfs[k].maker_id;
                assert(levels[i + 1].queue[j] == rfs[k].maker_id);
            }
        } else if !price_allows(side, limit_price, levels[0].price) {
        } else {
            let q0 = levels[0].queue;
            assert(queue_in_dir(q0, orders)) by {
                assert forall|j: int|
                    0 <= j < q0.len() implies {
                    let id = #[trigger] q0[j];
                    orders.contains_key(id) && orders[id].id == id
                } by {
                    assert(levels[0].queue[j] == q0[j]);
                }
            }
            assert(queue_sorted(q0));
            let qf = fills_from_queue(orders, q0, rem, taker_id, side);
            lemma_queue_fills_ok_spec(orders, q0, rem, taker_id, side);
            let rfs = fills_from_levels(
                orders,
                rest_lv,
                rem - sum_fill_qty(qf),
                taker_id,
                side,
                limit_price,
            );
            lemma_match_fills_ok(
                orders,
                rest_lv,
                rem - sum_fill_qty(qf),
                taker_id,
                side,
                limit_price,
                book_side,
            );
            assert(fs == qf + rfs);
            // Fills from this level are valid against the whole side and
            // carry this level's price, which the limit price allows.
            assert forall|k: int|
                0 <= k < qf.len() implies fill_ok(#[trigger] fs[k], orders, levels, taker_id, side)
                && price_allows(side, limit_price, fs[k].price) && fs[k].price == levels[0].price
                && fs[k].price == orders[fs[k].maker_id].price by {
                assert(fs[k] == qf[k]);
                assert(q0.contains(qf[k].maker_id));
                let j = choose|j: int| 0 <= j < q0.len() && q0[j] == qf[k].maker_id;
                assert(levels[0].queue[j] == qf[k].maker_id);
                assert(in_queues(levels, qf[k].maker_id));
                assert(orders[qf[k].maker_id].price == levels[0].price);
            }
            // Fills from deeper levels are valid and carry deeper prices.
            assert forall|k: int|
                qf.len() <= k < fs.len() implies fill_ok(
                #[trigger] fs[k],
                orders,
                levels,
                taker_id,
                side,
            ) && price_allows(side, limit_price, fs[k].price) && fs[k].price
                == orders[fs[k].maker_id].price && price_better(
                book_side,
                levels[0].price,
                fs[k].price,
            ) by {
                assert(fs[k] == rfs[k - qf.len()]);
                assert(fill_ok(rfs[k - qf.len()], orders, rest_lv, taker_id, side));
                assert(in_queues(rest_lv, rfs[k - qf.len()].maker_id));
                let (i, j) = choose|i: int, j: int|
                    0 <= i < rest_lv.len() && 0 <= j < rest_lv[i].queue.len()
                        && rest_lv[i].queue[j] == rfs[k - qf.len()].maker_id;
                assert(levels[i + 1].queue[j] == rfs[k - qf.len()].maker_id);
                assert(in_queues(levels, rfs[k - qf.len()].maker_id));
                assert(orders[rfs[k - qf.len()].maker_id].price == rest_lv[i].price);
                assert(price_better(book_side, levels[0].price, levels[i + 1].price));
            }
            // Makers at this level differ from makers at deeper levels
            // because a sorted side holds distinct prices.
            assert forall|k1: int, k2: int|
                0 <= k1 < k2 < fs.len() implies (#[trigger] fs[k1]).maker_id
                != (#[trigger] fs[k2]).maker_id by {
                if k1 < qf.len() && k2 >= qf.len() {
                    assert(fs[k1].price == levels[0].price);
                    assert(price_better(book_side, levels[0].price, fs[k2].price));
                    assert(fs[k1].price == orders[fs[k1].maker_id].price);
                    assert(fs[k2].price == orders[fs[k2].maker_id].price);
                } else if k2 < qf.len() {
                    assert(qf[k1].maker_id != qf[k2].maker_id);
                } else {
                    assert(rfs[k1 - qf.len()].maker_id != rfs[k2 - qf.len()].maker_id);
                }
            }
        }
    }
}

/// When quantity is left over after matching one queue, every resting order
/// of that queue was consumed by a total fill.
pub proof fn lemma_queue_fills_complete(
    orders: Map<u64, LimitOrder>,
    q: Seq<u64>,
    rem: int,
    taker_id: u64,
    side: Side,
)
    requires
        queue_in_dir(q, orders),
        rem - sum_fill_qty(fills_from_queue(orders, q, rem, taker_id, side)) > 0,
    ensures
        ({
            let fs = fills_from_queue(orders, q, rem, taker_id, side);
            forall|j: int|
                0 <= j < q.len() && orders[#[trigger] q[j]].qty > 0 ==> exists|k: int|
                    0 <= k < fs.len() && (#[trigger] fs[k]).maker_id == q[j] && fs[k].total_fill
        }),
    decreases q.len(),
{
    let fs = fills_from_queue(orders, q, rem, taker_id, side);
    if q.len() == 0 || rem <= 0 {
    } else {
        let rest_q = q.drop_first();
        assert(queue_in_dir(rest_q, orders)) by {
            assert forall|j: int|
                0 <= j < rest_q.len() implies {
                let id = #[trigger] rest_q[j];
                orders.contains_key(id) && orders[id].id == id
            } by {
                assert(q[j + 1] == rest_q[j]);
            }
        }
        if !orders.contains_key(q[0]) || orders[q[0]].qty == 0 {
            lemma_queue_fills_complete(orders, rest_q, rem, taker_id, side);
            let rfs = fills_from_queue(orders, rest_q, rem, taker_id, side);
            assert forall|j: int|
                0 <= j < q.len() && orders[#[trigger] q[j]].qty > 0 implies exists|k: int|
                    0 <= k < fs.len() && (#[trigger] fs[k]).maker_id == q[j] && fs[k].total_fill by {
                assert(j != 0);
                assert(rest_q[j - 1] == q[j]);
                let k = choose|k: int|
                    0 <= k < rfs.len() && (#[trigger] rfs[k]).maker_id == rest_q[j - 1]
                        && rfs[k].total_fill;
                assert(fs[k].maker_id == q[j] && fs[k].total_fill);
            }
        } else {
            let maker = orders[q[0]];
            let total = rem >= maker.qty;
            let traded: u64 = if total {
                maker.qty
            } else {
                rem as u64
            };
            let fill = FillMetadata {
                taker_id,
                maker_id: maker.id,
                qty: traded,
                price: maker.price,
                taker_side: side,
                total_fill: total,
            };
            let rfs = fills_from_queue(orders, rest_q, rem - traded, taker_id, side);
            assert(fs == seq![fill] + rfs);
            lemma_sum_fill_qty_add(seq![fill], rfs);
            assert(seq![fill].drop_last() =~= Seq::<FillMetadata>::empty());
            assert(sum_fill_qty(Seq::<FillMetadata>::empty()) == 0);
            assert(sum_fill_qty(seq![fill]) == fill.qty);
            if !total {
                // The aggressor was consumed here, so nothing is left over.
                assert(fills_from_queue(orders, rest_q, 0, taker_id, side)
                    =~= Seq::<FillMetadata>::empty());
                assert(false);
            }
            lemma_queue_fills_complete(orders, rest_q, rem - traded, taker_id, side);
            assert forall|j: int|
                0 <= j < q.len() && orders[#[trigger] q[j]].qty > 0 implies exists|k: int|
                    0 <= k < fs.len() && (#[trigger] fs[k]).maker_id == q[j] && fs[k].total_fill by {
                if j == 0 {
                    assert(fs[0].maker_id == q[0] && fs[0].total_fill);
                } else {
                    assert(rest_q[j - 1] == q[j]);
                    let k = choose|k: int|
                        0 <= k < rfs.len() && (#[trigger] rfs[k]).maker_id == rest_q[j - 1]
                            && rfs[k].total_fill;
                    assert(fs[k + 1].maker_id == q[j] && fs[k + 1].total_fill);
                }
            }
        }
    }
}

/// When quantity is left over after the matching walk, every resting order
/// at a level within the limit price was consumed by a total fill.
pub proof fn lemma_levels_fills_complete(
    orders: Map<u64, LimitOrder>,
    levels: Seq<LevelView>,
    rem: int,
    taker_id: u64,
    side: Side,
    limit_price: Option<u64>,
    book_side: Side,
)
    requires
        book_side == side.other(),
        levels_sorted(levels, book_side),
        queues_in_orders(levels, orders),
        rem - sum_fill_qty(fills_from_levels(orders, levels, rem, taker_id, side, limit_price))
            > 0,
    ensures
        ({
            let fs = fills_from_levels(orders, levels, rem, taker_id, side, limit_price);
            forall|i: int, j: int|
                #![trigger levels[i].queue[j]]
                0 <= i < levels.len() && price_allows(side, limit_price, levels[i].price) && 0 <= j
                    < levels[i].queue.len() ==> exists|k: int|
                    0 <= k < fs.len() && (#[trigger] fs[k]).maker_id == levels[i].queue[j]
                        && fs[k].total_fill
        }),
    decreases levels.len(),
{
    let fs = fills_from_levels(orders, levels, rem, taker_id, side, limit_price);
    if levels.len() == 0 || rem <= 0 {
    } else {
        let rest_lv = levels.drop_first();
        assert(levels_sorted(rest_lv, book_side)) by {
            assert forall|i: int, j: int|
                0 <= i < j < rest_lv.len() implies price_better(
                book_side,
                #[trigger] rest_lv[i].price,
                #[trigger] rest_lv[j].price,
            ) by {
                assert(price_better(book_side, levels[i + 1].price, levels[j + 1].price));
            }
        }
        assert(queues_in_orders(rest_lv, orders)) by {
            assert forall|i: int, j: int|
                0 <= i < rest_lv.len() && 0 <= j < rest_lv[i].queue.len() implies {
                let id = #[trigger] rest_lv[i].queue[j];
                &&& orders.contains_key(id)
                &&& orders[id].id == id
                &&& orders[id].price == rest_lv[i].price
                &&& orders[id].qty > 0
            } by {
                assert(levels[i + 1].queue[j] == rest_lv[i].queue[j]);
            }
        }
        if levels[0].queue.len() == 0 {
            lemma_levels_fills_complete(
                orders,
                rest_lv,
                rem,
                taker_id,
                side,
                limit_price,
                book_side,
            );
            let rfs = fills_from_levels(orders, rest_lv, rem, taker_id, side, limit_price);
            assert forall|i: int, j: int|
                #![trigger levels[i].queue[j]]
                0 <= i < levels.len() && price_allows(side, limit_price, levels[i].price) && 0 <= j
                    < levels[i].queue.len() implies exists|k: int|
                    0 <= k < fs.len() && (#[trigger] fs[k]).maker_id == levels[i].queue[j]
                        && fs[k].total_fill by {
                assert(i != 0);
                assert(rest_lv[i - 1] == levels[i]);
                let k = choose|k: int|
                    0 <= k < rfs.len() && (#[trigger] rfs[k]).maker_id == rest_lv[i - 1].queue[j]
                        && rfs[k].total_fill;
                assert(fs[k].maker_id == levels[i].queue[j] && fs[k].total_fill);
            }
        } else if !price_allows(side, limit_price, levels[0].price) {
            // Prices only get worse down the walk, so no level is within the
            // limit price and nothing needed consuming.
            assert forall|i: int|
                0 <= i < levels.len() implies !price_allows(
                side,
                limit_price,
                (#[trigger] levels[i]).price,
            ) by {
                if i > 0 {
                    assert(price_better(book_side, levels[0].price, levels[i].price));
                }
            }
        } else {
            let q0 = levels[0].queue;
            let qf = fills_from_queue(orders, q0, rem, taker_id, side);
            let rfs = fills_from_levels(
                orders,
                rest_lv,
                rem - sum_fill_qty(qf),
                taker_id,
                side,
                limit_price,
            );
            assert(fs == qf + rfs);
            lemma_sum_fill_qty_add(qf, rfs);
            lemma_fills_from_levels_sum(
                orders,
                rest_lv,
                rem - sum_fill_qty(qf),
                taker_id,
                side,
                limit_price,
            );
            assert(rem - sum_fill_qty(qf) > 0);
            assert(queue_in_dir(q0, orders)) by {
                assert forall|j: int|
                    0 <= j < q0.len() implies {
                    let id = #[trigger] q0[j];
                    orders.contains_key(id) && orders[id].id == id
                } by {
                    assert(levels[0].queue[j] == q0[j]);
                }
            }
            lemma_queue_fills_complete(orders, q0, rem, taker_id, side);
            lemma_levels_fills_complete(
                orders,
                rest_lv,
                rem - sum_fill_qty(qf),
                taker_id,
                side,
                limit_price,
                book_side,
            );
            assert forall|i: int, j: int|
                #![trigger levels[i].queue[j]]
                0 <= i < levels.len() && price_allows(side, limit_price, levels[i].price) && 0 <= j
                    < levels[i].queue.len() implies exists|k: int|
                    0 <= k < fs.len() && (#[trigger] fs[k]).maker_id == levels[i].queue[j]
                        && fs[k].total_fill by {
                if i == 0 {
                    assert(orders[q0[j]].qty > 0);
                    let k = choose|k: int|
                        0 <= k < qf.len() && (#[trigger] qf[k]).maker_id == q0[j]
                            && qf[k].total_fill;
                    assert(fs[k].maker_id == levels[0].queue[j] && fs[k].total_fill);
                } else {
                    assert(rest_lv[i - 1] == levels[i]);
                    let k = choose|k: int|
                        0 <= k < rfs.len() && (#[trigger] rfs[k]).maker_id == rest_lv[i
                            - 1].queue[j] && rfs[k].total_fill;
                    assert(fs[k + qf.len()].maker_id == levels[i].queue[j] && fs[k
                        + qf.len()].total_fill);
                }
            }
        }
    }
}

/// Removing an identifier from a level keeps the side's shape: the same
/// levels at the same prices, each queue a sub-collection of what it was.
pub proof fn lemma_remove_id_shape(levels: Seq<LevelView>, price: u64, id: u64)
    ensures
        ({
            let lv2 = remove_id_at_price(levels, price, id);
            &&& lv2.len() == levels.len()
            &&& (forall|i: int|
                0 <= i < levels.len() ==> #[trigger] lv2[i].price == levels[i].price)
            &&& (forall|i: int, x: u64|
                0 <= i < levels.len() && #[trigger] lv2[i].queue.contains(x)
                    ==> levels[i].queue.contains(x))
        }),
{
    let lv2 = remove_id_at_price(levels, price, id);
    lemma_find_level(levels, price);
    match find_level(levels, price) {
        Some(ix) => {
            lemma_remove_first(levels[ix].queue, id);
            assert forall|i: int, x: u64|
                0 <= i < levels.len() && #[trigger] lv2[i].queue.contains(x)
                    implies levels[i].queue.contains(x) by {
                if i == ix {
                    assert(remove_first(levels[ix].queue, id).contains(x));
                }
            }
        },
        None => {},
    }
}

/// After applying any fill sequence to a well-formed uncrossed book, the
/// best ask can only worsen or stay, the best bid likewise, and the book
/// stays uncrossed.
pub proof fn lemma_no_cross_after_apply(b: BookView, fills: Seq<FillMetadata>)
    requires
        wf(b),
        no_cross(b),
    ensures
        ({
            let (a2, b2, o2) = apply_fills(b.asks, b.bids, b.orders, fills);
            &&& best_price(a2, u64::MAX) >= b.min_ask
            &&& best_price(b2, 0) <= b.max_bid
        }),
{
    lemma_apply_fills_shape(b.asks, b.bids, b.orders, fills);
    let (a2, b2, o2) = apply_fills(b.asks, b.bids, b.orders, fills);
    assert forall|i: int|
        0 <= i < b.asks.len() && #[trigger] a2[i].queue.len() > 0 implies b.asks[i].queue.len()
        > 0 by {
        let x = a2[i].queue[0];
        assert(a2[i].queue.contains(x)) by {
            assert(a2[i].queue[0] == x);
        }
        assert(b.asks[i].queue.contains(x));
    }
    assert forall|i: int|
        0 <= i < b.bids.len() && #[trigger] b2[i].queue.len() > 0 implies b.bids[i].queue.len()
        > 0 by {
        let x = b2[i].queue[0];
        assert(b2[i].queue.contains(x)) by {
            assert(b2[i].queue[0] == x);
        }
        assert(b.bids[i].queue.contains(x));
    }
    lemma_best_price_shrink(b.asks, a2, Side::Ask, u64::MAX);
    lemma_best_price_shrink(b.bids, b2, Side::Bid, 0);
}

/// When quantity is left over after matching and applying, no opposing level
/// within the limit price has resting orders any more.
pub proof fn lemma_match_leaves_no_favourable(
    b: BookView,
    taker_id: u64,
    side: Side,
    qty: u64,
    limit_price: u64,
)
    requires
        wf(b),
        qty as int - sum_fill_qty(
            fills_from_levels(
                b.orders,
                b.opposing(side),
                qty as int,
                taker_id,
                side,
                Some(limit_price),
            ),
        ) > 0,
    ensures
        ({
            let b2 = match_and_apply(b, taker_id, side, qty, Some(limit_price)).0;
            let opp2 = b2.opposing(side);
            forall|i: int|
                0 <= i < opp2.len() && price_allows(
                    side,
                    Some(limit_price),
                    #[trigger] opp2[i].price,
                ) ==> opp2[i].queue.len() == 0
        }),
{
    let opp = b.opposing(side);
    let book_side = side.other();
    let fs = fills_from_levels(b.orders, opp, qty as int, taker_id, side, Some(limit_price));
    lemma_match_fills_ok(b.orders, opp, qty as int, taker_id, side, Some(limit_price), book_side);
    assert forall|k: int| 0 <= k < fs.len() implies fill_applicable(
        #[trigger] fs[k],
        b.orders,
        b.asks,
        b.bids,
    ) by {
        assert(fill_ok(fs[k], b.orders, opp, taker_id, side));
    }
    lemma_apply_fills_wf(b, fs);
    lemma_apply_fills_shape(b.asks, b.bids, b.orders, fs);
    lemma_levels_fills_complete(
        b.orders,
        opp,
        qty as int,
        taker_id,
        side,
        Some(limit_price),
        book_side,
    );
    let (a2, bl2, o2) = apply_fills(b.asks, b.bids, b.orders, fs);
    let opp2 = if side == Side::Bid {
        a2
    } else {
        bl2
    };
    let bw2 = BookView { asks: a2, bids: bl2, orders: o2, ..b };
    assert(wf_core(bw2));
    assert forall|i: int|
        0 <= i < opp2.len() && price_allows(side, Some(limit_price), #[trigger] opp2[i].price)
            implies opp2[i].queue.len() == 0 by {
        if opp2[i].queue.len() > 0 {
            let x = opp2[i].queue[0];
            // The head of the non-empty queue still has a directory entry.
            assert(o2.contains_key(x)) by {
                if side == Side::Bid {
                    assert(queues_in_orders(bw2.asks, o2));
                } else {
                    assert(queues_in_orders(bw2.bids, o2));
                }
            }
            // But it also rested at this level before the match, within the
            // limit price, so a total fill consumed it.
            assert(opp2[i].queue.contains(x)) by {
                assert(opp2[i].queue[0] == x);
            }
            assert(opp[i].queue.contains(x));
            let j = choose|j: int| 0 <= j < opp[i].queue.len() && opp[i].queue[j] == x;
            assert(opp2[i].price == opp[i].price);
            assert(price_allows(side, Some(limit_price), opp[i].price));
            let k = choose|k: int|
                0 <= k < fs.len() && (#[trigger] fs[k]).maker_id == opp[i].queue[j]
                    && fs[k].total_fill;
            assert forall|k2: int|
                0 <= k2 < fs.len() && k2 != k implies #[trigger] fs[k2].maker_id
                != fs[k].maker_id by {
                if k2 < k {
                    assert(fs[k2].maker_id != fs[k].maker_id);
                }
            }
            lemma_apply_fills_total_removes(b.asks, b.bids, b.orders, fs, k);
            assert(!o2.contains_key(x));
            assert(false);
        }
    }
}

/// Cancelling any identifier keeps the core invariants.
pub proof fn lemma_cancel_preserves(b: BookView, id: u64)
    requires
        wf_core(b),
    ensures
        wf_core(cancel_step(b, id).0),
{
    let b2 = cancel_step(b, id).0;
    if b.orders.contains_key(id) {
        let price = b.orders[id].price;
        let f = FillMetadata {
            taker_id: id,
            maker_id: id,
            qty: b.orders[id].qty,
            price,
            taker_side: if in_queues(b.asks, id) {
                Side::Bid
            } else {
                Side::Ask
            },
            total_fill: true,
        };
        assert(in_queues(b.asks, id) || in_queues(b.bids, id));
        if in_queues(b.asks, id) {
            let (i, j) = choose|i: int, j: int|
                0 <= i < b.asks.len() && 0 <= j < b.asks[i].queue.len() && b.asks[i].queue[j] == id;
            assert(b.orders[id].qty > 0);
            lemma_apply_fill_one_side(b.asks, b.bids, b.orders, f, Side::Ask, Side::Bid, b.last_seq);
            lemma_remove_id_absent(b.bids, price, id);
            assert(b2.asks == apply_fill_to_levels(b.asks, f));
            assert(b2.bids == b.bids);
            assert(b2.orders == apply_fill_to_orders(b.orders, f));
        } else {
            let (i, j) = choose|i: int, j: int|
                0 <= i < b.bids.len() && 0 <= j < b.bids[i].queue.len() && b.bids[i].queue[j] == id;
            assert(b.orders[id].qty > 0);
            lemma_apply_fill_one_side(b.bids, b.asks, b.orders, f, Side::Bid, Side::Ask, b.last_seq);
            lemma_remove_id_absent(b.asks, price, id);
            assert(b2.bids == apply_fill_to_levels(b.bids, f));
            assert(b2.asks == b.asks);
            assert(b2.orders == apply_fill_to_orders(b.orders, f));
        }
    }
}

/// On a sorted side, at most one level holds a given price.
pub proof fn lemma_sorted_price_unique(levels: Seq<LevelView>, book_side: Side, price: u64)
    requires
        levels_sorted(levels, book_side),
    ensures
        forall|i1: int, i2: int|
            0 <= i1 < levels.len() && 0 <= i2 < levels.len() && #[trigger] levels[i1].price
                == price && #[trigger] levels[i2].price == price ==> i1 == i2,
{
    assert forall|i1: int, i2: int|
        0 <= i1 < levels.len() && 0 <= i2 < levels.len() && #[trigger] levels[i1].price == price
            && #[trigger] levels[i2].price == price implies i1 == i2 by {
        if i1 < i2 {
            assert(price_better(book_side, levels[i1].price, levels[i2].price));
        }
        if i2 < i1 {
            assert(price_better(book_side, levels[i2].price, levels[i1].price));
        }
    }
}

/// The no-cross invariant: the best ask price is strictly above the best
/// bid price (trivially true of an empty side through its default).
pub open spec fn no_cross(b: BookView) -> bool {
    b.min_ask > b.max_bid
}

} // verus!
