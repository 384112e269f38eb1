use legion::{
    FillMetadata, OrderBook, OrderEvent, OrderType, Side, Trade, INVALID_ORDER_NUMBER,
    LIQUIDITY_NOT_AVAILABLE,
};

fn tracked_book() -> OrderBook {
    let mut ob = OrderBook::default();
    ob.track_stats(true);
    ob
}

#[test]
fn scenario_market_hits_resting_bid() {
    let mut ob = tracked_book();
    let open = ob.execute(OrderType::Limit { id: 1, user_id: 1, side: Side::Bid, qty: 12, price: 395 });
    assert_eq!(open, OrderEvent::Open { id: 1 });
    let filled = ob.execute(OrderType::Market { id: 2, user_id: 2, side: Side::Ask, qty: 5 });
    assert_eq!(
        filled,
        OrderEvent::Filled {
            id: 2,
            filled_qty: 5,
            fills: vec![FillMetadata {
                taker_id: 2,
                maker_id: 1,
                qty: 5,
                price: 395,
                taker_side: Side::Ask,
                total_fill: false,
            }],
        }
    );
    assert_eq!(ob.max_bid(), 395);
    let depth = ob.depth(1, true);
    assert_eq!(depth.bids[0].orders[0].qty, 7);
    let trade = ob.last_trade().unwrap();
    assert_eq!(trade.notional as f64 / trade.total_qty as f64, 395.0);
    assert_eq!(trade, Trade { total_qty: 5, notional: 1975, last_price: 395, last_qty: 5 });
    assert_eq!(ob.traded_volume(), 5);
}

#[test]
fn scenario_crossing_limit_rests_residual() {
    let mut ob = tracked_book();
    ob.execute(OrderType::Limit { id: 1, user_id: 1, side: Side::Bid, qty: 12, price: 395 });
    ob.execute(OrderType::Limit { id: 2, user_id: 1, side: Side::Ask, qty: 2, price: 399 });
    ob.execute(OrderType::Limit { id: 3, user_id: 1, side: Side::Bid, qty: 2, price: 398 });
    let result = ob.execute(OrderType::Limit { id: 4, user_id: 1, side: Side::Ask, qty: 5, price: 397 });
    assert_eq!(
        result,
        OrderEvent::PartiallyFilled {
            id: 4,
            filled_qty: 2,
            fills: vec![FillMetadata {
                taker_id: 4,
                maker_id: 3,
                qty: 2,
                price: 398,
                taker_side: Side::Ask,
                total_fill: true,
            }],
        }
    );
    let depth = ob.depth(1, true);
    assert_eq!(depth.asks[0].price, 397);
    assert_eq!(depth.asks[0].qty, 3);
    assert_eq!(depth.asks[0].orders[0].id, 4);
    assert_eq!(ob.min_ask(), 397);
    assert_eq!(ob.max_bid(), 395);
    assert_eq!(ob.spread(), 2);
}

#[test]
fn scenario_market_sweeps_both_bid_levels() {
    let mut ob = tracked_book();
    ob.execute(OrderType::Limit { id: 1, user_id: 1, side: Side::Bid, qty: 12, price: 395 });
    ob.execute(OrderType::Limit { id: 2, user_id: 1, side: Side::Ask, qty: 2, price: 399 });
    ob.execute(OrderType::Limit { id: 3, user_id: 1, side: Side::Bid, qty: 2, price: 398 });
    let result = ob.execute(OrderType::Market { id: 4, user_id: 2, side: Side::Ask, qty: 15 });
    assert_eq!(
        result,
        OrderEvent::PartiallyFilled {
            id: 4,
            filled_qty: 14,
            fills: vec![
                FillMetadata {
                    taker_id: 4,
                    maker_id: 3,
                    qty: 2,
                    price: 398,
                    taker_side: Side::Ask,
                    total_fill: true,
                },
                FillMetadata {
                    taker_id: 4,
                    maker_id: 1,
                    qty: 12,
                    price: 395,
                    taker_side: Side::Ask,
                    total_fill: true,
                }
            ],
        }
    );
    assert_eq!(ob.max_bid(), 0);
    assert_eq!(ob.min_ask(), 399);
    assert_eq!(ob.depth(10, false).bids, vec![]);
}

#[test]
fn scenario_market_on_empty_book_rejected() {
    let mut ob = tracked_book();
    let result = ob.execute(OrderType::Market { id: 1, user_id: 1, side: Side::Bid, qty: 5 });
    assert_eq!(result, OrderEvent::Rejected { id: 1, message: LIQUIDITY_NOT_AVAILABLE });
}

#[test]
fn scenario_cancel_unknown_is_idempotent() {
    let mut ob = tracked_book();
    let result = ob.execute(OrderType::Cancel { id: 99 });
    assert_eq!(result, OrderEvent::Cancelled { id: 99 });
    assert_eq!(ob.min_ask(), u64::MAX);
    assert_eq!(ob.max_bid(), 0);
    assert_eq!(ob._asks(), vec![]);
    assert_eq!(ob._bids(), vec![]);
    assert_eq!(ob.last_sequence(), 0);
    assert_eq!(ob.traded_volume(), 0);
    assert_eq!(ob.last_trade(), None);
}

#[test]
fn scenario_fifo_within_price_level() {
    let mut ob = tracked_book();
    ob.execute(OrderType::Limit { id: 1, user_id: 1, side: Side::Bid, qty: 10, price: 100 });
    ob.execute(OrderType::Limit { id: 2, user_id: 1, side: Side::Bid, qty: 20, price: 100 });
    let result = ob.execute(OrderType::Market { id: 3, user_id: 2, side: Side::Ask, qty: 25 });
    assert_eq!(
        result,
        OrderEvent::Filled {
            id: 3,
            filled_qty: 25,
            fills: vec![
                FillMetadata {
                    taker_id: 3,
                    maker_id: 1,
                    qty: 10,
                    price: 100,
                    taker_side: Side::Ask,
                    total_fill: true,
                },
                FillMetadata {
                    taker_id: 3,
                    maker_id: 2,
                    qty: 15,
                    price: 100,
                    taker_side: Side::Ask,
                    total_fill: false,
                }
            ],
        }
    );
}

#[test]
fn scenario_out_of_sequence_rejected() {
    let mut ob = tracked_book();
    let first = ob.execute(OrderType::Limit { id: 5, user_id: 1, side: Side::Bid, qty: 3, price: 90 });
    assert_eq!(first, OrderEvent::Open { id: 5 });
    let before_asks = ob._asks();
    let before_bids = ob._bids();
    let second = ob.execute(OrderType::Limit { id: 3, user_id: 1, side: Side::Bid, qty: 3, price: 91 });
    assert_eq!(second, OrderEvent::Rejected { id: 3, message: INVALID_ORDER_NUMBER });
    assert_eq!(ob._asks(), before_asks);
    assert_eq!(ob._bids(), before_bids);
    assert_eq!(ob.last_sequence(), 5);
    assert_eq!(ob.max_bid(), 90);
}

#[test]
fn fok_filled_exactly() {
    let mut ob = tracked_book();
    ob.execute(OrderType::Limit { id: 1, user_id: 1, side: Side::Ask, qty: 10, price: 100 });
    ob.execute(OrderType::Limit { id: 2, user_id: 1, side: Side::Ask, qty: 5, price: 101 });
    let result = ob.execute(OrderType::FOK { id: 3, user_id: 2, side: Side::Bid, qty: 12, price: 101 });
    assert_eq!(
        result,
        OrderEvent::Filled {
            id: 3,
            filled_qty: 12,
            fills: vec![
                FillMetadata {
                    taker_id: 3,
                    maker_id: 1,
                    qty: 10,
                    price: 100,
                    taker_side: Side::Bid,
                    total_fill: true,
                },
                FillMetadata {
                    taker_id: 3,
                    maker_id: 2,
                    qty: 2,
                    price: 101,
                    taker_side: Side::Bid,
                    total_fill: false,
                }
            ],
        }
    );
    assert_eq!(ob.min_ask(), 101);
    let depth = ob.depth(1, true);
    assert_eq!(depth.asks[0].qty, 3);
}

#[test]
fn fok_rejected_when_infeasible() {
    let mut ob = tracked_book();
    ob.execute(OrderType::Limit { id: 1, user_id: 1, side: Side::Ask, qty: 10, price: 100 });
    ob.execute(OrderType::Limit { id: 2, user_id: 1, side: Side::Ask, qty: 5, price: 101 });
    let asks_before = ob._asks();
    let bids_before = ob._bids();
    let result = ob.execute(OrderType::FOK { id: 3, user_id: 2, side: Side::Bid, qty: 20, price: 101 });
    assert_eq!(result, OrderEvent::Rejected { id: 3, message: LIQUIDITY_NOT_AVAILABLE });
    assert_eq!(ob._asks(), asks_before);
    assert_eq!(ob._bids(), bids_before);
    assert_eq!(ob.min_ask(), 100);
    assert_eq!(ob.max_bid(), 0);
    assert_eq!(ob.traded_volume(), 0);
    assert_eq!(ob.last_trade(), None);
    assert_eq!(ob.last_sequence(), 3);
}

#[test]
fn fok_respects_limit_price() {
    let mut ob = tracked_book();
    ob.execute(OrderType::Limit { id: 1, user_id: 1, side: Side::Ask, qty: 10, price: 100 });
    ob.execute(OrderType::Limit { id: 2, user_id: 1, side: Side::Ask, qty: 5, price: 102 });
    // Only 10 units rest within the limit price, so 12 cannot be filled.
    let result = ob.execute(OrderType::FOK { id: 3, user_id: 2, side: Side::Bid, qty: 12, price: 100 });
    assert_eq!(result, OrderEvent::Rejected { id: 3, message: LIQUIDITY_NOT_AVAILABLE });
    assert_eq!(ob.depth(2, false).asks.len(), 2);
}

#[test]
fn ioc_residual_is_not_rested() {
    let mut ob = tracked_book();
    ob.execute(OrderType::Limit { id: 1, user_id: 1, side: Side::Ask, qty: 5, price: 100 });
    let result = ob.execute(OrderType::IOC { id: 2, user_id: 2, side: Side::Bid, qty: 8, price: 100 });
    assert_eq!(
        result,
        OrderEvent::PartiallyFilled {
            id: 2,
            filled_qty: 5,
            fills: vec![FillMetadata {
                taker_id: 2,
                maker_id: 1,
                qty: 5,
                price: 100,
                taker_side: Side::Bid,
                total_fill: true,
            }],
        }
    );
    // The residual three units are cancelled, not rested: no bid level holds
    // order 2 and the bid side is empty.
    assert_eq!(ob.depth(10, true).bids, vec![]);
    assert_eq!(ob.max_bid(), 0);
}

#[test]
fn ioc_with_no_liquidity_rejected() {
    let mut ob = tracked_book();
    let result = ob.execute(OrderType::IOC { id: 1, user_id: 1, side: Side::Bid, qty: 4, price: 100 });
    assert_eq!(result, OrderEvent::Rejected { id: 1, message: LIQUIDITY_NOT_AVAILABLE });
}

#[test]
fn ioc_fully_filled() {
    let mut ob = tracked_book();
    ob.execute(OrderType::Limit { id: 1, user_id: 1, side: Side::Ask, qty: 5, price: 100 });
    let result = ob.execute(OrderType::IOC { id: 2, user_id: 2, side: Side::Bid, qty: 3, price: 100 });
    assert_eq!(
        result,
        OrderEvent::Filled {
            id: 2,
            filled_qty: 3,
            fills: vec![FillMetadata {
                taker_id: 2,
                maker_id: 1,
                qty: 3,
                price: 100,
                taker_side: Side::Bid,
                total_fill: false,
            }],
        }
    );
}

#[test]
fn depth_reports_requested_levels_only() {
    let mut ob = tracked_book();
    ob.execute(OrderType::Limit { id: 1, user_id: 1, side: Side::Ask, qty: 1, price: 103 });
    ob.execute(OrderType::Limit { id: 2, user_id: 1, side: Side::Ask, qty: 2, price: 101 });
    ob.execute(OrderType::Limit { id: 3, user_id: 1, side: Side::Ask, qty: 3, price: 102 });
    ob.execute(OrderType::Limit { id: 4, user_id: 1, side: Side::Bid, qty: 4, price: 99 });
    ob.execute(OrderType::Limit { id: 5, user_id: 1, side: Side::Bid, qty: 5, price: 97 });
    let depth = ob.depth(2, false);
    assert_eq!(depth.levels, 2);
    // Asks ascending, bids descending, truncated to two levels per side.
    assert_eq!(
        depth.asks,
        vec![
            legion::BookLevel { price: 101, qty: 2, orders: vec![] },
            legion::BookLevel { price: 102, qty: 3, orders: vec![] },
        ]
    );
    assert_eq!(
        depth.bids,
        vec![
            legion::BookLevel { price: 99, qty: 4, orders: vec![] },
            legion::BookLevel { price: 97, qty: 5, orders: vec![] },
        ]
    );
}

#[test]
fn stats_disabled_by_default() {
    let mut ob = OrderBook::default();
    ob.execute(OrderType::Limit { id: 1, user_id: 1, side: Side::Bid, qty: 10, price: 100 });
    ob.execute(OrderType::Market { id: 2, user_id: 2, side: Side::Ask, qty: 4 });
    assert_eq!(ob.traded_volume(), 0);
    assert_eq!(ob.last_trade(), None);
}

#[test]
fn traded_volume_accumulates() {
    let mut ob = tracked_book();
    ob.execute(OrderType::Limit { id: 1, user_id: 1, side: Side::Bid, qty: 10, price: 100 });
    ob.execute(OrderType::Market { id: 2, user_id: 2, side: Side::Ask, qty: 4 });
    ob.execute(OrderType::Market { id: 3, user_id: 2, side: Side::Ask, qty: 5 });
    assert_eq!(ob.traded_volume(), 9);
    assert_eq!(
        ob.last_trade(),
        Some(Trade { total_qty: 5, notional: 500, last_price: 100, last_qty: 5 })
    );
    assert_eq!(ob.last_sequence(), 3);
}
