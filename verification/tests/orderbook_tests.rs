use std::collections::BTreeMap;

use legion::{
    BookDepth, BookLevel, FillMetadata, LimitOrder, OrderBook, OrderEvent, OrderType, Side, Trade,
    LIQUIDITY_NOT_AVAILABLE,
};

const BID_ASK_COMBINATIONS: [(Side, Side); 2] = [(Side::Bid, Side::Ask), (Side::Ask, Side::Bid)];

fn init_ob(events: Vec<OrderType>) -> (OrderBook, Vec<OrderEvent>) {
    let mut ob = OrderBook::default();
    ob.track_stats(true);
    let mut results = Vec::new();
    for e in events {
        results.push(ob.execute(e));
    }
    (ob, results)
}

fn _init_book(orders: Vec<(u64, u64)>) -> BTreeMap<u64, Vec<u64>> {
    let mut bk = BTreeMap::new();
    for (p, i) in orders {
        bk.entry(p).or_insert_with(Vec::new).push(i);
    }
    bk
}

fn init_book(orders: Vec<(u64, u64)>) -> Vec<(u64, Vec<u64>)> {
    _init_book(orders).into_iter().collect()
}

fn init_book_holes(orders: Vec<(u64, u64)>, holes: Vec<u64>) -> Vec<(u64, Vec<u64>)> {
    let mut bk = _init_book(orders);
    for h in holes {
        bk.insert(h, Vec::new());
    }
    bk.into_iter().collect()
}

/// The resting order with the given identifier, read off a deep snapshot.
fn resting(ob: &OrderBook, id: u64) -> Option<LimitOrder> {
    let depth = ob.depth(1000, true);
    for level in depth.asks.iter().chain(depth.bids.iter()) {
        for order in level.orders.iter() {
            if order.id == id {
                return Some(order.clone());
            }
        }
    }
    None
}

#[test]
fn empty_book() {
    let (ob, results) = init_ob(Vec::new());
    assert_eq!(results, Vec::new());
    assert_eq!(ob.min_ask(), u64::MAX);
    assert_eq!(ob.max_bid(), 0u64);
    assert_eq!(ob._asks(), Vec::new());
    assert_eq!(ob._bids(), Vec::new());
    assert_eq!(ob.spread(), u64::MAX);
    assert_eq!(ob.traded_volume(), 0);
    assert_eq!(
        ob.depth(2, false),
        BookDepth { levels: 2, asks: Vec::new(), bids: Vec::new() }
    );
    assert_eq!(ob.last_trade(), None);
}

#[test]
fn one_resting_order() {
    for (bid_ask, _) in &BID_ASK_COMBINATIONS {
        let (ob, results) = init_ob(vec![OrderType::Limit {
            id: 1,
            user_id: 1,
            side: *bid_ask,
            qty: 12,
            price: 395,
        }]);
        assert_eq!(results, vec![OrderEvent::Open { id: 1 }]);
        if *bid_ask == Side::Bid {
            assert_eq!(ob.min_ask(), u64::MAX);
            assert_eq!(ob.max_bid(), 395);
            assert_eq!(ob._asks(), Vec::new());
            assert_eq!(ob._bids(), init_book(vec![(395, 1)]));
            assert_eq!(ob.spread(), u64::MAX - 395);
            assert_eq!(ob.traded_volume(), 0);
            assert_eq!(
                ob.depth(3, false),
                BookDepth {
                    levels: 3,
                    asks: Vec::new(),
                    bids: vec![BookLevel { price: 395, qty: 12, orders: vec![] }],
                }
            );
            assert_eq!(ob.last_trade(), None);
        } else {
            assert_eq!(ob.min_ask(), 395);
            assert_eq!(ob.max_bid(), 0u64);
            assert_eq!(ob._asks(), init_book(vec![(395, 1)]));
            assert_eq!(ob._bids(), Vec::new());
            assert_eq!(ob.spread(), 395);
            assert_eq!(ob.traded_volume(), 0);
            assert_eq!(
                ob.depth(4, false),
                BookDepth {
                    levels: 4,
                    asks: vec![BookLevel { price: 395, qty: 12, orders: vec![] }],
                    bids: Vec::new(),
                }
            );
            assert_eq!(ob.last_trade(), None);
        }
    }
}

#[test]
fn two_resting_orders() {
    for (bid_ask, ask_bid) in &BID_ASK_COMBINATIONS {
        let (ob, results) = init_ob(vec![
            OrderType::Limit { user_id: 1, id: 1, side: *bid_ask, qty: 12, price: 395 },
            OrderType::Limit { user_id: 1, id: 2, side: *ask_bid, qty: 2, price: 398 },
        ]);
        if *bid_ask == Side::Bid {
            assert_eq!(results, vec![OrderEvent::Open { id: 1 }, OrderEvent::Open { id: 2 }]);
            assert_eq!(ob.min_ask(), 398);
            assert_eq!(ob.max_bid(), 395);
            assert_eq!(ob._asks(), init_book(vec![(398, 2)]));
            assert_eq!(ob._bids(), init_book(vec![(395, 1)]));
            assert_eq!(ob.spread(), 3);
            assert_eq!(ob.traded_volume(), 0);
            assert_eq!(
                ob.depth(4, false),
                BookDepth {
                    levels: 4,
                    asks: vec![BookLevel { price: 398, qty: 2, orders: vec![] }],
                    bids: vec![BookLevel { price: 395, qty: 12, orders: vec![] }],
                }
            );
            assert_eq!(ob.last_trade(), None);
        } else {
            assert_eq!(
                results,
                vec![
                    OrderEvent::Open { id: 1 },
                    OrderEvent::Filled {
                        id: 2,
                        filled_qty: 2,
                        fills: vec![FillMetadata {
                            taker_id: 2,
                            maker_id: 1,
                            qty: 2,
                            price: 395,
                            taker_side: *ask_bid,
                            total_fill: false,
                        }],
                    }
                ]
            );
            assert_eq!(ob.min_ask(), 395);
            assert_eq!(ob.max_bid(), 0u64);
            assert_eq!(ob._asks(), init_book(vec![(395, 1)]));
            assert_eq!(ob._bids(), init_book(vec![]));
            assert_eq!(ob.spread(), 395);
            assert_eq!(ob.traded_volume(), 2);
            assert_eq!(
                ob.depth(4, false),
                BookDepth {
                    levels: 4,
                    asks: vec![BookLevel { price: 395, qty: 10, orders: vec![] }],
                    bids: Vec::new(),
                }
            );
            let trade = ob.last_trade().unwrap();
            assert_eq!(
                trade,
                Trade { total_qty: 2, notional: 790, last_price: 395, last_qty: 2 }
            );
            assert_eq!(trade.notional as f64 / trade.total_qty as f64, 395.0);
        }
    }
}

#[test]
fn two_resting_orders_merged() {
    for (bid_ask, _) in &BID_ASK_COMBINATIONS {
        let (ob, results) = init_ob(vec![
            OrderType::Limit { user_id: 1, id: 1, side: *bid_ask, qty: 12, price: 395 },
            OrderType::Limit { user_id: 1, id: 2, side: *bid_ask, qty: 2, price: 395 },
        ]);
        assert_eq!(results, vec![OrderEvent::Open { id: 1 }, OrderEvent::Open { id: 2 }]);
        if *bid_ask == Side::Bid {
            assert_eq!(ob.min_ask(), u64::MAX);
            assert_eq!(ob.max_bid(), 395);
            assert_eq!(ob._asks(), Vec::new());
            assert_eq!(ob._bids(), init_book(vec![(395, 1), (395, 2)]));
            assert_eq!(ob.spread(), u64::MAX - 395);
            assert_eq!(ob.traded_volume(), 0);
            assert_eq!(
                ob.depth(3, false),
                BookDepth {
                    levels: 3,
                    asks: Vec::new(),
                    bids: vec![BookLevel { price: 395, qty: 14, orders: vec![] }],
                }
            );
            assert_eq!(ob.last_trade(), None);
        } else {
            assert_eq!(ob.min_ask(), 395);
            assert_eq!(ob.max_bid(), 0u64);
            assert_eq!(ob._asks(), init_book(vec![(395, 1), (395, 2)]));
            assert_eq!(ob._bids(), Vec::new());
            assert_eq!(ob.spread(), 395);
            assert_eq!(ob.traded_volume(), 0);
            assert_eq!(
                ob.depth(3, false),
                BookDepth {
                    levels: 3,
                    asks: vec![BookLevel { price: 395, qty: 14, orders: vec![] }],
                    bids: Vec::new(),
                }
            );
            assert_eq!(ob.last_trade(), None);
        }
    }
}

#[test]
fn two_resting_orders_stacked() {
    for (bid_ask, _) in &BID_ASK_COMBINATIONS {
        let (ob, results) = init_ob(vec![
            OrderType::Limit { user_id: 1, id: 1, side: *bid_ask, qty: 12, price: 395 },
            OrderType::Limit { user_id: 1, id: 2, side: *bid_ask, qty: 2, price: 398 },
        ]);
        assert_eq!(results, vec![OrderEvent::Open { id: 1 }, OrderEvent::Open { id: 2 }]);
        if *bid_ask == Side::Bid {
            assert_eq!(ob.min_ask(), u64::MAX);
            assert_eq!(ob.max_bid(), 398);
            assert_eq!(ob._asks(), Vec::new());
            assert_eq!(ob._bids(), init_book(vec![(398, 2), (395, 1)]));
            assert_eq!(ob.spread(), u64::MAX - 398);
        } else {
            assert_eq!(ob.min_ask(), 395);
            assert_eq!(ob.max_bid(), 0u64);
            assert_eq!(ob._asks(), init_book(vec![(398, 2), (395, 1)]));
            assert_eq!(ob._bids(), Vec::new());
            assert_eq!(ob.spread(), 395);
        }
    }
}

#[test]
fn three_resting_orders_stacked() {
    for (bid_ask, ask_bid) in &BID_ASK_COMBINATIONS {
        let (ob, results) = init_ob(vec![
            OrderType::Limit { user_id: 1, id: 1, side: *bid_ask, qty: 12, price: 395 },
            OrderType::Limit { user_id: 1, id: 2, side: *ask_bid, qty: 2, price: 399 },
            OrderType::Limit { user_id: 1, id: 3, side: *bid_ask, qty: 2, price: 398 },
        ]);
        if *bid_ask == Side::Bid {
            assert_eq!(
                results,
                vec![
                    OrderEvent::Open { id: 1 },
                    OrderEvent::Open { id: 2 },
                    OrderEvent::Open { id: 3 }
                ]
            );
            assert_eq!(ob.min_ask(), 399);
            assert_eq!(ob.max_bid(), 398);
            assert_eq!(ob._asks(), init_book(vec![(399, 2)]));
            assert_eq!(ob._bids(), init_book(vec![(398, 3), (395, 1)]));
            assert_eq!(ob.spread(), 1);
        } else {
            assert_eq!(
                results,
                vec![
                    OrderEvent::Open { id: 1 },
                    OrderEvent::Filled {
                        id: 2,
                        filled_qty: 2,
                        fills: vec![FillMetadata {
                            taker_id: 2,
                            maker_id: 1,
                            qty: 2,
                            price: 395,
                            taker_side: *ask_bid,
                            total_fill: false,
                        }],
                    },
                    OrderEvent::Open { id: 3 }
                ]
            );
            assert_eq!(ob.min_ask(), 395);
            assert_eq!(ob.max_bid(), 0);
            assert_eq!(ob._asks(), init_book(vec![(398, 3), (395, 1)]));
            assert_eq!(ob._bids(), init_book(vec![]));
            assert_eq!(ob.spread(), 395);
        }
    }
}

#[test]
fn crossing_limit_order_partial() {
    for (bid_ask, ask_bid) in &BID_ASK_COMBINATIONS {
        let (mut ob, results) = init_ob(vec![
            OrderType::Limit { user_id: 1, id: 1, side: *bid_ask, qty: 12, price: 395 },
            OrderType::Limit { user_id: 1, id: 2, side: *ask_bid, qty: 2, price: 399 },
            OrderType::Limit { user_id: 1, id: 3, side: *bid_ask, qty: 2, price: 398 },
        ]);
        let result = ob.execute(OrderType::Limit {
            user_id: 1,
            id: 4,
            side: *ask_bid,
            qty: 1,
            price: 397,
        });

        if *bid_ask == Side::Bid {
            assert_eq!(
                results,
                vec![
                    OrderEvent::Open { id: 1 },
                    OrderEvent::Open { id: 2 },
                    OrderEvent::Open { id: 3 }
                ]
            );
            assert_eq!(
                result,
                OrderEvent::Filled {
                    id: 4,
                    filled_qty: 1,
                    fills: vec![FillMetadata {
                        taker_id: 4,
                        maker_id: 3,
                        qty: 1,
                        price: 398,
                        taker_side: *ask_bid,
                        total_fill: false,
                    }],
                }
            );
            assert_eq!(ob.min_ask(), 399);
            assert_eq!(ob.max_bid(), 398);
            assert_eq!(ob._asks(), init_book(vec![(399, 2)]));
            assert_eq!(ob._bids(), init_book(vec![(398, 3), (395, 1)]));
            assert_eq!(ob.spread(), 1);
        } else {
            assert_eq!(
                results,
                vec![
                    OrderEvent::Open { id: 1 },
                    OrderEvent::Filled {
                        id: 2,
                        filled_qty: 2,
                        fills: vec![FillMetadata {
                            taker_id: 2,
                            maker_id: 1,
                            qty: 2,
                            price: 395,
                            taker_side: *ask_bid,
                            total_fill: false,
                        }],
                    },
                    OrderEvent::Open { id: 3 }
                ]
            );
            assert_eq!(
                result,
                OrderEvent::Filled {
                    id: 4,
                    filled_qty: 1,
                    fills: vec![FillMetadata {
                        taker_id: 4,
                        maker_id: 1,
                        qty: 1,
                        price: 395,
                        taker_side: *ask_bid,
                        total_fill: false,
                    }],
                }
            );
            assert_eq!(ob.min_ask(), 395);
            assert_eq!(ob.max_bid(), 0);
            assert_eq!(ob._asks(), init_book(vec![(398, 3), (395, 1)]));
            assert_eq!(ob._bids(), init_book(vec![]));
            assert_eq!(ob.spread(), 395);
        }
    }
}

#[test]
fn crossing_limit_order_matching() {
    for (bid_ask, ask_bid) in &BID_ASK_COMBINATIONS {
        let (mut ob, results) = init_ob(vec![
            OrderType::Limit { user_id: 1, id: 1, side: *bid_ask, qty: 12, price: 395 },
            OrderType::Limit { user_id: 1, id: 2, side: *ask_bid, qty: 2, price: 399 },
            OrderType::Limit { user_id: 1, id: 3, side: *bid_ask, qty: 2, price: 398 },
        ]);
        let result = ob.execute(OrderType::Limit {
            user_id: 1,
            id: 4,
            side: *ask_bid,
            qty: 2,
            price: 397,
        });

        if *bid_ask == Side::Bid {
            assert_eq!(
                results,
                vec![
                    OrderEvent::Open { id: 1 },
                    OrderEvent::Open { id: 2 },
                    OrderEvent::Open { id: 3 }
                ]
            );
            assert_eq!(
                result,
                OrderEvent::Filled {
                    id: 4,
                    filled_qty: 2,
                    fills: vec![FillMetadata {
                        taker_id: 4,
                        maker_id: 3,
                        qty: 2,
                        price: 398,
                        taker_side: *ask_bid,
                        total_fill: true,
                    }],
                }
            );
            assert_eq!(ob.min_ask(), 399);
            assert_eq!(ob.max_bid(), 395);
            assert_eq!(ob._asks(), init_book(vec![(399, 2)]));
            assert_eq!(ob._bids(), init_book_holes(vec![(395, 1)], vec![398]));
            assert_eq!(ob.spread(), 4);
        } else {
            assert_eq!(
                results,
                vec![
                    OrderEvent::Open { id: 1 },
                    OrderEvent::Filled {
                        id: 2,
                        filled_qty: 2,
                        fills: vec![FillMetadata {
                            taker_id: 2,
                            maker_id: 1,
                            qty: 2,
                            price: 395,
                            taker_side: *ask_bid,
                            total_fill: false,
                        }],
                    },
                    OrderEvent::Open { id: 3 }
                ]
            );
            assert_eq!(
                result,
                OrderEvent::Filled {
                    id: 4,
                    filled_qty: 2,
                    fills: vec![FillMetadata {
                        taker_id: 4,
                        maker_id: 1,
                        qty: 2,
                        price: 395,
                        taker_side: *ask_bid,
                        total_fill: false,
                    }],
                }
            );
            assert_eq!(ob.min_ask(), 395);
            assert_eq!(ob.max_bid(), 0u64);
            assert_eq!(ob._asks(), init_book(vec![(395, 1), (398, 3)]));
            assert_eq!(ob._bids(), init_book(vec![]));
            assert_eq!(ob.spread(), 395);
        }
    }
}

#[test]
fn crossing_limit_order_over() {
    for (bid_ask, ask_bid) in &BID_ASK_COMBINATIONS {
        let (mut ob, results) = init_ob(vec![
            OrderType::Limit { user_id: 1, id: 1, side: *bid_ask, qty: 12, price: 395 },
            OrderType::Limit { user_id: 1, id: 2, side: *ask_bid, qty: 2, price: 399 },
            OrderType::Limit { user_id: 1, id: 3, side: *bid_ask, qty: 2, price: 398 },
        ]);
        let result = ob.execute(OrderType::Limit {
            user_id: 1,
            id: 4,
            side: *ask_bid,
            qty: 5,
            price: 397,
        });

        if *bid_ask == Side::Bid {
            assert_eq!(
                results,
                vec![
                    OrderEvent::Open { id: 1 },
                    OrderEvent::Open { id: 2 },
                    OrderEvent::Open { id: 3 }
                ]
            );
            assert_eq!(
                result,
                OrderEvent::PartiallyFilled {
                    id: 4,
                    filled_qty: 2,
                    fills: vec![FillMetadata {
                        taker_id: 4,
                        maker_id: 3,
                        qty: 2,
                        price: 398,
                        taker_side: *ask_bid,
                        total_fill: true,
                    }],
                }
            );
            assert_eq!(ob.min_ask(), 397);
            assert_eq!(ob.max_bid(), 395);
            assert_eq!(ob._asks(), init_book(vec![(399, 2), (397, 4)]));
            assert_eq!(ob._bids(), init_book_holes(vec![(395, 1)], vec![398]));
            assert_eq!(ob.spread(), 2);
        } else {
            assert_eq!(
                results,
                vec![
                    OrderEvent::Open { id: 1 },
                    OrderEvent::Filled {
                        id: 2,
                        filled_qty: 2,
                        fills: vec![FillMetadata {
                            taker_id: 2,
                            maker_id: 1,
                            qty: 2,
                            price: 395,
                            taker_side: *ask_bid,
                            total_fill: false,
                        }],
                    },
                    OrderEvent::Open { id: 3 }
                ]
            );
            assert_eq!(
                result,
                OrderEvent::Filled {
                    id: 4,
                    filled_qty: 5,
                    fills: vec![FillMetadata {
                        taker_id: 4,
                        maker_id: 1,
                        qty: 5,
                        price: 395,
                        taker_side: *ask_bid,
                        total_fill: false,
                    }],
                }
            );
            assert_eq!(ob.min_ask(), 395);
            assert_eq!(ob.max_bid(), 0);
            assert_eq!(ob._asks(), init_book(vec![(395, 1), (398, 3)]));
            assert_eq!(ob._bids(), init_book(vec![]));
            assert_eq!(ob.spread(), 395);
        }
    }
}

#[test]
fn market_order_rejected() {
    for (_, ask_bid) in &BID_ASK_COMBINATIONS {
        let (mut ob, _) = init_ob(vec![]);
        let result = ob.execute(OrderType::Market { user_id: 1, id: 1, side: *ask_bid, qty: 5 });
        assert_eq!(result, OrderEvent::Rejected { id: 1, message: LIQUIDITY_NOT_AVAILABLE });
    }
}

#[test]
fn market_order_partially_filled() {
    for (bid_ask, ask_bid) in &BID_ASK_COMBINATIONS {
        let (mut ob, results) = init_ob(vec![
            OrderType::Limit { user_id: 1, id: 1, side: *bid_ask, qty: 12, price: 395 },
            OrderType::Limit { user_id: 1, id: 2, side: *ask_bid, qty: 2, price: 399 },
            OrderType::Limit { user_id: 1, id: 3, side: *bid_ask, qty: 2, price: 398 },
        ]);
        let result = ob.execute(OrderType::Market { user_id: 1, id: 4, side: *ask_bid, qty: 15 });

        if *bid_ask == Side::Bid {
            assert_eq!(
                results,
                vec![
                    OrderEvent::Open { id: 1 },
                    OrderEvent::Open { id: 2 },
                    OrderEvent::Open { id: 3 }
                ]
            );
            assert_eq!(
                result,
                OrderEvent::PartiallyFilled {
                    id: 4,
                    filled_qty: 14,
                    fills: vec![
                        FillMetadata {
                            taker_id: 4,
                            maker_id: 3,
                            qty: 2,
                            price: 398,
                            taker_side: *ask_bid,
                            total_fill: true,
                        },
                        FillMetadata {
                            taker_id: 4,
                            maker_id: 1,
                            qty: 12,
                            price: 395,
                            taker_side: *ask_bid,
                            total_fill: true,
                        }
                    ],
                }
            );
            assert_eq!(ob.min_ask(), 399);
            assert_eq!(ob.max_bid(), 0);
            assert_eq!(ob._asks(), init_book(vec![(399, 2)]));
            assert_eq!(ob._bids(), init_book_holes(vec![], vec![395, 398]));
            assert_eq!(ob.spread(), 399);
        } else {
            assert_eq!(
                results,
                vec![
                    OrderEvent::Open { id: 1 },
                    OrderEvent::Filled {
                        id: 2,
                        filled_qty: 2,
                        fills: vec![FillMetadata {
                            taker_id: 2,
                            maker_id: 1,
                            qty: 2,
                            price: 395,
                            taker_side: *ask_bid,
                            total_fill: false,
                        }],
                    },
                    OrderEvent::Open { id: 3 }
                ]
            );
            assert_eq!(
                result,
                OrderEvent::PartiallyFilled {
                    id: 4,
                    filled_qty: 12,
                    fills: vec![
                        FillMetadata {
                            taker_id: 4,
                            maker_id: 1,
                            qty: 10,
                            price: 395,
                            taker_side: *ask_bid,
                            total_fill: true,
                        },
                        FillMetadata {
                            taker_id: 4,
                            maker_id: 3,
                            qty: 2,
                            price: 398,
                            taker_side: *ask_bid,
                            total_fill: true,
                        }
                    ],
                }
            );
            assert_eq!(ob.min_ask(), u64::MAX);
            assert_eq!(ob.max_bid(), 0);
            assert_eq!(ob._asks(), init_book_holes(vec![], vec![395, 398]));
            assert_eq!(ob._bids(), init_book(vec![]));
            assert_eq!(ob.spread(), u64::MAX);
        }
    }
}

#[test]
fn market_order_filled() {
    for (bid_ask, ask_bid) in &BID_ASK_COMBINATIONS {
        let (mut ob, results) = init_ob(vec![
            OrderType::Limit { user_id: 1, id: 1, side: *bid_ask, qty: 12, price: 395 },
            OrderType::Limit { user_id: 1, id: 2, side: *ask_bid, qty: 2, price: 399 },
            OrderType::Limit { user_id: 1, id: 3, side: *bid_ask, qty: 2, price: 398 },
        ]);
        let result = ob.execute(OrderType::Market { user_id: 1, id: 4, side: *ask_bid, qty: 7 });

        if *bid_ask == Side::Bid {
            assert_eq!(
                results,
                vec![
                    OrderEvent::Open { id: 1 },
                    OrderEvent::Open { id: 2 },
                    OrderEvent::Open { id: 3 }
                ]
            );
            assert_eq!(
                result,
                OrderEvent::Filled {
                    id: 4,
                    filled_qty: 7,
                    fills: vec![
                        FillMetadata {
                            taker_id: 4,
                            maker_id: 3,
                            qty: 2,
                            price: 398,
                            taker_side: *ask_bid,
                            total_fill: true,
                        },
                        FillMetadata {
                            taker_id: 4,
                            maker_id: 1,
                            qty: 5,
                            price: 395,
                            taker_side: *ask_bid,
                            total_fill: false,
                        }
                    ],
                }
            );
            assert_eq!(ob.min_ask(), 399);
            assert_eq!(ob.max_bid(), 395);
            assert_eq!(ob._asks(), init_book(vec![(399, 2)]));
            assert_eq!(ob._bids(), init_book_holes(vec![(395, 1)], vec![398]));
            assert_eq!(ob.spread(), 4);
            assert_eq!(resting(&ob, 3), None);
            assert_eq!(
                resting(&ob, 1),
                Some(LimitOrder { user_id: 1, id: 1, qty: 7, price: 395 })
            );
        } else {
            assert_eq!(
                results,
                vec![
                    OrderEvent::Open { id: 1 },
                    OrderEvent::Filled {
                        id: 2,
                        filled_qty: 2,
                        fills: vec![FillMetadata {
                            taker_id: 2,
                            maker_id: 1,
                            qty: 2,
                            price: 395,
                            taker_side: *ask_bid,
                            total_fill: false,
                        }],
                    },
                    OrderEvent::Open { id: 3 }
                ]
            );
            assert_eq!(
                result,
                OrderEvent::Filled {
                    id: 4,
                    filled_qty: 7,
                    fills: vec![FillMetadata {
                        taker_id: 4,
                        maker_id: 1,
                        qty: 7,
                        price: 395,
                        taker_side: *ask_bid,
                        total_fill: false,
                    }],
                }
            );
            assert_eq!(ob.min_ask(), 395);
            assert_eq!(ob.max_bid(), 0);
            assert_eq!(ob._asks(), init_book(vec![(395, 1), (398, 3)]));
            assert_eq!(ob._bids(), init_book(vec![]));
            assert_eq!(ob.spread(), 395);
            assert_eq!(
                resting(&ob, 3),
                Some(LimitOrder { user_id: 1, id: 3, qty: 2, price: 398 })
            );
            assert_eq!(
                resting(&ob, 1),
                Some(LimitOrder { user_id: 1, id: 1, qty: 3, price: 395 })
            );
        }
    }
}

#[test]
fn cancel_non_existing_order() {
    let (mut ob, _) = init_ob(vec![]);
    let result = ob.execute(OrderType::Cancel { id: 0 });
    assert_eq!(result, OrderEvent::Cancelled { id: 0 });
    assert_eq!(ob.min_ask(), u64::MAX);
    assert_eq!(ob.max_bid(), 0);
    assert_eq!(ob._asks(), Vec::new());
    assert_eq!(ob._bids(), Vec::new());
    assert_eq!(ob.spread(), u64::MAX);
    assert_eq!(resting(&ob, 0), None);
}

#[test]
fn cancel_resting_order() {
    for (bid_ask, _) in &BID_ASK_COMBINATIONS {
        let (mut ob, results) = init_ob(vec![OrderType::Limit {
            user_id: 1,
            id: 1,
            side: *bid_ask,
            qty: 12,
            price: 395,
        }]);
        let result = ob.execute(OrderType::Cancel { id: 1 });
        assert_eq!(results, vec![OrderEvent::Open { id: 1 }]);
        assert_eq!(result, OrderEvent::Cancelled { id: 1 });
        assert_eq!(ob.min_ask(), u64::MAX);
        assert_eq!(ob.max_bid(), 0);
        if *bid_ask == Side::Bid {
            assert_eq!(ob._asks(), Vec::new());
            assert_eq!(ob._bids(), init_book_holes(vec![], vec![395]));
        } else {
            assert_eq!(ob._asks(), init_book_holes(vec![], vec![395]));
            assert_eq!(ob._bids(), Vec::new());
        }
        assert_eq!(ob.spread(), u64::MAX);
        assert_eq!(resting(&ob, 1), None);
    }
}

#[test]
fn cancel_resting_order_of_many() {
    for (bid_ask, ask_bid) in &BID_ASK_COMBINATIONS {
        let (mut ob, results) = init_ob(vec![
            OrderType::Limit { user_id: 1, id: 1, side: *bid_ask, qty: 12, price: 395 },
            OrderType::Limit { user_id: 1, id: 2, side: *ask_bid, qty: 2, price: 399 },
            OrderType::Limit { user_id: 1, id: 3, side: *bid_ask, qty: 2, price: 398 },
        ]);
        let result = ob.execute(OrderType::Cancel { id: 1 });
        if *bid_ask == Side::Bid {
            assert_eq!(
                results,
                vec![
                    OrderEvent::Open { id: 1 },
                    OrderEvent::Open { id: 2 },
                    OrderEvent::Open { id: 3 }
                ]
            );
            assert_eq!(result, OrderEvent::Cancelled { id: 1 });
            assert_eq!(ob.min_ask(), 399);
            assert_eq!(ob.max_bid(), 398);
            assert_eq!(ob._asks(), init_book(vec![(399, 2)]));
            assert_eq!(ob._bids(), init_book_holes(vec![(398, 3)], vec![395]));
            assert_eq!(ob.spread(), 1);
        } else {
            assert_eq!(
                results,
                vec![
                    OrderEvent::Open { id: 1 },
                    OrderEvent::Filled {
                        id: 2,
                        filled_qty: 2,
                        fills: vec![FillMetadata {
                            taker_id: 2,
                            maker_id: 1,
                            qty: 2,
                            price: 395,
                            taker_side: *ask_bid,
                            total_fill: false,
                        }],
                    },
                    OrderEvent::Open { id: 3 }
                ]
            );
            assert_eq!(result, OrderEvent::Cancelled { id: 1 });
            assert_eq!(ob.min_ask(), 398);
            assert_eq!(ob.max_bid(), 0);
            assert_eq!(ob._asks(), init_book_holes(vec![(398, 3)], vec![395]));
            assert_eq!(ob._bids(), init_book(vec![]));
            assert_eq!(ob.spread(), 398);
        }
    }
}
