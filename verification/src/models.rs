//! The data model: sides, commands, events, fills and book snapshots.

use vstd::prelude::*;

verus! {

/// A price point.
pub type Price = u64;

/// An order quantity.
pub type Qty = u64;

/// An order identifier.
pub type OrderId = u64;

/// A user identifier.
pub type UserId = u64;

/// An order book side.
#[derive(Debug, Copy, Clone, PartialEq, Eq, Structural)]
pub enum Side {
    /// The bid (or buy) side.
    Bid,
    /// The ask (or sell) side.
    Ask,
}

impl Side {
    /// The opposing side: the side whose resting orders an aggressor of this
    /// side is matched against.
    pub open spec fn other(self) -> Side {
        match self {
            Side::Bid => Side::Ask,
            Side::Ask => Side::Bid,
        }
    }

    /// Return the opposing side.
    pub fn opposite(self) -> (r: Side)
        ensures
            r == self.other(),
    {
        match self {
            Side::Bid => Side::Ask,
            Side::Ask => Side::Bid,
        }
    }
}

impl core::ops::Not for Side {
    type Output = Side;

    fn not(self) -> Side {
        match self {
            Side::Bid => Side::Ask,
            Side::Ask => Side::Bid,
        }
    }
}

impl vstd::std_specs::ops::NotSpecImpl for Side {
    open spec fn obeys_not_spec() -> bool {
        true
    }

    open spec fn not_req(self) -> bool {
        true
    }

    open spec fn not_spec(self) -> Side {
        self.other()
    }
}

impl Default for Side {
    fn default() -> (r: Side)
        ensures
            r == Side::Bid,
    {
        Side::Bid
    }
}

/// An order to be executed by the order book.
#[derive(Debug, Copy, Clone, PartialEq, Eq, Structural)]
pub enum OrderType {
    /// A market order: filled immediately against the best opposing levels
    /// (possibly partially), never rested.
    Market {
        /// The unique ID of this order.
        id: OrderId,
        /// The user that placed this order.
        user_id: UserId,
        /// The order side.
        side: Side,
        /// The order quantity.
        qty: Qty,
    },
    /// A limit order: matched as far as the limit price allows, any residual
    /// quantity rests on the book.
    Limit {
        /// The unique ID of this order.
        id: OrderId,
        /// The user that placed this order.
        user_id: UserId,
        /// The order side.
        side: Side,
        /// The order quantity.
        qty: Qty,
        /// The limit price: this order only matches at this price or better.
        price: Price,
    },
    /// An immediate-or-cancel order: matched like a limit order, but any
    /// residual quantity is cancelled instead of resting.
    IOC {
        /// The unique ID of this order.
        id: OrderId,
        /// The user that placed this order.
        user_id: UserId,
        /// The order side.
        side: Side,
        /// The order quantity.
        qty: Qty,
        /// The limit price: this order only matches at this price or better.
        price: Price,
    },
    /// A fill-or-kill order: either the whole quantity can be matched within
    /// the limit price and the order is filled completely, or nothing happens.
    FOK {
        /// The unique ID of this order.
        id: OrderId,
        /// The user that placed this order.
        user_id: UserId,
        /// The order side.
        side: Side,
        /// The order quantity.
        qty: Qty,
        /// The limit price: this order only matches at this price or better.
        price: Price,
    },
    /// A cancel command: removes the order with the given ID from the book.
    Cancel {
        /// The unique ID of the order to be cancelled.
        id: OrderId,
    },
}

impl OrderType {
    /// The identifier carried by this command.
    pub open spec fn spec_id(self) -> OrderId {
        match self {
            OrderType::Market { id, .. } => id,
            OrderType::Limit { id, .. } => id,
            OrderType::IOC { id, .. } => id,
            OrderType::FOK { id, .. } => id,
            OrderType::Cancel { id } => id,
        }
    }

    /// Whether this command is a cancel; cancels bypass sequence-number
    /// admission.
    pub open spec fn spec_is_cancel(self) -> bool {
        self matches OrderType::Cancel { .. }
    }

    /// The quantity carried by this command; zero for a cancel.
    pub open spec fn spec_qty(self) -> Qty {
        match self {
            OrderType::Market { qty, .. } => qty,
            OrderType::Limit { qty, .. } => qty,
            OrderType::IOC { qty, .. } => qty,
            OrderType::FOK { qty, .. } => qty,
            OrderType::Cancel { .. } => 0,
        }
    }

    /// The tag naming this command's variant.
    pub open spec fn spec_type(self) -> Seq<char> {
        match self {
            OrderType::Market { .. } => "market"@,
            OrderType::Limit { .. } => "limit"@,
            OrderType::IOC { .. } => "ioc"@,
            OrderType::FOK { .. } => "fok"@,
            OrderType::Cancel { .. } => "cancel"@,
        }
    }

    /// Return the identifier carried by this command.
    pub fn get_id(&self) -> (r: u64)
        ensures
            r == self.spec_id(),
    {
        match self {
            OrderType::Market { id, .. } => *id,
            OrderType::Limit { id, .. } => *id,
            OrderType::Cancel { id } => *id,
            OrderType::IOC { id, .. } => *id,
            OrderType::FOK { id, .. } => *id,
        }
    }

    /// Return the tag naming this command's variant.
    pub fn get_type(&self) -> (r: &'static str)
        ensures
            r@ == self.spec_type(),
    {
        match self {
            OrderType::Market { .. } => "market",
            OrderType::Limit { .. } => "limit",
            OrderType::Cancel { .. } => "cancel",
            OrderType::IOC { .. } => "ioc",
            OrderType::FOK { .. } => "fok",
        }
    }
}

/// An error from parsing the text form of a command.
#[derive(Debug, Clone, Copy, PartialEq, Eq, Structural)]
pub enum OrderParseError {
    /// The line does not have enough fields for its command kind.
    InvalidFieldSize,
    /// The command kind tag is not one of the known kinds.
    InvalidOrderType,
    /// A numeric field is not a decimal 64-bit unsigned integer.
    InvalidInteger,
    /// The side field is not one of the accepted side spellings.
    InvalidSide,
}

impl OrderParseError {
    /// The human-readable description of this error.
    pub open spec fn spec_message(self) -> Seq<char> {
        match self {
            OrderParseError::InvalidFieldSize => "Invalid fields count for order type"@,
            OrderParseError::InvalidOrderType => "Invalid order type"@,
            OrderParseError::InvalidInteger => "Invalid Integer"@,
            OrderParseError::InvalidSide => "Invalid Side"@,
        }
    }

    /// Return the human-readable description of this error.
    pub fn message(&self) -> (r: &'static str)
        ensures
            r@ == self.spec_message(),
    {
        match self {
            OrderParseError::InvalidFieldSize => "Invalid fields count for order type",
            OrderParseError::InvalidOrderType => "Invalid order type",
            OrderParseError::InvalidInteger => "Invalid Integer",
            OrderParseError::InvalidSide => "Invalid Side",
        }
    }
}

/// Information on a single order fill. When an order is matched with multiple
/// resting orders, it generates multiple `FillMetadata` values.
#[derive(Debug, PartialEq, Eq, Structural, Copy, Clone)]
pub struct FillMetadata {
    /// The ID of the order that triggered the fill (taker).
    pub taker_id: OrderId,
    /// The ID of the matching resting order (maker).
    pub maker_id: OrderId,
    /// The quantity that was traded.
    pub qty: Qty,
    /// The price at which the trade happened.
    pub price: Price,
    /// The side of the taker order.
    pub taker_side: Side,
    /// Whether this fill consumed the maker order completely (`true`) or
    /// partially (`false`).
    pub total_fill: bool,
}

/// An event resulting from the execution of a command.
#[derive(Debug, PartialEq, Clone)]
pub enum OrderEvent {
    /// The command was not executed. Sent in response to out-of-sequence
    /// commands, market orders finding no liquidity, and infeasible
    /// fill-or-kill orders.
    Rejected {
        /// The ID of the order this event is referring to.
        id: OrderId,
        /// The reject reason tag.
        message: &'static str,
    },
    /// The order is open on the order book without having matched anything.
    /// Sent in response to limit orders only.
    Open {
        /// The ID of the order this event is referring to.
        id: OrderId,
    },
    /// The cancel command was processed. Sent in response to cancel commands
    /// only, whether or not the order was resting.
    Cancelled {
        /// The ID of the order this event is referring to.
        id: OrderId,
    },
    /// The order was only partially filled.
    PartiallyFilled {
        /// The ID of the order this event is referring to.
        id: OrderId,
        /// The filled quantity.
        filled_qty: Qty,
        /// Information on the order fills, in matching order.
        fills: Vec<FillMetadata>,
    },
    /// The order was filled completely.
    Filled {
        /// The ID of the order this event is referring to.
        id: OrderId,
        /// The filled quantity.
        filled_qty: Qty,
        /// Information on the order fills, in matching order.
        fills: Vec<FillMetadata>,
    },
}

/// The mathematical view of an [`OrderEvent`]: the fill list becomes a
/// sequence and the reject tag becomes its character sequence.
pub ghost enum OrderEventView {
    /// View of `OrderEvent::Rejected`.
    Rejected { id: OrderId, message: Seq<char> },
    /// View of `OrderEvent::Open`.
    Open { id: OrderId },
    /// View of `OrderEvent::Cancelled`.
    Cancelled { id: OrderId },
    /// View of `OrderEvent::PartiallyFilled`.
    PartiallyFilled { id: OrderId, filled_qty: Qty, fills: Seq<FillMetadata> },
    /// View of `OrderEvent::Filled`.
    Filled { id: OrderId, filled_qty: Qty, fills: Seq<FillMetadata> },
}

impl View for OrderEvent {
    type V = OrderEventView;

    open spec fn view(&self) -> OrderEventView {
        match self {
            OrderEvent::Rejected { id, message } => OrderEventView::Rejected {
                id: *id,
                message: message@,
            },
            OrderEvent::Open { id } => OrderEventView::Open { id: *id },
            OrderEvent::Cancelled { id } => OrderEventView::Cancelled { id: *id },
            OrderEvent::PartiallyFilled { id, filled_qty, fills } => OrderEventView::PartiallyFilled {
                id: *id,
                filled_qty: *filled_qty,
                fills: fills@,
            },
            OrderEvent::Filled { id, filled_qty, fills } => OrderEventView::Filled {
                id: *id,
                filled_qty: *filled_qty,
                fills: fills@,
            },
        }
    }
}

/// A resting order as stored in the order directory.
#[derive(Debug, PartialEq, Eq, Structural, Copy, Clone)]
pub struct LimitOrder {
    /// The user that placed this order.
    pub user_id: UserId,
    /// The unique ID of this order.
    pub id: OrderId,
    /// The remaining (unfilled) quantity.
    pub qty: Qty,
    /// The limit price this order rests at.
    pub price: Price,
}

/// A snapshot of the order book up to a certain depth. Orders at the same
/// price point are merged into a single [`BookLevel`].
#[derive(Debug, Clone, PartialEq)]
pub struct BookDepth {
    /// The requested depth. Echoes the request even if fewer levels exist.
    pub levels: usize,
    /// Price levels on the ask side, best (lowest) price first.
    pub asks: Vec<BookLevel>,
    /// Price levels on the bid side, best (highest) price first.
    pub bids: Vec<BookLevel>,
}

/// A single level in a book depth snapshot.
#[derive(Debug, Clone, PartialEq)]
pub struct BookLevel {
    /// The price point this level represents.
    pub price: Price,
    /// The total quantity of all orders resting at this price point,
    /// saturating at `u64::MAX`.
    pub qty: Qty,
    /// The resting orders at this level, in arrival order; empty when the
    /// snapshot was requested without order lists.
    pub orders: Vec<LimitOrder>,
}

/// The mathematical view of a [`BookLevel`].
pub ghost struct BookLevelView {
    /// The price point this level represents.
    pub price: Price,
    /// The aggregate resting quantity, saturating at `u64::MAX`.
    pub qty: Qty,
    /// The resting orders, in arrival order; empty when not requested.
    pub orders: Seq<LimitOrder>,
}

impl View for BookLevel {
    type V = BookLevelView;

    open spec fn view(&self) -> BookLevelView {
        BookLevelView { price: self.price, qty: self.qty, orders: self.orders@ }
    }
}

/// The mathematical view of a [`BookDepth`].
pub ghost struct BookDepthView {
    /// The requested depth.
    pub levels: usize,
    /// Ask levels, best (lowest) price first.
    pub asks: Seq<BookLevelView>,
    /// Bid levels, best (highest) price first.
    pub bids: Seq<BookLevelView>,
}

impl View for BookDepth {
    type V = BookDepthView;

    open spec fn view(&self) -> BookDepthView {
        BookDepthView {
            levels: self.levels,
            asks: Seq::new(self.asks@.len(), |i: int| self.asks@[i]@),
            bids: Seq::new(self.bids@.len(), |i: int| self.bids@[i]@),
        }
    }
}

/// A trade that happened as part of the matching process. The
/// volume-weighted average price of the trade is `notional / total_qty`.
#[derive(Debug, PartialEq, Eq, Structural, Copy, Clone)]
pub struct Trade {
    /// The total quantity transacted as part of this trade.
    pub total_qty: Qty,
    /// The sum of `price * qty` over all the order fills within this trade:
    /// the numerator of the volume-weighted average price.
    pub notional: u128,
    /// The price of the last fill that was part of this trade.
    pub last_price: Price,
    /// The quantity of the last fill that was part of this trade.
    pub last_qty: Qty,
}

} // verus!
