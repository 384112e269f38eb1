//! Legion implements a single-threaded limit order book. Create an order book
//! instance and send orders for execution through [`OrderBook::execute`].
//!
//! Prices, quantities and identifiers are unsigned 64-bit integers. Every
//! public operation carries a contract that pins down its result and its
//! effect on the book, stated over a mathematical view of the book's state.

pub mod arena;
pub mod bookmodel;
pub mod laws;
pub mod models;
pub mod orderbook;
pub mod parser;
pub mod rejectmessages;

pub use models::{BookDepth, BookLevel, FillMetadata, LimitOrder, OrderEvent, OrderParseError, OrderType, Side, Trade};
pub use orderbook::OrderBook;
pub use parser::parse_order;
pub use rejectmessages::{INVALID_ORDER_NUMBER, LIQUIDITY_NOT_AVAILABLE};
