//! Stable string tags carried by `Rejected` events.

use vstd::prelude::*;

verus! {

/// Used when the sequence number of a non-cancel command is not strictly
/// greater than every previously accepted one.
pub const INVALID_ORDER_NUMBER: &'static str = "INVALID_ORDER_NUMBER";

/// Used when a market order finds no opposing liquidity, and when a
/// fill-or-kill order cannot be filled completely.
pub const LIQUIDITY_NOT_AVAILABLE: &'static str = "LIQUIDITY_NOT_AVAILABLE";

} // verus!
