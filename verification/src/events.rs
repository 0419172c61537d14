//! The result vocabulary: each processed intent yields exactly one event.

use vstd::prelude::*;
use crate::order::OrderData;

verus! {

/// Why an intent was rejected.
#[derive(Debug, Clone, Copy, PartialEq, Eq, Structural)]
pub enum RejectReason {
    /// The intent carried no remaining quantity to work with.
    InvalidQuantity,
    /// A cancel or update referenced an id that is not resting on that side.
    NotFound,
    /// A market order found no eligible counter-order at all.
    NoLiquidity,
}

/// The execution report for one processed intent.
///
/// The record and counterparty values inside an event are copies taken after
/// the trades of this intent were applied; the engine hands out no handle
/// into book storage.
#[derive(Debug, Clone, PartialEq)]
pub enum Events {
    /// A limit order rested unmatched in the book.
    Accepted(OrderData),
    /// Some quantity traded, but a party of the trade is left partly open:
    /// either the incoming order (its limit remainder rests, a market
    /// remainder is discarded) or the last counterparty.
    PartiallyFilled(OrderData, Vec<OrderData>),
    /// The incoming order and every counterparty it traded with are
    /// completely filled.
    Filled(OrderData, Vec<OrderData>),
    /// A cancel removed the referenced record, returned here.
    Cancelled(OrderData),
    /// An update replaced the record with the first id by the new record.
    Updated(u64, OrderData),
    /// The intent failed; the book is left exactly as it was.
    Rejected(RejectReason),
}

} // verus!
