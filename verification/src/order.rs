//! The data model for a single order and the intents submitted to the engine.

use vstd::prelude::*;
use crate::price_level::PriceLevel;

verus! {

/// The side of the book an order rests on or is matched against.
#[derive(Debug, Clone, Copy, PartialEq, Eq, Structural)]
pub enum Side {
    Buy,
    Sell,
}

impl Side {
    /// The opposing side, the one a taker on `self` is matched against.
    pub open spec fn spec_opposite(self) -> Side {
        match self {
            Side::Buy => Side::Sell,
            Side::Sell => Side::Buy,
        }
    }

    /// Returns the opposing side.
    pub fn opposite(self) -> (r: Side)
        ensures
            r == self.spec_opposite(),
    {
        match self {
            Side::Buy => Side::Sell,
            Side::Sell => Side::Buy,
        }
    }
}

/// Whether an order takes the best available price or carries a price bound.
#[derive(Debug, Clone, Copy, PartialEq, Eq, Structural)]
pub enum OrderType {
    MARKET,
    LIMIT,
}

/// A single order: the unit the book stores and the engine matches.
///
/// `id` is assigned by the submitting side, globally unique and ascending,
/// which gives time priority within a price level. `prev_id` is meaningful
/// only on the record carried by an update intent, where it names the record
/// being replaced. `filled` is mutated only by the engine and never exceeds
/// `qty`; a record rests in the book only while `filled < qty`.
#[derive(Debug, Clone, Copy, PartialEq, Eq, Structural)]
pub struct OrderData {
    pub id: u64,
    pub prev_id: u64,
    pub price_level: PriceLevel,
    pub qty: u64,
    pub order_type: OrderType,
    pub filled: u64,
}

impl OrderData {
    /// A record is well formed when its price is and its fill never ran
    /// ahead of its size.
    pub open spec fn wf(self) -> bool {
        self.price_level.wf() && self.filled <= self.qty
    }

    /// The quantity still open: size minus what has been filled.
    pub open spec fn remaining(self) -> int {
        self.qty - self.filled
    }

    /// Whether the record is completely traded.
    pub open spec fn is_filled(self) -> bool {
        self.filled == self.qty
    }
}

/// One intent submitted to the engine. The side is part of the tag, so the
/// book never stores a record whose side is ambiguous.
#[derive(Debug, Clone, Copy, PartialEq, Eq, Structural)]
pub enum Order {
    /// A new buy order.
    Buy(OrderData),
    /// A new sell order.
    Sell(OrderData),
    /// Remove the resting record with id `prev_id` from `side`.
    Cancel { side: Side, prev_id: u64 },
    /// Replace the resting record with id `order.prev_id` on `side` by
    /// `order`, which carries a freshly assigned id: an update deliberately
    /// resets time priority.
    Update { side: Side, order: OrderData },
}

} // verus!
