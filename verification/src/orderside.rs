//! The two-valued side tag of an order: `Bid` (buy) or `Ask` (sell).

use vstd::prelude::*;

verus! {

/// Which side of the book an order belongs to.
#[derive(Copy, Clone, Debug, PartialEq, Eq, Structural)]
pub enum OrderSide {
    /// A buy order.
    Bid,
    /// A sell order.
    Ask,
}

impl OrderSide {
    /// The opposite side: `Bid` and `Ask` exchange places.
    pub fn not(self) -> (r: OrderSide)
        ensures
            r == self.negate(),
    {
        match self {
            OrderSide::Bid => OrderSide::Ask,
            OrderSide::Ask => OrderSide::Bid,
        }
    }

    /// What `not` returns.
    pub open spec fn negate(self) -> OrderSide {
        match self {
            OrderSide::Bid => OrderSide::Ask,
            OrderSide::Ask => OrderSide::Bid,
        }
    }

    /// One-character rendering: `B` for a bid, `S` for an ask.
    pub fn render(self) -> (r: char)
        ensures
            r == self.render_spec(),
    {
        match self {
            OrderSide::Bid => 'B',
            OrderSide::Ask => 'S',
        }
    }

    /// What `render` returns.
    pub open spec fn render_spec(self) -> char {
        match self {
            OrderSide::Bid => 'B',
            OrderSide::Ask => 'S',
        }
    }
}

} // verus!
