//! Records of executed trades.

use vstd::prelude::*;

verus! {

/// A log of a resolved trade between a buyer and a seller.
#[derive(Clone, Copy, Debug, PartialEq, Eq, Structural)]
pub struct Trade {
    /// The id of the buyer.
    pub buyer_id: usize,
    /// The id of the seller.
    pub seller_id: usize,
    /// The price per unit, in hundredths.
    pub price: usize,
    /// The quantity that changed hands.
    pub quantity: usize,
}

impl Trade {
    /// Creates the record of a trade.
    pub fn new(buyer_id: usize, seller_id: usize, price: usize, quantity: usize) -> (trade: Trade)
        ensures
            trade == (Trade { buyer_id, seller_id, price, quantity }),
    {
        Trade { buyer_id, seller_id, price, quantity }
    }
}

} // verus!
