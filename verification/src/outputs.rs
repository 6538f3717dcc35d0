use vstd::prelude::*;

verus! {

/// Reply to a successful order submission: the id the engine assigned,
/// as a decimal string.
#[derive(Debug, Clone)]
pub struct CreateOrderResponse {
    pub order_id: String,
}

/// Reply to a cancel submission.
#[derive(Clone, Copy, Debug, PartialEq, Eq, Structural)]
pub struct DeleteOrderResponse {
    pub filled_qty: u32,
    pub average_price: u32,
}

/// A value copy of the top of the book: `[price, total_qty]` rows per side,
/// best price first, stamped with the publication generation counter.
#[derive(Debug, Clone)]
pub struct Depth {
    pub bids: Vec<[u32; 2]>,
    pub asks: Vec<[u32; 2]>,
    pub last_update_id: String,
}

} // verus!
