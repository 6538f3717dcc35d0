use vstd::prelude::*;

verus! {

/// Which half of the book an order belongs to.
#[derive(Clone, Copy, Debug, PartialEq, Eq, Structural)]
pub enum Side {
    Buy,
    Sell,
}

/// A new-order request as it arrives at the ingress boundary, before an
/// order id has been assigned.
#[derive(Clone, Copy, Debug, PartialEq, Eq, Structural)]
pub struct CreateOrderInput {
    pub price: u32,
    pub quantity: u32,
    pub user_id: u32,
    pub side: Side,
}

/// A cancel request as it arrives at the ingress boundary. The order id is
/// carried as a decimal string by the transport.
#[derive(Debug, Clone)]
pub struct DeleteOrder {
    pub order_id: String,
}

} // verus!
