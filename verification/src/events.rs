use vstd::prelude::*;

use crate::inputs::Side;

verus! {

/// The only form the matcher consumes: a new limit order or a cancel,
/// exactly as pushed onto the ingress queue by the producer.
#[derive(Clone, Copy, Debug, PartialEq, Eq, Structural)]
pub enum OrderEvent {
    NewOrder { order_id: u32, user_id: u32, price: u32, quantity: u32, side: Side },
    DeleteOrder { order_id: u32 },
}

/// A fact produced by the matcher for live subscribers: an executed trade,
/// or an aggregated depth update.
#[derive(Clone, Debug)]
pub enum MatchEvent {
    Trade {
        trade_id: [u8; 16],
        price: u32,
        quantity: u32,
        maker_order_id: u32,
        taker_order_id: u32,
        timestamp: i64,
    },
    DepthUpdate { bids: Vec<[u32; 2]>, asks: Vec<[u32; 2]> },
}

} // verus!
